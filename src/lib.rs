//! Ring-learning-with-errors key exchange over negacyclic polynomial rings.
use vstd::prelude::*;

/// Negacyclic polynomial rings and the number-theoretic transform.
pub mod ring;

/// The ChaCha20 block function.
pub mod chacha;

/// The key exchange protocol over a negacyclic ring.
pub mod rlwe;

/// The wire form of keypairs.
pub mod codec;

/// Algebraic facts about the transforms.
pub mod ntt_proofs;

/// The ChaCha20-based random word stream.
pub mod rand;

use crate::codec::{decode_first, decode_second, encode_pair, encode_words, read_word, word_at};
use crate::ring::{NegacyclicRing, RlweError, reduced};
use crate::rlwe::{PrivateKeypair, PublicKeypair, RLWE};
use vstd::arithmetic::power2::*;

verus! {

/// The parameters of the key exchange.
#[derive(Debug, Clone, Copy, PartialEq, Eq, Structural)]
pub enum Security {
    /// n = 2^9, q = 25601.
    Medium,
    /// n = 2^10, q = 40961.
    High,
    /// The exponent of n and the modulus q; the caller asserts that q is a prime with a
    /// primitive 2n-th root of unity.
    Custom(u32, i32),
}

impl Security {
    pub open spec fn ring_spec(self) -> NegacyclicRing {
        match self {
            Security::Medium => NegacyclicRing { modulus: 25601, exponent: 9 },
            Security::High => NegacyclicRing { modulus: 40961, exponent: 10 },
            Security::Custom(pow2, modulus) => NegacyclicRing { modulus, exponent: pow2 },
        }
    }

    /// The ring of the preset.
    pub fn ring(&self) -> (r: NegacyclicRing)
        ensures
            r == self.ring_spec(),
    {
        match self {
            Security::Medium => NegacyclicRing::new(9, 25601),
            Security::High => NegacyclicRing::new(10, 40961),
            Security::Custom(pow2, modulus) => NegacyclicRing::new(*pow2, *modulus),
        }
    }
}

/// The 8-byte prefix of a wire message: the modulus, then the exponent of n.
pub open spec fn header(ring: NegacyclicRing) -> Seq<u8> {
    encode_words(seq![ring.modulus, ring.exponent as i32])
}

/// Bit `k` of a bit vector, 0 past its end.
pub open spec fn bit_at(bits: Seq<i32>, k: int) -> int {
    if 0 <= k < bits.len() {
        bits[k] as int
    } else {
        0
    }
}

/// The value of the low `j` bits of byte `i`: bit 8i + t of the vector is bit t of the byte.
pub open spec fn byte_bits(bits: Seq<i32>, i: int, j: nat) -> int
    decreases j,
{
    if j == 0 {
        0
    } else {
        byte_bits(bits, i, (j - 1) as nat) + bit_at(bits, 8 * i + j - 1) * pow2((j - 1) as nat)
    }
}

/// The bit vector packed eight bits to a byte, least significant bit first.
pub open spec fn pack_spec(bits: Seq<i32>) -> Seq<u8> {
    Seq::new(((bits.len() + 7) / 8) as nat, |i: int| byte_bits(bits, i, 8) as u8)
}

pub open spec fn is_bits(bits: Seq<i32>) -> bool {
    forall|i: int| 0 <= i < bits.len() ==> #[trigger] bits[i] == 0 || bits[i] == 1
}

/// The ring a wire message announces in its prefix.
pub open spec fn wire_ring_spec(b: Seq<u8>) -> NegacyclicRing {
    NegacyclicRing { modulus: word_at(b, 0), exponent: word_at(b, 4) as u32 }
}

/// A message whose prefix names a ring in range.
pub open spec fn wire_ring_ok(b: Seq<u8>) -> bool {
    b.len() >= 8 && 1 <= word_at(b, 4) <= crate::ring::MAX_EXPONENT && wire_ring_spec(b).wf()
}

/// The keypair part of a wire message.
pub open spec fn body(b: Seq<u8>) -> Seq<u8> {
    b.subrange(8, b.len() as int)
}

/// A keypair wire form with two reduced polynomials of n coefficients each.
pub open spec fn keypair_ok(ring: NegacyclicRing, b: Seq<u8>) -> bool {
    &&& b.len() == 8 * ring.n()
    &&& reduced(decode_first(b), ring.q())
    &&& reduced(decode_second(b), ring.q())
}

/// A wire message: a ring in range, then a keypair of that ring.
pub open spec fn message_ok(b: Seq<u8>) -> bool {
    wire_ring_ok(b) && keypair_ok(wire_ring_spec(b), body(b))
}

proof fn lemma_byte_bits_bound(bits: Seq<i32>, i: int, j: nat)
    requires
        is_bits(bits),
    ensures
        0 <= byte_bits(bits, i, j) < pow2(j),
    decreases j,
{
    lemma_pow2_pos(j);
    if j > 0 {
        lemma_byte_bits_bound(bits, i, (j - 1) as nat);
        lemma_pow2_unfold(j);
        let b = bit_at(bits, 8 * i + j - 1);
        let c = pow2((j - 1) as nat);
        assert(0 <= b <= 1);
        assert(0 <= b * c <= c) by (nonlinear_arith)
            requires
                0 <= b <= 1,
                c > 0,
        ;
    }
}

/// Packs a 0/1 vector into bytes, eight bits to a byte, least significant bit first.
pub fn pack_bits(bits: &Vec<i32>) -> (r: Vec<u8>)
    requires
        is_bits(bits@),
    ensures
        r@ == pack_spec(bits@),
{
    let nbytes = bits.len() / 8 + if bits.len() % 8 == 0 {
        0
    } else {
        1
    };
    let mut out: Vec<u8> = Vec::new();
    let mut i: usize = 0;
    proof {
        lemma2_to64();
    }
    while i < nbytes
        invariant
            nbytes == (bits.len() + 7) / 8,
            is_bits(bits@),
            i <= nbytes,
            out@ == pack_spec(bits@).subrange(0, i as int),
            pow2(8) == 256,
        decreases nbytes - i,
    {
        let mut val: u32 = 0;
        let mut pw: u32 = 1;
        let mut j: usize = 0;
        proof {
            lemma2_to64();
        }
        while j < 8
            invariant
                i < nbytes,
                nbytes == (bits.len() + 7) / 8,
                is_bits(bits@),
                j <= 8,
                pw == pow2(j as nat),
                val == byte_bits(bits@, i as int, j as nat),
                pow2(8) == 256,
            decreases 8 - j,
        {
            proof {
                lemma_byte_bits_bound(bits@, i as int, j as nat);
                lemma_pow2_unfold((j + 1) as nat);
                if j < 8 {
                    lemma_pow2_strictly_increases(j as nat, 8);
                }
            }
            let k = 8 * i + j;
            let ghost b = bit_at(bits@, k as int);
            assert(0 <= b <= 1);
            if k < bits.len() {
                if bits[k] == 1 {
                    val = val + pw;
                }
            }
            assert(b * pw == if b == 1 { pw as int } else { 0 }) by (nonlinear_arith)
                requires
                    0 <= b <= 1,
            ;
            pw = pw * 2;
            j = j + 1;
        }
        proof {
            lemma_byte_bits_bound(bits@, i as int, 8);
        }
        out.push(val as u8);
        i = i + 1;
        assert(out@ =~= pack_spec(bits@).subrange(0, i as int));
    }
    assert(out@ =~= pack_spec(bits@));
    out
}

/// The ring a wire message announces; an error where the message is shorter than its
/// prefix or the ring is out of range.
pub fn wire_ring(bytes: &Vec<u8>) -> (r: Result<NegacyclicRing, RlweError>)
    ensures
        r.is_ok() == wire_ring_ok(bytes@),
        r matches Ok(ring) ==> ring == wire_ring_spec(bytes@),
        r matches Err(e) ==> e == RlweError::MalformedWire,
{
    if bytes.len() < 8 {
        return Err(RlweError::MalformedWire);
    }
    let modulus = read_word(bytes, 0);
    let exponent = read_word(bytes, 4);
    if exponent < 1 || exponent > crate::ring::MAX_EXPONENT as i32 || modulus < 2 || modulus
        > crate::ring::MAX_MODULUS {
        return Err(RlweError::MalformedWire);
    }
    Ok(NegacyclicRing::new(exponent as u32, modulus))
}

fn header_bytes(ring: NegacyclicRing) -> (r: Vec<u8>)
    requires
        ring.wf(),
    ensures
        r@ == header(ring),
{
    let p = PublicKeypair { a: vec![ring.modulus], p: vec![ring.exponent as i32] };
    let r = p.to_bytes();
    assert(seq![ring.modulus] + seq![ring.exponent as i32] =~= seq![ring.modulus, ring.exponent as i32]);
    assert(encode_words(seq![ring.modulus]) + encode_words(seq![ring.exponent as i32]) =~= header(ring));
    r
}

fn copy_body(bytes: &Vec<u8>) -> (r: Vec<u8>)
    requires
        bytes.len() >= 8,
    ensures
        r@ == body(bytes@),
{
    let mut r: Vec<u8> = Vec::new();
    let mut i: usize = 8;
    while i < bytes.len()
        invariant
            8 <= i <= bytes.len(),
            r@ == bytes@.subrange(8, i as int),
        decreases bytes.len() - i,
    {
        r.push(bytes[i]);
        i = i + 1;
        assert(r@ =~= bytes@.subrange(8, i as int));
    }
    r
}

fn check_reduced(v: &Vec<i32>, q: i32) -> (r: bool)
    ensures
        r == reduced(v@, q as int),
{
    let mut i: usize = 0;
    while i < v.len()
        invariant
            i <= v.len(),
            reduced(v@.subrange(0, i as int), q as int),
        decreases v.len() - i,
    {
        if v[i] < 0 || v[i] >= q {
            assert(!reduced(v@, q as int));
            return false;
        }
        i = i + 1;
        assert(reduced(v@.subrange(0, i as int), q as int));
    }
    assert(v@.subrange(0, v.len() as int) =~= v@);
    true
}

/// A new request: the private keypair's wire form, and the request message (prefix, then
/// the public keypair). `words` supplies the random words; 3n of them are used.
pub fn request(level: Security, words: &Vec<i32>) -> (r: Result<(Vec<u8>, Vec<u8>), RlweError>)
    ensures
        ({
            let ring = level.ring_spec();
            &&& r.is_ok() == (ring.wf() && words.len() >= 3 * ring.n() && ring.invertible())
            &&& r matches Ok((private, request)) ==> {
                let a = ring.uniform_ntt(words@, 0);
                let s = ring.error_ntt(words@, 1);
                let e = ring.error_ntt(words@, 2);
                &&& private@ == encode_pair(a, s)
                &&& request@ == header(ring) + encode_pair(a, crate::rlwe::mul_add(a, s, e, ring.q()))
            }
            &&& r matches Err(e) ==> {
                ||| e == RlweError::ShortRandomness && ring.wf() && words.len() < 3 * ring.n()
                ||| e == RlweError::InvalidRing && !ring.wf()
                ||| e == RlweError::InvalidRing && words.len() >= 3 * ring.n() && !ring.invertible()
            }
        }),
{
    let ring = level.ring();
    if ring.exponent < 1 || ring.exponent > crate::ring::MAX_EXPONENT || ring.modulus < 2
        || ring.modulus > crate::ring::MAX_MODULUS {
        return Err(RlweError::InvalidRing);
    }
    proof {
        crate::ring::lemma_n_bounds(ring);
    }
    let n = ring.size() as usize;
    if words.len() < 3 * n {
        return Err(RlweError::ShortRandomness);
    }
    let (private1, public1) = RLWE::generate(ring, words)?;
    let mut public = header_bytes(ring);
    let mut rest = public1.to_bytes();
    public.append(&mut rest);
    Ok((private1.to_bytes(), public))
}

/// The response to a request message: the shared key (packed bits) and the response
/// message (prefix, then the keypair (w, p_r)). `words` supplies the random words; 3n of
/// them are used.
pub fn respond(request: Vec<u8>, words: &Vec<i32>) -> (r: Result<(Vec<u8>, Vec<u8>), RlweError>)
    ensures
        r.is_ok() == (message_ok(request@) && words.len() >= 3 * wire_ring_spec(request@).n()
            && wire_ring_spec(request@).invertible()),
        r matches Ok((key, response)) ==> {
            let ring = wire_ring_spec(request@);
            let a = decode_first(body(request@));
            let p = decode_second(body(request@));
            &&& key@ == pack_spec(ring.response_shared(p, words@))
            &&& response@ == header(ring) + encode_pair(
                ring.response_signal(p, words@),
                ring.response_public(a, words@),
            )
        },
        r matches Err(e) ==> {
            ||| e == RlweError::MalformedWire && !message_ok(request@)
            ||| e == RlweError::ShortRandomness && message_ok(request@) && words.len() < 3
                * wire_ring_spec(request@).n()
            ||| e == RlweError::InvalidRing && message_ok(request@) && words.len() >= 3
                * wire_ring_spec(request@).n() && !wire_ring_spec(request@).invertible()
        },
{
    let ring = wire_ring(&request)?;
    proof {
        crate::ring::lemma_n_bounds(ring);
    }
    let n = ring.size() as usize;
    let splice = copy_body(&request);
    if splice.len() != 8 * n {
        return Err(RlweError::MalformedWire);
    }
    let public = PublicKeypair::from_bytes(splice)?;
    if !check_reduced(&public.a, ring.modulus) || !check_reduced(&public.p, ring.modulus) {
        return Err(RlweError::MalformedWire);
    }
    if words.len() < 3 * n {
        return Err(RlweError::ShortRandomness);
    }
    let (key1, response) = RLWE::respond(ring, public, words)?;
    let key = pack_bits(&key1);
    let mut out = header_bytes(ring);
    let mut rest = response.to_bytes();
    out.append(&mut rest);
    Ok((key, out))
}

/// The request side's shared key (packed bits) from its private keypair's wire form and
/// the response message. `words` supplies the random words; n of them are used.
pub fn finalise(private: Vec<u8>, response: Vec<u8>, words: &Vec<i32>) -> (r: Result<
    Vec<u8>,
    RlweError,
>)
    ensures
        ({
            let ring = wire_ring_spec(response@);
            let ok = message_ok(response@) && keypair_ok(ring, private@);
            &&& r.is_ok() == (ok && words.len() >= ring.n() && ring.invertible())
            &&& r matches Ok(key) ==> key@ == pack_spec(
                ring.parse_shared(
                    decode_second(private@),
                    decode_first(body(response@)),
                    decode_second(body(response@)),
                    words@,
                ),
            )
            &&& r matches Err(e) ==> {
                ||| e == RlweError::MalformedWire && !ok
                ||| e == RlweError::ShortRandomness && ok && words.len() < ring.n()
                ||| e == RlweError::InvalidRing && ok && words.len() >= ring.n()
                    && !ring.invertible()
            }
        }),
{
    let ring = wire_ring(&response)?;
    proof {
        crate::ring::lemma_n_bounds(ring);
    }
    let n = ring.size() as usize;
    let splice = copy_body(&response);
    if splice.len() != 8 * n || private.len() != 8 * n {
        return Err(RlweError::MalformedWire);
    }
    let public = PublicKeypair::from_bytes(splice)?;
    let keys = PrivateKeypair::from_bytes(private)?;
    if !check_reduced(&public.a, ring.modulus) || !check_reduced(&public.p, ring.modulus)
        || !check_reduced(&keys.a, ring.modulus) || !check_reduced(&keys.s, ring.modulus) {
        return Err(RlweError::MalformedWire);
    }
    if words.len() < n {
        return Err(RlweError::ShortRandomness);
    }
    let key1 = RLWE::parse(ring, keys, public, words)?;
    Ok(pack_bits(&key1))
}

} // verus!
