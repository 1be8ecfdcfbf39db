use crate::ring::RlweError;
use crate::rlwe::{PrivateKeypair, PublicKeypair};
use vstd::arithmetic::div_mod::*;
use vstd::prelude::*;

verus! {

/// The two's-complement bit pattern of `x` as an unsigned number.
pub open spec fn unsigned(x: i32) -> int {
    if x < 0 {
        x + 0x1_0000_0000
    } else {
        x as int
    }
}

/// Byte `j` (0 = least significant) of the little-endian encoding of `x`.
pub open spec fn le_byte(x: i32, j: int) -> u8 {
    (if j == 0 {
        unsigned(x) % 256
    } else if j == 1 {
        (unsigned(x) / 256) % 256
    } else if j == 2 {
        (unsigned(x) / 65536) % 256
    } else {
        unsigned(x) / 16777216
    }) as u8
}

/// Little-endian encoding of each word, one after the other.
pub open spec fn encode_words(s: Seq<i32>) -> Seq<u8> {
    Seq::new((4 * s.len()) as nat, |k: int| le_byte(s[k / 4], k % 4))
}

/// The word whose little-endian encoding is b[off..off + 4].
pub open spec fn word_at(b: Seq<u8>, off: int) -> i32 {
    let u = b[off] + 256 * b[off + 1] + 65536 * b[off + 2] + 16777216 * b[off + 3];
    (if u >= 0x8000_0000 {
        u - 0x1_0000_0000
    } else {
        u
    }) as i32
}

/// The words of `b`, four bytes each; trailing bytes are ignored.
pub open spec fn decode_words(b: Seq<u8>) -> Seq<i32> {
    Seq::new(b.len() / 4, |i: int| word_at(b, 4 * i))
}

/// The wire form of a keypair: the first polynomial, then the second.
pub open spec fn encode_pair(x: Seq<i32>, y: Seq<i32>) -> Seq<u8> {
    encode_words(x) + encode_words(y)
}

/// The first half of a keypair's wire form, decoded.
pub open spec fn decode_first(b: Seq<u8>) -> Seq<i32> {
    decode_words(b.subrange(0, b.len() as int / 2))
}

/// The second half of a keypair's wire form, decoded.
pub open spec fn decode_second(b: Seq<u8>) -> Seq<i32> {
    decode_words(b.subrange(b.len() as int / 2, b.len() as int))
}

proof fn lemma_bytes_of(u: int)
    requires
        0 <= u < 0x1_0000_0000,
    ensures
        u % 256 + 256 * ((u / 256) % 256) + 65536 * ((u / 65536) % 256) + 16777216 * (u
            / 16777216) == u,
        0 <= u / 16777216 < 256,
{
    let u1 = u / 256;
    let u2 = u1 / 256;
    let u3 = u2 / 256;
    lemma_fundamental_div_mod(u, 256);
    lemma_fundamental_div_mod(u1, 256);
    lemma_fundamental_div_mod(u2, 256);
    lemma_div_denominator(u, 256, 256);
    lemma_div_denominator(u, 65536, 256);
    assert(u2 == u / 65536);
    assert(u3 == u / 16777216);
}

proof fn lemma_word_round_trip(x: i32)
    ensures
        word_at(seq![le_byte(x, 0), le_byte(x, 1), le_byte(x, 2), le_byte(x, 3)], 0) == x,
{
    lemma_bytes_of(unsigned(x));
}

proof fn lemma_decode_encode(s: Seq<i32>)
    ensures
        decode_words(encode_words(s)) == s,
{
    let e = encode_words(s);
    assert forall|i: int| 0 <= i < s.len() implies #[trigger] word_at(e, 4 * i) == s[i] by {
        let x = s[i];
        assert forall|j: int| 0 <= j < 4 implies #[trigger] e[4 * i + j] == le_byte(x, j) by {
            lemma_fundamental_div_mod_converse(4 * i + j, 4, i, j);
        }
        lemma_word_round_trip(x);
        assert(e[4 * i] == le_byte(x, 0));
        assert(e[4 * i + 1] == le_byte(x, 1));
        assert(e[4 * i + 2] == le_byte(x, 2));
        assert(e[4 * i + 3] == le_byte(x, 3));
    }
    assert(decode_words(e) =~= s);
}

/// Decoding the wire form of a keypair whose two polynomials have one length gives the
/// two polynomials back, and that wire form has a length divisible by 8.
pub proof fn lemma_keypair_bytes_round_trip(x: Seq<i32>, y: Seq<i32>)
    requires
        x.len() == y.len(),
    ensures
        encode_pair(x, y).len() % 8 == 0,
        decode_first(encode_pair(x, y)) == x,
        decode_second(encode_pair(x, y)) == y,
{
    let b = encode_pair(x, y);
    assert(b.len() as int / 2 == 4 * x.len());
    assert(b.subrange(0, b.len() as int / 2) =~= encode_words(x));
    assert(b.subrange(b.len() as int / 2, b.len() as int) =~= encode_words(y));
    lemma_decode_encode(x);
    lemma_decode_encode(y);
}

proof fn lemma_encode_push(s: Seq<i32>, x: i32)
    ensures
        encode_words(s.push(x)) == encode_words(s) + seq![
            le_byte(x, 0),
            le_byte(x, 1),
            le_byte(x, 2),
            le_byte(x, 3),
        ],
{
    let l = encode_words(s.push(x));
    let r = encode_words(s) + seq![le_byte(x, 0), le_byte(x, 1), le_byte(x, 2), le_byte(x, 3)];
    assert forall|k: int| 0 <= k < l.len() implies #[trigger] l[k] == r[k] by {
        if k < 4 * s.len() {
            lemma_fundamental_div_mod(k, 4);
            assert(k / 4 < s.len());
        } else {
            lemma_fundamental_div_mod_converse(k, 4, s.len() as int, k - 4 * s.len());
        }
    }
    assert(l =~= r);
}

/// Appends the little-endian encoding of `x`.
fn push_word(bytes: &mut Vec<u8>, x: i32)
    ensures
        final(bytes)@ == old(bytes)@ + seq![
            le_byte(x, 0),
            le_byte(x, 1),
            le_byte(x, 2),
            le_byte(x, 3),
        ],
{
    let u: u32 = if x >= 0 {
        x as u32
    } else {
        (x as i64 + 0x1_0000_0000) as u32
    };
    proof {
        lemma_bytes_of(u as int);
    }
    bytes.push((u % 256) as u8);
    bytes.push(((u / 256) % 256) as u8);
    bytes.push(((u / 65536) % 256) as u8);
    bytes.push((u / 16777216) as u8);
    assert(final(bytes)@ =~= old(bytes)@ + seq![le_byte(x, 0), le_byte(x, 1), le_byte(x, 2), le_byte(x, 3)]);
}

/// Appends the encoding of each word of `v`.
fn push_words(bytes: &mut Vec<u8>, v: &Vec<i32>)
    ensures
        final(bytes)@ == old(bytes)@ + encode_words(v@),
{
    let ghost start = bytes@;
    let mut i: usize = 0;
    while i < v.len()
        invariant
            i <= v.len(),
            bytes@ == start + encode_words(v@.subrange(0, i as int)),
        decreases v.len() - i,
    {
        proof {
            lemma_encode_push(v@.subrange(0, i as int), v[i as int]);
            assert(v@.subrange(0, i as int).push(v[i as int]) =~= v@.subrange(0, i + 1));
        }
        push_word(bytes, v[i]);
        i = i + 1;
        assert(bytes@ =~= start + encode_words(v@.subrange(0, i as int)));
    }
    assert(v@.subrange(0, v.len() as int) =~= v@);
}

/// The word encoded little-endian at b[off..off + 4].
pub fn read_word(b: &Vec<u8>, off: usize) -> (r: i32)
    requires
        off + 4 <= b.len(),
    ensures
        r == word_at(b@, off as int),
{
    let u: u32 = b[off] as u32 + 256 * (b[off + 1] as u32) + 65536 * (b[off + 2] as u32)
        + 16777216 * (b[off + 3] as u32);
    if u >= 0x8000_0000 {
        (u as i64 - 0x1_0000_0000) as i32
    } else {
        u as i32
    }
}

/// The two polynomials of a keypair's wire form; an error where the length is not a
/// multiple of 8.
fn decode_pair(bytes: &Vec<u8>) -> (r: Result<(Vec<i32>, Vec<i32>), RlweError>)
    ensures
        r.is_ok() == (bytes.len() % 8 == 0),
        r matches Ok((x, y)) ==> x@ == decode_first(bytes@) && y@ == decode_second(bytes@),
        r matches Err(e) ==> e == RlweError::MalformedWire,
{
    if bytes.len() % 8 != 0 {
        return Err(RlweError::MalformedWire);
    }
    let size = bytes.len() / 8;
    let mut x: Vec<i32> = Vec::new();
    let mut y: Vec<i32> = Vec::new();
    let mut i: usize = 0;
    let ghost first = bytes@.subrange(0, bytes.len() as int / 2);
    let ghost second = bytes@.subrange(bytes.len() as int / 2, bytes.len() as int);
    while i < size
        invariant
            size == bytes.len() / 8,
            bytes.len() % 8 == 0,
            first == bytes@.subrange(0, bytes.len() as int / 2),
            second == bytes@.subrange(bytes.len() as int / 2, bytes.len() as int),
            i <= size,
            x@ == decode_words(first).subrange(0, i as int),
            y@ == decode_words(second).subrange(0, i as int),
        decreases size - i,
    {
        let a = read_word(bytes, 4 * i);
        let b = read_word(bytes, 4 * size + 4 * i);
        assert(word_at(first, 4 * i) == a);
        assert(word_at(second, 4 * i) == b);
        x.push(a);
        y.push(b);
        i = i + 1;
        assert(x@ =~= decode_words(first).subrange(0, i as int));
        assert(y@ =~= decode_words(second).subrange(0, i as int));
    }
    assert(x@ =~= decode_words(first));
    assert(y@ =~= decode_words(second));
    Ok((x, y))
}

impl PublicKeypair {
    /// The keypair from its wire form: a's words, then p's words, little-endian.
    pub fn from_bytes(bytes: Vec<u8>) -> (r: Result<Self, RlweError>)
        ensures
            r.is_ok() == (bytes.len() % 8 == 0),
            r matches Ok(kp) ==> kp.a@ == decode_first(bytes@) && kp.p@ == decode_second(bytes@),
            r matches Err(e) ==> e == RlweError::MalformedWire,
    {
        let (a, p) = decode_pair(&bytes)?;
        Ok(PublicKeypair { a, p })
    }

    /// The keypair's wire form.
    pub fn to_bytes(self) -> (r: Vec<u8>)
        ensures
            r@ == encode_pair(self.a@, self.p@),
    {
        let mut bytes: Vec<u8> = Vec::new();
        push_words(&mut bytes, &self.a);
        push_words(&mut bytes, &self.p);
        bytes
    }
}

impl PrivateKeypair {
    /// The keypair from its wire form: a's words, then s's words, little-endian.
    pub fn from_bytes(bytes: Vec<u8>) -> (r: Result<Self, RlweError>)
        ensures
            r.is_ok() == (bytes.len() % 8 == 0),
            r matches Ok(kp) ==> kp.a@ == decode_first(bytes@) && kp.s@ == decode_second(bytes@),
            r matches Err(e) ==> e == RlweError::MalformedWire,
    {
        let (a, s) = decode_pair(&bytes)?;
        Ok(PrivateKeypair { a, s })
    }

    /// The keypair's wire form.
    pub fn to_bytes(self) -> (r: Vec<u8>)
        ensures
            r@ == encode_pair(self.a@, self.s@),
    {
        let mut bytes: Vec<u8> = Vec::new();
        push_words(&mut bytes, &self.a);
        push_words(&mut bytes, &self.s);
        bytes
    }
}

} // verus!
