use vstd::prelude::*;

verus! {

/// `x` rotated left by `n` bits.
pub open spec fn rotl(x: u32, n: u32) -> u32 {
    (x << n) | (x >> (32 - n) as u32)
}

/// The ChaCha20 quarter round on words `a`, `b`, `c`, `d` of a state.
pub open spec fn quarter_round_spec(s: Seq<u32>, a: int, b: int, c: int, d: int) -> Seq<u32> {
    let s = s.update(a, s[a].wrapping_add(s[b]));
    let s = s.update(d, rotl(s[d] ^ s[a], 16));
    let s = s.update(c, s[c].wrapping_add(s[d]));
    let s = s.update(b, rotl(s[b] ^ s[c], 12));
    let s = s.update(a, s[a].wrapping_add(s[b]));
    let s = s.update(d, rotl(s[d] ^ s[a], 8));
    let s = s.update(c, s[c].wrapping_add(s[d]));
    let s = s.update(b, rotl(s[b] ^ s[c], 7));
    s
}

/// Four column quarter rounds, then four diagonal quarter rounds.
pub open spec fn double_round_spec(s: Seq<u32>) -> Seq<u32> {
    let s = quarter_round_spec(s, 0, 4, 8, 12);
    let s = quarter_round_spec(s, 1, 5, 9, 13);
    let s = quarter_round_spec(s, 2, 6, 10, 14);
    let s = quarter_round_spec(s, 3, 7, 11, 15);
    let s = quarter_round_spec(s, 0, 5, 10, 15);
    let s = quarter_round_spec(s, 1, 6, 11, 12);
    let s = quarter_round_spec(s, 2, 7, 8, 13);
    let s = quarter_round_spec(s, 3, 4, 9, 14);
    s
}

/// `k` double rounds applied to a state.
pub open spec fn rounds_spec(s: Seq<u32>, k: nat) -> Seq<u32>
    decreases k,
{
    if k == 0 {
        s
    } else {
        double_round_spec(rounds_spec(s, (k - 1) as nat))
    }
}

/// The ChaCha20 state: constants, key, block counter and nonce.
#[derive(Debug, Clone, Copy, PartialEq, Eq)]
pub struct ChaCha20 {
    pub state: [u32; 16],
}

impl ChaCha20 {
    /// The state for a key, a block counter and a nonce.
    pub fn new(key: [u32; 8], block: u32, nonce: [u32; 3]) -> (r: Self)
        ensures
            r.state@ == seq![
                0x61707865u32, 0x3320646eu32, 0x79622d32u32, 0x6b206574u32,
                key[0], key[1], key[2], key[3], key[4], key[5], key[6], key[7],
                block, nonce[0], nonce[1], nonce[2],
            ],
    {
        let r = ChaCha20 {
            state: [
                0x61707865,
                0x3320646e,
                0x79622d32,
                0x6b206574,
                key[0],
                key[1],
                key[2],
                key[3],
                key[4],
                key[5],
                key[6],
                key[7],
                block,
                nonce[0],
                nonce[1],
                nonce[2],
            ],
        };
        assert(r.state@ =~= seq![
            0x61707865u32, 0x3320646eu32, 0x79622d32u32, 0x6b206574u32,
            key[0], key[1], key[2], key[3], key[4], key[5], key[6], key[7],
            block, nonce[0], nonce[1], nonce[2],
        ]);
        r
    }

    /// The quarter round on words `a`, `b`, `c`, `d` of the state.
    pub fn quarter_round(self, a: usize, b: usize, c: usize, d: usize) -> (r: Self)
        requires
            a < 16,
            b < 16,
            c < 16,
            d < 16,
        ensures
            r.state@ == quarter_round_spec(self.state@, a as int, b as int, c as int, d as int),
    {
        let mut s = self.state;
        s[a] = s[a].wrapping_add(s[b]);
        let x = s[d] ^ s[a];
        s[d] = (x << 16u32) | (x >> 16u32);
        s[c] = s[c].wrapping_add(s[d]);
        let x = s[b] ^ s[c];
        s[b] = (x << 12u32) | (x >> 20u32);
        s[a] = s[a].wrapping_add(s[b]);
        let x = s[d] ^ s[a];
        s[d] = (x << 8u32) | (x >> 24u32);
        s[c] = s[c].wrapping_add(s[d]);
        let x = s[b] ^ s[c];
        s[b] = (x << 7u32) | (x >> 25u32);
        let r = ChaCha20 { state: s };
        assert(r.state@ =~= quarter_round_spec(self.state@, a as int, b as int, c as int, d as int));
        r
    }

    /// The 20 rounds (ten double rounds) of the ChaCha20 block function.
    pub fn block(self) -> (r: Self)
        ensures
            r.state@ == rounds_spec(self.state@, 10),
    {
        let mut out = self;
        let mut i: u32 = 0;
        while i < 10
            invariant
                i <= 10,
                out.state@ == rounds_spec(self.state@, i as nat),
            decreases 10 - i,
        {
            out = out.quarter_round(0, 4, 8, 12);
            out = out.quarter_round(1, 5, 9, 13);
            out = out.quarter_round(2, 6, 10, 14);
            out = out.quarter_round(3, 7, 11, 15);
            out = out.quarter_round(0, 5, 10, 15);
            out = out.quarter_round(1, 6, 11, 12);
            out = out.quarter_round(2, 7, 8, 13);
            out = out.quarter_round(3, 4, 9, 14);
            i = i + 1;
        }
        out
    }
}

} // verus!
