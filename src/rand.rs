use crate::chacha::{ChaCha20, rounds_spec};
use vstd::prelude::*;

verus! {

/// The fixed domain tag mixed into every seed.
pub const DOMAIN_TAG: u32 = 0x1f2e3d4c;

/// Low 32 bits of `x`.
pub open spec fn low_word(x: u64) -> u32 {
    (x % 0x1_0000_0000) as u32
}

/// High 32 bits of `x`.
pub open spec fn high_word(x: u64) -> u32 {
    (x / 0x1_0000_0000) as u32
}

/// The little-endian word of four bytes.
pub open spec fn le_u32(b0: u8, b1: u8, b2: u8, b3: u8) -> u32 {
    (b0 + 256 * b1 + 65536 * b2 + 16777216 * b3) as u32
}

/// `u` reinterpreted as a signed word.
pub open spec fn as_signed(u: u32) -> i32 {
    (if u >= 0x8000_0000 {
        u - 0x1_0000_0000
    } else {
        u as int
    }) as i32
}

/// The nonce of a block: the clock's two words, then a word of fresh entropy.
pub open spec fn nonce_spec(epoch_nanos: u64, entropy: [u8; 4]) -> Seq<u32> {
    seq![
        low_word(epoch_nanos),
        high_word(epoch_nanos),
        le_u32(entropy[0], entropy[1], entropy[2], entropy[3]),
    ]
}

/// The ChaCha20 input state for a key, a block counter and a nonce.
pub open spec fn state_spec(key: Seq<u32>, block: u32, nonce: Seq<u32>) -> Seq<u32> {
    seq![0x61707865u32, 0x3320646eu32, 0x79622d32u32, 0x6b206574u32]
        + key
        + seq![block]
        + nonce
}

/// The counter after `c`, wrapping at 2^32.
pub open spec fn next_count(c: u32) -> u32 {
    if c == u32::MAX {
        0
    } else {
        (c + 1) as u32
    }
}

/// A seeded stream of random words: ChaCha20 blocks under the seed, one counter value
/// per block, with a buffer of words not handed out yet.
#[derive(Debug)]
pub struct Rand {
    pub seed: [u32; 8],
    pub count: u32,
    pub buffer: Vec<u32>,
}

fn le_word(b0: u8, b1: u8, b2: u8, b3: u8) -> (r: u32)
    ensures
        r == le_u32(b0, b1, b2, b3),
{
    b0 as u32 + 256 * (b1 as u32) + 65536 * (b2 as u32) + 16777216 * (b3 as u32)
}

impl Rand {
    /// The stream seeded from the clock (nanoseconds since the epoch), a process-unique
    /// address, the process identifier and eight bytes of OS entropy; the counter starts at 1.
    pub fn new(epoch_nanos: u64, heap: u64, pid: u32, entropy: [u8; 8]) -> (r: Rand)
        ensures
            r.seed@ == seq![
                low_word(epoch_nanos),
                high_word(epoch_nanos),
                low_word(heap),
                high_word(heap),
                pid,
                DOMAIN_TAG,
                le_u32(entropy[0], entropy[1], entropy[2], entropy[3]),
                le_u32(entropy[4], entropy[5], entropy[6], entropy[7]),
            ],
            r.count == 1,
            r.buffer@.len() == 0,
    {
        let seed: [u32; 8] = [
            (epoch_nanos % 0x1_0000_0000) as u32,
            (epoch_nanos / 0x1_0000_0000) as u32,
            (heap % 0x1_0000_0000) as u32,
            (heap / 0x1_0000_0000) as u32,
            pid,
            DOMAIN_TAG,
            le_word(entropy[0], entropy[1], entropy[2], entropy[3]),
            le_word(entropy[4], entropy[5], entropy[6], entropy[7]),
        ];
        let r = Rand { seed, count: 1, buffer: Vec::new() };
        assert(r.seed@ =~= seq![
            low_word(epoch_nanos),
            high_word(epoch_nanos),
            low_word(heap),
            high_word(heap),
            pid,
            DOMAIN_TAG,
            le_u32(entropy[0], entropy[1], entropy[2], entropy[3]),
            le_u32(entropy[4], entropy[5], entropy[6], entropy[7]),
        ]);
        r
    }

    /// One block of 16 words: ChaCha20 under the seed with the current counter and a nonce
    /// from the clock and four bytes of entropy; the counter then moves on.
    pub fn sample(&mut self, epoch_nanos: u64, entropy: [u8; 4]) -> (r: [u32; 16])
        ensures
            r@ == rounds_spec(
                state_spec(old(self).seed@, old(self).count, nonce_spec(epoch_nanos, entropy)),
                10,
            ),
            final(self).seed == old(self).seed,
            final(self).count == next_count(old(self).count),
            final(self).buffer@ == old(self).buffer@,
    {
        let nonce: [u32; 3] = [
            (epoch_nanos % 0x1_0000_0000) as u32,
            (epoch_nanos / 0x1_0000_0000) as u32,
            le_word(entropy[0], entropy[1], entropy[2], entropy[3]),
        ];
        let chacha = ChaCha20::new(self.seed, self.count, nonce);
        assert(chacha.state@ =~= state_spec(self.seed@, self.count, nonce_spec(epoch_nanos, entropy)));
        self.count = if self.count == u32::MAX {
            0
        } else {
            self.count + 1
        };
        chacha.block().state
    }

    /// The next word of the stream, as a signed word: the last buffered one, the buffer
    /// first refilled with a fresh block (clock and entropy as in `sample`) where it is empty.
    pub fn next(&mut self, epoch_nanos: u64, entropy: [u8; 4]) -> (r: i32)
        ensures
            final(self).seed == old(self).seed,
            old(self).buffer@.len() > 0 ==> {
                &&& r == as_signed(old(self).buffer@.last())
                &&& final(self).buffer@ == old(self).buffer@.drop_last()
                &&& final(self).count == old(self).count
            },
            old(self).buffer@.len() == 0 ==> {
                let block = rounds_spec(
                    state_spec(old(self).seed@, old(self).count, nonce_spec(epoch_nanos, entropy)),
                    10,
                );
                &&& r == as_signed(block[15])
                &&& final(self).buffer@ == block.subrange(0, 15)
                &&& final(self).count == next_count(old(self).count)
            },
    {
        if self.buffer.len() == 0 {
            let block = self.sample(epoch_nanos, entropy);
            let mut fresh: Vec<u32> = Vec::new();
            let mut i: usize = 0;
            while i < 16
                invariant
                    i <= 16,
                    fresh@ == block@.subrange(0, i as int),
                decreases 16 - i,
            {
                fresh.push(block[i]);
                i = i + 1;
                assert(fresh@ =~= block@.subrange(0, i as int));
            }
            self.buffer = fresh;
        }
        let u = match self.buffer.pop() {
            Some(u) => u,
            None => 0,
        };
        if u >= 0x8000_0000 {
            (u as i64 - 0x1_0000_0000) as i32
        } else {
            u as i32
        }
    }
}

} // verus!
