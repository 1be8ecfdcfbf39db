use partav2::chacha::ChaCha20;
use partav2::rand::Rand;

#[test]
fn chacha_new_layout() {
    let c = ChaCha20::new([1, 2, 3, 4, 5, 6, 7, 8], 9, [10, 11, 12]);
    assert_eq!(
        c.state,
        [0x61707865, 0x3320646e, 0x79622d32, 0x6b206574, 1, 2, 3, 4, 5, 6, 7, 8, 9, 10, 11, 12]
    );
}

#[test]
fn chacha_quarter_round_vector() {
    assert_eq!(
        ChaCha20 { state: [0x11111111, 0x01020304, 0x9b8d6f43, 0x01234567, 0, 0, 0, 0, 0, 0, 0, 0, 0, 0, 0, 0] }
            .quarter_round(0, 1, 2, 3),
        ChaCha20 { state: [0xea2a92f4, 0xcb1cf8ce, 0x4581472e, 0x5881c4bb, 0, 0, 0, 0, 0, 0, 0, 0, 0, 0, 0, 0] }
    );
}

#[test]
fn chacha_block_vector() {
    assert_eq!(
        ChaCha20::new(
            [0x03020100, 0x07060504, 0x0b0a0908, 0x0f0e0d0c, 0x13121110, 0x17161514, 0x1b1a1918, 0x1f1e1d1c],
            1,
            [0x09000000, 0x4a000000, 0x00000000]
        )
        .block(),
        ChaCha20 {
            state: [
                0x837778ab, 0xe238d763, 0xa67ae21e, 0x5950bb2f, 0xc4f2d0c7, 0xfc62bb2f, 0x8fa018fc, 0x3f5ec7b7,
                0x335271c2, 0xf29489f3, 0xeabda8fc, 0x82e46ebd, 0xd19c12b4, 0xb04e16de, 0x9e83d0cb, 0x4e3c50a2
            ]
        }
    );
}

#[test]
fn rand_seed_layout() {
    let r = Rand::new(0x0000_0001_0000_0002, 0x0000_0003_0000_0004, 7, [1, 2, 3, 4, 5, 6, 7, 8]);
    assert_eq!(r.seed, [2, 1, 4, 3, 7, 0x1f2e3d4c, 0x04030201, 0x08070605]);
    assert_eq!(r.count, 1);
    assert!(r.buffer.is_empty());
}

#[test]
fn rand_sample_is_a_chacha_block() {
    let mut r = Rand::new(5, 6, 7, [0; 8]);
    let seed = r.seed;
    let block = r.sample(0x0000_000a_0000_000b, [1, 0, 0, 0]);
    assert_eq!(block, ChaCha20::new(seed, 1, [0xb, 0xa, 1]).block().state);
    assert_eq!(r.count, 2);
    let again = r.sample(0x0000_000a_0000_000b, [1, 0, 0, 0]);
    assert_ne!(again, block);
    assert_eq!(r.count, 3);
}

#[test]
fn rand_next_pops_from_the_end() {
    let mut r = Rand::new(5, 6, 7, [0; 8]);
    let seed = r.seed;
    let block = ChaCha20::new(seed, 1, [3, 0, 0]).block().state;
    assert_eq!(r.next(3, [0; 4]), block[15] as i32);
    assert_eq!(r.buffer.len(), 15);
    for i in (0..15).rev() {
        assert_eq!(r.next(99, [9; 4]), block[i] as i32);
    }
    assert_eq!(r.count, 2);
    r.next(4, [0; 4]);
    assert_eq!(r.count, 3);
}
