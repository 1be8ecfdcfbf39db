use partav2::rand::Rand;
use partav2::ring::{NegacyclicRing, RlweError};
use partav2::rlwe::{PrivateKeypair, PublicKeypair, RLWE};

struct Words {
    rng: Rand,
    tick: u64,
}

impl Words {
    fn new(tag: u64) -> Words {
        Words { rng: Rand::new(0x1234_5678_9abc_def0 ^ tag, 0x7fff_0000_1000 + tag, 4242, [9, 8, 7, 6, 5, 4, 3, 2]), tick: tag }
    }

    fn draw(&mut self, count: usize) -> Vec<i32> {
        let mut out = Vec::with_capacity(count);
        for _ in 0..count {
            self.tick = self.tick.wrapping_mul(6364136223846793005).wrapping_add(1442695040888963407);
            let e = (self.tick >> 32) as u32;
            out.push(self.rng.next(self.tick, e.to_le_bytes()));
        }
        out
    }
}

#[test]
fn signal_example() {
    assert_eq!(NegacyclicRing::new(2, 7681).signal(vec![2, 3, 4096, 7661]), vec![1, 1, 0, 1]);
}

#[test]
fn signal_band_boundaries() {
    let ring = NegacyclicRing::new(2, 7681);
    // q/4 = 1920 and 3q/4 = 5760 are inside the band; 0 and q - 1 are outside.
    assert_eq!(ring.signal(vec![1920, 5760, 0, 7680]), vec![0, 0, 1, 1]);
    assert_eq!(ring.signal(vec![1919, 5761, 3000, 4000]), vec![1, 1, 0, 0]);
    assert_eq!(ring.signal(vec![4000]), vec![0, 0, 0, 0]);
}

#[test]
fn modulo2_example() {
    let ring = NegacyclicRing::new(2, 7681);
    assert_eq!(
        ring.modulo2(ring.ntt(vec![4, 1, 2, 3]).unwrap(), ring.ntt(vec![1, 2, 3, 4]).unwrap()),
        Ok(vec![0, 0, 1, 1])
    );
}

#[test]
fn uniform_sampler_values() {
    let ring = NegacyclicRing::new(2, 7681);
    assert_eq!(ring.rand(&vec![-5, 7684, i32::MIN, 0, 11], 0), vec![5, 3, 6625, 0]);
    assert_eq!(ring.rand(&vec![-5, 7684, i32::MIN, 0, 11], 1), vec![3, 6625, 0, 11]);
}

#[test]
fn error_sampler_values() {
    let ring = NegacyclicRing::new(2, 7681);
    assert_eq!(ring.sample(&vec![0, 1, 3, 12], 0), vec![0, 1, 2, 7679]);
    assert_eq!(ring.sample(&vec![-1, 15, 4, 16], 0), vec![0, 0, 7680, 0]);
}

#[test]
fn keypair_wire_form() {
    let kp = PublicKeypair { a: vec![1, -1], p: vec![256, 0x01020304] };
    let bytes = kp.clone().to_bytes();
    assert_eq!(bytes, vec![1, 0, 0, 0, 255, 255, 255, 255, 0, 1, 0, 0, 4, 3, 2, 1]);
    assert_eq!(PublicKeypair::from_bytes(bytes), Ok(kp));
    assert_eq!(PublicKeypair::from_bytes(vec![0; 7]), Err(RlweError::MalformedWire));
    assert_eq!(PrivateKeypair::from_bytes(vec![0; 12]), Err(RlweError::MalformedWire));
    assert_eq!(PrivateKeypair::from_bytes(vec![]), Ok(PrivateKeypair { a: vec![], s: vec![] }));
}

#[test]
fn bytes_transmute_public_keypair() {
    let ring = NegacyclicRing::new(8, 7681);
    let mut words = Words::new(1);

    for _ in 0..100 {
        let keypair = PublicKeypair { a: ring.sample(&words.draw(256), 0), p: ring.sample(&words.draw(256), 0) };

        assert_eq!(PublicKeypair::from_bytes(keypair.clone().to_bytes()), Ok(keypair));
    }
}

#[test]
fn bytes_transmute_private_keypair() {
    let ring = NegacyclicRing::new(8, 7681);
    let mut words = Words::new(2);

    for _ in 0..100 {
        let keypair = PrivateKeypair { a: ring.sample(&words.draw(256), 0), s: ring.sample(&words.draw(256), 0) };

        assert_eq!(PrivateKeypair::from_bytes(keypair.clone().to_bytes()), Ok(keypair));
    }
}

#[test]
fn key_exchange() {
    let mut words = Words::new(3);
    for _ in 0..10 {
        let ring = NegacyclicRing::new(9, 25601);

        let (private1, public1) = RLWE::generate(ring, &words.draw(3 * 512)).unwrap();
        let (key2, public2) = RLWE::respond(ring, public1, &words.draw(3 * 512)).unwrap();
        let key1 = RLWE::parse(ring, private1, public2, &words.draw(512)).unwrap();

        assert_eq!(key1, key2);
    }
}

#[test]
fn key_exchange_high_preset() {
    let mut words = Words::new(4);
    let ring = NegacyclicRing::new(10, 40961);
    let mut agree = 0;
    for _ in 0..3 {
        let (private1, public1) = RLWE::generate(ring, &words.draw(3 * 1024)).unwrap();
        let (key2, public2) = RLWE::respond(ring, public1, &words.draw(3 * 1024)).unwrap();
        let key1 = RLWE::parse(ring, private1, public2, &words.draw(1024)).unwrap();
        assert_eq!(key1.len(), 1024);
        assert!(key1.iter().all(|b| *b == 0 || *b == 1));
        if key1 == key2 {
            agree += 1;
        }
    }
    assert!(agree >= 2);
}

#[test]
fn generate_without_root_is_invalid_ring() {
    let ring = NegacyclicRing::new(4, 23);
    assert_eq!(RLWE::generate(ring, &vec![1; 48]).err(), Some(RlweError::InvalidRing));
}
