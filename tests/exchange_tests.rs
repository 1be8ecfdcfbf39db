use partav2::rand::Rand;
use partav2::ring::{NegacyclicRing, RlweError};
use partav2::{finalise, pack_bits, request, respond, wire_ring, Security};

struct Words {
    rng: Rand,
    tick: u64,
}

impl Words {
    fn new(tag: u64) -> Words {
        Words { rng: Rand::new(0x0bad_cafe_0000_0001 ^ tag, 0x5555_0000_2000 + tag, 77, [1, 3, 5, 7, 9, 11, 13, 15]), tick: tag }
    }

    fn draw(&mut self, count: usize) -> Vec<i32> {
        let mut out = Vec::with_capacity(count);
        for _ in 0..count {
            self.tick = self.tick.wrapping_mul(6364136223846793005).wrapping_add(1442695040888963407);
            let e = (self.tick >> 32) as u32;
            out.push(self.rng.next(self.tick, e.to_le_bytes()));
        }
        out
    }
}

#[test]
fn security_rings() {
    assert_eq!(Security::Medium.ring(), NegacyclicRing::new(9, 25601));
    assert_eq!(Security::High.ring(), NegacyclicRing::new(10, 40961));
    assert_eq!(Security::Custom(4, 7681).ring(), NegacyclicRing::new(4, 7681));
}

#[test]
fn pack_bits_lsb_first() {
    assert_eq!(pack_bits(&vec![1, 0, 0, 0, 0, 0, 0, 0, 0, 1, 0, 0, 0, 0, 0, 1]), vec![1, 130]);
    assert_eq!(pack_bits(&vec![1, 1, 1]), vec![7]);
    assert_eq!(pack_bits(&vec![]), Vec::<u8>::new());
}

#[test]
fn request_wire_layout() {
    let mut words = Words::new(1);
    let (private, req) = request(Security::Medium, &words.draw(3 * 512)).unwrap();
    assert_eq!(private.len(), 8 * 512);
    assert_eq!(req.len(), 8 + 8 * 512);
    assert_eq!(req[0..4], 25601i32.to_le_bytes());
    assert_eq!(req[4..8], 9u32.to_le_bytes());
    assert_eq!(private[0..4 * 512], req[8..8 + 4 * 512]);
    assert_eq!(wire_ring(&req), Ok(NegacyclicRing::new(9, 25601)));
}

#[test]
fn request_respond_finalise_agree() {
    let mut words = Words::new(2);
    let (private1, public1) = request(Security::Medium, &words.draw(3 * 512)).unwrap();
    let (key2, public2) = respond(public1, &words.draw(3 * 512)).unwrap();
    let key1 = finalise(private1, public2, &words.draw(512)).unwrap();
    assert_eq!(key1.len(), 64);
    assert_eq!(key1, key2);
}

#[test]
fn key_agreement_medium_preset_many_runs() {
    let mut words = Words::new(3);
    let runs = 1000;
    let mut agree = 0;
    for _ in 0..runs {
        let (private1, public1) = request(Security::Medium, &words.draw(3 * 512)).unwrap();
        let (key2, public2) = respond(public1, &words.draw(3 * 512)).unwrap();
        let key1 = finalise(private1, public2, &words.draw(512)).unwrap();
        if key1 == key2 {
            agree += 1;
        }
    }
    assert!(agree >= 990);
}

#[test]
fn malformed_messages() {
    let mut words = Words::new(4);
    assert_eq!(respond(vec![1, 2, 3], &vec![]), Err(RlweError::MalformedWire));
    let (private1, public1) = request(Security::Custom(4, 7681), &words.draw(48)).unwrap();
    let mut cut = public1.clone();
    cut.pop();
    assert_eq!(respond(cut, &words.draw(48)), Err(RlweError::MalformedWire));
    let mut bad_exponent = public1.clone();
    bad_exponent[4] = 40;
    assert_eq!(respond(bad_exponent, &words.draw(48)), Err(RlweError::MalformedWire));
    let mut unreduced = public1.clone();
    unreduced[8..12].copy_from_slice(&7681i32.to_le_bytes());
    assert_eq!(respond(unreduced, &words.draw(48)), Err(RlweError::MalformedWire));
    assert_eq!(respond(public1.clone(), &words.draw(47)), Err(RlweError::ShortRandomness));
    let (_key, public2) = respond(public1, &words.draw(48)).unwrap();
    assert_eq!(finalise(vec![0; 8], public2.clone(), &words.draw(16)), Err(RlweError::MalformedWire));
    assert_eq!(finalise(private1, public2, &words.draw(15)), Err(RlweError::ShortRandomness));
}

#[test]
fn invalid_rings_are_refused() {
    assert_eq!(request(Security::Custom(4, 23), &vec![0; 48]), Err(RlweError::InvalidRing));
    assert_eq!(request(Security::Custom(40, 7681), &vec![]), Err(RlweError::InvalidRing));
    assert_eq!(request(Security::Medium, &vec![0; 10]), Err(RlweError::ShortRandomness));
}
