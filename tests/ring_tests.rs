use partav2::ring::{NegacyclicRing, RlweError};

#[test]
fn size_is_two_to_the_exponent() {
    assert_eq!(NegacyclicRing::new(4, 23).size(), 16);
}

#[test]
fn power_small_example() {
    assert_eq!(NegacyclicRing::new(4, 23).power(3, 4), 12);
}

#[test]
fn power_matches_repeated_multiplication() {
    let ring = NegacyclicRing::new(4, 7681);
    for x in [0i64, 1, 2, 17, 1925, 7680] {
        let mut expected: i64 = 1;
        for y in 0..200i32 {
            assert_eq!(ring.power(x as i32, y) as i64, expected);
            expected = expected * x % 7681;
        }
    }
    assert_eq!(ring.power(5, 0), 1);
}

#[test]
fn primitive_nth_root_of_unity() {
    let ring = NegacyclicRing::new(4, 7681);
    let z = ring.primitiventhunity().unwrap();
    assert_eq!(z, 527);
    assert_eq!(ring.power(z, 16), 1);
    for k in 1..16 {
        assert_ne!(ring.power(z, k), 1);
    }
    // 3383 has order 4, so it is no primitive 16th root.
    assert_eq!(ring.power(3383, 4), 1);
}

#[test]
fn primitive_2nth_root_of_unity() {
    let ring = NegacyclicRing::new(4, 7681);
    let psi = ring.primitive2nthunity().unwrap();
    assert_eq!(psi, 2784);
    assert_eq!(ring.power(psi, 2), 527);
    assert_eq!(ring.power(psi, 16), 7680);
    assert_eq!(ring.power(psi, 32), 1);
}

#[test]
fn root_check_on_presets() {
    for (e, q) in [(9u32, 25601i32), (10, 40961)] {
        let ring = NegacyclicRing::new(e, q);
        let n = ring.size();
        let psi = ring.primitive2nthunity().unwrap();
        assert_eq!(ring.power(psi, 2 * n), 1);
        assert_eq!(ring.power(psi, n), q - 1);
    }
}

#[test]
fn no_root_without_2nth_unity() {
    // 23 - 1 = 22 is not divisible by 16: no primitive 16th root.
    let ring = NegacyclicRing::new(4, 23);
    assert_eq!(ring.primitiventhunity(), None);
    assert_eq!(ring.primitive2nthunity(), None);
    assert_eq!(ring.ntt(vec![1, 2, 3]), Err(RlweError::InvalidRing));
}

#[test]
fn bit_reverse_example() {
    assert_eq!(NegacyclicRing::bit_reverse(7, 4), 14);
    assert_eq!(NegacyclicRing::bit_reverse(1, 3), 4);
    assert_eq!(NegacyclicRing::bit_reverse(6, 3), 3);
}

#[test]
fn bit_reverse_is_an_involution() {
    for k in 0..10 {
        for x in 0..(1 << k) {
            let r = NegacyclicRing::bit_reverse(x, k);
            assert!(r < (1 << k));
            assert_eq!(NegacyclicRing::bit_reverse(r, k), x);
        }
    }
}

#[test]
fn pad_extends_with_zeros() {
    let ring = NegacyclicRing::new(3, 7681);
    assert_eq!(ring.pad(vec![1, 2, 3]), Some(vec![1, 2, 3, 0, 0, 0, 0, 0]));
}

#[test]
fn pad_full_length_is_noop() {
    let ring = NegacyclicRing::new(3, 7681);
    let v = vec![8, 7, 6, 5, 4, 3, 2, 1];
    assert_eq!(ring.pad(v.clone()), Some(v));
}

#[test]
fn pad_too_long_is_error() {
    let ring = NegacyclicRing::new(3, 7681);
    assert_eq!(ring.pad(vec![0; 9]), None);
    assert_eq!(ring.ntt(vec![0; 9]), Err(RlweError::TooLong));
}

#[test]
fn inverse_example() {
    let ring = NegacyclicRing::new(3, 7681);
    assert_eq!(ring.inverse(14), Some(1646));
    assert_eq!((1646 * 14) % 7681, 1);
    assert_eq!(ring.inverse(0), None);
}

#[test]
fn ntt_example() {
    let ring = NegacyclicRing::new(4, 7681);
    assert_eq!(
        ring.ntt(vec![1, 2, 3, 4]),
        Ok(vec![
            7538, 7596, 5677, 6055, 2522, 2536, 1246, 5540, 3307, 2774, 4593, 5811, 1999, 2460,
            3850, 5641
        ])
    );
}

#[test]
fn ntt_round_trip() {
    let ring = NegacyclicRing::new(4, 7681);
    let p: Vec<i32> = (0..16).map(|i| (i * 977 + 5) % 7681).collect();
    let t = ring.ntt(p.clone()).unwrap();
    assert_ne!(t, p);
    assert_eq!(ring.intt(t), Ok(p));
    let short = ring.intt(ring.ntt(vec![1, 2, 3, 4]).unwrap()).unwrap();
    assert_eq!(short[..5], [1, 2, 3, 4, 0]);
}

fn negacyclic_product(a: &[i64], b: &[i64], q: i64) -> Vec<i32> {
    let n = a.len();
    let mut out = vec![0i64; n];
    for i in 0..n {
        for j in 0..n {
            let k = i + j;
            if k < n {
                out[k] = (out[k] + a[i] * b[j]) % q;
            } else {
                out[k - n] = ((out[k - n] - a[i] * b[j]) % q + q) % q;
            }
        }
    }
    out.into_iter().map(|x| x as i32).collect()
}

#[test]
fn pointwise_product_is_negacyclic_product() {
    let ring = NegacyclicRing::new(4, 7681);
    let a: Vec<i32> = (0..16).map(|i| (i * 31 + 7) % 7681).collect();
    let b: Vec<i32> = (0..16).map(|i| (i * i * 5 + 1) % 7681).collect();
    let ta = ring.ntt(a.clone()).unwrap();
    let tb = ring.ntt(b.clone()).unwrap();
    let prod: Vec<i32> = ta
        .iter()
        .zip(tb.iter())
        .map(|(x, y)| ((*x as i64 * *y as i64) % 7681) as i32)
        .collect();
    let a64: Vec<i64> = a.iter().map(|x| *x as i64).collect();
    let b64: Vec<i64> = b.iter().map(|x| *x as i64).collect();
    assert_eq!(ring.intt(prod).unwrap(), negacyclic_product(&a64, &b64, 7681));
}

#[test]
fn transform_with_explicit_root() {
    let ring = NegacyclicRing::new(2, 17);
    // psi = 2 would be a root of order 8 mod 17; evaluate [1, 1, 0, 0] at 2^(2i+1).
    assert_eq!(ring.transform(&vec![1, 1, 0, 0], 2), vec![3, 9, 16, 10]);
    assert_eq!(ring.inverse_transform(&vec![3, 9, 16, 10], 9, 13), vec![1, 1, 0, 0]);
}
