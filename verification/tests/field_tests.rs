use zkcore::fr::Fr;
use zkcore::limb;

fn xorshift(state: &mut u64) -> u64 {
    let mut x = *state;
    x ^= x << 13;
    x ^= x >> 7;
    x ^= x << 17;
    *state = x;
    x
}

fn random_fr(state: &mut u64) -> Fr {
    Fr::to_mont_form([
        xorshift(state),
        xorshift(state),
        xorshift(state),
        xorshift(state),
    ])
}

#[test]
fn it_works() {
    let result = 2 + 2;
    assert_eq!(result, 4);
}

#[test]
fn add_neg_is_zero() {
    let mut st = 0x1234_5678_9abc_def1u64;
    for _ in 0..200 {
        let a = random_fr(&mut st);
        assert_eq!(a.add(a.neg()), Fr::zero());
    }
}

#[test]
fn invert_cancels() {
    let mut st = 0x0fed_cba9_8765_4321u64;
    for _ in 0..50 {
        let a = random_fr(&mut st);
        if !a.is_zero() {
            let inv = a.invert().expect("nonzero element has an inverse");
            assert_eq!(a.mul(inv), Fr::one());
        }
    }
    assert!(Fr::zero().invert().is_none());
    assert_eq!(Fr::from_u64(2).mul(Fr::from_u64(2).invert().unwrap()), Fr::one());
}

#[test]
fn ring_axioms_hold() {
    let mut st = 0x5151_0000_4242_7777u64;
    for _ in 0..1000 {
        let a = random_fr(&mut st);
        let b = random_fr(&mut st);
        let c = random_fr(&mut st);
        assert_eq!(a.add(b).add(c), a.add(b.add(c)));
        assert_eq!(a.mul(b.add(c)), a.mul(b).add(a.mul(c)));
        assert_eq!(a.add(b), b.add(a));
        assert_eq!(a.mul(b), b.mul(a));
        assert_eq!(a.mul(b).mul(c), a.mul(b.mul(c)));
    }
}

#[test]
fn byte_round_trips() {
    let mut st = 0xdead_beef_cafe_f00du64;
    for _ in 0..200 {
        let a = random_fr(&mut st);
        let bytes = a.to_bytes();
        let back = Fr::from_bytes(bytes).expect("canonical bytes decode");
        assert_eq!(back, a);
        assert_eq!(back.to_bytes(), bytes);
    }
    // small concrete value
    let five = Fr::from_u64(5);
    let b = five.to_bytes();
    assert_eq!(b[0], 5);
    for i in 1..32 {
        assert_eq!(b[i], 0);
    }
}

#[test]
fn decoding_the_modulus_fails() {
    // the modulus itself, little-endian, is not canonical
    let mut bytes = [0u8; 32];
    for (i, limb) in zkcore::fr::MODULUS.iter().enumerate() {
        bytes[8 * i..8 * i + 8].copy_from_slice(&limb.to_le_bytes());
    }
    assert!(Fr::from_bytes(bytes).is_none());
    // one less than the modulus is canonical
    bytes[0] = 0;
    assert!(Fr::from_bytes(bytes).is_some());
}

#[test]
fn pow_vartime_matches_small_powers() {
    let three = Fr::from_u64(3);
    assert_eq!(three.pow_vartime(&[5, 0, 0, 0]), Fr::from_u64(243));
    assert_eq!(three.pow_vartime(&[0, 0, 0, 0]), Fr::one());
    assert_eq!(three.pow_vartime(&[1, 0, 0, 0]), three);
}

#[test]
fn constant_time_helpers() {
    let a = Fr::from_u64(11);
    let b = Fr::from_u64(22);
    assert_eq!(Fr::conditional_select(&a, &b, false), a);
    assert_eq!(Fr::conditional_select(&a, &b, true), b);
    assert!(a.ct_eq(&a));
    assert!(!a.ct_eq(&b));
}

#[test]
fn kernel_arithmetic_on_the_embedded_scalar_modulus() {
    // the embedded-curve scalar modulus that the inversion chain was
    // derived from
    let q: [u64; 4] = [
        0xd0970e5ed6f72cb7,
        0xa6682093ccc81082,
        0x06673b0101343b00,
        0x0e7db4ea6533afa9,
    ];
    let inv: u64 = 0x1ba3a358ef788ef9;
    let r2: [u64; 4] = [
        0x67719aa495e57731,
        0x51b0cef09ce3fc26,
        0x69dab7fac026e9a5,
        0x04f6547b8d127688,
    ];
    // Montgomery form of one is 2^256 mod q
    let one_m: [u64; 4] = [
        0x25f80bb3b99607d9,
        0xf315d62f66b6e750,
        0x932514eeeb8814f4,
        0x09a6fc6f479155c6,
    ];
    // x = 7 in Montgomery form
    let x_m = limb::mul([7, 0, 0, 0], r2, q, inv);
    let x_inv = limb::invert(x_m, q, inv).expect("nonzero inverts");
    assert_eq!(limb::mul(x_m, x_inv, q, inv), one_m);
    assert!(limb::invert([0, 0, 0, 0], q, inv).is_none());
    // add and sub are inverses
    let y_m = limb::mul([12345, 0, 0, 0], r2, q, inv);
    assert_eq!(limb::sub(limb::add(x_m, y_m, q), y_m, q), x_m);
    assert_eq!(limb::neg(limb::neg(x_m, q), q), x_m);
    assert_eq!(limb::double(x_m, q), limb::add(x_m, x_m, q));
    assert_eq!(limb::square(x_m, q, inv), limb::mul(x_m, x_m, q, inv));
}

#[test]
fn wide_reduction_matches() {
    // 2^256 reduces to the Montgomery residue of one times R, i.e. the
    // value 2^256 mod p, which from_u512 must agree with from_u64 paths
    let mut wide = [0u64; 8];
    wide[0] = 99;
    assert_eq!(Fr::from_u512(wide), Fr::from_u64(99));
    // a value with only the high half set: 7 * 2^256 mod p
    let mut wide = [0u64; 8];
    wide[4] = 7;
    let mut bytes = [0u8; 64];
    bytes[32] = 7;
    assert_eq!(Fr::from_bytes_wide(&bytes), Fr::from_u512(wide));
    assert_eq!(Fr::from_hash(&bytes[..]), Fr::from_u512(wide));
    // the low and high halves add up
    let mut both = [0u64; 8];
    both[0] = 99;
    both[4] = 7;
    assert_eq!(
        Fr::from_u512(both),
        Fr::from_u512(wide).add(Fr::from_u64(99))
    );
}

#[test]
fn reduce_strips_the_montgomery_factor() {
    let five = Fr::from_u64(5);
    let reduced = five.reduce();
    assert_eq!(reduced.0, [5, 0, 0, 0]);
}

#[test]
fn divn_shifts_the_raw_limbs() {
    let mut a = Fr([0, 0, 0, 1]);
    a.divn(192);
    assert_eq!(a.0, [1, 0, 0, 0]);
    let mut b = Fr([0b1100, 0, 0, 0]);
    b.divn(2);
    assert_eq!(b.0, [0b11, 0, 0, 0]);
    let mut c = Fr([5, 7, 0, 0]);
    c.divn(65);
    assert_eq!(c.0, [3, 0, 0, 0]);
    let mut d = Fr([1, 2, 3, 4]);
    d.divn(256);
    assert_eq!(d.0, [0, 0, 0, 0]);
}

#[test]
fn pow_of_2_matches_doubling() {
    assert_eq!(Fr::pow_of_2(0), Fr::one());
    assert_eq!(Fr::pow_of_2(1), Fr::from_u64(2));
    assert_eq!(Fr::pow_of_2(10), Fr::from_u64(1024));
    assert_eq!(
        Fr::pow_of_2(63),
        Fr::from_u64(1u64 << 63)
    );
    // beyond one word: 2^64 == 2^63 doubled
    assert_eq!(Fr::pow_of_2(64), Fr::pow_of_2(63).double());
}

#[test]
fn sqrt_candidate_is_checked() {
    // 4 has the root 2 or its negation when the fixed-exponent candidate
    // happens to square back; either way the contract is the check
    let four = Fr::from_u64(4);
    if let Some(s) = four.sqrt() {
        assert_eq!(s.mul(s), four);
    }
    // a value whose candidate does not square back is rejected rather
    // than returned wrong
    let mut st = 0x7777_1234_5678_9abcu64;
    for _ in 0..20 {
        let a = random_fr(&mut st);
        if let Some(s) = a.sqrt() {
            assert_eq!(s.mul(s), a);
        }
    }
}

#[test]
fn base4_digits_recover_the_value() {
    // 0b1101_1000 == 216: digits 3, 1, 2, 0 most significant first
    let a = Fr::from_u64(216);
    assert_eq!(a.to_costomized_repr(), vec![3u8, 1, 2, 0]);
    assert_eq!(Fr::zero().to_costomized_repr(), Vec::<u8>::new());
    assert_eq!(Fr::one().to_costomized_repr(), vec![1u8]);
    // no leading zeros, all digits below four
    let mut st = 0x2468_ace0_1357_9bdfu64;
    for _ in 0..50 {
        let a = random_fr(&mut st);
        let digits = a.to_costomized_repr();
        if !digits.is_empty() {
            assert_ne!(digits[0], 0);
        }
        let mut acc = Fr::zero();
        let four = Fr::from_u64(4);
        for d in &digits {
            assert!(*d < 4);
            acc = acc.mul(four).add(Fr::from_u64(*d as u64));
        }
        // digits read back to the canonical value
        assert_eq!(acc.to_bytes(), a.to_bytes());
    }
}
