use dice_pmf::bignat::BigNat;

fn big(x: u128) -> BigNat {
    BigNat::from_limbs(vec![
        x as u32,
        (x >> 32) as u32,
        (x >> 64) as u32,
        (x >> 96) as u32,
    ])
}

fn small(n: &BigNat) -> u128 {
    let limbs = n.as_limbs();
    assert!(limbs.iter().skip(4).all(|l| *l == 0));
    let mut value = 0u128;
    for (i, limb) in limbs.iter().take(4).enumerate() {
        value |= (*limb as u128) << (32 * i);
    }
    value
}

#[test]
fn from_u64_and_back() {
    for x in [0u64, 1, 9, 0xFFFF_FFFF, 0x1_0000_0000, 0x1234_5678_9ABC_DEF0, u64::MAX] {
        assert_eq!(BigNat::from_u64(x).to_u64(), Some(x));
        assert_eq!(small(&BigNat::from_u64(x)), x as u128);
    }
    assert_eq!(BigNat::zero().to_u64(), Some(0));
    assert!(BigNat::zero().is_zero());
    assert!(BigNat::from_u64(0).is_zero());
    assert!(!BigNat::from_u64(1).is_zero());
    assert!(!big(1 << 100).is_zero());
}

#[test]
fn to_u64_refuses_what_does_not_fit() {
    assert_eq!(big(u64::MAX as u128).to_u64(), Some(u64::MAX));
    assert_eq!(big(u64::MAX as u128 + 1).to_u64(), None);
    assert_eq!(big(u128::MAX).to_u64(), None);
    assert_eq!(BigNat::from_limbs(vec![7, 0, 0, 0, 0]).to_u64(), Some(7));
    assert_eq!(BigNat::from_limbs(vec![0, 0, 0, 0, 1]).to_u64(), None);
}

#[test]
fn limbs_are_little_endian() {
    let n = BigNat::from_limbs(vec![1, 2]);
    assert_eq!(n.to_u64(), Some(1 + 2 * 0x1_0000_0000));
    assert_eq!(small(&BigNat::from_limbs(vec![0, 0, 3])), 3u128 << 64);
}

#[test]
fn leading_zero_limbs_do_not_matter() {
    let a = BigNat::from_limbs(vec![5, 0, 0]);
    let b = BigNat::from_limbs(vec![5]);
    assert!(a == b);
    assert!(a.is_equal(&b));
    assert!(!a.lt(&b));
    assert!(a.le(&b));
    assert!(BigNat::from_limbs(vec![0, 0]).is_zero());
    assert!(BigNat::from_limbs(vec![]) == BigNat::zero());
}

#[test]
fn addition_carries() {
    let cases: [(u128, u128); 6] = [
        (0, 0),
        (1, 0xFFFF_FFFF),
        (0xFFFF_FFFF_FFFF_FFFF, 1),
        (0xFFFF_FFFF_FFFF_FFFF_FFFF_FFFF, 0xFFFF_FFFF_FFFF_FFFF_FFFF_FFFF),
        (u128::MAX / 2, u128::MAX / 2),
        (123456789012345678901234567890, 987654321098765432109876543210),
    ];
    for (a, b) in cases {
        assert_eq!(small(&big(a).add(&big(b))), a + b);
        assert_eq!(small(&big(b).add(&big(a))), a + b);
    }
    let top = big(u128::MAX).add(&big(1));
    assert_eq!(top.as_limbs(), &vec![0, 0, 0, 0, 1]);
}

#[test]
fn subtraction_borrows() {
    let cases: [(u128, u128); 5] = [
        (0, 0),
        (0x1_0000_0000, 1),
        (1 << 96, 1),
        (u128::MAX, u128::MAX),
        (987654321098765432109876543210, 123456789012345678901234567890),
    ];
    for (a, b) in cases {
        assert_eq!(small(&big(a).sub(&big(b))), a - b);
    }
    let top = BigNat::from_limbs(vec![0, 0, 0, 0, 1]).sub(&big(1));
    assert_eq!(small(&top), u128::MAX);
}

#[test]
fn multiplication() {
    let cases: [(u128, u128); 6] = [
        (0, 12345),
        (1, u64::MAX as u128),
        (u64::MAX as u128, u64::MAX as u128),
        (0xFFFF_FFFF, 0xFFFF_FFFF),
        (1 << 64, 1 << 63),
        (12345678901234567890, 9876543210987654321),
    ];
    for (a, b) in cases {
        assert_eq!(small(&big(a).mul(&big(b))), a * b);
        assert_eq!(small(&big(b).mul(&big(a))), a * b);
    }
    let square = big(u128::MAX).mul(&big(u128::MAX));
    // (2^128 - 1)^2 = 2^256 - 2^129 + 1
    assert_eq!(
        square.as_limbs(),
        &vec![1, 0, 0, 0, 0xFFFF_FFFE, 0xFFFF_FFFF, 0xFFFF_FFFF, 0xFFFF_FFFF]
    );
}

#[test]
fn multiplication_by_a_limb() {
    for (a, m) in [(0u128, 7u32), (u64::MAX as u128, u32::MAX), (1 << 90, 4), (12345, 0)] {
        assert_eq!(small(&big(a).mul_small(m)), a * m as u128);
    }
}

#[test]
fn ordering() {
    let values: [u128; 7] =
        [0, 1, 0xFFFF_FFFF, 0x1_0000_0000, u64::MAX as u128, 1 << 64, u128::MAX];
    for a in values {
        for b in values {
            assert_eq!(big(a).lt(&big(b)), a < b);
            assert_eq!(big(a).le(&big(b)), a <= b);
            assert_eq!(big(a).is_equal(&big(b)), a == b);
            assert_eq!(big(a) == big(b), a == b);
        }
    }
    assert!(BigNat::from_limbs(vec![9, 1]).lt(&BigNat::from_limbs(vec![0, 2])));
    assert!(BigNat::from_limbs(vec![0, 2]).lt(&BigNat::from_limbs(vec![9, 2])));
}

#[test]
fn division_with_remainder() {
    let cases: [(u128, u128); 9] = [
        (0, 1),
        (7, 7),
        (6, 7),
        (100, 7),
        (u128::MAX, 1),
        (u128::MAX, u128::MAX),
        (u128::MAX, 0xFFFF_FFFF),
        (u128::MAX, (1 << 64) + 12345),
        (987654321098765432109876543210, 12345678901234567890),
    ];
    for (a, d) in cases {
        let (q, r) = big(a).div_rem(&big(d));
        assert_eq!(small(&q), a / d, "{} / {}", a, d);
        assert_eq!(small(&r), a % d, "{} % {}", a, d);
        assert_eq!(small(&big(a).div(&big(d))), a / d);
    }
}

#[test]
fn division_undoes_multiplication() {
    let a = big(u128::MAX - 12345).mul(&big(987654321));
    let b = big((1 << 100) + 77).mul(&big(u64::MAX as u128));
    let product = a.mul(&b);
    assert!(product.div(&b) == a);
    assert!(product.div(&a) == b);
    let (q, r) = product.add(&big(5)).div_rem(&b);
    assert!(q == a);
    assert_eq!(r.to_u64(), Some(5));
}

#[test]
fn clone_keeps_the_number() {
    let a = big(u128::MAX);
    let b = a.clone();
    assert!(a == b);
    assert_eq!(a.as_limbs(), b.as_limbs());
}
