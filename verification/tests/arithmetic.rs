use big_num::BigNum;

#[test]
fn division_of_a_hundred_by_seven() {
    let q = BigNum::from(100) / BigNum::from(7);
    assert_eq!(q.get_integer_part_ref().to_u64(), 14);
    // the quotient has the precision of two limbs: one of them below the point
    assert_eq!(q.get_precision(), 2);
    let back = &q * BigNum::from(7);
    let err = if back < BigNum::from(100) {
        BigNum::from(100) - &back
    } else {
        &back - BigNum::from(100)
    };
    // within 7 / 2^64
    let bound = BigNum::from(7) / (BigNum::from(u64::MAX) + BigNum::from(1));
    assert!(err <= bound);
}

#[test]
fn division_that_comes_out_even_is_exact() {
    let q = BigNum::from(5) / BigNum::from(10);
    assert_eq!(&q + &q, BigNum::from(1));
    let r = BigNum::from(-6) / BigNum::from(3);
    assert_eq!(r, BigNum::from(-2));
    let s = BigNum::from(6) / BigNum::from(-3);
    assert_eq!(s, BigNum::from(-2));
    let t = BigNum::from(0) / BigNum::from(3);
    assert_eq!(t, BigNum::from(0));
}

#[test]
fn checked_division_by_zero_is_none() {
    assert!(BigNum::from(1).checked_div(&BigNum::from(0)).is_none());
    assert!(BigNum::from(1).checked_div(&BigNum::new()).is_none());
    assert!(BigNum::from(1).checked_div(&BigNum::from(2)).is_some());
}

#[test]
fn power_of_two_by_ten() {
    assert_eq!(BigNum::from(2).pow(BigNum::from(10)), BigNum::from(1024));
    assert_eq!(BigNum::from(2).pow(BigNum::from(0)), BigNum::from(1));
    assert_eq!(BigNum::from(2).pow(BigNum::from(1)), BigNum::from(2));
    let half = BigNum::from(2).pow(BigNum::from(-1));
    assert_eq!(&half + &half, BigNum::from(1));
}

#[test]
fn power_of_zero_by_a_negative_exponent_is_none() {
    assert!(BigNum::from(0).checked_pow(&BigNum::from(-1)).is_none());
}

#[test]
fn gcd_of_48_and_18() {
    assert_eq!(BigNum::gcd(BigNum::from(48), BigNum::from(18)), BigNum::from(6));
    assert_eq!(BigNum::gcd(BigNum::from(18), BigNum::from(48)), BigNum::from(6));
    assert_eq!(BigNum::gcd(BigNum::from(7), BigNum::from(0)), BigNum::from(7));
    assert_eq!(BigNum::gcd(BigNum::from(0), BigNum::from(0)), BigNum::from(0));
}

#[test]
fn remainder_by_repeated_subtraction() {
    assert_eq!(BigNum::from(17) % BigNum::from(5), BigNum::from(2));
    assert_eq!(BigNum::from(3) % BigNum::from(5), BigNum::from(3));
    assert_eq!(BigNum::from(-3) % BigNum::from(5), BigNum::from(-3));
    assert_eq!(BigNum::from(10) % BigNum::from(5), BigNum::from(0));
    let seven_and_a_half = BigNum::from(15) / BigNum::from(2);
    let one_and_a_half = BigNum::from(3) / BigNum::from(2);
    assert_eq!(seven_and_a_half % BigNum::from(2), one_and_a_half);
}

#[test]
fn square_root_by_newton() {
    let r = BigNum::from(16).root(BigNum::from(2));
    let err = if r < BigNum::from(4) {
        BigNum::from(4) - &r
    } else {
        &r - BigNum::from(4)
    };
    let bound = BigNum::from(1) / BigNum::from(1000000);
    assert!(err < bound);
    // the root of the degree one is the number itself
    assert_eq!(BigNum::from(9).root(BigNum::from(1)), BigNum::from(9));
    // the degree zero has no root
    assert!(BigNum::from(9).checked_root(&BigNum::from(0)).is_none());
}

#[test]
fn integer_and_fractional_part() {
    let x = BigNum::from(15) / BigNum::from(2);
    assert_eq!(x.get_integer_part_ref(), BigNum::from(7));
    assert_eq!(x.clone().get_integer_part(), BigNum::from(7));
    assert_eq!(x.clone().get_decimal_part(), BigNum::from(1) / BigNum::from(2));
    let y = BigNum::from(-15) / BigNum::from(2);
    assert_eq!(y.get_integer_part_ref(), BigNum::from(-7));
    assert_eq!(y.clone().get_decimal_part(), BigNum::from(-1) / BigNum::from(2));
    let half = BigNum::from(1) / BigNum::from(2);
    assert_eq!(half.get_integer_part_ref(), BigNum::from(0));
    assert_eq!(BigNum::from(12).get_integer_part(), BigNum::from(12));
    assert_eq!(BigNum::from(12).get_decimal_part(), BigNum::from(0));
}

#[test]
fn canonical_form() {
    let big = BigNum::from(u64::MAX) + BigNum::from(1);
    // 2^64 is one limb at the exponent one
    assert_eq!(big.get_precision(), 1);
    assert_eq!(BigNum::from(0).get_precision(), 0);
    assert_eq!((BigNum::from(5) - BigNum::from(5)).get_precision(), 0);
    let mut z = -BigNum::from(0);
    z.compact();
    assert_eq!(z.to_string_binary(), "");
    let three = &big * &big * BigNum::from(3) + BigNum::from(1);
    assert_eq!(three.get_precision(), 3);
    assert_eq!(three.clone().truncate(1), BigNum::from(1));
    assert_eq!(three.clone().truncate(2), BigNum::from(1));
    assert_eq!(three.clone().truncate(5), three);
}

#[test]
fn binary_text_of_limbs() {
    let one = BigNum::from(1);
    let mut expected = String::from(".");
    for _ in 0..63 {
        expected.push('0');
    }
    expected.push('1');
    assert_eq!(one.to_string_binary(), expected);
    let minus_two = BigNum::from(-2);
    let mut expected = String::from("-.");
    for _ in 0..62 {
        expected.push('0');
    }
    expected.push_str("10");
    assert_eq!(minus_two.to_string_binary(), expected);
}

#[test]
fn widening_product_of_two_limbs() {
    assert_eq!(big_num::limbs::widening_mul(u64::MAX, u64::MAX), (1, u64::MAX - 1));
    assert_eq!(big_num::limbs::widening_mul(1 << 32, 1 << 32), (0, 1));
    assert_eq!(big_num::limbs::widening_mul(3, 5), (15, 0));
}

#[test]
fn alignment_keeps_the_numbers() {
    let mut a = BigNum::from(u64::MAX) + BigNum::from(1);
    let mut b = BigNum::from(7);
    BigNum::align(&mut a, &mut b);
    assert_eq!(a.get_precision(), 2);
    assert_eq!(b.get_precision(), 2);
    assert_eq!(a, BigNum::from(u64::MAX) + BigNum::from(1));
    assert_eq!(b, BigNum::from(7));
}

#[test]
fn quotient_is_rounded_to_the_precision() {
    // 100 / 7 = 14 + 2/7; two sevenths of 2^64 are 5270498306774157604.57..., and the
    // limb after that is above one half, so the kept limb is rounded up
    let q = BigNum::from(100) / BigNum::from(7);
    let radix = BigNum::from(u64::MAX) + BigNum::from(1);
    let expected = BigNum::from(14) * &radix + BigNum::from(5270498306774157605u64);
    assert_eq!(&q * &radix, expected);
    // 1 / 3 is rounded down: 0x5555... and the limb after it is below one half
    let third = BigNum::from(1) / BigNum::from(3);
    let expected = BigNum::from(0x5555_5555_5555_5555u64) * &radix
        + BigNum::from(0x5555_5555_5555_5555u64);
    assert_eq!(&third * &radix * &radix, expected);
    assert_eq!(third.get_precision(), 2);
}

#[test]
fn compact_gives_the_canonical_value() {
    let radix = BigNum::from(u64::MAX) + BigNum::from(1);
    let mut x = (&radix * &radix * BigNum::from(5)).truncate(2);
    // the two lowest limbs of 5 * 2^128 are zero
    assert_eq!(x.get_precision(), 1);
    x.compact();
    assert_eq!(x.get_precision(), 1);
    let mut y = (&radix * BigNum::from(5) + BigNum::from(3)).truncate(1);
    assert_eq!(y, BigNum::from(3));
    y.compact();
    assert_eq!(y.to_u64(), 3);
    let mut z = (&radix * BigNum::from(5) + BigNum::from(3)).truncate(0);
    assert_eq!(z, BigNum::from(0));
    z.compact();
    assert_eq!(z.get_precision(), 0);
}
