use big_num::codec::{char_of, digit_of, try_parse, BaseParseError};
use big_num::{encode, parse, Base, BigNum};

#[test]
fn hexadecimal_of_a_decimal_fraction() {
    let n = parse("255.5", Base::Decimal);
    assert_eq!(encode(n, Base::Hexadecimal), "ff.8");
}

#[test]
fn base64_and_back_to_decimal() {
    let n = parse("255.5", Base::Decimal);
    let text = encode(n.clone(), Base::Base64);
    assert_eq!(text, "3/.w");
    let back = parse(&text, Base::Base64);
    assert_eq!(back, n);
    assert_eq!(encode(back, Base::Decimal), "255.5");
}

#[test]
fn integers_in_all_bases() {
    let n = BigNum::from(255);
    assert_eq!(encode(n.clone(), Base::Binary), "11111111");
    assert_eq!(encode(n.clone(), Base::Octal), "377");
    assert_eq!(encode(n.clone(), Base::Decimal), "255");
    assert_eq!(encode(n.clone(), Base::Hexadecimal), "ff");
    assert_eq!(encode(n.clone(), Base::Base64), "3/");
    assert_eq!(parse("11111111", Base::Binary), n);
    assert_eq!(parse("377", Base::Octal), n);
    assert_eq!(parse("255", Base::Decimal), n);
    assert_eq!(parse("ff", Base::Hexadecimal), n);
    assert_eq!(parse("3/", Base::Base64), n);
}

#[test]
fn round_trip_of_canonical_numerals() {
    let cases: [(&str, Base); 12] = [
        ("0", Base::Decimal),
        ("1", Base::Binary),
        ("101101", Base::Binary),
        ("-777", Base::Octal),
        ("18446744073709551616", Base::Decimal),
        ("340282366920938463463374607431768211455", Base::Decimal),
        ("-123456789012345678901234567890", Base::Decimal),
        ("deadbeefcafe0123456789", Base::Hexadecimal),
        ("Zz+/09aA", Base::Base64),
        ("101.011", Base::Binary),
        ("-7.4", Base::Octal),
        ("ab.cdef", Base::Hexadecimal),
    ];
    for (text, base) in cases.iter() {
        assert_eq!(encode(parse(text, *base), *base), *text);
    }
}

#[test]
fn zero_and_signs() {
    assert_eq!(encode(BigNum::new(), Base::Decimal), "0");
    assert_eq!(encode(BigNum::from(0), Base::Base64), "0");
    assert_eq!(encode(-BigNum::from(0), Base::Binary), "0");
    assert_eq!(encode(BigNum::from(-5), Base::Decimal), "-5");
    assert_eq!(parse("", Base::Decimal), BigNum::from(0));
    assert_eq!(parse("-", Base::Decimal), BigNum::from(0));
    assert_eq!(parse("+12", Base::Decimal), BigNum::from(12));
    assert_eq!(parse("-+12", Base::Decimal), BigNum::from(-12));
    assert_eq!(parse("-12", Base::Decimal), BigNum::from(-12));
    assert_eq!(parse("007", Base::Decimal), BigNum::from(7));
    assert_eq!(parse(".5", Base::Decimal), BigNum::from(1) / BigNum::from(2));
    assert_eq!(parse("5.", Base::Decimal), BigNum::from(5));
}

#[test]
fn numerals_with_a_second_point_or_an_inner_sign() {
    // what follows the first point is a numeral of its own, scaled by its length
    let two_and_three_tenths = BigNum::from(2) + BigNum::from(3) / BigNum::from(10);
    let expected = BigNum::from(1) + &two_and_three_tenths / BigNum::from(1000);
    assert_eq!(parse("1.2.3", Base::Decimal), expected);
    let half = BigNum::from(1) / BigNum::from(2);
    assert_eq!(parse("1.-5", Base::Decimal), BigNum::from(1) - BigNum::from(5) / BigNum::from(100));
    assert_eq!(parse("-1.5", Base::Decimal), -(BigNum::from(1) + half));
}

#[test]
fn invalid_digits_are_refused() {
    assert!(try_parse("12a", Base::Decimal).is_none());
    assert!(try_parse("2", Base::Binary).is_none());
    assert!(try_parse("8", Base::Octal).is_none());
    assert!(try_parse("g", Base::Hexadecimal).is_none());
    assert!(try_parse("1 2", Base::Decimal).is_none());
    assert!(try_parse("+-1", Base::Decimal).is_none());
    assert!(try_parse("1.x", Base::Decimal).is_none());
    assert!(try_parse("é", Base::Base64).is_none());
    assert!(try_parse("=", Base::Base64).is_none());
    assert!(try_parse("12", Base::Decimal).is_some());
    assert!(try_parse("+/", Base::Base64).is_some());
    assert_eq!("12".parse::<BigNum>(), Ok(BigNum::from(12)));
    assert_eq!("1x".parse::<BigNum>(), Err(()));
}

#[test]
fn digit_table() {
    let alphabet = "0123456789abcdefghijklmnopqrstuvwxyzABCDEFGHIJKLMNOPQRSTUVWXYZ+/";
    for (i, c) in alphabet.chars().enumerate() {
        assert_eq!(digit_of(c), Some(i as u32));
        assert_eq!(char_of(i as u8), c);
    }
    assert_eq!(digit_of('-'), None);
    assert_eq!(digit_of('.'), None);
    assert_eq!(digit_of(' '), None);
}

#[test]
fn base_tokens() {
    assert_eq!("2".parse::<Base>().unwrap(), Base::Binary);
    assert_eq!("8".parse::<Base>().unwrap(), Base::Octal);
    assert_eq!("10".parse::<Base>().unwrap(), Base::Decimal);
    assert_eq!("16".parse::<Base>().unwrap(), Base::Hexadecimal);
    assert_eq!("64".parse::<Base>().unwrap(), Base::Base64);
    assert_eq!(Base::Binary.radix(), 2);
    assert_eq!(Base::Octal.radix(), 8);
    assert_eq!(Base::Decimal.radix(), 10);
    assert_eq!(Base::Hexadecimal.radix(), 16);
    assert_eq!(Base::Base64.radix(), 64);
    let err: BaseParseError = "12".parse::<Base>().unwrap_err();
    assert_eq!(err.message(), "Invalid base: `12`");
    assert!(Base::from_token("").is_err());
    assert!(Base::from_token("100").is_err());
    assert!(Base::from_token("1").is_err());
    assert!(Base::from_token("two").is_err());
}

#[test]
fn fraction_digits_stop_at_the_budget() {
    // a third has no finite numeral; two limbs of precision give 38 decimal digits
    let third = BigNum::from(1) / BigNum::from(3);
    let text = encode(third, Base::Decimal);
    assert!(text.starts_with("0.3333333333333333333"));
    assert_eq!(text.len(), 2 + 38);
    let tenth = parse("0.1", Base::Decimal);
    let text = encode(tenth, Base::Binary);
    assert!(text.starts_with("0.000110011001100"));
    assert!(text.len() <= 2 + 128);
}

#[test]
fn default_text_is_decimal() {
    assert_eq!(BigNum::from(1024).to_string(), "1024");
    assert_eq!(BigNum::from(-3).to_string(), "-3");
    let x = BigNum::from(5) / BigNum::from(4);
    assert_eq!(x.to_string(), "1.25");
}

#[test]
fn digits_beyond_the_budget_are_dropped() {
    // 4 / 8^22 is 2^-64, one limb, which is given 21 digits in base 8
    let mut text = String::from("0.");
    for _ in 0..21 {
        text.push('0');
    }
    let kept = text.clone();
    text.push('4');
    let n = parse(&text, Base::Octal);
    assert_eq!(n.get_precision(), 1);
    assert_eq!(encode(n, Base::Octal), kept);
}

#[test]
fn a_leading_plus_is_a_sign_in_every_base() {
    assert_eq!(parse("+", Base::Base64), BigNum::from(0));
    assert_eq!(encode(BigNum::from(62), Base::Base64), "+");
    assert_eq!(parse("++", Base::Base64), BigNum::from(62));
    assert_eq!(parse("1+", Base::Base64), BigNum::from(64 + 62));
}

#[test]
fn a_tenth_has_no_finite_binary_form() {
    let tenth = parse("0.1", Base::Decimal);
    let text = encode(tenth, Base::Decimal);
    assert_ne!(text, "0.1");
    assert!(text.starts_with("0.1000000000000000000") || text.starts_with("0.0999999999999999999"));
}

#[test]
fn small_fractions_get_the_digits_of_their_limbs_only() {
    // 2^-65 has one limb, which is given 64 binary digits after the point
    let mut text = String::from("0.");
    for _ in 0..64 {
        text.push('0');
    }
    let kept = text.clone();
    text.push('1');
    let n = parse(&text, Base::Binary);
    assert_eq!(n.get_precision(), 1);
    assert_eq!(encode(n, Base::Binary), kept);
}
