//! Numbers as text in the bases 2, 8, 10, 16 and 64.
//!
//! The digits are the 64 characters `0-9`, `a-z`, `A-Z`, `+` and `/`; the
//! place of a character in this alphabet is its value.

use vstd::prelude::*;
use vstd::arithmetic::power::{pow, lemma_pow0, lemma_pow_positive};
use vstd::math::abs;
use vstd::string::{StringExecFns, StrSliceExecFns};
use std::str::FromStr;
use crate::big_num::BigNum;
use crate::dyadic::{
    Dyadic, normal_form, lemma_from_int, lemma_int_arithmetic, lemma_nf_order, lemma_nf_plus,
    lemma_nf_times, lemma_nf_rescale, lemma_nf_at, lemma_nf_integer_part, lemma_sign_at,
    lemma_times_scale,
    lemma_normal_form, lemma_normalized_normal,
};
use crate::limbs::Sign;
use crate::power::{checked_quotient, option_view};
use crate::radix::{radix_pow, limb_count, lemma_place_split};

verus! {

/// The base of a numeral.
#[derive(Debug, Clone, Copy, PartialEq, Eq, Structural, PartialOrd, Ord)]
pub enum Base {
    Binary,
    Octal,
    Decimal,
    Hexadecimal,
    Base64,
}

/// Why a token names no base.
#[derive(Debug)]
pub struct BaseParseError {
    message: String,
}

impl BaseParseError {
    /// The text of the error.
    pub closed spec fn text(&self) -> Seq<char> {
        self.message@
    }

    /// The text of the error.
    pub fn message(&self) -> (r: String)
        ensures
            r@ == self.text(),
    {
        self.message.clone()
    }
}

impl Base {
    /// The number of digits of the base.
    pub open spec fn value(self) -> nat {
        match self {
            Base::Binary => 2,
            Base::Octal => 8,
            Base::Decimal => 10,
            Base::Hexadecimal => 16,
            Base::Base64 => 64,
        }
    }

    /// The token that names the base.
    pub open spec fn token(self) -> Seq<char> {
        match self {
            Base::Binary => seq!['2'],
            Base::Octal => seq!['8'],
            Base::Decimal => seq!['1', '0'],
            Base::Hexadecimal => seq!['1', '6'],
            Base::Base64 => seq!['6', '4'],
        }
    }

    /// The number of digits of the base.
    pub fn radix(self) -> (r: u64)
        ensures
            r == self.value(),
            2 <= r <= 64,
    {
        match self {
            Base::Binary => 2,
            Base::Octal => 8,
            Base::Decimal => 10,
            Base::Hexadecimal => 16,
            Base::Base64 => 64,
        }
    }

    /// The base that a token names: one of `2`, `8`, `10`, `16` and `64`.
    /// Any other token is an error whose text quotes the token.
    pub fn from_token(s: &str) -> (r: Result<Base, BaseParseError>)
        ensures
            match r {
                Ok(b) => s@ == b.token(),
                Err(e) => (forall|b: Base| s@ != b.token()) && e.text() == "Invalid base: `"@ + s@
                    + "`"@,
            },
    {
        let n = s.unicode_len();
        if n == 1 {
            let c = s.get_char(0);
            if c == '2' {
                assert(s@ =~= seq!['2']);
                return Ok(Base::Binary);
            }
            if c == '8' {
                assert(s@ =~= seq!['8']);
                return Ok(Base::Octal);
            }
        }
        if n == 2 {
            let c0 = s.get_char(0);
            let c1 = s.get_char(1);
            if c0 == '1' && c1 == '0' {
                assert(s@ =~= seq!['1', '0']);
                return Ok(Base::Decimal);
            }
            if c0 == '1' && c1 == '6' {
                assert(s@ =~= seq!['1', '6']);
                return Ok(Base::Hexadecimal);
            }
            if c0 == '6' && c1 == '4' {
                assert(s@ =~= seq!['6', '4']);
                return Ok(Base::Base64);
            }
        }
        let mut message = "Invalid base: `".to_owned();
        message.append(s);
        message.append("`");
        Err(BaseParseError { message })
    }
}

impl FromStr for Base {
    type Err = BaseParseError;

    /// The base that a token names.
    fn from_str(s: &str) -> (r: Result<Base, BaseParseError>)
        ensures
            match r {
                Ok(b) => s@ == b.token(),
                Err(e) => (forall|b: Base| s@ != b.token()) && e.text() == "Invalid base: `"@ + s@
                    + "`"@,
            },
    {
        Base::from_token(s)
    }
}

/// The value of a digit, or -1 for a character that is no digit.
pub open spec fn digit_value(c: char) -> int {
    if '0' <= c && c <= '9' {
        c as int - 48
    } else if 'a' <= c && c <= 'z' {
        c as int - 87
    } else if 'A' <= c && c <= 'Z' {
        c as int - 29
    } else if c == '+' {
        62
    } else if c == '/' {
        63
    } else {
        -1
    }
}

/// The digit of a value below 64.
pub open spec fn digit_char(d: int) -> char {
    if d < 10 {
        (48 + d) as char
    } else if d < 36 {
        (87 + d) as char
    } else if d < 62 {
        (29 + d) as char
    } else if d == 62 {
        '+'
    } else {
        '/'
    }
}

/// The alphabet is a one-to-one table between the 64 digits and their
/// values.
pub proof fn lemma_digit_table(c: char, d: int)
    ensures
        -1 <= digit_value(c) < 64,
        digit_value(c) >= 0 ==> digit_char(digit_value(c)) == c,
        0 <= d < 64 ==> digit_value(digit_char(d)) == d,
        digit_value('-') == -1,
        digit_value('.') == -1,
{
}

/// The value of a digit, or `None` for a character that is no digit.
pub fn digit_of(c: char) -> (r: Option<u32>)
    ensures
        match r {
            Some(d) => d == digit_value(c),
            None => digit_value(c) == -1,
        },
{
    if '0' <= c && c <= '9' {
        Some(c as u32 - 48)
    } else if 'a' <= c && c <= 'z' {
        Some(c as u32 - 87)
    } else if 'A' <= c && c <= 'Z' {
        Some(c as u32 - 29)
    } else if c == '+' {
        Some(62)
    } else if c == '/' {
        Some(63)
    } else {
        None
    }
}

/// The digit of a value below 64.
pub fn char_of(d: u8) -> (c: char)
    requires
        d < 64,
    ensures
        c == digit_char(d as int),
{
    if d < 10 {
        (48u8 + d) as char
    } else if d < 36 {
        (87u8 + d) as char
    } else if d < 62 {
        (29u8 + d) as char
    } else if d == 62 {
        '+'
    } else {
        '/'
    }
}

/// The number that a row of digits spells in a base, or `None` where a
/// character is no digit of the base. The empty row spells zero.
pub open spec fn digits_value(s: Seq<char>, base: nat) -> Option<nat>
    decreases s.len(),
{
    if s.len() == 0 {
        Some(0)
    } else {
        let d = digit_value(s.last());
        match digits_value(s.drop_last(), base) {
            Some(v) => if 0 <= d < base {
                Some((v * base + d) as nat)
            } else {
                None
            },
            None => None,
        }
    }
}

/// The place of the first point at or after `i`, or the length where there
/// is none.
pub open spec fn point_from(s: Seq<char>, i: nat) -> nat
    decreases s.len() - i,
{
    if i >= s.len() {
        s.len()
    } else if s[i as int] == '.' {
        i
    } else {
        point_from(s, i + 1)
    }
}

/// A numeral without its sign: the leading `-`, and a `+` after it or in its
/// place, are taken off.
pub open spec fn unsigned_part(s: Seq<char>) -> Seq<char> {
    let s1 = if s.len() > 0 && s[0] == '-' {
        s.skip(1)
    } else {
        s
    };
    if s1.len() > 0 && s1[0] == '+' {
        s1.skip(1)
    } else {
        s1
    }
}

/// The number that a numeral without sign spells in a base, or `None`
/// where it spells none.
///
/// Where it holds a point, what stands before the first point and what
/// stands after it are read as numerals of their own, and the second,
/// divided by the base to the power of its length, is added to the first.
/// Else the numeral is a row of digits.
pub open spec fn unsigned_value(s: Seq<char>, base: nat) -> Option<Dyadic>
    decreases s.len(), 0nat,
{
    let i = point_from(s, 0);
    if i < s.len() {
        let after = s.skip(i as int + 1);
        match numeral_value(s.take(i as int), base) {
            None => None,
            Some(whole) => match numeral_value(after, base) {
                None => None,
                Some(part) => match checked_quotient(
                    part,
                    Dyadic::from_int(pow(base as int, after.len())),
                ) {
                    None => None,
                    Some(fraction) => Some(whole.plus(fraction)),
                },
            },
        }
    } else {
        match digits_value(s, base) {
            Some(v) => Some(Dyadic::from_int(v as int)),
            None => None,
        }
    }
}

/// The number that a numeral spells in a base, or `None` where it spells
/// none: the number of the numeral without its sign, negated where the
/// numeral begins with `-`.
pub open spec fn numeral_value(s: Seq<char>, base: nat) -> Option<Dyadic>
    decreases s.len(), 1nat,
{
    match unsigned_value(unsigned_part(s), base) {
        Some(m) => Some(
            if s.len() > 0 && s[0] == '-' {
                m.negated()
            } else {
                m
            },
        ),
        None => None,
    }
}

/// The characters of a string.
fn chars_of(s: &str) -> (v: Vec<char>)
    ensures
        v@ == s@,
{
    let n = s.unicode_len();
    let mut v: Vec<char> = Vec::new();
    let mut i: usize = 0;
    while i < n
        invariant
            n == s@.len(),
            i <= n,
            v@ == s@.take(i as int),
        decreases n - i,
    {
        v.push(s.get_char(i));
        proof {
            assert(v@ =~= s@.take(i + 1));
        }
        i += 1;
    }
    proof {
        assert(s@.take(n as int) =~= s@);
    }
    v
}

/// The characters of `v` from `from` up to `to`.
fn sub_chars(v: &Vec<char>, from: usize, to: usize) -> (r: Vec<char>)
    requires
        from <= to <= v.len(),
    ensures
        r@ == v@.subrange(from as int, to as int),
{
    let mut r: Vec<char> = Vec::new();
    let mut i: usize = from;
    while i < to
        invariant
            from <= i <= to,
            to <= v.len(),
            r@ == v@.subrange(from as int, i as int),
        decreases to - i,
    {
        r.push(v[i]);
        proof {
            assert(r@ =~= v@.subrange(from as int, i + 1));
        }
        i += 1;
    }
    r
}

/// The number of `base` to the power `count`.
fn integer_power(base: Base, count: usize) -> (r: BigNum)
    ensures
        r@ == Dyadic::from_int(pow(base.value() as int, count as nat)),
        !r@.is_zero(),
        r.is_canonical(),
{
    let big_base = BigNum::from(base.radix());
    let mut result = BigNum::one();
    let mut i: usize = 0;
    proof {
        lemma_pow0(base.value() as int);
        lemma_from_int(1);
    }
    while i < count
        invariant
            i <= count,
            big_base@ == Dyadic::from_int(base.value() as int),
            result@ == Dyadic::from_int(pow(base.value() as int, i as nat)),
            result.is_canonical(),
        decreases count - i,
    {
        proof {
            let p = pow(base.value() as int, i as nat);
            lemma_int_arithmetic(p, base.value() as int);
            lemma_from_int(p * base.value());
            vstd::arithmetic::power::lemma_pow_adds(base.value() as int, i as nat, 1);
            vstd::arithmetic::power::lemma_pow1(base.value() as int);
        }
        result = result.times(&big_base);
        i += 1;
    }
    proof {
        lemma_pow_positive(base.value() as int, count as nat);
        lemma_from_int(pow(base.value() as int, count as nat));
    }
    result
}

/// The number that a row of digits spells, read from the left: the number
/// so far times the base, plus the digit.
fn parse_digits(s: &Vec<char>, base: Base) -> (r: Option<BigNum>)
    ensures
        match digits_value(s@, base.value()) {
            Some(v) => r is Some && r->0@ == Dyadic::from_int(v as int) && r->0.is_canonical(),
            None => r is None,
        },
{
    let big_base = BigNum::from(base.radix());
    let mut result = BigNum::new();
    let ghost mut v: nat = 0;
    let mut i: usize = 0;
    proof {
        assert(s@.take(0) =~= Seq::<char>::empty());
        lemma_from_int(0);
    }
    while i < s.len()
        invariant
            i <= s.len(),
            big_base@ == Dyadic::from_int(base.value() as int),
            digits_value(s@.take(i as int), base.value()) == Some(v),
            result@ == Dyadic::from_int(v as int),
            result.is_canonical(),
        decreases s.len() - i,
    {
        let ghost prefix = s@.take(i + 1);
        proof {
            assert(prefix.drop_last() =~= s@.take(i as int));
            assert(prefix.last() == s[i as int]);
        }
        let digit = match digit_of(s[i]) {
            None => {
                proof {
                    lemma_digits_value_none(s@, (i + 1) as nat, base.value());
                }
                return None;
            },
            Some(d) => d,
        };
        if digit as u64 >= base.radix() {
            proof {
                lemma_digits_value_none(s@, (i + 1) as nat, base.value());
            }
            return None;
        }
        proof {
            lemma_int_arithmetic(v as int, base.value() as int);
            lemma_from_int((v * base.value()) as int);
            lemma_int_arithmetic((v * base.value()) as int, digit as int);
            assert(v * base.value() >= 0) by (nonlinear_arith)
                requires
                    v >= 0,
                    base.value() >= 0,
            ;
        }
        let scaled = result.times(&big_base);
        result = scaled.plus(&BigNum::from(digit));
        proof {
            v = (v * base.value() + digit) as nat;
        }
        i += 1;
    }
    proof {
        assert(s@.take(s.len() as int) =~= s@);
    }
    Some(result)
}

/// Where a prefix of a row spells no number, the row spells none.
pub proof fn lemma_digits_value_none(s: Seq<char>, n: nat, base: nat)
    requires
        n <= s.len(),
        digits_value(s.take(n as int), base) is None,
    ensures
        digits_value(s, base) is None,
    decreases s.len() - n,
{
    if n < s.len() {
        assert(s.take(n as int + 1).drop_last() =~= s.take(n as int));
        lemma_digits_value_none(s, n + 1, base);
    } else {
        assert(s.take(n as int) =~= s);
    }
}

/// The number that a numeral without sign spells, or `None` where it
/// spells none.
fn parse_unsigned(s: &Vec<char>, base: Base) -> (r: Option<BigNum>)
    ensures
        option_view(r) == unsigned_value(s@, base.value()),
        r is Some ==> r->0.is_canonical(),
    decreases s.len(), 0nat,
{
    let n = s.len();
    let mut i: usize = 0;
    while i < n && s[i] != '.'
        invariant
            i <= n,
            n == s.len(),
            point_from(s@, 0) == point_from(s@, i as nat),
        decreases n - i,
    {
        i += 1;
    }
    if i < n {
        let before = sub_chars(s, 0, i);
        let after = sub_chars(s, i + 1, n);
        proof {
            assert(before@ =~= s@.take(i as int));
            assert(after@ =~= s@.skip(i + 1));
        }
        let whole = match parse_chars(&before, base) {
            None => {
                return None;
            },
            Some(v) => v,
        };
        let part = match parse_chars(&after, base) {
            None => {
                return None;
            },
            Some(v) => v,
        };
        let scale = integer_power(base, after.len());
        let fraction = match part.checked_div(&scale) {
            None => {
                return None;
            },
            Some(v) => v,
        };
        Some(whole.plus(&fraction))
    } else {
        parse_digits(s, base)
    }
}

/// The number that a numeral spells, or `None` where it spells none.
fn parse_chars(s: &Vec<char>, base: Base) -> (r: Option<BigNum>)
    ensures
        option_view(r) == numeral_value(s@, base.value()),
        r is Some ==> r->0.is_canonical(),
    decreases s.len(), 1nat,
{
    let n = s.len();
    let negative = n > 0 && s[0] == '-';
    let mut start: usize = 0;
    if negative {
        start = 1;
    }
    if start < n && s[start] == '+' {
        start += 1;
    }
    let rest = sub_chars(s, start, n);
    proof {
        if negative {
            assert(s@.skip(1).skip(start - 1) =~= s@.skip(start as int));
        } else {
            assert(s@.skip(0) =~= s@);
            assert(s@.skip(0).skip(start as int) =~= s@.skip(start as int));
        }
        assert(rest@ =~= unsigned_part(s@));
    }
    match parse_unsigned(&rest, base) {
        None => None,
        Some(magnitude) => if negative {
            Some(magnitude.negated())
        } else {
            Some(magnitude)
        },
    }
}

/// The number that a numeral spells in a base, or `None` where a character
/// is no digit of the base.
pub fn try_parse(input: &str, base: Base) -> (r: Option<BigNum>)
    ensures
        option_view(r) == numeral_value(input@, base.value()),
        r is Some ==> r->0.is_canonical(),
{
    let chars = chars_of(input);
    parse_chars(&chars, base)
}

/// The number that a numeral spells in a base.
pub fn parse(input: &str, base: Base) -> (r: BigNum)
    requires
        numeral_value(input@, base.value()) is Some,
    ensures
        Some(r@) == numeral_value(input@, base.value()),
        r.is_canonical(),
{
    try_parse(input, base).unwrap()
}

/// The place of the highest digit of `n` in a base: zero for a number below
/// the base.
pub open spec fn top_place(n: nat, base: nat) -> nat
    decreases n,
    via top_place_decreases
{
    if base < 2 || n < base {
        0
    } else {
        1 + top_place(n / base, base)
    }
}

/// The quotient by the base is smaller than the number.
#[via_fn]
proof fn top_place_decreases(n: nat, base: nat) {
    if base >= 2 && n >= base {
        vstd::arithmetic::div_mod::lemma_div_decreases(n as int, base as int);
        vstd::arithmetic::div_mod::lemma_div_pos_is_pos(n as int, base as int);
    }
}

/// The digits of `n` from the place `j` down to the place zero, for a
/// number below the base to the power `j + 1`: the digit at a place is the
/// quotient by the power of the base at the place, and the remainder goes
/// to the places below.
pub open spec fn digits_from_place(n: nat, base: nat, j: nat) -> Seq<char>
    decreases j,
{
    if j == 0 {
        seq![digit_char(n as int)]
    } else {
        let p = pow(base as int, j);
        seq![digit_char(n as int / p)] + digits_from_place(
            (n as int % p) as nat,
            base,
            (j - 1) as nat,
        )
    }
}

/// The digits of a natural number in a base, without leading zeros; zero
/// is the one digit `0`.
pub open spec fn whole_digits(n: nat, base: nat) -> Seq<char> {
    digits_from_place(n, base, top_place(n, base))
}

/// The first `count` digits of a number from zero up to one after the
/// point, or fewer where the number comes out even: the number times the
/// base has the next digit as its integer part, and what is left goes on.
pub open spec fn fraction_digits(f: Dyadic, base: nat, count: nat) -> Seq<char>
    decreases count,
{
    if f.is_zero() || count == 0 {
        Seq::<char>::empty()
    } else {
        let g = f.times(Dyadic::from_int(base as int));
        let d = g.integer_part();
        seq![digit_char(d.to_int())] + fraction_digits(g.minus(d), base, (count - 1) as nat)
    }
}

/// The most digits after the point that a number of `limbs` limbs is given:
/// `64 * limbs` bits divided by the bits of one digit, rounded down.
pub open spec fn digit_budget(limbs: nat, base: nat) -> nat {
    if base == 2 {
        64 * limbs
    } else if base == 8 {
        64 * limbs / 3
    } else if base == 16 {
        16 * limbs
    } else if base == 64 {
        64 * limbs / 6
    } else {
        limbs * 19265919722494796 / 1000000000000000
    }
}

/// The numeral of a number in a base: `0` for zero; else a `-` for a
/// negative number, the digits of the integer part of the magnitude, and,
/// where a fractional part is left, a point and its digits up to the
/// budget of the number's limbs.
pub open spec fn numeral_of(x: Dyadic, base: nat) -> Seq<char> {
    if x.is_zero() {
        seq!['0']
    } else {
        let sign = if x.is_negative() {
            seq!['-']
        } else {
            Seq::<char>::empty()
        };
        let m = x.magnitude();
        let whole = m.integer_part();
        let frac = m.minus(whole);
        let budget = digit_budget(limb_count(abs(x.mant)), base);
        let tail = if frac.is_zero() {
            Seq::<char>::empty()
        } else {
            seq!['.'] + fraction_digits(frac, base, budget)
        };
        sign + whole_digits(whole.to_int() as nat, base) + tail
    }
}

/// A number between two neighbouring powers of the base has its highest
/// digit at the place of the lower one.
pub proof fn lemma_top_place(n: nat, base: nat, j: nat)
    requires
        base >= 2,
        n < pow(base as int, j + 1),
        j > 0 ==> pow(base as int, j) <= n,
    ensures
        top_place(n, base) == j,
    decreases j,
{
    vstd::arithmetic::power::lemma_pow1(base as int);
    if j == 0 {
    } else {
        let p = pow(base as int, j);
        let lower = pow(base as int, (j - 1) as nat);
        vstd::arithmetic::power::lemma_pow_adds(base as int, 1, (j - 1) as nat);
        vstd::arithmetic::power::lemma_pow_adds(base as int, 1, j);
        vstd::arithmetic::power::lemma_pow_positive(base as int, (j - 1) as nat);
        assert(p == base * lower);
        assert(pow(base as int, j + 1) == base * p);
        assert(n >= base) by (nonlinear_arith)
            requires
                n >= base * lower,
                lower >= 1,
                base >= 2,
        ;
        let q = n / base;
        assert(q < p && (j > 1 ==> lower <= q) && q >= lower) by (nonlinear_arith)
            requires
                q == n / base,
                n < base * p,
                n >= base * lower,
                base >= 2,
                p == base * lower,
        ;
        lemma_top_place(q, base, (j - 1) as nat);
    }
}

/// The digit budget of a number of `limbs` limbs.
fn digit_budget_of(limbs: usize, base: Base) -> (r: u128)
    ensures
        r == digit_budget(limbs as nat, base.value()),
{
    let n = limbs as u128;
    match base {
        Base::Binary => 64 * n,
        Base::Octal => 64 * n / 3,
        Base::Decimal => n * 19265919722494796 / 1000000000000000,
        Base::Hexadecimal => 16 * n,
        Base::Base64 => 64 * n / 6,
    }
}

/// The numeral of a number in a base.
///
/// The integer part is found without division: the powers of the base up
/// to the number are made by repeated multiplication, and from the largest
/// down each is taken off the number as often as it fits; the count is the
/// digit. The digits after the point come from multiplying what is left by
/// the base and taking the integer part, until nothing is left or the
/// budget of digits is used up.
#[verifier::rlimit(40)]
pub fn encode(input: BigNum, base: Base) -> (r: String)
    ensures
        r@ == numeral_of(input@, base.value()),
{
    let mut result = String::new();
    let big_base = BigNum::from(base.radix());
    let (limbs, _) = input.normal_parts();
    let budget = digit_budget_of(limbs.len(), base);
    if input.is_zero() {
        result.push('0');
        proof {
            assert(result@ =~= seq!['0']);
        }
        return result;
    }
    let negative = input.sign() == Sign::Negative;
    if negative {
        result.push('-');
    }
    let ghost head = result@;
    let x = if negative {
        input.negated()
    } else {
        let mut m = input.clone();
        m.compact();
        m
    };
    let ghost b = base.value() as int;
    let ghost e = vstd::math::min(x@.scale, 0);
    let ghost u = radix_pow((-e) as nat);
    let ghost xv = x@.at(e);
    let ghost n = xv / u;
    proof {
        input.lemma_view();
        x.lemma_view();
        lemma_normalized_normal(input@);
        lemma_normal_form(-input@.mant, input@.scale);
        lemma_normal_form(abs(input@.mant) as int, input@.scale);
        assert(x@ == input@.magnitude());
        lemma_sign_at(x@, e);
        lemma_nf_at(x@, e);
        lemma_nf_integer_part(xv, e);
        lemma_from_int(n);
        lemma_from_int(b);
        vstd::arithmetic::div_mod::lemma_div_pos_is_pos(xv, u);
        vstd::arithmetic::div_mod::lemma_fundamental_div_mod(xv, u);
        vstd::arithmetic::div_mod::lemma_mod_pos_bound(xv, u);
        // the fractional part at the scale e
        lemma_nf_rescale(n, 0, (-e) as nat);
        lemma_nf_plus(xv, n * u, e);
        assert(u * n == n * u) by (nonlinear_arith);
    }
    // the powers of the base up to the number
    let mut places: Vec<BigNum> = Vec::new();
    places.push(BigNum::one());
    proof {
        lemma_pow0(b);
        lemma_from_int(1);
        assert(1 * u == u);
    }
    loop
        invariant
            places.len() >= 1,
            b == base.value(),
            2 <= b <= 64,
            u >= 1,
            big_base@ == Dyadic::from_int(b),
            x@ == normal_form(xv, e),
            e <= 0,
            u == radix_pow((-e) as nat),
            forall|j: int|
                0 <= j < places.len() ==> (#[trigger] places[j])@ == Dyadic::from_int(pow(b, j as nat)),
            places.len() > 1 ==> pow(b, (places.len() - 1) as nat) * u <= xv,
        ensures
            xv < pow(b, places.len() as nat) * u,
        decreases vstd::math::clip(xv + 1 - pow(b, (places.len() - 1) as nat) * u),
    {
        let last = places.len() - 1;
        let ghost p = pow(b, last as nat);
        proof {
            lemma_int_arithmetic(p, b);
            vstd::arithmetic::power::lemma_pow_adds(b, last as nat, 1);
            vstd::arithmetic::power::lemma_pow1(b);
            lemma_pow_positive(b, last as nat);
            lemma_from_int(p * b);
            lemma_nf_rescale(p * b, 0, (-e) as nat);
            lemma_nf_order(p * b * u, xv, e);
            assert(p * b * u > p * u) by (nonlinear_arith)
                requires
                    p >= 1,
                    b >= 2,
                    u >= 1,
            ;
        }
        let next = places[last].times(&big_base);
        if !next.at_most(&x) {
            break ;
        }
        places.push(next);
        proof {
            assert(pow(b, (places.len() - 1) as nat) == p * b);
        }
    }
    let top = places.len() - 1;
    proof {
        let p = pow(b, top as nat);
        let upper = pow(b, (top + 1) as nat);
        vstd::arithmetic::power::lemma_pow_adds(b, top as nat, 1);
        vstd::arithmetic::power::lemma_pow1(b);
        lemma_pow_positive(b, top as nat);
        lemma_pow_positive(b, (top + 1) as nat);
        lemma_from_int(p * b);
        lemma_nf_rescale(p * b, 0, (-e) as nat);
        lemma_nf_order(p * b * u, xv, e);
        // n lies between the two powers
        assert(n < upper) by (nonlinear_arith)
            requires
                xv < upper * u,
                xv == u * n + xv % u,
                xv % u >= 0,
                u >= 1,
                upper == p * b,
        ;
        if top > 0 {
            assert(p <= n) by (nonlinear_arith)
                requires
                    p * u <= xv,
                    xv == u * n + xv % u,
                    xv % u < u,
                    u >= 1,
            ;
        }
        lemma_top_place(n as nat, b as nat, top as nat);
    }
    // from the largest power down, each is taken off as often as it fits
    let mut remainder = x.clone();
    let ghost mut rv: int = xv;
    let mut k: usize = places.len();
    proof {
        assert(result@ + digits_from_place((rv / u) as nat, b as nat, (k - 1) as nat) =~= head
            + whole_digits(n as nat, b as nat));
    }
    while k > 0
        invariant
            k <= places.len(),
            b == base.value(),
            2 <= b <= 64,
            u >= 1,
            e <= 0,
            u == radix_pow((-e) as nat),
            forall|j: int|
                0 <= j < places.len() ==> (#[trigger] places[j])@ == Dyadic::from_int(pow(b, j as nat)),
            remainder@ == normal_form(rv, e),
            0 <= rv < pow(b, k as nat) * u,
            rv % u == xv % u,
            k > 0 ==> result@ + digits_from_place((rv / u) as nat, b as nat, (k - 1) as nat)
                == head + whole_digits(n as nat, b as nat),
            k == 0 ==> result@ == head + whole_digits(n as nat, b as nat),
        decreases k,
    {
        let j = k - 1;
        let ghost p = pow(b, j as nat);
        let ghost pu = p * u;
        let ghost r0 = rv;
        proof {
            lemma_pow0(b);
            lemma_pow_positive(b, j as nat);
            vstd::arithmetic::power::lemma_pow_adds(b, j as nat, 1);
            vstd::arithmetic::power::lemma_pow1(b);
            lemma_from_int(p);
            lemma_nf_rescale(p, 0, (-e) as nat);
            assert(pu >= 1) by (nonlinear_arith)
                requires
                    pu == p * u,
                    p >= 1,
                    u >= 1,
            ;
            assert(pow(b, k as nat) * u == b * pu) by (nonlinear_arith)
                requires
                    pow(b, k as nat) == p * b,
                    pu == p * u,
            ;
        }
        let mut digit: u8 = 0;
        while !remainder.less_than(&places[j])
            invariant
                j < places.len(),
                places[j as int]@ == normal_form(pu, e),
                remainder@ == normal_form(rv, e),
                pu >= 1,
                2 <= b <= 64,
                0 <= rv,
                r0 == rv + digit * pu,
                r0 < b * pu,
                digit < b,
            decreases rv,
        {
            proof {
                lemma_nf_order(rv, pu, e);
                lemma_nf_plus(rv, pu, e);
                assert((digit + 1) * pu == digit * pu + pu) by (nonlinear_arith);
                assert(digit + 1 < b) by (nonlinear_arith)
                    requires
                        r0 == rv + digit * pu,
                        rv >= pu,
                        r0 < b * pu,
                        pu >= 1,
                        digit >= 0,
                ;
            }
            remainder = remainder.minus(&places[j]);
            digit = digit + 1;
            proof {
                rv = rv - pu;
            }
        }
        proof {
            lemma_nf_order(rv, pu, e);
            assert(digit * pu == pu * digit) by (nonlinear_arith);
            vstd::arithmetic::div_mod::lemma_fundamental_div_mod_converse(
                r0,
                pu,
                digit as int,
                rv,
            );
            assert(pu == u * p) by (nonlinear_arith)
                requires
                    pu == p * u,
            ;
            lemma_place_split(r0, u, p);
            if j > 0 {
                assert(digits_from_place((r0 / u) as nat, b as nat, j as nat) =~= seq![
                    digit_char(digit as int),
                ] + digits_from_place((rv / u) as nat, b as nat, (j - 1) as nat));
                assert(result@.push(digit_char(digit as int)) + digits_from_place(
                    (rv / u) as nat,
                    b as nat,
                    (j - 1) as nat,
                ) =~= result@ + digits_from_place((r0 / u) as nat, b as nat, j as nat));
            } else {
                vstd::arithmetic::div_mod::lemma_div_basics(r0 / u);
                assert(p == 1);
                assert(pu == u) by (nonlinear_arith)
                    requires
                        pu == p * u,
                        p == 1,
                ;
                assert(result@.push(digit_char(digit as int)) =~= result@ + digits_from_place(
                    (r0 / u) as nat,
                    b as nat,
                    0,
                ));
            }
        }
        result.push(char_of(digit));
        k = j;
    }
    proof {
        lemma_pow0(b);
        vstd::arithmetic::div_mod::lemma_small_mod(rv as nat, u as nat);
        assert(rv == xv % u);
        assert(xv - n * u == xv % u);
    }
    // the digits after the point
    if !remainder.is_zero() {
        result.push('.');
        let ghost whole_text = result@;
        let mut count: u128 = 0;
        proof {
            lemma_nf_order(rv, 0, e);
            assert(result@ + fraction_digits(remainder@, b as nat, (budget - count) as nat)
                =~= numeral_of(input@, b as nat));
        }
        while !remainder.is_zero() && count < budget
            invariant
                b == base.value(),
                2 <= b <= 64,
                u >= 1,
                e <= 0,
                u == radix_pow((-e) as nat),
                big_base@ == Dyadic::from_int(b),
                remainder@ == normal_form(rv, e),
                0 <= rv < u,
                e >= -0x8000_0000,
                count <= budget,
                result@ + fraction_digits(remainder@, b as nat, (budget - count) as nat)
                    == numeral_of(input@, b as nat),
            decreases budget - count,
        {
            let ghost gv = rv * b;
            let ghost dv = gv / u;
            proof {
                lemma_from_int(b);
                remainder.lemma_view();
                lemma_times_scale(remainder@, big_base@);
                lemma_nf_times(rv, e, b, 0);
                assert(0 <= gv < b * u) by (nonlinear_arith)
                    requires
                        gv == rv * b,
                        0 <= rv < u,
                        b >= 2,
                ;
                lemma_nf_integer_part(gv, e);
                vstd::arithmetic::div_mod::lemma_div_pos_is_pos(gv, u);
                vstd::arithmetic::div_mod::lemma_fundamental_div_mod(gv, u);
                vstd::arithmetic::div_mod::lemma_mod_pos_bound(gv, u);
                assert(dv < b) by (nonlinear_arith)
                    requires
                        gv < b * u,
                        gv == u * dv + gv % u,
                        gv % u >= 0,
                        u >= 1,
                ;
                lemma_from_int(dv);
                lemma_normal_form(dv, 0);
                lemma_nf_rescale(dv, 0, (-e) as nat);
                lemma_nf_plus(gv, dv * u, e);
                assert(u * dv == dv * u) by (nonlinear_arith);
            }
            let scaled = remainder.times(&big_base);
            let digit = scaled.get_integer_part_ref();
            let ghost before = remainder@;
            remainder = scaled.minus(&digit);
            let d = digit.to_u64();
            proof {
                assert(d == dv);
                assert(fraction_digits(before, b as nat, (budget - count) as nat) =~= seq![
                    digit_char(dv),
                ] + fraction_digits(remainder@, b as nat, (budget - count - 1) as nat));
                assert(result@.push(digit_char(dv)) + fraction_digits(
                    remainder@,
                    b as nat,
                    (budget - count - 1) as nat,
                ) =~= result@ + fraction_digits(before, b as nat, (budget - count) as nat));
                rv = gv % u;
            }
            result.push(char_of(d as u8));
            count = count + 1;
        }
        proof {
            assert(fraction_digits(remainder@, b as nat, (budget - count) as nat)
                =~= Seq::<char>::empty());
            assert(result@ + Seq::<char>::empty() =~= result@);
        }
    } else {
        proof {
            lemma_nf_order(rv, 0, e);
            assert(result@ =~= numeral_of(input@, b as nat));
        }
    }
    result
}

impl BigNum {
    /// The numeral of the number in base ten, its default text.
    pub fn to_string(&self) -> (r: String)
        ensures
            r@ == numeral_of(self@, 10),
    {
        encode(self.clone(), Base::Decimal)
    }
}

impl FromStr for BigNum {
    type Err = ();

    /// The number that a numeral in base ten spells.
    fn from_str(s: &str) -> (r: Result<BigNum, ()>)
        ensures
            match r {
                Ok(n) => Some(n@) == numeral_value(s@, 10),
                Err(_) => numeral_value(s@, 10) is None,
            },
    {
        match try_parse(s, Base::Decimal) {
            Some(v) => Ok(v),
            None => Err(()),
        }
    }
}

} // verus!
