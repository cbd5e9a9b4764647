//! The greatest common divisor, powers and roots.

use vstd::prelude::*;
use vstd::math::abs;
use crate::big_num::BigNum;
use crate::dyadic::{
    Dyadic, normal_form, lemma_from_int, lemma_integer_is, lemma_int_arithmetic, lemma_at_self,
    lemma_at_rescale, lemma_same_at, lemma_normal_form, lemma_normal_form_is, lemma_sign_at,
    lemma_normalized_normal,
};
use crate::radix::{radix_pow, limbs_value, lemma_radix_pow_step, lemma_limbs_value_push};

verus! {

/// The greatest common divisor of two natural numbers, by Euclid's
/// algorithm.
pub open spec fn gcd_of(a: nat, b: nat) -> nat
    decreases b,
{
    if b == 0 {
        a
    } else {
        gcd_of(b, a % b)
    }
}

/// The number, where the machine representation can hold it.
pub open spec fn checked(d: Dyadic) -> Option<Dyadic> {
    if d.representable() {
        Some(d)
    } else {
        None
    }
}

/// The quotient, where the divisor is not zero and the machine
/// representation can hold the quotient.
pub open spec fn checked_quotient(a: Dyadic, b: Dyadic) -> Option<Dyadic> {
    if b.is_zero() {
        None
    } else {
        checked(a.divided_by(b))
    }
}

/// The number that a value stands for, where there is a value.
pub open spec fn option_view(r: Option<BigNum>) -> Option<Dyadic> {
    match r {
        Some(x) => Some(x@),
        None => None,
    }
}

/// One multiplied `n` times by `a`, where every product on the way can be
/// held.
pub open spec fn power_by_count(a: Dyadic, n: nat) -> Option<Dyadic>
    decreases n,
{
    if n == 0 {
        Some(Dyadic::one())
    } else {
        match power_by_count(a, (n - 1) as nat) {
            Some(p) => checked(p.times(a)),
            None => None,
        }
    }
}

/// The power of `a` by the integer part of the exponent `e`, which is not
/// negative: one for zero, `a` for one, else by repeated multiplication.
pub open spec fn power_whole(a: Dyadic, e: Dyadic) -> Option<Dyadic> {
    if e.is_zero() {
        Some(Dyadic::one())
    } else if e == Dyadic::one() {
        Some(a)
    } else {
        power_by_count(a, vstd::math::clip(e.integer_part().to_int()))
    }
}

/// One step of Newton's method for the root of degree `m + 1`:
/// `f1 * x + f2 / x^m`.
pub open spec fn newton_step(x: Dyadic, f1: Dyadic, f2: Dyadic, m: Dyadic) -> Option<Dyadic> {
    match checked(f1.times(x)) {
        None => None,
        Some(left) => match power_whole(x, m) {
            None => None,
            Some(pw) => match checked_quotient(f2, pw) {
                None => None,
                Some(right) => Some(left.plus(right)),
            },
        },
    }
}

/// `steps` steps of Newton's method from `x`.
pub open spec fn newton_iterate(
    x: Dyadic,
    f1: Dyadic,
    f2: Dyadic,
    m: Dyadic,
    steps: nat,
) -> Option<Dyadic>
    decreases steps,
{
    if steps == 0 {
        Some(x)
    } else {
        match newton_step(x, f1, f2, m) {
            None => None,
            Some(y) => newton_iterate(y, f1, f2, m, (steps - 1) as nat),
        }
    }
}

/// The root of `a` of the degree `n`, an integer that is not negative, by
/// 100 steps of Newton's method from `a` itself: each step replaces `x` by
/// `((n - 1) / n) * x + (a / n) / x^(n - 1)`. There is no result where a
/// division is by zero or a number on the way cannot be held.
pub open spec fn newton_root(a: Dyadic, n: Dyadic) -> Option<Dyadic> {
    let m = n.minus(Dyadic::one());
    match checked_quotient(m, n) {
        None => None,
        Some(f1) => match checked_quotient(a, n) {
            None => None,
            Some(f2) => newton_iterate(a, f1, f2, m, 100),
        },
    }
}

/// The power of `a` by an exponent `e` that is not negative. The integer
/// part of `e` is applied by repeated multiplication. A fractional part is
/// written as a fraction of its mantissa over a power of the radix, reduced
/// by their greatest common divisor; `a` is raised to the numerator, the
/// root of the degree of the denominator is taken, and the result is
/// multiplied in.
pub open spec fn power_nonnegative(a: Dyadic, e: Dyadic) -> Option<Dyadic> {
    if e.is_zero() {
        Some(Dyadic::one())
    } else if e == Dyadic::one() {
        Some(a)
    } else {
        let frac = e.fractional_part();
        match power_by_count(a, vstd::math::clip(e.integer_part().to_int())) {
            None => None,
            Some(whole) => if frac.is_zero() {
                Some(whole)
            } else {
                let numerator = normal_form(abs(frac.mant) as int, 0);
                let denominator = Dyadic { mant: 1, scale: -frac.scale };
                let common = Dyadic::from_int(
                    gcd_of(numerator.to_int() as nat, denominator.to_int() as nat) as int,
                );
                match checked_quotient(numerator, common) {
                    None => None,
                    Some(num) => match checked_quotient(denominator, common) {
                        None => None,
                        Some(den) => match power_whole(a, num) {
                            None => None,
                            Some(raised) => match newton_root(raised, den) {
                                None => None,
                                Some(rooted) => checked(whole.times(rooted)),
                            },
                        },
                    },
                }
            },
        }
    }
}

/// The power of `a` by the exponent `e`; for a negative exponent the
/// reciprocal of the power by the negated exponent. There is no result
/// where a division is by zero or a number on the way cannot be held.
pub open spec fn power(a: Dyadic, e: Dyadic) -> Option<Dyadic> {
    if e.is_negative() {
        match power_nonnegative(a, e.negated()) {
            None => None,
            Some(p) => checked_quotient(Dyadic::one(), p),
        }
    } else {
        power_nonnegative(a, e)
    }
}

/// The root of `a` of the degree `r`. For a degree that is negative or has
/// a fractional part it is the power of `a` by the reciprocal of the degree.
pub open spec fn root_of(a: Dyadic, r: Dyadic) -> Option<Dyadic> {
    if r.is_negative() || !r.fractional_part().is_zero() {
        match checked_quotient(Dyadic::one(), r) {
            None => None,
            Some(inverse) => power(a, inverse),
        }
    } else {
        newton_root(a, r)
    }
}

/// The remainder of two integers that are not negative, as numbers, is the
/// number of their remainder as integers.
pub proof fn lemma_remainder_int(x: Dyadic, y: Dyadic)
    requires
        x.normal(),
        y.normal(),
        x.scale >= 0,
        y.scale >= 0,
        x.mant >= 0,
        y.mant > 0,
    ensures
        x.remainder(y) == Dyadic::from_int(x.to_int() % y.to_int()),
        x.to_int() >= 0,
        y.to_int() > 0,
        0 <= x.to_int() % y.to_int() < y.to_int(),
{
    let e = vstd::math::min(x.scale, y.scale);
    let p = radix_pow(e as nat);
    lemma_radix_pow_step(e as nat);
    lemma_at_rescale(x, e, 0);
    lemma_at_rescale(y, e, 0);
    lemma_sign_at(x, e);
    lemma_sign_at(y, e);
    lemma_sign_at(x, 0);
    lemma_sign_at(y, 0);
    lemma_same_at(x, y, 0);
    let xe = x.at(e);
    let ye = y.at(e);
    vstd::arithmetic::div_mod::lemma_mod_pos_bound(x.to_int(), y.to_int());
    if x.lt(y) {
        vstd::arithmetic::div_mod::lemma_small_mod(x.to_int() as nat, y.to_int() as nat);
        lemma_normalized_normal(x);
        lemma_integer_is(x);
    } else {
        let m = xe % ye;
        vstd::arithmetic::div_mod::lemma_mod_pos_bound(xe, ye);
        vstd::arithmetic::div_mod::lemma_truncate_middle(xe, p, ye);
        assert(p * xe == xe * p && p * ye == ye * p && p * m == m * p) by (nonlinear_arith);
        let r = normal_form(m, e);
        let t = Dyadic { mant: m, scale: e };
        lemma_normal_form(m, e);
        lemma_at_self(t);
        lemma_at_rescale(t, e, 0);
        let u = Dyadic { mant: m * p, scale: 0 };
        lemma_at_self(u);
        lemma_same_at(t, u, 0);
        crate::dyadic::lemma_same_transitive(r, t, u);
        lemma_normal_form_is(m * p, 0, r);
    }
}

impl BigNum {
    /// The number one.
    pub fn one() -> (r: BigNum)
        ensures
            r@ == Dyadic::one(),
            r.is_canonical(),
    {
        proof {
            lemma_from_int(1);
        }
        BigNum::from(1u64)
    }

    /// The greatest common divisor of two integers that are not negative,
    /// by Euclid's algorithm: the pair is replaced by the second number and
    /// the remainder of the first by the second until the second is zero.
    pub fn gcd(a: BigNum, b: BigNum) -> (r: BigNum)
        requires
            a@.is_integer(),
            b@.is_integer(),
            !a@.is_negative(),
            !b@.is_negative(),
        ensures
            r@ == Dyadic::from_int(gcd_of(a@.to_int() as nat, b@.to_int() as nat) as int),
            r.is_canonical(),
    {
        let mut x = a;
        let mut y = b;
        x.compact();
        y.compact();
        proof {
            a.lemma_view();
            b.lemma_view();
            lemma_normalized_normal(a@);
            lemma_normalized_normal(b@);
            lemma_sign_at(a@, 0);
            lemma_sign_at(b@, 0);
            lemma_same_at(a@, b@, 0);
        }
        if x.less_than(&y) {
            proof {
                vstd::arithmetic::div_mod::lemma_small_mod(
                    a@.to_int() as nat,
                    b@.to_int() as nat,
                );
            }
            core::mem::swap(&mut x, &mut y);
        }
        while !y.is_zero()
            invariant
                x@.normal(),
                y@.normal(),
                x@.scale >= 0,
                y@.scale >= 0,
                x@.mant >= 0,
                y@.mant >= 0,
                x.is_canonical(),
                gcd_of(x@.to_int() as nat, y@.to_int() as nat) == gcd_of(
                    a@.to_int() as nat,
                    b@.to_int() as nat,
                ),
            decreases y@.to_int(),
        {
            proof {
                lemma_remainder_int(x@, y@);
                lemma_from_int(x@.to_int() % y@.to_int());
            }
            let next = x.remainder(&y);
            x = y;
            y = next;
            proof {
                x.lemma_view();
            }
            x.compact();
        }
        proof {
            lemma_sign_at(x@, 0);
            lemma_sign_at(y@, 0);
            lemma_integer_is(x@);
        }
        x
    }

    /// One multiplied by `self` as often as the integer `count` says, or
    /// `None` where a product cannot be held.
    fn checked_pow_count(&self, count: &BigNum) -> (r: Option<BigNum>)
        requires
            count@.is_integer(),
        ensures
            option_view(r) == power_by_count(self@, vstd::math::clip(count@.to_int())),
            r is Some ==> r->0.is_canonical(),
    {
        let one = BigNum::one();
        let mut result = BigNum::one();
        let mut i = BigNum::new();
        let ghost mut j: nat = 0;
        proof {
            count.lemma_view();
            lemma_normalized_normal(count@);
            lemma_from_int(0);
            lemma_from_int(1);
        }
        while i.less_than(count)
            invariant
                count@.normal(),
                count@.scale >= 0,
                one@ == Dyadic::one(),
                i@ == Dyadic::from_int(j as int),
                power_by_count(self@, j) == Some(result@),
                j <= vstd::math::clip(count@.to_int()),
                result.is_canonical(),
            decreases vstd::math::clip(count@.to_int()) - j,
        {
            proof {
                lemma_from_int(j as int);
                lemma_same_at(i@, count@, 0);
                lemma_int_arithmetic(j as int, 1);
            }
            match result.checked_times(self) {
                None => {
                    proof {
                        lemma_power_by_count_none(
                            self@,
                            j + 1,
                            vstd::math::clip(count@.to_int()),
                        );
                    }
                    return None;
                },
                Some(next) => {
                    result = next;
                },
            }
            i = i.plus(&one);
            proof {
                j = j + 1;
            }
        }
        proof {
            lemma_from_int(j as int);
            lemma_same_at(i@, count@, 0);
            lemma_sign_at(count@, 0);
        }
        Some(result)
    }

    /// The power by the integer part of an exponent that is not negative.
    fn checked_pow_whole(&self, exp: &BigNum) -> (r: Option<BigNum>)
        ensures
            option_view(r) == power_whole(self@, exp@),
            r is Some ==> r->0.is_canonical(),
    {
        proof {
            lemma_from_int(1);
        }
        if exp.is_zero() {
            return Some(BigNum::one());
        }
        if exp.equals(&BigNum::one()) {
            let mut same = self.clone();
            same.compact();
            return Some(same);
        }
        let whole = exp.get_integer_part_ref();
        proof {
            exp.lemma_view();
            lemma_integer_part_integer(exp@);
        }
        self.checked_pow_count(&whole)
    }

    /// The root of a degree that is an integer and not negative, by 100
    /// steps of Newton's method.
    fn checked_newton_root(&self, degree: &BigNum) -> (r: Option<BigNum>)
        ensures
            option_view(r) == newton_root(self@, degree@),
            r is Some ==> r->0.is_canonical(),
    {
        let one = BigNum::one();
        let m = degree.minus(&one);
        let factor1 = match m.checked_div(degree) {
            None => {
                return None;
            },
            Some(f) => f,
        };
        let factor2 = match self.checked_div(degree) {
            None => {
                return None;
            },
            Some(f) => f,
        };
        let mut x = self.clone();
        x.compact();
        let mut left: u32 = 100;
        while left > 0
            invariant
                newton_iterate(x@, factor1@, factor2@, m@, left as nat) == newton_root(
                    self@,
                    degree@,
                ),
                x.is_canonical(),
            decreases left,
        {
            let first = match factor1.checked_times(&x) {
                None => {
                    return None;
                },
                Some(v) => v,
            };
            let pw = match x.checked_pow_whole(&m) {
                None => {
                    return None;
                },
                Some(v) => v,
            };
            let second = match factor2.checked_div(&pw) {
                None => {
                    return None;
                },
                Some(v) => v,
            };
            x = first.plus(&second);
            left -= 1;
        }
        Some(x)
    }

    /// The power by an exponent that is not negative.
    fn checked_pow_nonnegative(&self, exp: &BigNum) -> (r: Option<BigNum>)
        requires
            !exp@.is_negative(),
        ensures
            option_view(r) == power_nonnegative(self@, exp@),
            r is Some ==> r->0.is_canonical(),
    {
        proof {
            lemma_from_int(1);
        }
        if exp.is_zero() {
            return Some(BigNum::one());
        }
        if exp.equals(&BigNum::one()) {
            let mut same = self.clone();
            same.compact();
            return Some(same);
        }
        let int_part = exp.get_integer_part_ref();
        proof {
            exp.lemma_view();
            lemma_integer_part_integer(exp@);
        }
        let whole = match self.checked_pow_count(&int_part) {
            None => {
                return None;
            },
            Some(v) => v,
        };
        let frac_part = exp.clone().get_decimal_part();
        if frac_part.is_zero() {
            return Some(whole);
        }
        let (limbs, scale) = frac_part.normal_parts();
        proof {
            lemma_fractional_part(exp@);
            lemma_normal_form(abs(frac_part@.mant) as int, 0);
            lemma_normal_form(1, 0);
            let ones = Seq::<u64>::empty().push(1);
            lemma_limbs_value_push(Seq::<u64>::empty(), 1);
            lemma_radix_pow_step(0);
            assert(limbs_value(Seq::<u64>::empty()) == 0);
            assert(limbs_value(ones) == 1);
        }
        let numerator = BigNum::pack(limbs, 0, false);
        let mut unit: Vec<u64> = Vec::new();
        unit.push(1);
        proof {
            let d = Dyadic { mant: 1, scale: -scale };
            lemma_normalized_normal(d);
        }
        let denominator = BigNum::pack(unit, -scale, false);
        proof {
            lemma_sign_at(numerator@, 0);
            lemma_sign_at(denominator@, 0);
            lemma_normalized_normal(numerator@);
            lemma_normalized_normal(denominator@);
        }
        let common = BigNum::gcd(numerator.clone(), denominator.clone());
        let num = match numerator.checked_div(&common) {
            None => {
                return None;
            },
            Some(v) => v,
        };
        let den = match denominator.checked_div(&common) {
            None => {
                return None;
            },
            Some(v) => v,
        };
        let raised = match self.checked_pow_whole(&num) {
            None => {
                return None;
            },
            Some(v) => v,
        };
        let rooted = match raised.checked_newton_root(&den) {
            None => {
                return None;
            },
            Some(v) => v,
        };
        whole.checked_times(&rooted)
    }

    /// The power of the number by `exp`, or `None` where a division on the
    /// way is by zero or a number on the way cannot be held.
    pub fn checked_pow(&self, exp: &BigNum) -> (r: Option<BigNum>)
        ensures
            option_view(r) == power(self@, exp@),
            r is Some ==> r->0.is_canonical(),
    {
        if exp.sign() == crate::limbs::Sign::Negative {
            let positive = exp.negated();
            proof {
                exp.lemma_view();
                lemma_normalized_normal(exp@);
                lemma_normal_form(-exp@.mant, exp@.scale);
            }
            match self.checked_pow_nonnegative(&positive) {
                None => None,
                Some(p) => BigNum::one().checked_div(&p),
            }
        } else {
            self.checked_pow_nonnegative(exp)
        }
    }

    /// The power of the number by `exp`.
    pub fn pow(self, exp: BigNum) -> (r: BigNum)
        requires
            power(self@, exp@) is Some,
        ensures
            Some(r@) == power(self@, exp@),
            r.is_canonical(),
    {
        self.checked_pow(&exp).unwrap()
    }

    /// The root of the number of the degree `degree`, or `None` where a
    /// division on the way is by zero or a number on the way cannot be
    /// held.
    pub fn checked_root(&self, degree: &BigNum) -> (r: Option<BigNum>)
        ensures
            option_view(r) == root_of(self@, degree@),
            r is Some ==> r->0.is_canonical(),
    {
        let fractional = !degree.clone().get_decimal_part().is_zero();
        if degree.sign() == crate::limbs::Sign::Negative || fractional {
            match BigNum::one().checked_div(degree) {
                None => None,
                Some(inverse) => self.checked_pow(&inverse),
            }
        } else {
            self.checked_newton_root(degree)
        }
    }

    /// The root of the number of the degree `rhs`.
    pub fn root(self, rhs: BigNum) -> (r: BigNum)
        requires
            root_of(self@, rhs@) is Some,
        ensures
            Some(r@) == root_of(self@, rhs@),
            r.is_canonical(),
    {
        self.checked_root(&rhs).unwrap()
    }
}

/// Where a product on the way cannot be held, no later power can.
pub proof fn lemma_power_by_count_none(a: Dyadic, j: nat, n: nat)
    requires
        power_by_count(a, j) is None,
        j <= n,
    ensures
        power_by_count(a, n) is None,
    decreases n - j,
{
    if j < n {
        lemma_power_by_count_none(a, j, (n - 1) as nat);
    }
}

/// The integer part of a normal number is a normal number without
/// fractional part.
pub proof fn lemma_integer_part_integer(x: Dyadic)
    requires
        x.normal(),
    ensures
        x.integer_part().normal(),
        x.integer_part().scale >= 0,
        x.integer_part().is_integer(),
{
    lemma_normalized_normal(x);
    if x.scale < 0 {
        let m = crate::dyadic::div_toward_zero(x.mant, radix_pow(vstd::math::clip(-x.scale)));
        lemma_normal_form(m, 0);
    }
    lemma_normalized_normal(x.integer_part());
}

/// Powers of an integer by repeated multiplication are the powers of the
/// integer, and can always be held.
pub proof fn lemma_power_by_count_int(b: int, n: nat)
    ensures
        power_by_count(Dyadic::from_int(b), n) == Some(
            Dyadic::from_int(vstd::arithmetic::power::pow(b, n)),
        ),
    decreases n,
{
    lemma_from_int(1);
    if n == 0 {
        vstd::arithmetic::power::lemma_pow0(b);
    } else {
        lemma_power_by_count_int(b, (n - 1) as nat);
        let p = vstd::arithmetic::power::pow(b, (n - 1) as nat);
        lemma_int_arithmetic(p, b);
        lemma_from_int(p * b);
        vstd::arithmetic::power::lemma_pow_adds(b, (n - 1) as nat, 1);
        vstd::arithmetic::power::lemma_pow1(b);
    }
}

/// The power of an integer by a natural number is the number of the power
/// of the integer.
pub proof fn lemma_power_integer(b: int, n: nat)
    ensures
        power(Dyadic::from_int(b), Dyadic::from_int(n as int)) == Some(
            Dyadic::from_int(vstd::arithmetic::power::pow(b, n)),
        ),
{
    let a = Dyadic::from_int(b);
    let e = Dyadic::from_int(n as int);
    lemma_from_int(b);
    lemma_from_int(n as int);
    lemma_from_int(1);
    lemma_power_by_count_int(b, n);
    lemma_normalized_normal(e);
    if n == 0 {
        vstd::arithmetic::power::lemma_pow0(b);
    } else if n == 1 {
        vstd::arithmetic::power::lemma_pow1(b);
    } else {
        assert(e.integer_part() == e);
        assert(e.fractional_part() == Dyadic::zero());
        assert(e != Dyadic::one()) by {
            lemma_int_arithmetic(n as int, 1);
        }
    }
}

/// The greatest common divisor divides both numbers, and every number that
/// divides both divides it.
pub proof fn lemma_gcd_of(a: nat, b: nat, c: nat)
    ensures
        gcd_of(a, b) > 0 ==> a % gcd_of(a, b) == 0 && b % gcd_of(a, b) == 0,
        gcd_of(a, b) == 0 <==> a == 0 && b == 0,
        c > 0 && a % c == 0 && b % c == 0 && gcd_of(a, b) > 0 ==> gcd_of(a, b) % c == 0,
    decreases b,
{
    if b == 0 {
        if a > 0 {
            vstd::arithmetic::div_mod::lemma_mod_self_0(a as int);
            vstd::arithmetic::div_mod::lemma_small_mod(0, a);
        }
    } else {
        let r = a % b;
        let g = gcd_of(b, r);
        lemma_gcd_of(b, r, c);
        vstd::arithmetic::div_mod::lemma_mod_pos_bound(a as int, b as int);
        vstd::arithmetic::div_mod::lemma_fundamental_div_mod(a as int, b as int);
        let q = a as int / b as int;
        assert(g > 0);
        // g divides a = b * q + r
        let bg = b as int / g as int;
        let rg = r as int / g as int;
        vstd::arithmetic::div_mod::lemma_fundamental_div_mod(b as int, g as int);
        vstd::arithmetic::div_mod::lemma_fundamental_div_mod(r as int, g as int);
        assert(a == g * (bg * q + rg)) by (nonlinear_arith)
            requires
                a == b * q + r,
                b == g * bg,
                r == g * rg,
        ;
        vstd::arithmetic::div_mod::lemma_mod_multiples_basic(bg * q + rg, g as int);
        assert(g * (bg * q + rg) == (bg * q + rg) * g) by (nonlinear_arith);
        if c > 0 && a % c == 0 && b % c == 0 {
            // c divides r = a - b * q
            let ac = a as int / c as int;
            let bc = b as int / c as int;
            vstd::arithmetic::div_mod::lemma_fundamental_div_mod(a as int, c as int);
            vstd::arithmetic::div_mod::lemma_fundamental_div_mod(b as int, c as int);
            assert(r == (ac - bc * q) * c) by (nonlinear_arith)
                requires
                    a == b * q + r,
                    a == c * ac,
                    b == c * bc,
            ;
            vstd::arithmetic::div_mod::lemma_mod_multiples_basic(ac - bc * q, c as int);
        }
    }
}

/// The fractional part of a normal number that is not negative is zero
/// where the number has no limb below the radix point; else it is above
/// zero and has the scale of the number.
pub proof fn lemma_fractional_part(x: Dyadic)
    requires
        x.normal(),
        x.mant >= 0,
    ensures
        x.fractional_part().normal(),
        x.fractional_part().is_zero() <==> x.scale >= 0,
        x.scale < 0 ==> x.fractional_part().scale == x.scale && x.fractional_part().mant > 0,
{
    lemma_normalized_normal(x);
    if x.scale >= 0 {
        assert(x.integer_part() == x);
        assert(x.minus(x) == Dyadic::zero());
    } else {
        let e = x.scale;
        let m = x.mant;
        let u = radix_pow((-e) as nat);
        let c = radix_pow((-e - 1) as nat);
        lemma_radix_pow_step((-e - 1) as nat);
        lemma_at_self(x);
        crate::dyadic::lemma_nf_at(x, e);
        crate::dyadic::lemma_nf_integer_part(m, e);
        let w = m / u;
        let f = m % u;
        vstd::arithmetic::div_mod::lemma_fundamental_div_mod(m, u);
        crate::dyadic::lemma_nf_rescale(w, 0, (-e) as nat);
        crate::dyadic::lemma_nf_plus(m, w * u, e);
        assert(u * w == w * u) by (nonlinear_arith);
        assert(x.fractional_part() == normal_form(f, e));
        crate::radix::lemma_place_split(m, crate::radix::radix(), c);
        assert(u == crate::radix::radix() * c);
        assert(f % crate::radix::radix() == m % crate::radix::radix());
        let pair = Dyadic { mant: f, scale: e };
        assert(pair.normal());
        lemma_normalized_normal(pair);
    }
}

} // verus!
