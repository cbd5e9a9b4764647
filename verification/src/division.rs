//! Division by long division, and the remainder by repeated subtraction.

use vstd::prelude::*;
use vstd::arithmetic::div_mod::lemma_fundamental_div_mod_converse;
use vstd::arithmetic::power2::{
    pow2, lemma_pow2_unfold, lemma2_to64, lemma_pow2_strictly_increases,
};
use vstd::math::abs;
use vstd::std_specs::ops::{DivSpecImpl, RemSpecImpl};
use std::ops::{Div, Rem};
use crate::big_num::{BigNum, lemma_raw_shift, lemma_raw_normal};
use crate::dyadic::{
    Dyadic, normal_form, signed, quotient_stops, quotient_shift_from, lemma_normal_form,
    lemma_normalized_same, lemma_normalized_normal, lemma_same_symmetric, lemma_same_at,
    lemma_at_self, lemma_plus_at, lemma_sign_at, lemma_normal_form_is,
};
use crate::limbs::{
    Sign, copied, pad_to, trim, limbs_compare, limbs_sub, limbs_is_zero, shifted_up, upper_limbs,
    low_zero_count, dropped_low,
};
use crate::radix::{
    radix, radix_pow, limbs_value, limb_count, lemma_radix_pow_step, lemma_radix_pow_monotone,
    lemma_limbs_value_push, lemma_limbs_value_first, lemma_limbs_value_update,
    lemma_limbs_value_bound, lemma_limbs_value_lower_bound, lemma_limb_count_of_limbs,
};

verus! {

/// The number `m * v + c`, by one pass over the limbs with a carry.
pub(crate) fn mul_add_small(v: &Vec<u64>, m: u64, c: u64) -> (r: Vec<u64>)
    ensures
        limbs_value(r@) == m * limbs_value(v@) + c,
{
    let mut r: Vec<u64> = Vec::new();
    let mut carry: u64 = c;
    let mut i: usize = 0;
    proof {
        lemma_radix_pow_step(0);
        assert(v@.take(0) =~= Seq::<u64>::empty());
        assert(m * 0 == 0);
        assert(carry * radix_pow(0) == carry);
    }
    while i < v.len()
        invariant
            i <= v.len(),
            r.len() == i,
            limbs_value(r@) + carry * radix_pow(i as nat) == m * limbs_value(v@.take(i as int))
                + c,
        decreases v.len() - i,
    {
        let x = v[i];
        assert(m * x <= 0xffff_ffff_ffff_ffff * 0xffff_ffff_ffff_ffff) by (nonlinear_arith)
            requires
                0 <= m <= 0xffff_ffff_ffff_ffff,
                0 <= x <= 0xffff_ffff_ffff_ffff,
        ;
        let s: u128 = (m as u128) * (x as u128) + carry as u128;
        let limb = (s % 0x1_0000_0000_0000_0000) as u64;
        let over = (s / 0x1_0000_0000_0000_0000) as u64;
        proof {
            let p = radix_pow(i as nat);
            lemma_radix_pow_step(i as nat);
            lemma_limbs_value_push(r@, limb);
            assert(v@.take(i + 1) =~= v@.take(i as int).push(x));
            lemma_limbs_value_push(v@.take(i as int), x);
            let low = limbs_value(v@.take(i as int)) as int;
            let mx = m * x;
            let cin = carry as int;
            assert(limb + over * radix() == mx + cin);
            assert(limb * p + over * (radix() * p) == mx * p + cin * p) by (nonlinear_arith)
                requires
                    limb + over * radix() == mx + cin,
            ;
            assert(m * (low + x * p) == m * low + mx * p) by (nonlinear_arith)
                requires
                    mx == m * x,
            ;
        }
        r.push(limb);
        carry = over;
        i += 1;
    }
    proof {
        assert(v@.take(v.len() as int) =~= v@);
    }
    if carry != 0 {
        proof {
            lemma_limbs_value_push(r@, carry);
        }
        r.push(carry);
    } else {
        proof {
            assert(0 * radix_pow(i as nat) == 0);
        }
    }
    r
}

/// Takes `d` off `r` once, where `r` is no smaller than `d`.
fn reduce_once(r: Vec<u64>, d: &Vec<u64>) -> (out: (Vec<u64>, bool))
    ensures
        out.1 == (limbs_value(r@) >= limbs_value(d@)),
        out.1 ==> limbs_value(out.0@) == limbs_value(r@) - limbs_value(d@),
        !out.1 ==> limbs_value(out.0@) == limbs_value(r@),
{
    let mut x = r;
    let mut y = copied(d);
    if x.len() < y.len() {
        pad_to(&mut x, y.len());
    } else {
        pad_to(&mut y, x.len());
    }
    match limbs_compare(&x, &y) {
        Sign::Negative => (x, false),
        _ => (limbs_sub(&x, &y), true),
    }
}

/// One limb of long division: the 64 bits of `limb` are brought down into
/// the remainder one by one, from the highest, and the divisor taken off
/// wherever it fits.
#[verifier::rlimit(40)]
fn divide_step(rem: Vec<u64>, limb: u64, d: &Vec<u64>) -> (out: (u64, Vec<u64>))
    requires
        limbs_value(rem@) < limbs_value(d@),
    ensures
        limbs_value(rem@) * radix() + limb == out.0 * limbs_value(d@) + limbs_value(out.1@),
        limbs_value(out.1@) < limbs_value(d@),
{
    let ghost r0 = limbs_value(rem@) as int;
    let ghost dv = limbs_value(d@) as int;
    let mut r = rem;
    let mut q: u64 = 0;
    let mut w: u64 = limb;
    let mut t: u32 = 0;
    let ghost mut hi: int = 0;
    let ghost mut rp: int = r0;
    let ghost mut lp: int = limb as int;
    let ghost mut qd: int = 0;
    proof {
        lemma2_to64();
        assert(0 * dv == 0);
    }
    while t < 64
        invariant
            t <= 64,
            lp == hi * radix() + w,
            lp == limb * pow2(t as nat),
            rp == r0 * pow2(t as nat),
            qd == q * dv,
            dv == limbs_value(d@),
            rp + hi == qd + limbs_value(r@),
            limbs_value(r@) < dv,
            q < pow2(t as nat),
            0 <= hi,
        decreases 64 - t,
    {
        let bit: u64 = w / 0x8000_0000_0000_0000;
        let w2: u64 = (w % 0x8000_0000_0000_0000) * 2;
        let r2 = mul_add_small(&r, 2, bit);
        let (r3, took) = reduce_once(r2, d);
        proof {
            lemma_pow2_unfold((t + 1) as nat);
            lemma2_to64();
            lemma_pow2_unfold(64);
            if t < 63 {
                lemma_pow2_strictly_increases(t as nat, 63);
            }
            let pt = pow2(t as nat) as int;
            assert(limb * (2 * pt) == 2 * (limb * pt)) by (nonlinear_arith);
            assert(r0 * (2 * pt) == 2 * (r0 * pt)) by (nonlinear_arith);
            assert((2 * q) * dv == 2 * (q * dv) && (2 * q + 1) * dv == 2 * (q * dv) + dv)
                by (nonlinear_arith);
        }
        let q2: u64 = if took {
            2 * q + 1
        } else {
            2 * q
        };
        proof {
            hi = 2 * hi + bit;
            rp = 2 * rp;
            lp = 2 * lp;
            qd = q2 * dv;
        }
        r = r3;
        q = q2;
        w = w2;
        t += 1;
    }
    proof {
        lemma2_to64();
        assert(pow2(64) == radix());
        assert(lp == limb * radix() && rp == r0 * radix()) by (nonlinear_arith)
            requires
                lp == limb * pow2(64),
                rp == r0 * pow2(64),
                pow2(64) == radix(),
        ;
        assert(hi == limb);
    }
    (q, r)
}

/// Brings a limb in below the limbs of `q`.
fn push_low(q: &mut Vec<u64>, limb: u64)
    requires
        old(q).len() > 0 ==> old(q)@.last() != 0,
    ensures
        limbs_value(final(q)@) == limbs_value(old(q)@) * radix() + limb,
        final(q).len() > 0 ==> final(q)@.last() != 0,
{
    if q.len() == 0 && limb == 0 {
        proof {
            assert(limbs_value(q@) == 0);
        }
        return ;
    }
    let mut s = shifted_up(q, 1);
    proof {
        lemma_radix_pow_step(0);
        lemma_limbs_value_update(s@, 0, limb);
        assert(0 * radix_pow(0) == 0);
        assert(limb * radix_pow(0) == limb);
        if q.len() > 0 {
            assert(s@.last() == s@.skip(1).last());
        }
    }
    s[0] = limb;
    *q = s;
}

/// The quotient of the long division of `a` by `d`, carried on below the
/// radix point until it comes out even or has more than `p` limbs, and the
/// count of limbs below the radix point.
#[verifier::rlimit(40)]
fn long_divide(a: &Vec<u64>, d: &Vec<u64>, p: u128) -> (out: (Vec<u64>, u128))
    requires
        d.len() > 0,
        d@.last() != 0,
        p <= 0x1_0000_0000_0000_0000_0000,
    ensures
        out.1 == quotient_shift_from(limbs_value(a@), limbs_value(d@), p as nat, 0),
        limbs_value(out.0@) == (limbs_value(a@) * radix_pow(out.1 as nat)) / (limbs_value(
            d@,
        ) as int),
        out.0.len() == limb_count(limbs_value(out.0@)),
        out.0.len() > 0 ==> out.0@.last() != 0,
        out.1 <= p + d.len(),
{
    let ghost av = limbs_value(a@) as int;
    let ghost dv = limbs_value(d@) as int;
    proof {
        lemma_limbs_value_lower_bound(d@);
        lemma_radix_pow_step((d.len() - 1) as nat);
        lemma_limb_count_of_limbs(d@);
    }
    let mut q: Vec<u64> = Vec::new();
    let mut rem: Vec<u64> = Vec::new();
    let mut i: usize = a.len();
    proof {
        assert(a@.skip(a.len() as int) =~= Seq::<u64>::empty());
        assert(limbs_value(q@) == 0);
        assert(0 * dv == 0);
    }
    while i > 0
        invariant
            i <= a.len(),
            dv == limbs_value(d@),
            dv > 0,
            limbs_value(a@.skip(i as int)) == limbs_value(q@) * dv + limbs_value(rem@),
            limbs_value(rem@) < dv,
            q.len() > 0 ==> q@.last() != 0,
        decreases i,
    {
        let k = i - 1;
        let ghost before_q = limbs_value(q@) as int;
        let ghost before_r = limbs_value(rem@) as int;
        let (digit, next) = divide_step(rem, a[k], d);
        push_low(&mut q, digit);
        proof {
            let top = a@.skip(k as int);
            lemma_limbs_value_first(top);
            assert(top.drop_first() =~= a@.skip(i as int));
            assert((before_q * radix() + digit) * dv == before_q * dv * radix() + digit * dv)
                by (nonlinear_arith);
            assert((before_q * dv + before_r) * radix() == before_q * dv * radix() + before_r
                * radix()) by (nonlinear_arith);
        }
        rem = next;
        i = k;
    }
    proof {
        assert(a@.skip(0) =~= a@);
        lemma_radix_pow_step(0);
    }
    let mut k: u128 = 0;
    let bound: u128 = p + d.len() as u128;
    loop
        invariant
            dv == limbs_value(d@),
            av == limbs_value(a@),
            dv > 0,
            av * radix_pow(k as nat) == limbs_value(q@) * dv + limbs_value(rem@),
            limbs_value(rem@) < dv,
            q.len() > 0 ==> q@.last() != 0,
            k <= bound,
            bound == p + limb_count(dv as nat),
            bound == p + d.len(),
            quotient_shift_from(av as nat, dv as nat, p as nat, 0) == quotient_shift_from(
                av as nat,
                dv as nat,
                p as nat,
                k as nat,
            ),
        decreases bound - k,
    {
        let even = limbs_is_zero(&rem);
        let full = q.len() as u128 > p;
        proof {
            let x = av * radix_pow(k as nat);
            let qv = limbs_value(q@) as int;
            let rv = limbs_value(rem@) as int;
            lemma_fundamental_div_mod_converse(x, dv, qv, rv);
            lemma_limb_count_of_limbs(q@);
            lemma_limbs_value_bound(q@);
            let pp = radix_pow(p as nat);
            if q.len() > p {
                lemma_limbs_value_lower_bound(q@);
                lemma_radix_pow_monotone(p as nat, (q.len() - 1) as nat);
                assert(x >= dv * pp) by (nonlinear_arith)
                    requires
                        x == qv * dv + rv,
                        rv >= 0,
                        qv >= pp,
                        dv > 0,
                ;
            } else {
                lemma_radix_pow_monotone(q.len() as nat, p as nat);
                assert(x < dv * pp) by (nonlinear_arith)
                    requires
                        x == qv * dv + rv,
                        rv < dv,
                        qv + 1 <= pp,
                        dv > 0,
                ;
            }
            assert(quotient_stops(av as nat, dv as nat, p as nat, k as nat) == (even || full));
        }
        if even || full || k >= bound {
            proof {
                lemma_limb_count_of_limbs(q@);
            }
            return (q, k);
        }
        let ghost before_q = limbs_value(q@) as int;
        let ghost before_r = limbs_value(rem@) as int;
        let (digit, next) = divide_step(rem, 0, d);
        push_low(&mut q, digit);
        proof {
            lemma_radix_pow_step(k as nat);
            let x = av * radix_pow(k as nat);
            assert(av * (radix_pow(k as nat) * radix()) == x * radix()) by (nonlinear_arith)
                requires
                    x == av * radix_pow(k as nat),
            ;
            assert((before_q * radix() + digit) * dv == before_q * dv * radix() + digit * dv)
                by (nonlinear_arith);
            assert((before_q * dv + before_r) * radix() == before_q * dv * radix() + before_r
                * radix()) by (nonlinear_arith);
        }
        rem = next;
        k = k + 1;
    }
}

impl BigNum {
    /// The limbs of the magnitude without zero limbs at either end, and
    /// the scale at which they count: the normal pair of the number.
    pub(crate) fn normal_parts(&self) -> (out: (Vec<u64>, i128))
        ensures
            limbs_value(out.0@) == abs(self@.mant),
            out.1 == self@.scale,
            out.0.len() == limb_count(abs(self@.mant)),
            out.0.len() > 0 ==> out.0@.last() != 0,
            self@.mant < 0 <==> (self.negative() && limbs_value(out.0@) != 0),
            -0x8000_0000 <= out.1 <= 0x1_0000_0000_8000_0000,
    {
        let mut v = copied(&self.parts);
        trim(&mut v);
        proof {
            self.lemma_view();
        }
        if v.len() == 0 {
            proof {
                assert(limbs_value(v@) == 0);
            }
            return (v, 0);
        }
        let k = low_zero_count(&v, 0xffff_ffff_ffff_ffff);
        proof {
            if k == v.len() {
                assert(v[v.len() - 1] == 0);
            }
        }
        let parts = dropped_low(&v, k);
        let e: i128 = self.exp as i128 + k as i128;
        proof {
            let pair = Dyadic { mant: signed(limbs_value(parts@), self.negative()), scale: e as int };
            lemma_raw_shift(
                limbs_value(parts@),
                limbs_value(v@),
                self.negative(),
                e as int,
                k as nat,
            );
            lemma_same_symmetric(self.raw(), pair);
            lemma_normalized_same(pair, self.raw());
            assert(parts@[0] == v@[k as int]);
            assert(parts@.last() == v@.last());
            lemma_raw_normal(parts@, self.negative(), e as int);
            lemma_normalized_normal(pair);
            lemma_limb_count_of_limbs(parts@);
        }
        (parts, e)
    }

    /// The quotient of two numbers to the precision of as many limbs as
    /// both have together, or `None` where the divisor is zero or the scale
    /// of the quotient is below the least exponent.
    pub fn checked_div(&self, rhs: &BigNum) -> (r: Option<BigNum>)
        ensures
            r is Some <==> !rhs@.is_zero() && self@.divided_by(rhs@).representable(),
            r is Some ==> r->0@ == self@.divided_by(rhs@) && r->0.is_canonical(),
    {
        if rhs.is_zero() {
            return None;
        }
        let (a, ea) = self.normal_parts();
        let (d, ed) = rhs.normal_parts();
        let p: u128 = a.len() as u128 + d.len() as u128;
        let (q, k) = long_divide(&a, &d, p);
        let neg = self.neg != rhs.neg;
        proof {
            lemma_limbs_value_bound(q@);
            lemma_limb_count_of_limbs(q@);
            if q.len() > p {
                lemma_limbs_value_lower_bound(q@);
                lemma_radix_pow_monotone(p as nat, (q.len() - 1) as nat);
            } else {
                lemma_radix_pow_monotone(q.len() as nat, p as nat);
            }
        }
        if q.len() as u128 > p {
            let low = q[0];
            let rest = upper_limbs(&q, 1);
            proof {
                lemma_limbs_value_first(q@);
                assert(q@.drop_first() =~= q@.skip(1));
            }
            let rounded = if low >= 0x8000_0000_0000_0000 {
                mul_add_small(&rest, 1, 1)
            } else {
                rest
            };
            BigNum::try_pack(rounded, ea - ed - k as i128 + 1, neg)
        } else {
            BigNum::try_pack(q, ea - ed - k as i128, neg)
        }
    }

    /// The quotient of two numbers to the precision of as many limbs as
    /// both have together.
    pub fn divided_by(&self, rhs: &BigNum) -> (r: BigNum)
        requires
            !rhs@.is_zero(),
            self@.divided_by(rhs@).representable(),
        ensures
            r@ == self@.divided_by(rhs@),
            r.is_canonical(),
    {
        self.checked_div(rhs).unwrap()
    }
}

impl BigNum {
    /// What repeated subtraction of the divisor leaves of the number: the
    /// divisor is taken off for as long as the number is not less than it.
    /// The count of subtractions grows with the quotient of the two
    /// numbers, so a divisor much smaller than the number makes this slow.
    pub fn remainder(&self, rhs: &BigNum) -> (r: BigNum)
        requires
            self@.lt(rhs@) || rhs@.is_positive(),
        ensures
            r@ == self@.remainder(rhs@),
            r.is_canonical(),
    {
        let mut tmp = self.clone();
        tmp.compact();
        proof {
            self.lemma_view();
            rhs.lemma_view();
            lemma_normalized_normal(self@);
        }
        if tmp.less_than(rhs) {
            return tmp;
        }
        let ghost e = vstd::math::min(self@.scale, rhs@.scale);
        let ghost b = rhs@.at(e);
        let ghost mut t: int = self@.at(e);
        proof {
            lemma_sign_at(rhs@, e);
            lemma_same_at(self@, rhs@, e);
            let start = Dyadic { mant: t, scale: e };
            lemma_at_self(start);
            lemma_same_at(self@, start, e);
            lemma_normal_form_is(t, e, self@);
        }
        while !tmp.less_than(rhs)
            invariant
                rhs@.normal(),
                b == rhs@.at(e),
                b > 0,
                e <= rhs@.scale,
                tmp@ == normal_form(t, e),
                t >= 0,
                t % b == self@.at(e) % b,
                tmp.is_canonical(),
            decreases t,
        {
            proof {
                let cur = Dyadic { mant: t, scale: e };
                lemma_normal_form(t, e);
                lemma_at_self(cur);
                crate::dyadic::lemma_lt_same(tmp@, rhs@, cur, rhs@);
                lemma_same_at(cur, rhs@, e);
                crate::dyadic::lemma_plus_same(tmp@, rhs@, cur, rhs@);
                lemma_plus_at(cur, rhs@, e);
                lemma_normal_form_is(t - b, e, cur.minus(rhs@));
                vstd::arithmetic::div_mod::lemma_mod_sub_multiples_vanish(t, b);
            }
            tmp = tmp.minus(rhs);
            proof {
                t = t - b;
            }
        }
        proof {
            let cur = Dyadic { mant: t, scale: e };
            lemma_normal_form(t, e);
            lemma_at_self(cur);
            crate::dyadic::lemma_lt_same(tmp@, rhs@, cur, rhs@);
            lemma_same_at(cur, rhs@, e);
            vstd::arithmetic::div_mod::lemma_small_mod(t as nat, b as nat);
        }
        tmp
    }
}

impl Div for BigNum {
    type Output = BigNum;

    /// The quotient of the two numbers, for a divisor that is not zero and a
    /// quotient that can be held.
    fn div(self, rhs: BigNum) -> (r: BigNum)
        ensures
            r@ == self@.divided_by(rhs@),
            r.is_canonical(),
    {
        self.divided_by(&rhs)
    }
}

impl DivSpecImpl for BigNum {
    open spec fn obeys_div_spec() -> bool {
        false
    }

    open spec fn div_req(self, rhs: BigNum) -> bool {
        !rhs@.is_zero() && self@.divided_by(rhs@).representable()
    }

    open spec fn div_spec(self, rhs: BigNum) -> BigNum {
        arbitrary()
    }
}

impl Div for &BigNum {
    type Output = BigNum;

    /// The quotient of the two numbers, for a divisor that is not zero and a
    /// quotient that can be held.
    fn div(self, rhs: &BigNum) -> (r: BigNum)
        ensures
            r@ == self@.divided_by(rhs@),
            r.is_canonical(),
    {
        self.divided_by(rhs)
    }
}

impl DivSpecImpl for &BigNum {
    open spec fn obeys_div_spec() -> bool {
        false
    }

    open spec fn div_req(self, rhs: &BigNum) -> bool {
        !rhs@.is_zero() && self@.divided_by(rhs@).representable()
    }

    open spec fn div_spec(self, rhs: &BigNum) -> BigNum {
        arbitrary()
    }
}

impl Div<&BigNum> for BigNum {
    type Output = BigNum;

    /// The quotient of the two numbers, for a divisor that is not zero and a
    /// quotient that can be held.
    fn div(self, rhs: &BigNum) -> (r: BigNum)
        ensures
            r@ == self@.divided_by(rhs@),
            r.is_canonical(),
    {
        self.divided_by(rhs)
    }
}

impl DivSpecImpl<&BigNum> for BigNum {
    open spec fn obeys_div_spec() -> bool {
        false
    }

    open spec fn div_req(self, rhs: &BigNum) -> bool {
        !rhs@.is_zero() && self@.divided_by(rhs@).representable()
    }

    open spec fn div_spec(self, rhs: &BigNum) -> BigNum {
        arbitrary()
    }
}

impl Div<BigNum> for &BigNum {
    type Output = BigNum;

    /// The quotient of the two numbers, for a divisor that is not zero and a
    /// quotient that can be held.
    fn div(self, rhs: BigNum) -> (r: BigNum)
        ensures
            r@ == self@.divided_by(rhs@),
            r.is_canonical(),
    {
        self.divided_by(&rhs)
    }
}

impl DivSpecImpl<BigNum> for &BigNum {
    open spec fn obeys_div_spec() -> bool {
        false
    }

    open spec fn div_req(self, rhs: BigNum) -> bool {
        !rhs@.is_zero() && self@.divided_by(rhs@).representable()
    }

    open spec fn div_spec(self, rhs: BigNum) -> BigNum {
        arbitrary()
    }
}

impl Rem for BigNum {
    type Output = BigNum;

    /// What repeated subtraction of the divisor leaves of the number.
    fn rem(self, rhs: BigNum) -> (r: BigNum)
        ensures
            r@ == self@.remainder(rhs@),
            r.is_canonical(),
    {
        self.remainder(&rhs)
    }
}

impl RemSpecImpl for BigNum {
    open spec fn obeys_rem_spec() -> bool {
        false
    }

    open spec fn rem_req(self, rhs: BigNum) -> bool {
        self@.lt(rhs@) || rhs@.is_positive()
    }

    open spec fn rem_spec(self, rhs: BigNum) -> BigNum {
        arbitrary()
    }
}

impl Rem<&BigNum> for &BigNum {
    type Output = BigNum;

    /// What repeated subtraction of the divisor leaves of the number.
    fn rem(self, rhs: &BigNum) -> (r: BigNum)
        ensures
            r@ == self@.remainder(rhs@),
            r.is_canonical(),
    {
        self.remainder(rhs)
    }
}

impl RemSpecImpl<&BigNum> for &BigNum {
    open spec fn obeys_rem_spec() -> bool {
        false
    }

    open spec fn rem_req(self, rhs: &BigNum) -> bool {
        self@.lt(rhs@) || rhs@.is_positive()
    }

    open spec fn rem_spec(self, rhs: &BigNum) -> BigNum {
        arbitrary()
    }
}

impl Rem<&BigNum> for BigNum {
    type Output = BigNum;

    /// What repeated subtraction of the divisor leaves of the number.
    fn rem(self, rhs: &BigNum) -> (r: BigNum)
        ensures
            r@ == self@.remainder(rhs@),
            r.is_canonical(),
    {
        self.remainder(rhs)
    }
}

impl RemSpecImpl<&BigNum> for BigNum {
    open spec fn obeys_rem_spec() -> bool {
        false
    }

    open spec fn rem_req(self, rhs: &BigNum) -> bool {
        self@.lt(rhs@) || rhs@.is_positive()
    }

    open spec fn rem_spec(self, rhs: &BigNum) -> BigNum {
        arbitrary()
    }
}

impl Rem<BigNum> for &BigNum {
    type Output = BigNum;

    /// What repeated subtraction of the divisor leaves of the number.
    fn rem(self, rhs: BigNum) -> (r: BigNum)
        ensures
            r@ == self@.remainder(rhs@),
            r.is_canonical(),
    {
        self.remainder(&rhs)
    }
}

impl RemSpecImpl<BigNum> for &BigNum {
    open spec fn obeys_rem_spec() -> bool {
        false
    }

    open spec fn rem_req(self, rhs: BigNum) -> bool {
        self@.lt(rhs@) || rhs@.is_positive()
    }

    open spec fn rem_spec(self, rhs: BigNum) -> BigNum {
        arbitrary()
    }
}

} // verus!
