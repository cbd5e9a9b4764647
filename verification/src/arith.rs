//! Addition, subtraction, multiplication and negation.

use vstd::prelude::*;
use vstd::std_specs::ops::{AddSpecImpl, SubSpecImpl, MulSpecImpl, NegSpecImpl};
use std::ops::{Add, Sub, Mul, Neg};
use crate::big_num::BigNum;
use crate::dyadic::{
    signed, lemma_at_self, lemma_normal_form, lemma_plus_same, lemma_times_same, lemma_negated_same,
};
use crate::limbs::{Sign, limbs_add, limbs_sub, limbs_mul, limbs_compare, copied};
use crate::radix::limbs_value;

verus! {

impl BigNum {
    /// The sum of two aligned values, the second taken with the sign
    /// `other_neg`. Like signs add the magnitudes; unlike signs subtract the
    /// smaller magnitude from the larger, and the result has the sign of
    /// the larger.
    fn signed_sum(&self, other: &BigNum, other_neg: bool) -> (r: BigNum)
        requires
            self.exponent() == other.exponent(),
            self.limbs().len() == other.limbs().len(),
        ensures
            r@ == crate::dyadic::normal_form(
                signed(limbs_value(self.limbs()), self.negative()) + signed(
                    limbs_value(other.limbs()),
                    other_neg,
                ),
                self.exponent(),
            ),
            r.is_canonical(),
    {
        let ghost total = signed(limbs_value(self.limbs()), self.negative()) + signed(
            limbs_value(other.limbs()),
            other_neg,
        );
        proof {
            lemma_normal_form(total, self.exponent());
        }
        if self.neg == other_neg {
            let sum = limbs_add(&self.parts, &other.parts);
            BigNum::pack(sum, self.exp as i128, self.neg)
        } else {
            match limbs_compare(&self.parts, &other.parts) {
                Sign::Zero => BigNum::new(),
                Sign::Positive => {
                    let diff = limbs_sub(&self.parts, &other.parts);
                    BigNum::pack(diff, self.exp as i128, self.neg)
                },
                Sign::Negative => {
                    let diff = limbs_sub(&other.parts, &self.parts);
                    BigNum::pack(diff, self.exp as i128, other_neg)
                },
            }
        }
    }

    /// The sum of two numbers.
    pub fn plus(&self, rhs: &BigNum) -> (r: BigNum)
        ensures
            r@ == self@.plus(rhs@),
            r.is_canonical(),
    {
        let mut a = self.clone();
        let mut b = rhs.clone();
        BigNum::align(&mut a, &mut b);
        proof {
            a.lemma_view();
            b.lemma_view();
            lemma_plus_same(a@, b@, a.raw(), b.raw());
            lemma_at_self(a.raw());
            lemma_at_self(b.raw());
        }
        a.signed_sum(&b, b.neg)
    }

    /// The difference of two numbers.
    pub fn minus(&self, rhs: &BigNum) -> (r: BigNum)
        ensures
            r@ == self@.minus(rhs@),
            r.is_canonical(),
    {
        let mut a = self.clone();
        let mut b = rhs.clone();
        BigNum::align(&mut a, &mut b);
        proof {
            a.lemma_view();
            b.lemma_view();
            lemma_plus_same(a@, b@, a.raw(), b.raw());
            lemma_at_self(a.raw());
            lemma_at_self(b.raw());
        }
        a.signed_sum(&b, !b.neg)
    }

    /// The negated number.
    pub fn negated(&self) -> (r: BigNum)
        ensures
            r@ == self@.negated(),
            r.is_canonical(),
    {
        proof {
            self.lemma_view();
            lemma_negated_same(self@, self.raw());
            lemma_normal_form(-self.raw().mant, self.raw().scale);
        }
        BigNum::pack(copied(&self.parts), self.exp as i128, !self.neg)
    }

    /// The product of two numbers, or `None` where its scale is below the
    /// least exponent.
    pub fn checked_times(&self, rhs: &BigNum) -> (r: Option<BigNum>)
        ensures
            r is Some <==> self@.times(rhs@).representable(),
            r is Some ==> r->0@ == self@.times(rhs@) && r->0.is_canonical(),
    {
        let prod = limbs_mul(&self.parts, &rhs.parts);
        let scale: i128 = self.exp as i128 + rhs.exp as i128;
        let neg = self.neg != rhs.neg;
        proof {
            self.lemma_view();
            rhs.lemma_view();
            lemma_times_same(self@, rhs@, self.raw(), rhs.raw());
            let va = limbs_value(self.limbs()) as int;
            let vb = limbs_value(rhs.limbs()) as int;
            assert(va * vb >= 0) by (nonlinear_arith)
                requires
                    va >= 0,
                    vb >= 0,
            ;
            assert((-va) * vb == -(va * vb) && va * (-vb) == -(va * vb) && (-va) * (-vb) == va
                * vb) by (nonlinear_arith);
            assert(va * vb == 0 ==> signed((va * vb) as nat, neg) == self.raw().mant
                * rhs.raw().mant);
        }
        BigNum::try_pack(prod, scale, neg)
    }

    /// The product of two numbers.
    pub fn times(&self, rhs: &BigNum) -> (r: BigNum)
        requires
            self@.times(rhs@).representable(),
        ensures
            r@ == self@.times(rhs@),
            r.is_canonical(),
    {
        self.checked_times(rhs).unwrap()
    }
}

impl Add for BigNum {
    type Output = BigNum;

    /// The sum of the two numbers.
    fn add(self, rhs: BigNum) -> (r: BigNum)
        ensures
            r@ == self@.plus(rhs@),
            r.is_canonical(),
    {
        self.plus(&rhs)
    }
}

impl AddSpecImpl for BigNum {
    open spec fn obeys_add_spec() -> bool {
        false
    }

    open spec fn add_req(self, rhs: BigNum) -> bool {
        true
    }

    open spec fn add_spec(self, rhs: BigNum) -> BigNum {
        arbitrary()
    }
}

impl Add for &BigNum {
    type Output = BigNum;

    /// The sum of the two numbers.
    fn add(self, rhs: &BigNum) -> (r: BigNum)
        ensures
            r@ == self@.plus(rhs@),
            r.is_canonical(),
    {
        self.plus(rhs)
    }
}

impl AddSpecImpl for &BigNum {
    open spec fn obeys_add_spec() -> bool {
        false
    }

    open spec fn add_req(self, rhs: &BigNum) -> bool {
        true
    }

    open spec fn add_spec(self, rhs: &BigNum) -> BigNum {
        arbitrary()
    }
}

impl Add<&BigNum> for BigNum {
    type Output = BigNum;

    /// The sum of the two numbers.
    fn add(self, rhs: &BigNum) -> (r: BigNum)
        ensures
            r@ == self@.plus(rhs@),
            r.is_canonical(),
    {
        self.plus(rhs)
    }
}

impl AddSpecImpl<&BigNum> for BigNum {
    open spec fn obeys_add_spec() -> bool {
        false
    }

    open spec fn add_req(self, rhs: &BigNum) -> bool {
        true
    }

    open spec fn add_spec(self, rhs: &BigNum) -> BigNum {
        arbitrary()
    }
}

impl Add<BigNum> for &BigNum {
    type Output = BigNum;

    /// The sum of the two numbers.
    fn add(self, rhs: BigNum) -> (r: BigNum)
        ensures
            r@ == self@.plus(rhs@),
            r.is_canonical(),
    {
        self.plus(&rhs)
    }
}

impl AddSpecImpl<BigNum> for &BigNum {
    open spec fn obeys_add_spec() -> bool {
        false
    }

    open spec fn add_req(self, rhs: BigNum) -> bool {
        true
    }

    open spec fn add_spec(self, rhs: BigNum) -> BigNum {
        arbitrary()
    }
}

impl Sub for BigNum {
    type Output = BigNum;

    /// The difference of the two numbers.
    fn sub(self, rhs: BigNum) -> (r: BigNum)
        ensures
            r@ == self@.minus(rhs@),
            r.is_canonical(),
    {
        self.minus(&rhs)
    }
}

impl SubSpecImpl for BigNum {
    open spec fn obeys_sub_spec() -> bool {
        false
    }

    open spec fn sub_req(self, rhs: BigNum) -> bool {
        true
    }

    open spec fn sub_spec(self, rhs: BigNum) -> BigNum {
        arbitrary()
    }
}

impl Sub for &BigNum {
    type Output = BigNum;

    /// The difference of the two numbers.
    fn sub(self, rhs: &BigNum) -> (r: BigNum)
        ensures
            r@ == self@.minus(rhs@),
            r.is_canonical(),
    {
        self.minus(rhs)
    }
}

impl SubSpecImpl for &BigNum {
    open spec fn obeys_sub_spec() -> bool {
        false
    }

    open spec fn sub_req(self, rhs: &BigNum) -> bool {
        true
    }

    open spec fn sub_spec(self, rhs: &BigNum) -> BigNum {
        arbitrary()
    }
}

impl Sub<&BigNum> for BigNum {
    type Output = BigNum;

    /// The difference of the two numbers.
    fn sub(self, rhs: &BigNum) -> (r: BigNum)
        ensures
            r@ == self@.minus(rhs@),
            r.is_canonical(),
    {
        self.minus(rhs)
    }
}

impl SubSpecImpl<&BigNum> for BigNum {
    open spec fn obeys_sub_spec() -> bool {
        false
    }

    open spec fn sub_req(self, rhs: &BigNum) -> bool {
        true
    }

    open spec fn sub_spec(self, rhs: &BigNum) -> BigNum {
        arbitrary()
    }
}

impl Sub<BigNum> for &BigNum {
    type Output = BigNum;

    /// The difference of the two numbers.
    fn sub(self, rhs: BigNum) -> (r: BigNum)
        ensures
            r@ == self@.minus(rhs@),
            r.is_canonical(),
    {
        self.minus(&rhs)
    }
}

impl SubSpecImpl<BigNum> for &BigNum {
    open spec fn obeys_sub_spec() -> bool {
        false
    }

    open spec fn sub_req(self, rhs: BigNum) -> bool {
        true
    }

    open spec fn sub_spec(self, rhs: BigNum) -> BigNum {
        arbitrary()
    }
}

impl Mul for BigNum {
    type Output = BigNum;

    /// The product of the two numbers, for a product that can be held.
    fn mul(self, rhs: BigNum) -> (r: BigNum)
        ensures
            r@ == self@.times(rhs@),
            r.is_canonical(),
    {
        self.times(&rhs)
    }
}

impl MulSpecImpl for BigNum {
    open spec fn obeys_mul_spec() -> bool {
        false
    }

    open spec fn mul_req(self, rhs: BigNum) -> bool {
        self@.times(rhs@).representable()
    }

    open spec fn mul_spec(self, rhs: BigNum) -> BigNum {
        arbitrary()
    }
}

impl Mul for &BigNum {
    type Output = BigNum;

    /// The product of the two numbers, for a product that can be held.
    fn mul(self, rhs: &BigNum) -> (r: BigNum)
        ensures
            r@ == self@.times(rhs@),
            r.is_canonical(),
    {
        self.times(rhs)
    }
}

impl MulSpecImpl for &BigNum {
    open spec fn obeys_mul_spec() -> bool {
        false
    }

    open spec fn mul_req(self, rhs: &BigNum) -> bool {
        self@.times(rhs@).representable()
    }

    open spec fn mul_spec(self, rhs: &BigNum) -> BigNum {
        arbitrary()
    }
}

impl Mul<&BigNum> for BigNum {
    type Output = BigNum;

    /// The product of the two numbers, for a product that can be held.
    fn mul(self, rhs: &BigNum) -> (r: BigNum)
        ensures
            r@ == self@.times(rhs@),
            r.is_canonical(),
    {
        self.times(rhs)
    }
}

impl MulSpecImpl<&BigNum> for BigNum {
    open spec fn obeys_mul_spec() -> bool {
        false
    }

    open spec fn mul_req(self, rhs: &BigNum) -> bool {
        self@.times(rhs@).representable()
    }

    open spec fn mul_spec(self, rhs: &BigNum) -> BigNum {
        arbitrary()
    }
}

impl Mul<BigNum> for &BigNum {
    type Output = BigNum;

    /// The product of the two numbers, for a product that can be held.
    fn mul(self, rhs: BigNum) -> (r: BigNum)
        ensures
            r@ == self@.times(rhs@),
            r.is_canonical(),
    {
        self.times(&rhs)
    }
}

impl MulSpecImpl<BigNum> for &BigNum {
    open spec fn obeys_mul_spec() -> bool {
        false
    }

    open spec fn mul_req(self, rhs: BigNum) -> bool {
        self@.times(rhs@).representable()
    }

    open spec fn mul_spec(self, rhs: BigNum) -> BigNum {
        arbitrary()
    }
}

impl Neg for BigNum {
    type Output = BigNum;

    /// The negated number.
    fn neg(self) -> (r: BigNum)
        ensures
            r@ == self@.negated(),
            r.is_canonical(),
    {
        self.negated()
    }
}

impl NegSpecImpl for BigNum {
    open spec fn obeys_neg_spec() -> bool {
        false
    }

    open spec fn neg_req(self) -> bool {
        true
    }

    open spec fn neg_spec(self) -> BigNum {
        arbitrary()
    }
}

impl Neg for &BigNum {
    type Output = BigNum;

    /// The negated number.
    fn neg(self) -> (r: BigNum)
        ensures
            r@ == self@.negated(),
            r.is_canonical(),
    {
        self.negated()
    }
}

impl NegSpecImpl for &BigNum {
    open spec fn obeys_neg_spec() -> bool {
        false
    }

    open spec fn neg_req(self) -> bool {
        true
    }

    open spec fn neg_spec(self) -> BigNum {
        arbitrary()
    }
}

} // verus!
