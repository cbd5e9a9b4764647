//! Equality and order of numbers.

use vstd::prelude::*;
use vstd::std_specs::cmp::{PartialEqSpecImpl, PartialOrdSpecImpl};
use std::cmp::Ordering;
use crate::big_num::BigNum;
use crate::dyadic::{lemma_at_self, lemma_lt_same, lemma_normal_unique, lemma_same_at};
use crate::limbs::{Sign, limbs_compare, limbs_is_zero};

verus! {

impl BigNum {
    /// The sign of the difference of two numbers. Where the signs differ
    /// they decide; else both values are aligned and their limbs compared
    /// from the most significant one down, and for two negative numbers the
    /// result is turned round.
    pub fn compare(&self, other: &BigNum) -> (r: Sign)
        ensures
            r == Sign::Negative <==> self@.lt(other@),
            r == Sign::Zero <==> self@ == other@,
            r == Sign::Positive <==> other@.lt(self@),
    {
        let mut a = self.clone();
        let mut b = other.clone();
        BigNum::align(&mut a, &mut b);
        proof {
            a.lemma_view();
            b.lemma_view();
            lemma_lt_same(a@, b@, a.raw(), b.raw());
            lemma_lt_same(b@, a@, b.raw(), a.raw());
            lemma_at_self(a.raw());
            lemma_at_self(b.raw());
            lemma_same_at(a.raw(), b.raw(), a.exponent());
            lemma_same_at(b.raw(), a.raw(), a.exponent());
            if a@.same(b@) {
                lemma_normal_unique(a@, b@);
            }
            lemma_at_self(a@);
        }
        let a_zero = limbs_is_zero(&a.parts);
        let b_zero = limbs_is_zero(&b.parts);
        let a_neg = a.neg && !a_zero;
        let b_neg = b.neg && !b_zero;
        if a_neg && !b_neg {
            Sign::Negative
        } else if !a_neg && b_neg {
            Sign::Positive
        } else {
            let magnitudes = limbs_compare(&a.parts, &b.parts);
            if a_neg {
                magnitudes.flipped()
            } else {
                magnitudes
            }
        }
    }

    /// Whether the number is less than `other`.
    pub fn less_than(&self, other: &BigNum) -> (r: bool)
        ensures
            r == self@.lt(other@),
    {
        match self.compare(other) {
            Sign::Negative => true,
            _ => false,
        }
    }

    /// Whether the number is at most `other`.
    pub fn at_most(&self, other: &BigNum) -> (r: bool)
        ensures
            r == self@.le(other@),
    {
        proof {
            lemma_same_at(self@, other@, vstd::math::min(self@.scale, other@.scale));
            lemma_same_at(other@, self@, vstd::math::min(self@.scale, other@.scale));
        }
        match self.compare(other) {
            Sign::Positive => false,
            _ => true,
        }
    }

    /// Whether the two values are the same number.
    pub fn equals(&self, other: &BigNum) -> (r: bool)
        ensures
            r == (self@ == other@),
    {
        match self.compare(other) {
            Sign::Zero => true,
            _ => false,
        }
    }
}

impl PartialEq for BigNum {
    /// Whether the two values are the same number.
    fn eq(&self, other: &BigNum) -> (r: bool) {
        self.equals(other)
    }
}

impl PartialEqSpecImpl for BigNum {
    open spec fn obeys_eq_spec() -> bool {
        true
    }

    open spec fn eq_spec(&self, other: &BigNum) -> bool {
        self@ == other@
    }
}

impl Eq for BigNum {

}

impl PartialOrd for BigNum {
    /// The order of the two numbers.
    fn partial_cmp(&self, other: &BigNum) -> (r: Option<Ordering>) {
        match self.compare(other) {
            Sign::Negative => Some(Ordering::Less),
            Sign::Zero => Some(Ordering::Equal),
            Sign::Positive => Some(Ordering::Greater),
        }
    }
}

impl PartialOrdSpecImpl for BigNum {
    open spec fn obeys_partial_cmp_spec() -> bool {
        true
    }

    open spec fn partial_cmp_spec(&self, other: &BigNum) -> Option<Ordering> {
        if self@.lt(other@) {
            Some(Ordering::Less)
        } else if self@ == other@ {
            Some(Ordering::Equal)
        } else {
            Some(Ordering::Greater)
        }
    }
}

} // verus!
