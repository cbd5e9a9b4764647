//! Expression trees over numbers, and their value.

use vstd::prelude::*;
use crate::big_num::BigNum;
use crate::dyadic::Dyadic;
use crate::power::{checked, checked_quotient, option_view, power};

verus! {

/// An arithmetic expression.
#[derive(Debug, PartialEq, Eq)]
pub enum AstNode {
    Literal(BigNum),
    Add(Box<AstNode>, Box<AstNode>),
    Sub(Box<AstNode>, Box<AstNode>),
    Mul(Box<AstNode>, Box<AstNode>),
    Div(Box<AstNode>, Box<AstNode>),
    Pow(Box<AstNode>, Box<AstNode>),
    Mod(Box<AstNode>, Box<AstNode>),
}

/// The remainder, where repeated subtraction of the divisor comes to an
/// end: the divisor is above zero, or the number is less than it.
pub open spec fn checked_remainder(a: Dyadic, b: Dyadic) -> Option<Dyadic> {
    if a.lt(b) || b.is_positive() {
        Some(a.remainder(b))
    } else {
        None
    }
}

/// The result of an operation on two values, where both are there.
pub open spec fn both(
    a: Option<Dyadic>,
    b: Option<Dyadic>,
    op: spec_fn(Dyadic, Dyadic) -> Option<Dyadic>,
) -> Option<Dyadic> {
    match a {
        None => None,
        Some(x) => match b {
            None => None,
            Some(y) => op(x, y),
        },
    }
}

/// The value of an expression: the value of a literal is its number, and
/// the value of an operation is the operation on the values of its two
/// sides. There is no value where a division is by zero, a remainder does
/// not end, or a result cannot be held.
pub open spec fn value_of(node: AstNode) -> Option<Dyadic>
    decreases node,
{
    match node {
        AstNode::Literal(x) => Some(x@),
        AstNode::Add(l, r) => both(value_of(*l), value_of(*r), |x: Dyadic, y: Dyadic| Some(x.plus(y))),
        AstNode::Sub(l, r) => both(
            value_of(*l),
            value_of(*r),
            |x: Dyadic, y: Dyadic| Some(x.minus(y)),
        ),
        AstNode::Mul(l, r) => both(
            value_of(*l),
            value_of(*r),
            |x: Dyadic, y: Dyadic| checked(x.times(y)),
        ),
        AstNode::Div(l, r) => both(
            value_of(*l),
            value_of(*r),
            |x: Dyadic, y: Dyadic| checked_quotient(x, y),
        ),
        AstNode::Pow(l, r) => both(value_of(*l), value_of(*r), |x: Dyadic, y: Dyadic| power(x, y)),
        AstNode::Mod(l, r) => both(
            value_of(*l),
            value_of(*r),
            |x: Dyadic, y: Dyadic| checked_remainder(x, y),
        ),
    }
}

/// The two expressions are built alike, and their literals hold the same
/// limbs, exponent and sign.
pub open spec fn same_expression(a: AstNode, b: AstNode) -> bool
    decreases a,
{
    match (a, b) {
        (AstNode::Literal(x), AstNode::Literal(y)) => x.limbs() == y.limbs() && x.exponent()
            == y.exponent() && x.negative() == y.negative(),
        (AstNode::Add(l, r), AstNode::Add(l2, r2)) => same_expression(*l, *l2) && same_expression(
            *r,
            *r2,
        ),
        (AstNode::Sub(l, r), AstNode::Sub(l2, r2)) => same_expression(*l, *l2) && same_expression(
            *r,
            *r2,
        ),
        (AstNode::Mul(l, r), AstNode::Mul(l2, r2)) => same_expression(*l, *l2) && same_expression(
            *r,
            *r2,
        ),
        (AstNode::Div(l, r), AstNode::Div(l2, r2)) => same_expression(*l, *l2) && same_expression(
            *r,
            *r2,
        ),
        (AstNode::Pow(l, r), AstNode::Pow(l2, r2)) => same_expression(*l, *l2) && same_expression(
            *r,
            *r2,
        ),
        (AstNode::Mod(l, r), AstNode::Mod(l2, r2)) => same_expression(*l, *l2) && same_expression(
            *r,
            *r2,
        ),
        _ => false,
    }
}

/// Expressions that are built alike have the same value.
pub proof fn lemma_same_expression(a: AstNode, b: AstNode)
    requires
        same_expression(a, b),
    ensures
        value_of(a) == value_of(b),
    decreases a,
{
    match (a, b) {
        (AstNode::Add(l, r), AstNode::Add(l2, r2)) => {
            lemma_same_expression(*l, *l2);
            lemma_same_expression(*r, *r2);
        },
        (AstNode::Sub(l, r), AstNode::Sub(l2, r2)) => {
            lemma_same_expression(*l, *l2);
            lemma_same_expression(*r, *r2);
        },
        (AstNode::Mul(l, r), AstNode::Mul(l2, r2)) => {
            lemma_same_expression(*l, *l2);
            lemma_same_expression(*r, *r2);
        },
        (AstNode::Div(l, r), AstNode::Div(l2, r2)) => {
            lemma_same_expression(*l, *l2);
            lemma_same_expression(*r, *r2);
        },
        (AstNode::Pow(l, r), AstNode::Pow(l2, r2)) => {
            lemma_same_expression(*l, *l2);
            lemma_same_expression(*r, *r2);
        },
        (AstNode::Mod(l, r), AstNode::Mod(l2, r2)) => {
            lemma_same_expression(*l, *l2);
            lemma_same_expression(*r, *r2);
        },
        _ => {},
    }
}

impl AstNode {
    /// A copy of the expression, node for node.
    pub fn duplicate(&self) -> (r: AstNode)
        ensures
            same_expression(*self, r),
            value_of(r) == value_of(*self),
        decreases self,
    {
        let r = match self {
            AstNode::Literal(x) => AstNode::Literal(x.clone()),
            AstNode::Add(l, r) => AstNode::Add(Box::new(l.duplicate()), Box::new(r.duplicate())),
            AstNode::Sub(l, r) => AstNode::Sub(Box::new(l.duplicate()), Box::new(r.duplicate())),
            AstNode::Mul(l, r) => AstNode::Mul(Box::new(l.duplicate()), Box::new(r.duplicate())),
            AstNode::Div(l, r) => AstNode::Div(Box::new(l.duplicate()), Box::new(r.duplicate())),
            AstNode::Pow(l, r) => AstNode::Pow(Box::new(l.duplicate()), Box::new(r.duplicate())),
            AstNode::Mod(l, r) => AstNode::Mod(Box::new(l.duplicate()), Box::new(r.duplicate())),
        };
        proof {
            lemma_same_expression(*self, r);
        }
        r
    }
}

impl Clone for AstNode {
    /// A copy of the expression, node for node.
    fn clone(&self) -> (r: AstNode)
        ensures
            same_expression(*self, r),
            value_of(r) == value_of(*self),
    {
        self.duplicate()
    }
}

/// The value of an expression, or `None` where it has none.
pub fn try_eval(input: &AstNode) -> (r: Option<BigNum>)
    ensures
        option_view(r) == value_of(*input),
    decreases input,
{
    match input {
        AstNode::Literal(x) => Some(x.clone()),
        AstNode::Add(l, r) => {
            let a = try_eval(l);
            let b = try_eval(r);
            match (a, b) {
                (Some(x), Some(y)) => Some(x.plus(&y)),
                _ => None,
            }
        },
        AstNode::Sub(l, r) => {
            let a = try_eval(l);
            let b = try_eval(r);
            match (a, b) {
                (Some(x), Some(y)) => Some(x.minus(&y)),
                _ => None,
            }
        },
        AstNode::Mul(l, r) => {
            let a = try_eval(l);
            let b = try_eval(r);
            match (a, b) {
                (Some(x), Some(y)) => x.checked_times(&y),
                _ => None,
            }
        },
        AstNode::Div(l, r) => {
            let a = try_eval(l);
            let b = try_eval(r);
            match (a, b) {
                (Some(x), Some(y)) => x.checked_div(&y),
                _ => None,
            }
        },
        AstNode::Pow(l, r) => {
            let a = try_eval(l);
            let b = try_eval(r);
            match (a, b) {
                (Some(x), Some(y)) => x.checked_pow(&y),
                _ => None,
            }
        },
        AstNode::Mod(l, r) => {
            let a = try_eval(l);
            let b = try_eval(r);
            match (a, b) {
                (Some(x), Some(y)) => {
                    if x.less_than(&y) || y.sign() == crate::limbs::Sign::Positive {
                        Some(x.remainder(&y))
                    } else {
                        None
                    }
                },
                _ => None,
            }
        },
    }
}

/// The value of an expression that has one.
pub fn eval(input: &AstNode) -> (r: BigNum)
    requires
        value_of(*input) is Some,
    ensures
        Some(r@) == value_of(*input),
{
    try_eval(input).unwrap()
}

} // verus!
