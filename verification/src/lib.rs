//! Arbitrary-precision signed numbers in base 2^64 with a limb exponent, and
//! their conversion to and from text in bases 2, 8, 10, 16 and 64.
//!
//! A number is held as a vector of 64-bit limbs, an exponent that counts
//! limbs, and a sign. Its meaning is a pair of an integer mantissa and a
//! scale, the model of `dyadic`; every function states its result in that
//! model. Sums, differences and products are exact. Quotients are rounded to
//! as many limbs as both operands have together; powers and roots are built
//! from these.
//!
//! - `radix`, `limbs`: natural numbers as limb vectors.
//! - `dyadic`, `laws`: the model and its algebra.
//! - `big_num`, `arith`, `order`, `division`, `parts`, `power`: the number
//!   type and its operations.
//! - `codec`, `numerals`, `text`: numerals in the five bases.
//! - `ast`: expression trees and their value.

pub mod arith;
pub mod ast;
pub mod big_num;
pub mod codec;
pub mod division;
pub mod dyadic;
pub mod laws;
pub mod limbs;
pub mod numerals;
pub mod order;
pub mod parts;
pub mod power;
pub mod radix;
pub mod text;

pub use ast::AstNode;
pub use big_num::BigNum;
pub use codec::{encode, parse, Base};
