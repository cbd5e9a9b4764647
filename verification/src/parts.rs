//! The integer and the fractional part of a number, its value as a machine
//! integer, and its limbs as binary text.

use vstd::prelude::*;
use vstd::arithmetic::div_mod::lemma_fundamental_div_mod_converse;
use vstd::math::abs;
use crate::big_num::BigNum;
use crate::dyadic::{lemma_normal_form, lemma_normalized_normal};
use crate::limbs::upper_limbs;
use crate::radix::{
    radix, radix_pow, limbs_value, lemma_radix_pow_step, lemma_radix_pow_monotone,
    lemma_limbs_value_concat, lemma_limbs_value_bound, lemma_limbs_value_push,
};

verus! {

/// The `n` highest bits of `w`, the highest first, as the characters `0`
/// and `1`.
pub open spec fn high_bits(w: u64, n: nat) -> Seq<char>
    decreases n,
{
    if n == 0 {
        Seq::<char>::empty()
    } else {
        let bit = if w >= 0x8000_0000_0000_0000 {
            '1'
        } else {
            '0'
        };
        seq![bit] + high_bits(((w % 0x8000_0000_0000_0000) * 2) as u64, (n - 1) as nat)
    }
}

/// A limb as 64 binary digits.
pub open spec fn limb_bits(x: u64) -> Seq<char> {
    high_bits(x, 64)
}

/// The text of the lowest `n` limbs, the highest of them first: each limb
/// as 64 binary digits, a point before the limb whose index is the
/// exponent, and a space after every limb but the lowest.
pub open spec fn limbs_text(limbs: Seq<u64>, exponent: int, n: nat) -> Seq<char>
    decreases n,
{
    if n == 0 {
        Seq::<char>::empty()
    } else {
        let i = n - 1;
        let point = if i == exponent {
            seq!['.']
        } else {
            Seq::<char>::empty()
        };
        let space = if i != 0 {
            seq![' ']
        } else {
            Seq::<char>::empty()
        };
        point + limb_bits(limbs[i]) + space + limbs_text(limbs, exponent, i as nat)
    }
}

/// The binary text of a value: a minus sign where the sign flag is set,
/// then the limbs from the highest down.
pub open spec fn binary_text(limbs: Seq<u64>, exponent: int, negative: bool) -> Seq<char> {
    let sign = if negative {
        seq!['-']
    } else {
        Seq::<char>::empty()
    };
    sign + limbs_text(limbs, exponent, limbs.len())
}

/// Appends the 64 binary digits of `x` to `out`.
fn push_limb_bits(out: &mut String, x: u64)
    ensures
        final(out)@ == old(out)@ + limb_bits(x),
{
    let mut w: u64 = x;
    let mut n: u32 = 64;
    proof {
        assert(out@ + limb_bits(x) =~= old(out)@ + high_bits(w, n as nat));
    }
    while n > 0
        invariant
            n <= 64,
            out@ + high_bits(w, n as nat) == old(out)@ + limb_bits(x),
        decreases n,
    {
        let bit = if w >= 0x8000_0000_0000_0000 {
            '1'
        } else {
            '0'
        };
        let next: u64 = (w % 0x8000_0000_0000_0000) * 2;
        proof {
            assert(out@.push(bit) + high_bits(next, (n - 1) as nat) =~= out@ + high_bits(
                w,
                n as nat,
            ));
        }
        out.push(bit);
        w = next;
        n -= 1;
    }
    proof {
        assert(out@ + high_bits(w, 0) =~= out@);
    }
}

impl BigNum {
    /// The limbs in binary, the highest first.
    pub fn to_string_binary(&self) -> (r: String)
        ensures
            r@ == binary_text(self.limbs(), self.exponent(), self.negative()),
    {
        let mut result = String::new();
        if self.neg {
            result.push('-');
        }
        let ghost sign = result@;
        let mut n: usize = self.parts.len();
        proof {
            assert(result@ + limbs_text(self.limbs(), self.exponent(), n as nat) =~= binary_text(
                self.limbs(),
                self.exponent(),
                self.negative(),
            ));
        }
        while n > 0
            invariant
                n <= self.parts.len(),
                result@ + limbs_text(self.limbs(), self.exponent(), n as nat) == binary_text(
                    self.limbs(),
                    self.exponent(),
                    self.negative(),
                ),
            decreases n,
        {
            let i = n - 1;
            let ghost before = result@;
            let ghost point = if i == self.exponent() {
                seq!['.']
            } else {
                Seq::<char>::empty()
            };
            let ghost space = if i != 0 {
                seq![' ']
            } else {
                Seq::<char>::empty()
            };
            if self.exp >= 0 && i as u64 == self.exp as u64 {
                result.push('.');
            }
            proof {
                assert(result@ =~= before + point);
            }
            push_limb_bits(&mut result, self.parts[i]);
            if i != 0 {
                result.push(' ');
            }
            proof {
                assert(result@ =~= before + (point + limb_bits(self.limbs()[i as int]) + space));
                assert(result@ + limbs_text(self.limbs(), self.exponent(), i as nat) =~= before
                    + limbs_text(self.limbs(), self.exponent(), n as nat));
            }
            n = i;
        }
        proof {
            assert(result@ + limbs_text(self.limbs(), self.exponent(), 0) =~= result@);
        }
        result
    }

    /// The integer part of the number, rounded toward zero.
    pub fn get_integer_part_ref(&self) -> (r: BigNum)
        ensures
            r@ == self@.integer_part(),
            r.is_canonical(),
    {
        let (v, e) = self.normal_parts();
        proof {
            self.lemma_view();
            lemma_normalized_normal(self@);
        }
        if e >= 0 {
            let mut whole = self.clone();
            whole.compact();
            return whole;
        }
        let k: u128 = (-e) as u128;
        if v.len() as u128 <= k {
            proof {
                lemma_limbs_value_bound(v@);
                lemma_radix_pow_monotone(v@.len(), k as nat);
                let m = limbs_value(v@) as int;
                let p = radix_pow(k as nat);
                lemma_fundamental_div_mod_converse(m, p, 0, m);
            }
            return BigNum::new();
        }
        let upper = upper_limbs(&v, k as usize);
        proof {
            let low = v@.take(k as int);
            assert(v@ =~= low + upper@);
            lemma_limbs_value_concat(low, upper@);
            lemma_limbs_value_bound(low);
            let p = radix_pow(k as nat);
            lemma_radix_pow_step(k as nat);
            let m = limbs_value(v@) as int;
            let hi = limbs_value(upper@) as int;
            assert(p * hi == hi * p) by (nonlinear_arith);
            lemma_fundamental_div_mod_converse(m, p, hi, limbs_value(low) as int);
            lemma_normal_form(self@.integer_part().mant, 0);
            if self@.mant < 0 {
                assert(-self@.mant == m);
            }
            lemma_normal_form(crate::dyadic::signed(hi as nat, self.negative()), 0);
        }
        BigNum::pack(upper, 0, self.neg)
    }

    /// The integer part of the number, rounded toward zero.
    pub fn get_integer_part(self) -> (r: BigNum)
        ensures
            r@ == self@.integer_part(),
            r.is_canonical(),
    {
        self.get_integer_part_ref()
    }

    /// What is left of the number when its integer part is taken away.
    pub fn get_decimal_part(self) -> (r: BigNum)
        ensures
            r@ == self@.fractional_part(),
            r.is_canonical(),
    {
        let whole = self.get_integer_part_ref();
        self.minus(&whole)
    }

    /// The number as a machine integer, for a number that is one: an
    /// integer from zero to 2^64 - 1.
    pub fn to_u64(&self) -> (r: u64)
        requires
            self@.scale == 0,
            0 <= self@.mant < radix(),
        ensures
            r == self@.mant,
    {
        let (v, e) = self.normal_parts();
        if v.len() == 0 {
            proof {
                assert(limbs_value(v@) == 0);
            }
            return 0;
        }
        proof {
            lemma_radix_pow_step(0);
            lemma_radix_pow_step(1);
            crate::radix::lemma_limb_count_bounds(abs(self@.mant));
            if v.len() >= 2 {
                lemma_radix_pow_monotone(1, (v.len() - 1) as nat);
            }
            assert(v@ =~= Seq::<u64>::empty().push(v[0]));
            lemma_limbs_value_push(Seq::<u64>::empty(), v[0]);
            assert(limbs_value(Seq::<u64>::empty()) == 0);
            let x = v[0] as int;
            assert(x * radix_pow(0) == x) by (nonlinear_arith)
                requires
                    radix_pow(0) == 1,
            ;
        }
        v[0]
    }
}

} // verus!
