//! The number type: a limb vector, a limb exponent and a sign.

use vstd::prelude::*;
use vstd::math::{abs, max, min};
use vstd::std_specs::convert::FromSpecImpl;
use crate::dyadic::{
    Dyadic, normal_form, signed, lemma_at_self, lemma_at_rescale, lemma_same_at, lemma_normal_form,
    lemma_normalized_same, lemma_normalized_normal, lemma_same_symmetric,
};
use crate::limbs::{
    Sign, trim, low_zero_count, dropped_low, shifted_up, pad_to, copied, limbs_is_zero,
};
use crate::radix::{
    radix_pow, limbs_value, limb_count, lemma_radix_pow_step, lemma_limbs_value_first,
    lemma_limbs_value_push, lemma_limbs_value_lower_bound, lemma_limb_count_of_limbs,
};

verus! {

/// A signed number: the limbs times `2^(64 * exponent)`, with a sign.
///
/// The limbs are the digits of the magnitude in base 2^64, least significant
/// first. Every value of the type is a number; the functions of this
/// library return canonical values.
#[derive(Debug)]
pub struct BigNum {
    pub(crate) parts: Vec<u64>,
    pub(crate) exp: i32,
    pub(crate) neg: bool,
}

impl View for BigNum {
    type V = Dyadic;

    /// The number that the value stands for, as its normal pair.
    open spec fn view(&self) -> Dyadic {
        self.raw().normalized()
    }
}

impl BigNum {
    /// The limbs, least significant first.
    pub open(crate) spec fn limbs(&self) -> Seq<u64> {
        self.parts@
    }

    /// The power of 2^64 that the least significant limb counts.
    pub open(crate) spec fn exponent(&self) -> int {
        self.exp as int
    }

    /// The sign flag.
    pub open(crate) spec fn negative(&self) -> bool {
        self.neg
    }

    /// The number as the pair of the signed limbs and the exponent.
    pub open spec fn raw(&self) -> Dyadic {
        Dyadic { mant: signed(limbs_value(self.limbs()), self.negative()), scale: self.exponent() }
    }

    /// No zero limb at the top, none at the bottom unless the exponent has
    /// reached its maximum, and zero is the empty limb sequence with the
    /// exponent zero and no sign.
    pub open spec fn is_canonical(&self) -> bool {
        let s = self.limbs();
        if s.len() == 0 {
            self.exponent() == 0 && !self.negative()
        } else {
            s.last() != 0 && (s[0] != 0 || self.exponent() == 0x7fff_ffff)
        }
    }

    /// Canonical zero.
    pub fn new() -> (r: BigNum)
        ensures
            r@ == Dyadic::zero(),
            r.is_canonical(),
            r.limbs() == Seq::<u64>::empty(),
            r.exponent() == 0,
            !r.negative(),
    {
        let r = BigNum { parts: Vec::new(), exp: 0, neg: false };
        proof {
            assert(limbs_value(r.parts@) == 0);
        }
        r
    }
}

/// The exponent of the canonical value of a number: its scale, or the
/// greatest exponent where the scale is above it.
pub open spec fn canonical_exponent(d: Dyadic) -> int {
    if d.scale > 0x7fff_ffff {
        0x7fff_ffff
    } else {
        d.scale
    }
}

/// The limb count of the canonical value of a number: the limbs of its
/// mantissa, and a zero limb below them for every step of the scale above
/// the greatest exponent.
pub open spec fn canonical_length(d: Dyadic) -> nat {
    (limb_count(abs(d.mant)) + d.scale - canonical_exponent(d)) as nat
}

/// The count of zero limbs at the bottom of a limb sequence.
pub open spec fn low_zeros(s: Seq<u64>) -> nat
    decreases s.len(),
{
    if s.len() == 0 || s[0] != 0 {
        0
    } else {
        1 + low_zeros(s.drop_first())
    }
}

/// A limb sequence with a nonzero top limb has a nonzero limb above its
/// zero limbs at the bottom, and counts by them.
pub proof fn lemma_low_zeros(s: Seq<u64>)
    requires
        s.len() > 0,
        s.last() != 0,
    ensures
        low_zeros(s) < s.len(),
        s[low_zeros(s) as int] != 0,
        limbs_value(s) == limbs_value(s.skip(low_zeros(s) as int)) * radix_pow(low_zeros(s)),
        s[0] == 0 ==> low_zeros(s) > 0,
    decreases s.len(),
{
    lemma_radix_pow_step(0);
    if s[0] != 0 {
        assert(s.skip(0) =~= s);
        assert(limbs_value(s) * 1 == limbs_value(s));
    } else {
        let t = s.drop_first();
        assert(t.last() == s.last());
        lemma_low_zeros(t);
        let j = low_zeros(t);
        assert(t.skip(j as int) =~= s.skip(j as int + 1));
        lemma_limbs_value_first(s);
        lemma_radix_pow_step(j);
        let v = limbs_value(t.skip(j as int)) as int;
        let p = radix_pow(j);
        assert(crate::radix::radix() * (v * p) == v * (p * crate::radix::radix()))
            by (nonlinear_arith);
    }
}

/// A sign carries over a power of the radix.
pub proof fn lemma_signed_scaled(v: nat, neg: bool, k: nat)
    ensures
        radix_pow(k) >= 1,
        v * radix_pow(k) >= 0,
        signed((v * radix_pow(k)) as nat, neg) == signed(v, neg) * radix_pow(k),
{
    lemma_radix_pow_step(k);
    let p = radix_pow(k);
    assert(v * p >= 0 && (-(v as int)) * p == -(v * p)) by (nonlinear_arith)
        requires
            p >= 1,
    ;
}

/// Limbs that count `k` limbs lower, with `k` zero limbs below them, are the
/// same number.
pub proof fn lemma_raw_shift(v: nat, w: nat, neg: bool, e: int, k: nat)
    requires
        w == v * radix_pow(k),
    ensures
        (Dyadic { mant: signed(w, neg), scale: e - k }).same(
            Dyadic { mant: signed(v, neg), scale: e },
        ),
{
    let lo = Dyadic { mant: signed(w, neg), scale: e - k };
    let hi = Dyadic { mant: signed(v, neg), scale: e };
    lemma_signed_scaled(v, neg, k);
    lemma_at_self(lo);
    lemma_at_self(hi);
    lemma_at_rescale(hi, e, e - k);
    lemma_same_at(lo, hi, e - k);
}

/// A pair whose mantissa has a nonzero lowest limb is normal.
pub proof fn lemma_raw_normal(s: Seq<u64>, neg: bool, e: int)
    requires
        s.len() > 0,
        s[0] != 0,
    ensures
        (Dyadic { mant: signed(limbs_value(s), neg), scale: e }).normal(),
        limbs_value(s) != 0,
{
    lemma_limbs_value_first(s);
    let rest = limbs_value(s.drop_first()) as int;
    let v = limbs_value(s) as int;
    let x = s[0] as int;
    assert(v == x + 0x1_0000_0000_0000_0000 * rest);
    assert(v % 0x1_0000_0000_0000_0000 == x);
    assert((-v) % 0x1_0000_0000_0000_0000 == 0x1_0000_0000_0000_0000 - x);
}

impl BigNum {
    /// The view of a value is a normal pair with the sign of its limbs,
    /// and its scale is no less than the exponent unless the value is zero.
    pub proof fn lemma_view(&self)
        ensures
            self@.normal(),
            self@.same(self.raw()),
            self@.representable(),
            limbs_value(self.limbs()) == 0 <==> self@.is_zero(),
            self@.is_negative() <==> (self.negative() && limbs_value(self.limbs()) != 0),
            !self@.is_zero() ==> self@.scale >= self.exponent(),
    {
        lemma_normal_form(self.raw().mant, self.raw().scale);
    }

    /// A canonical value is fixed by its number: the exponent, the limb
    /// count and the sign flag are those of the number.
    pub proof fn lemma_canonical_shape(&self)
        requires
            self.is_canonical(),
        ensures
            self.exponent() == canonical_exponent(self@),
            self.limbs().len() == canonical_length(self@),
            self.negative() == self@.is_negative(),
            limbs_value(self.limbs()) == abs(self@.mant) * radix_pow(
                (self@.scale - self.exponent()) as nat,
            ),
    {
        let s = self.limbs();
        self.lemma_view();
        lemma_radix_pow_step(0);
        if s.len() == 0 {
            assert(limbs_value(s) == 0);
            assert(0 * radix_pow(0) == 0);
        } else {
            lemma_limbs_value_lower_bound(s);
            lemma_radix_pow_step((s.len() - 1) as nat);
            lemma_low_zeros(s);
            let j = low_zeros(s);
            let t = s.skip(j as int);
            let pair = Dyadic {
                mant: signed(limbs_value(t), self.negative()),
                scale: self.exponent() + j,
            };
            lemma_raw_shift(limbs_value(t), limbs_value(s), self.negative(), pair.scale, j);
            lemma_same_symmetric(self.raw(), pair);
            lemma_normalized_same(pair, self.raw());
            lemma_raw_normal(t, self.negative(), pair.scale);
            lemma_normalized_normal(pair);
            assert(t.last() == s.last());
            lemma_limb_count_of_limbs(t);
        }
    }

    /// The canonical value of the limbs times `2^(64 * scale)` with the sign
    /// `neg`, or `None` where its scale is below the least exponent.
    pub(crate) fn try_pack(limbs: Vec<u64>, scale: i128, neg: bool) -> (r: Option<BigNum>)
        requires
            -0x1_0000_0000_0000_0000_0000 <= scale <= 0x1_0000_0000_0000_0000_0000,
        ensures
            r is Some <==> normal_form(
                signed(limbs_value(limbs@), neg),
                scale as int,
            ).representable(),
            r is Some ==> r->0@ == normal_form(signed(limbs_value(limbs@), neg), scale as int)
                && r->0.is_canonical(),
    {
        let mut v = limbs;
        trim(&mut v);
        let ghost m = signed(limbs_value(v@), neg);
        let ghost target = Dyadic { mant: m, scale: scale as int };
        if v.len() == 0 {
            proof {
                assert(limbs_value(v@) == 0);
            }
            return Some(BigNum::new());
        }
        if scale > 0x7fff_ffff {
            let c: u128 = (scale - 0x7fff_ffff) as u128;
            let parts = shifted_up(&v, c);
            let r = BigNum { parts, exp: 0x7fff_ffff, neg };
            proof {
                assert(r.limbs().last() == r.limbs().skip(c as int).last());
                lemma_raw_shift(limbs_value(v@), limbs_value(r.limbs()), neg, scale as int, c as nat);
                lemma_normalized_same(r.raw(), target);
                r.lemma_view();
            }
            return Some(r);
        }
        let room: i128 = 0x7fff_ffff - scale;
        let limit: u64 = if room > 0xffff_ffff_ffff_ffff {
            0xffff_ffff_ffff_ffff
        } else {
            room as u64
        };
        let k = low_zero_count(&v, limit);
        let ghost trimmed = v@;
        proof {
            if k == v.len() {
                assert(v[v.len() - 1] == 0);
            }
        }
        let parts = if k > 0 {
            dropped_low(&v, k)
        } else {
            v
        };
        let e: i128 = scale + k as i128;
        proof {
            let ghost_raw = Dyadic { mant: signed(limbs_value(parts@), neg), scale: e as int };
            if k == 0 {
                lemma_radix_pow_step(0);
                assert(trimmed.skip(0) =~= trimmed);
                assert(limbs_value(parts@) * 1 == limbs_value(parts@));
            }
            assert(parts@ == trimmed.skip(k as int));
            assert(limbs_value(trimmed) == limbs_value(parts@) * radix_pow(k as nat));
            lemma_raw_shift(limbs_value(parts@), limbs_value(trimmed), neg, e as int, k as nat);
            lemma_same_symmetric(target, ghost_raw);
            lemma_normalized_same(ghost_raw, target);
            assert(parts@.last() == trimmed.last());
            if e < 0x7fff_ffff {
                assert(parts@[0] == trimmed[k as int]);
                lemma_raw_normal(parts@, neg, e as int);
                lemma_normalized_normal(ghost_raw);
            } else {
                lemma_normal_form(ghost_raw.mant, ghost_raw.scale);
                lemma_limbs_value_lower_bound(parts@);
                lemma_radix_pow_step((parts@.len() - 1) as nat);
            }
        }
        if e < -0x8000_0000 {
            return None;
        }
        Some(BigNum { parts, exp: e as i32, neg })
    }

    /// The canonical value of the limbs times `2^(64 * scale)` with the sign
    /// `neg`.
    pub(crate) fn pack(limbs: Vec<u64>, scale: i128, neg: bool) -> (r: BigNum)
        requires
            normal_form(signed(limbs_value(limbs@), neg), scale as int).representable(),
            -0x1_0000_0000_0000_0000_0000 <= scale <= 0x1_0000_0000_0000_0000_0000,
        ensures
            r@ == normal_form(signed(limbs_value(limbs@), neg), scale as int),
            r.is_canonical(),
    {
        BigNum::try_pack(limbs, scale, neg).unwrap()
    }

    /// Brings the value to its canonical form; the number stays.
    pub fn compact(&mut self)
        ensures
            final(self)@ == old(self)@,
            final(self).is_canonical(),
            final(self).exponent() == canonical_exponent(old(self)@),
            final(self).limbs().len() == canonical_length(old(self)@),
            final(self).negative() == old(self)@.is_negative(),
    {
        let mut parts: Vec<u64> = Vec::new();
        core::mem::swap(&mut self.parts, &mut parts);
        proof {
            lemma_normal_form(old(self).raw().mant, old(self).raw().scale);
        }
        let r = BigNum::pack(parts, self.exp as i128, self.neg);
        proof {
            r.lemma_canonical_shape();
        }
        *self = r;
    }

    /// Whether the number is zero.
    pub fn is_zero(&self) -> (r: bool)
        ensures
            r == self@.is_zero(),
    {
        proof {
            self.lemma_view();
        }
        limbs_is_zero(&self.parts)
    }

    /// The sign of the number.
    pub fn sign(&self) -> (r: Sign)
        ensures
            r == Sign::of(self@.mant),
    {
        proof {
            self.lemma_view();
        }
        if limbs_is_zero(&self.parts) {
            Sign::Zero
        } else if self.neg {
            Sign::Negative
        } else {
            Sign::Positive
        }
    }

    /// The number of limbs held.
    pub fn get_precision(&self) -> (r: usize)
        ensures
            r == self.limbs().len(),
    {
        self.parts.len()
    }

    /// The value with the limbs above the `n` least significant ones dropped.
    pub fn truncate(self, n: usize) -> (r: BigNum)
        ensures
            r.limbs() == self.limbs().take(vstd::math::min(n as int, self.limbs().len() as int)),
            r.exponent() == self.exponent(),
            r.negative() == self.negative(),
    {
        let mut result = self;
        while result.parts.len() > n
            invariant
                result.exp == self.exp,
                result.neg == self.neg,
                result.parts.len() <= self.parts.len(),
                result.parts.len() >= n || result.parts.len() == self.parts.len(),
                result.parts@ == self.parts@.take(result.parts.len() as int),
            decreases result.parts.len(),
        {
            result.parts.pop();
            proof {
                assert(result.parts@ =~= self.parts@.take(result.parts.len() as int));
            }
        }
        proof {
            assert(self.parts@.take(self.parts.len() as int) =~= self.parts@);
        }
        result
    }

    /// Brings two values to one exponent and one limb count: each is made
    /// canonical, the one with the larger exponent gets zero limbs at the
    /// bottom, and the shorter one zero limbs at the top. Both numbers
    /// stay; the common exponent is the lesser of the two canonical
    /// exponents, and the limbs reach as high as the higher of the two
    /// canonical values.
    pub fn align(a: &mut BigNum, b: &mut BigNum)
        ensures
            final(a)@ == old(a)@,
            final(b)@ == old(b)@,
            final(a).exponent() == min(
                canonical_exponent(old(a)@),
                canonical_exponent(old(b)@),
            ),
            final(b).exponent() == final(a).exponent(),
            final(a).limbs().len() == max(
                canonical_exponent(old(a)@) + canonical_length(old(a)@),
                canonical_exponent(old(b)@) + canonical_length(old(b)@),
            ) - final(a).exponent(),
            final(b).limbs().len() == final(a).limbs().len(),
            final(a).negative() == old(a)@.is_negative(),
            final(b).negative() == old(b)@.is_negative(),
    {
        a.compact();
        b.compact();
        let ghost a1 = *a;
        let ghost b1 = *b;
        proof {
            old(a).lemma_view();
            old(b).lemma_view();
            a1.lemma_view();
            b1.lemma_view();
        }
        if a.exp > b.exp {
            let k: u128 = (a.exp as i64 - b.exp as i64) as u128;
            let shifted = shifted_up(&a.parts, k);
            a.parts = shifted;
            a.exp = b.exp;
            proof {
                lemma_raw_shift(
                    limbs_value(a1.limbs()),
                    limbs_value(a.limbs()),
                    a.negative(),
                    a1.exponent(),
                    k as nat,
                );
                lemma_normalized_same(a.raw(), a1.raw());
            }
        } else if b.exp > a.exp {
            let k: u128 = (b.exp as i64 - a.exp as i64) as u128;
            let shifted = shifted_up(&b.parts, k);
            b.parts = shifted;
            b.exp = a.exp;
            proof {
                lemma_raw_shift(
                    limbs_value(b1.limbs()),
                    limbs_value(b.limbs()),
                    b.negative(),
                    b1.exponent(),
                    k as nat,
                );
                lemma_normalized_same(b.raw(), b1.raw());
            }
        }
        if a.parts.len() < b.parts.len() {
            pad_to(&mut a.parts, b.parts.len());
        } else {
            pad_to(&mut b.parts, a.parts.len());
        }
    }
}

impl Clone for BigNum {
    /// A copy of the value, limb for limb.
    fn clone(&self) -> (r: BigNum)
        ensures
            r.limbs() == self.limbs(),
            r.exponent() == self.exponent(),
            r.negative() == self.negative(),
            r@ == self@,
    {
        BigNum { parts: copied(&self.parts), exp: self.exp, neg: self.neg }
    }
}

impl Default for BigNum {
    /// Canonical zero.
    fn default() -> (r: BigNum)
        ensures
            r@ == Dyadic::zero(),
            r.is_canonical(),
    {
        BigNum::new()
    }
}

impl From<u64> for BigNum {
    /// The canonical value of a machine integer.
    fn from(num: u64) -> (r: BigNum)
        ensures
            r@ == Dyadic::from_int(num as int),
            r.is_canonical(),
    {
        let mut parts: Vec<u64> = Vec::new();
        parts.push(num);
        proof {
            lemma_limbs_value_push(Seq::<u64>::empty(), num);
            lemma_radix_pow_step(0);
            assert(limbs_value(Seq::<u64>::empty()) == 0);
            assert(parts@ =~= Seq::<u64>::empty().push(num));
            assert(num * radix_pow(0) == num);
            lemma_normal_form(num as int, 0);
        }
        BigNum::pack(parts, 0, false)
    }
}

impl FromSpecImpl<u64> for BigNum {
    open spec fn obeys_from_spec() -> bool {
        false
    }

    open spec fn from_spec(v: u64) -> BigNum {
        arbitrary()
    }
}

impl From<i64> for BigNum {
    /// The canonical value of a machine integer.
    fn from(num: i64) -> (r: BigNum)
        ensures
            r@ == Dyadic::from_int(num as int),
            r.is_canonical(),
    {
        let magnitude: u64 = if num < 0 {
            (-(num as i128)) as u64
        } else {
            num as u64
        };
        let mut parts: Vec<u64> = Vec::new();
        parts.push(magnitude);
        proof {
            lemma_limbs_value_push(Seq::<u64>::empty(), magnitude);
            lemma_radix_pow_step(0);
            assert(limbs_value(Seq::<u64>::empty()) == 0);
            assert(parts@ =~= Seq::<u64>::empty().push(magnitude));
            assert(magnitude * radix_pow(0) == magnitude);
            lemma_normal_form(num as int, 0);
        }
        BigNum::pack(parts, 0, num < 0)
    }
}

impl FromSpecImpl<i64> for BigNum {
    open spec fn obeys_from_spec() -> bool {
        false
    }

    open spec fn from_spec(v: i64) -> BigNum {
        arbitrary()
    }
}

impl From<i32> for BigNum {
    /// The canonical value of a machine integer.
    fn from(num: i32) -> (r: BigNum)
        ensures
            r@ == Dyadic::from_int(num as int),
            r.is_canonical(),
    {
        let wide: i64 = num as i64;
        <BigNum as From<i64>>::from(wide)
    }
}

impl FromSpecImpl<i32> for BigNum {
    open spec fn obeys_from_spec() -> bool {
        false
    }

    open spec fn from_spec(v: i32) -> BigNum {
        arbitrary()
    }
}

impl From<u32> for BigNum {
    /// The canonical value of a machine integer.
    fn from(num: u32) -> (r: BigNum)
        ensures
            r@ == Dyadic::from_int(num as int),
            r.is_canonical(),
    {
        let wide: u64 = num as u64;
        <BigNum as From<u64>>::from(wide)
    }
}

impl FromSpecImpl<u32> for BigNum {
    open spec fn obeys_from_spec() -> bool {
        false
    }

    open spec fn from_spec(v: u32) -> BigNum {
        arbitrary()
    }
}

} // verus!
