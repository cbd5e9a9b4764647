//! The mathematical model of a number: an integer mantissa times a power of
//! the limb radix.

use vstd::prelude::*;
use vstd::math::{abs, clip, min};
use crate::radix::{
    radix, radix_pow, limb_count, lemma_radix_pow_step, lemma_radix_pow_adds,
    lemma_radix_pow_multiple,
};

verus! {

/// The rational number `mant * radix^scale`.
///
/// Many pairs stand for one number; the normal pair is the one whose
/// mantissa is no multiple of the radix, and `(0, 0)` for zero. Every
/// operation below returns a normal pair, so two results are the same
/// number exactly when they are equal.
pub struct Dyadic {
    pub mant: int,
    pub scale: int,
}

/// The normal pair of `m * radix^e`.
pub open spec fn normal_form(m: int, e: int) -> Dyadic
    decreases abs(m),
{
    if m == 0 {
        Dyadic { mant: 0, scale: 0 }
    } else if m % 0x1_0000_0000_0000_0000 == 0 {
        normal_form(m / 0x1_0000_0000_0000_0000, e + 1)
    } else {
        Dyadic { mant: m, scale: e }
    }
}

/// The integer with the magnitude `v` and the sign that `neg` tells.
pub open spec fn signed(v: nat, neg: bool) -> int {
    if neg {
        -(v as int)
    } else {
        v as int
    }
}

/// Whether the long division of `a` by `d` ends after `k` limbs below the
/// radix point: the division has come out even, or the quotient has more
/// than `p` limbs.
pub open spec fn quotient_stops(a: nat, d: nat, p: nat, k: nat) -> bool {
    (a * radix_pow(k)) % (d as int) == 0 || a * radix_pow(k) >= d * radix_pow(p)
}

/// The first count of limbs below the radix point, from `k` on, at which
/// the long division of `a` by `d` ends. For `a` and `d` above zero it ends
/// at `p + limb_count(d)` at the latest, where the quotient has more than
/// `p` limbs.
pub open spec fn quotient_shift_from(a: nat, d: nat, p: nat, k: nat) -> nat
    decreases p + limb_count(d) - k,
{
    if quotient_stops(a, d, p, k) || k >= p + limb_count(d) {
        k
    } else {
        quotient_shift_from(a, d, p, k + 1)
    }
}

/// The number without its lowest limb, rounded up where that limb has its
/// highest bit set.
pub open spec fn round_half_up(q: nat) -> nat {
    if q % 0x1_0000_0000_0000_0000 >= 0x8000_0000_0000_0000 {
        q / 0x1_0000_0000_0000_0000 + 1
    } else {
        q / 0x1_0000_0000_0000_0000
    }
}

/// Integer division that rounds toward zero.
pub open spec fn div_toward_zero(m: int, d: int) -> int {
    if m >= 0 {
        m / d
    } else {
        -((-m) / d)
    }
}

impl Dyadic {
    /// The number zero.
    pub open spec fn zero() -> Dyadic {
        Dyadic { mant: 0, scale: 0 }
    }

    /// The number of an integer.
    pub open spec fn from_int(n: int) -> Dyadic {
        normal_form(n, 0)
    }

    /// No other pair of the same number has a larger scale.
    pub open spec fn normal(self) -> bool {
        if self.mant == 0 {
            self.scale == 0
        } else {
            self.mant % radix() != 0
        }
    }

    /// The mantissa of this number at the scale `e`, for `e <= self.scale`.
    pub open spec fn at(self, e: int) -> int {
        self.mant * radix_pow(clip(self.scale - e))
    }

    /// The two pairs stand for one number.
    pub open spec fn same(self, other: Dyadic) -> bool {
        let e = min(self.scale, other.scale);
        self.at(e) == other.at(e)
    }

    /// The normal pair of the number.
    pub open spec fn normalized(self) -> Dyadic {
        normal_form(self.mant, self.scale)
    }

    /// The number is zero.
    pub open spec fn is_zero(self) -> bool {
        self.mant == 0
    }

    /// The number is below zero.
    pub open spec fn is_negative(self) -> bool {
        self.mant < 0
    }

    /// The number is above zero.
    pub open spec fn is_positive(self) -> bool {
        self.mant > 0
    }

    /// The number has no fractional part.
    pub open spec fn is_integer(self) -> bool {
        self.normalized().scale >= 0
    }

    /// The negated number.
    pub open spec fn negated(self) -> Dyadic {
        normal_form(-self.mant, self.scale)
    }

    /// The magnitude of the number.
    pub open spec fn magnitude(self) -> Dyadic {
        normal_form(abs(self.mant) as int, self.scale)
    }

    /// The sum: the mantissas are added at the lesser of the two scales.
    pub open spec fn plus(self, other: Dyadic) -> Dyadic {
        let e = min(self.scale, other.scale);
        normal_form(self.at(e) + other.at(e), e)
    }

    /// The difference: the mantissas are subtracted at the lesser of the two
    /// scales.
    pub open spec fn minus(self, other: Dyadic) -> Dyadic {
        let e = min(self.scale, other.scale);
        normal_form(self.at(e) - other.at(e), e)
    }

    /// The product: the mantissas are multiplied and the scales added.
    pub open spec fn times(self, other: Dyadic) -> Dyadic {
        normal_form(self.mant * other.mant, self.scale + other.scale)
    }

    /// The number is less than `other`: the mantissas are compared at the
    /// lesser of the two scales.
    pub open spec fn lt(self, other: Dyadic) -> bool {
        let e = min(self.scale, other.scale);
        self.at(e) < other.at(e)
    }

    /// The number is at most `other`.
    pub open spec fn le(self, other: Dyadic) -> bool {
        let e = min(self.scale, other.scale);
        self.at(e) <= other.at(e)
    }

    /// The integer part, rounded toward zero.
    pub open spec fn integer_part(self) -> Dyadic {
        if self.scale >= 0 {
            self.normalized()
        } else {
            normal_form(div_toward_zero(self.mant, radix_pow(clip(-self.scale))), 0)
        }
    }

    /// What is left of the number when its integer part is taken away; it
    /// has the sign of the number.
    pub open spec fn fractional_part(self) -> Dyadic {
        self.minus(self.integer_part())
    }

    /// The quotient of two numbers in normal form, the divisor not zero, to
    /// the precision of as many limbs as both mantissas have together.
    ///
    /// The long division of the mantissas goes on below the radix point
    /// until it comes out even or the quotient has one limb more than the
    /// precision; in that case the lowest limb is dropped and the rest
    /// rounded half up.
    pub open spec fn divided_by(self, other: Dyadic) -> Dyadic {
        let a = abs(self.mant);
        let d = abs(other.mant);
        let p = limb_count(a) + limb_count(d);
        let k = quotient_shift_from(a, d, p, 0);
        let q = ((a * radix_pow(k)) / (d as int)) as nat;
        let neg = (self.mant < 0) != (other.mant < 0);
        if q >= radix_pow(p) {
            normal_form(signed(round_half_up(q), neg), self.scale - other.scale - k + 1)
        } else {
            normal_form(signed(q, neg), self.scale - other.scale - k)
        }
    }

    /// What repeated subtraction of `other` leaves of the number: the
    /// number itself where it is less than `other`, else the remainder of
    /// the division of the two mantissas at their common scale. It is
    /// meant for `other` above zero.
    pub open spec fn remainder(self, other: Dyadic) -> Dyadic {
        if self.lt(other) {
            self.normalized()
        } else {
            let e = min(self.scale, other.scale);
            normal_form(self.at(e) % other.at(e), e)
        }
    }

    /// The value of a number without fractional part, as an integer.
    pub open spec fn to_int(self) -> int {
        self.at(0)
    }

    /// The number one.
    pub open spec fn one() -> Dyadic {
        Dyadic { mant: 1, scale: 0 }
    }

    /// The scale fits the exponent of the machine representation.
    pub open spec fn representable(self) -> bool {
        self.scale >= -0x8000_0000
    }
}

/// The mantissa at a lower scale is the mantissa at a higher one times the
/// power of the radix between them.
pub proof fn lemma_at_rescale(x: Dyadic, f: int, g: int)
    requires
        g <= f <= x.scale,
    ensures
        x.at(g) == x.at(f) * radix_pow((f - g) as nat),
{
    lemma_radix_pow_adds((x.scale - f) as nat, (f - g) as nat);
    let a = radix_pow((x.scale - f) as nat);
    let b = radix_pow((f - g) as nat);
    assert(x.mant * (a * b) == (x.mant * a) * b) by (nonlinear_arith);
}

/// The mantissa of a pair at its own scale is its mantissa.
pub proof fn lemma_at_self(x: Dyadic)
    ensures
        x.at(x.scale) == x.mant,
{
    lemma_radix_pow_step(0);
    assert(clip(x.scale - x.scale) == 0);
    assert(x.mant * radix_pow(0) == x.mant);
}

/// Two pairs are the same number exactly when their mantissas agree at any
/// one scale below both.
pub proof fn lemma_same_at(x: Dyadic, y: Dyadic, f: int)
    requires
        f <= x.scale,
        f <= y.scale,
    ensures
        x.same(y) <==> x.at(f) == y.at(f),
        x.lt(y) <==> x.at(f) < y.at(f),
        x.le(y) <==> x.at(f) <= y.at(f),
{
    let e = min(x.scale, y.scale);
    lemma_at_rescale(x, e, f);
    lemma_at_rescale(y, e, f);
    let p = radix_pow((e - f) as nat);
    lemma_radix_pow_step((e - f) as nat);
    let a = x.at(e);
    let b = y.at(e);
    assert((a == b <==> a * p == b * p) && (a < b <==> a * p < b * p) && (a <= b <==> a * p <= b
        * p)) by (nonlinear_arith)
        requires
            p >= 1,
    ;
}

/// Being the same number does not mind the order of the two pairs.
pub proof fn lemma_same_symmetric(x: Dyadic, y: Dyadic)
    ensures
        x.same(y) <==> y.same(x),
{
}

/// Two pairs that are the same number as a third are the same number.
pub proof fn lemma_same_transitive(x: Dyadic, y: Dyadic, z: Dyadic)
    requires
        x.same(y),
        y.same(z),
    ensures
        x.same(z),
{
    let f = min(min(x.scale, y.scale), z.scale);
    lemma_same_at(x, y, f);
    lemma_same_at(y, z, f);
    lemma_same_at(x, z, f);
}

/// The normal form is normal, and the same number.
pub proof fn lemma_normal_form(m: int, e: int)
    ensures
        normal_form(m, e).normal(),
        normal_form(m, e).same(Dyadic { mant: m, scale: e }),
        m != 0 ==> normal_form(m, e).scale >= e,
        m != 0 ==> normal_form(m, e).mant != 0,
        m == 0 ==> normal_form(m, e) == Dyadic::zero(),
        m > 0 <==> normal_form(m, e).mant > 0,
        m < 0 <==> normal_form(m, e).mant < 0,
    decreases abs(m),
{
    let x = Dyadic { mant: m, scale: e };
    if m == 0 {
        assert(0 * radix_pow(clip(0 - min(0, e))) == 0);
        assert(0 * radix_pow(clip(e - min(0, e))) == 0);
    } else if m % 0x1_0000_0000_0000_0000 == 0 {
        let q = m / 0x1_0000_0000_0000_0000;
        lemma_normal_form(q, e + 1);
        let y = Dyadic { mant: q, scale: e + 1 };
        let r = normal_form(q, e + 1);
        // y is the same number as x
        lemma_at_self(x);
        lemma_at_rescale(y, e + 1, e);
        lemma_at_self(y);
        lemma_radix_pow_step(0);
        assert(y.at(e) == q * radix());
        lemma_same_at(y, x, e);
        lemma_same_transitive(r, y, x);
    } else {
        lemma_at_self(x);
    }
}

/// Two normal pairs of one number are equal.
pub proof fn lemma_normal_unique(x: Dyadic, y: Dyadic)
    requires
        x.normal(),
        y.normal(),
        x.same(y),
    ensures
        x == y,
{
    if x.scale <= y.scale {
        lemma_normal_unique_ordered(x, y);
    } else {
        lemma_normal_unique_ordered(y, x);
    }
}

/// Two normal pairs of one number are equal; the first has the lesser scale.
proof fn lemma_normal_unique_ordered(x: Dyadic, y: Dyadic)
    requires
        x.normal(),
        y.normal(),
        x.same(y),
        x.scale <= y.scale,
    ensures
        x == y,
{
    let e = x.scale;
    lemma_at_self(x);
    if y.scale > e {
        let k = (y.scale - e) as nat;
        lemma_radix_pow_multiple(y.mant, k);
        assert(x.mant % radix() == 0);
        assert(x.mant == 0);
        assert(x.scale == 0);
        lemma_radix_pow_step(k);
        let p = radix_pow(k);
        assert(y.mant == 0) by (nonlinear_arith)
            requires
                y.mant * p == 0,
                p >= 1,
        ;
    } else {
        lemma_at_self(y);
    }
}

/// Pairs of one number have one normal form.
pub proof fn lemma_normalized_same(x: Dyadic, y: Dyadic)
    requires
        x.same(y),
    ensures
        x.normalized() == y.normalized(),
{
    lemma_normal_form(x.mant, x.scale);
    lemma_normal_form(y.mant, y.scale);
    lemma_same_transitive(x.normalized(), x, y);
    lemma_same_symmetric(y.normalized(), y);
    lemma_same_transitive(x.normalized(), y, y.normalized());
    lemma_normal_unique(x.normalized(), y.normalized());
}

/// A normal pair is its own normal form.
pub proof fn lemma_normalized_normal(x: Dyadic)
    requires
        x.normal(),
    ensures
        x.normalized() == x,
{
    lemma_normal_form(x.mant, x.scale);
    lemma_normal_unique(x.normalized(), x);
}

/// The normal form of `m * radix^e` is `d` when `d` is normal and has the
/// mantissa `m` at the scale `e`.
pub proof fn lemma_normal_form_is(m: int, e: int, d: Dyadic)
    requires
        d.normal(),
        d.same(Dyadic { mant: m, scale: e }),
    ensures
        normal_form(m, e) == d,
{
    lemma_normalized_same(d, Dyadic { mant: m, scale: e });
    lemma_normalized_normal(d);
}

/// The sum has, at any scale below both terms, the sum of their mantissas.
pub proof fn lemma_plus_at(x: Dyadic, y: Dyadic, f: int)
    requires
        f <= x.scale,
        f <= y.scale,
    ensures
        x.plus(y).normal(),
        x.plus(y).same(Dyadic { mant: x.at(f) + y.at(f), scale: f }),
        x.minus(y).normal(),
        x.minus(y).same(Dyadic { mant: x.at(f) - y.at(f), scale: f }),
{
    let e = min(x.scale, y.scale);
    let s = Dyadic { mant: x.at(e) + y.at(e), scale: e };
    let t = Dyadic { mant: x.at(f) + y.at(f), scale: f };
    let s2 = Dyadic { mant: x.at(e) - y.at(e), scale: e };
    let t2 = Dyadic { mant: x.at(f) - y.at(f), scale: f };
    lemma_normal_form(s.mant, e);
    lemma_normal_form(s2.mant, e);
    lemma_at_rescale(x, e, f);
    lemma_at_rescale(y, e, f);
    lemma_at_rescale(s, e, f);
    lemma_at_rescale(s2, e, f);
    lemma_at_self(s);
    lemma_at_self(t);
    lemma_at_self(s2);
    lemma_at_self(t2);
    let p = radix_pow((e - f) as nat);
    let a = x.at(e);
    let b = y.at(e);
    assert((a + b) * p == a * p + b * p) by (nonlinear_arith);
    assert((a - b) * p == a * p - b * p) by (nonlinear_arith);
    lemma_same_at(s, t, f);
    lemma_same_at(s2, t2, f);
    lemma_same_transitive(x.plus(y), s, t);
    lemma_same_transitive(x.minus(y), s2, t2);
}

/// Sums of the same numbers are equal.
pub proof fn lemma_plus_same(x: Dyadic, y: Dyadic, x2: Dyadic, y2: Dyadic)
    requires
        x.same(x2),
        y.same(y2),
    ensures
        x.plus(y) == x2.plus(y2),
        x.minus(y) == x2.minus(y2),
{
    let f = min(min(x.scale, y.scale), min(x2.scale, y2.scale));
    lemma_plus_at(x, y, f);
    lemma_plus_at(x2, y2, f);
    lemma_same_at(x, x2, f);
    lemma_same_at(y, y2, f);
    let t = Dyadic { mant: x.at(f) + y.at(f), scale: f };
    let t2 = Dyadic { mant: x.at(f) - y.at(f), scale: f };
    lemma_same_symmetric(x2.plus(y2), t);
    lemma_same_transitive(x.plus(y), t, x2.plus(y2));
    lemma_normal_unique(x.plus(y), x2.plus(y2));
    lemma_same_symmetric(x2.minus(y2), t2);
    lemma_same_transitive(x.minus(y), t2, x2.minus(y2));
    lemma_normal_unique(x.minus(y), x2.minus(y2));
}

/// The product has, at the sum of two scales below the factors, the product
/// of their mantissas there.
pub proof fn lemma_times_at(x: Dyadic, y: Dyadic, f: int, g: int)
    requires
        f <= x.scale,
        g <= y.scale,
    ensures
        x.times(y).normal(),
        x.times(y).same(Dyadic { mant: x.at(f) * y.at(g), scale: f + g }),
{
    let s = Dyadic { mant: x.mant * y.mant, scale: x.scale + y.scale };
    let t = Dyadic { mant: x.at(f) * y.at(g), scale: f + g };
    lemma_normal_form(s.mant, s.scale);
    let kf = (x.scale - f) as nat;
    let kg = (y.scale - g) as nat;
    lemma_radix_pow_adds(kf, kg);
    lemma_at_self(t);
    let pf = radix_pow(kf);
    let pg = radix_pow(kg);
    assert((x.mant * y.mant) * (pf * pg) == (x.mant * pf) * (y.mant * pg)) by (nonlinear_arith);
    assert(s.at(f + g) == t.at(f + g));
    lemma_same_at(s, t, f + g);
    lemma_same_transitive(x.times(y), s, t);
}

/// Products of the same numbers are equal.
pub proof fn lemma_times_same(x: Dyadic, y: Dyadic, x2: Dyadic, y2: Dyadic)
    requires
        x.same(x2),
        y.same(y2),
    ensures
        x.times(y) == x2.times(y2),
{
    let f = min(x.scale, x2.scale);
    let g = min(y.scale, y2.scale);
    lemma_times_at(x, y, f, g);
    lemma_times_at(x2, y2, f, g);
    lemma_same_at(x, x2, f);
    lemma_same_at(y, y2, g);
    let t = Dyadic { mant: x.at(f) * y.at(g), scale: f + g };
    lemma_same_symmetric(x2.times(y2), t);
    lemma_same_transitive(x.times(y), t, x2.times(y2));
    lemma_normal_unique(x.times(y), x2.times(y2));
}

/// The order does not depend on the pairs chosen for the two numbers.
pub proof fn lemma_lt_same(x: Dyadic, y: Dyadic, x2: Dyadic, y2: Dyadic)
    requires
        x.same(x2),
        y.same(y2),
    ensures
        x.lt(y) <==> x2.lt(y2),
        x.le(y) <==> x2.le(y2),
        x.same(y) <==> x2.same(y2),
{
    let f = min(min(x.scale, y.scale), min(x2.scale, y2.scale));
    lemma_same_at(x, x2, f);
    lemma_same_at(y, y2, f);
    lemma_same_at(x, y, f);
    lemma_same_at(x2, y2, f);
}

/// The negation has, at any scale below the number, the negated mantissa.
pub proof fn lemma_negated_at(x: Dyadic, f: int)
    requires
        f <= x.scale,
    ensures
        x.negated().normal(),
        x.negated().same(Dyadic { mant: -x.at(f), scale: f }),
{
    let s = Dyadic { mant: -x.mant, scale: x.scale };
    let t = Dyadic { mant: -x.at(f), scale: f };
    lemma_normal_form(s.mant, s.scale);
    lemma_at_self(t);
    let p = radix_pow((x.scale - f) as nat);
    assert((-x.mant) * p == -(x.mant * p)) by (nonlinear_arith);
    lemma_same_at(s, t, f);
    lemma_same_transitive(x.negated(), s, t);
}

/// Negations of the same number are equal.
pub proof fn lemma_negated_same(x: Dyadic, x2: Dyadic)
    requires
        x.same(x2),
    ensures
        x.negated() == x2.negated(),
{
    let f = min(x.scale, x2.scale);
    lemma_negated_at(x, f);
    lemma_negated_at(x2, f);
    lemma_same_at(x, x2, f);
    let t = Dyadic { mant: -x.at(f), scale: f };
    lemma_same_symmetric(x2.negated(), t);
    lemma_same_transitive(x.negated(), t, x2.negated());
    lemma_normal_unique(x.negated(), x2.negated());
}

/// The sign of a number shows at every scale below it.
pub proof fn lemma_sign_at(x: Dyadic, f: int)
    requires
        f <= x.scale,
    ensures
        x.at(f) > 0 <==> x.mant > 0,
        x.at(f) < 0 <==> x.mant < 0,
        x.at(f) == 0 <==> x.mant == 0,
{
    let p = radix_pow((x.scale - f) as nat);
    lemma_radix_pow_step((x.scale - f) as nat);
    let m = x.mant;
    assert((m * p > 0 <==> m > 0) && (m * p < 0 <==> m < 0)) by (nonlinear_arith)
        requires
            p >= 1,
    ;
}

/// The number of an integer is normal, has no fractional part, and has the
/// integer as its value.
pub proof fn lemma_from_int(n: int)
    ensures
        Dyadic::from_int(n).normal(),
        Dyadic::from_int(n).scale >= 0,
        Dyadic::from_int(n).is_integer(),
        Dyadic::from_int(n).to_int() == n,
        Dyadic::from_int(n).representable(),
        n > 0 <==> Dyadic::from_int(n).is_positive(),
        n < 0 <==> Dyadic::from_int(n).is_negative(),
        n == 0 <==> Dyadic::from_int(n) == Dyadic::zero(),
        Dyadic::from_int(1) == Dyadic::one(),
{
    let d = Dyadic::from_int(n);
    let t = Dyadic { mant: n, scale: 0 };
    lemma_normal_form(n, 0);
    lemma_at_self(t);
    lemma_same_at(d, t, 0);
    lemma_normalized_normal(d);
    lemma_normal_form(1, 0);
}

/// A normal number without fractional part is the number of its integer
/// value.
pub proof fn lemma_integer_is(d: Dyadic)
    requires
        d.normal(),
        d.scale >= 0,
    ensures
        d == Dyadic::from_int(d.to_int()),
{
    let t = Dyadic { mant: d.at(0), scale: 0 };
    lemma_at_self(t);
    lemma_same_at(d, t, 0);
    lemma_normal_form_is(d.at(0), 0, d);
}

/// Sums, differences, products and the order of integers are those of
/// their numbers.
pub proof fn lemma_int_arithmetic(a: int, b: int)
    ensures
        Dyadic::from_int(a).plus(Dyadic::from_int(b)) == Dyadic::from_int(a + b),
        Dyadic::from_int(a).minus(Dyadic::from_int(b)) == Dyadic::from_int(a - b),
        Dyadic::from_int(a).times(Dyadic::from_int(b)) == Dyadic::from_int(a * b),
        Dyadic::from_int(a).lt(Dyadic::from_int(b)) <==> a < b,
        Dyadic::from_int(a).le(Dyadic::from_int(b)) <==> a <= b,
        Dyadic::from_int(a) == Dyadic::from_int(b) <==> a == b,
{
    let x = Dyadic::from_int(a);
    let y = Dyadic::from_int(b);
    lemma_from_int(a);
    lemma_from_int(b);
    lemma_plus_at(x, y, 0);
    lemma_normal_form_is(a + b, 0, x.plus(y));
    lemma_normal_form_is(a - b, 0, x.minus(y));
    lemma_times_at(x, y, 0, 0);
    lemma_normal_form_is(a * b, 0, x.times(y));
    lemma_same_at(x, y, 0);
}

/// The order of two numbers given at one scale is the order of their
/// mantissas.
pub proof fn lemma_nf_order(a: int, b: int, e: int)
    ensures
        normal_form(a, e).lt(normal_form(b, e)) <==> a < b,
        normal_form(a, e).le(normal_form(b, e)) <==> a <= b,
        normal_form(a, e) == normal_form(b, e) <==> a == b,
        normal_form(a, e).is_zero() <==> a == 0,
        normal_form(a, e).is_negative() <==> a < 0,
{
    let x = Dyadic { mant: a, scale: e };
    let y = Dyadic { mant: b, scale: e };
    lemma_normal_form(a, e);
    lemma_normal_form(b, e);
    lemma_lt_same(normal_form(a, e), normal_form(b, e), x, y);
    lemma_at_self(x);
    lemma_at_self(y);
    lemma_same_at(x, y, e);
    if normal_form(a, e) == normal_form(b, e) {
        lemma_same_symmetric(normal_form(a, e), x);
        lemma_same_transitive(x, normal_form(a, e), y);
    }
}

/// Sums and differences of two numbers given at one scale.
pub proof fn lemma_nf_plus(a: int, b: int, e: int)
    ensures
        normal_form(a, e).plus(normal_form(b, e)) == normal_form(a + b, e),
        normal_form(a, e).minus(normal_form(b, e)) == normal_form(a - b, e),
        normal_form(a, e).negated() == normal_form(-a, e),
{
    let x = Dyadic { mant: a, scale: e };
    let y = Dyadic { mant: b, scale: e };
    lemma_normal_form(a, e);
    lemma_normal_form(b, e);
    lemma_plus_same(normal_form(a, e), normal_form(b, e), x, y);
    lemma_negated_same(normal_form(a, e), x);
    lemma_at_self(x);
    lemma_at_self(y);
}

/// The product of two numbers given at two scales.
pub proof fn lemma_nf_times(a: int, e: int, b: int, f: int)
    ensures
        normal_form(a, e).times(normal_form(b, f)) == normal_form(a * b, e + f),
{
    let x = Dyadic { mant: a, scale: e };
    let y = Dyadic { mant: b, scale: f };
    lemma_normal_form(a, e);
    lemma_normal_form(b, f);
    lemma_times_same(normal_form(a, e), normal_form(b, f), x, y);
}

/// A number given at a scale can be given `k` limbs lower.
pub proof fn lemma_nf_rescale(a: int, e: int, k: nat)
    ensures
        normal_form(a * radix_pow(k), e - k) == normal_form(a, e),
{
    let x = Dyadic { mant: a, scale: e };
    let y = Dyadic { mant: a * radix_pow(k), scale: e - k };
    lemma_at_self(y);
    lemma_at_rescale(x, e, e - k);
    lemma_at_self(x);
    lemma_same_at(x, y, e - k);
    lemma_normalized_same(x, y);
}

/// A normal number is given by its mantissa at any scale below its own.
pub proof fn lemma_nf_at(x: Dyadic, e: int)
    requires
        x.normal(),
        e <= x.scale,
    ensures
        x == normal_form(x.at(e), e),
{
    let y = Dyadic { mant: x.at(e), scale: e };
    lemma_at_self(y);
    lemma_same_at(x, y, e);
    lemma_normal_form_is(x.at(e), e, x);
}

/// The integer part of a number that is not negative, given at a scale
/// that is not positive.
pub proof fn lemma_nf_integer_part(m: int, e: int)
    requires
        m >= 0,
        e <= 0,
    ensures
        radix_pow((-e) as nat) >= 1,
        normal_form(m, e).integer_part() == Dyadic::from_int(m / radix_pow((-e) as nat)),
{
    let x = normal_form(m, e);
    let u = radix_pow((-e) as nat);
    lemma_radix_pow_step((-e) as nat);
    lemma_normal_form(m, e);
    lemma_normalized_normal(x);
    if m == 0 {
        lemma_from_int(0);
    } else {
        let t = Dyadic { mant: m, scale: e };
        lemma_same_at(x, t, e);
        lemma_at_self(t);
        // m == x.mant * radix^(x.scale - e)
        let c = radix_pow((x.scale - e) as nat);
        lemma_radix_pow_step((x.scale - e) as nat);
        assert(m == x.mant * c);
        if x.scale >= 0 {
            let w = radix_pow(x.scale as nat);
            lemma_radix_pow_adds(x.scale as nat, (-e) as nat);
            lemma_radix_pow_step(x.scale as nat);
            assert(m == (x.mant * w) * u) by (nonlinear_arith)
                requires
                    m == x.mant * c,
                    c == w * u,
            ;
            vstd::arithmetic::div_mod::lemma_fundamental_div_mod_converse(m, u, x.mant * w, 0);
            lemma_nf_rescale(x.mant, x.scale, x.scale as nat);
            lemma_nf_at(x, x.scale);
            lemma_at_self(x);
        } else {
            let d = radix_pow((-x.scale) as nat);
            lemma_radix_pow_adds((x.scale - e) as nat, (-x.scale) as nat);
            lemma_radix_pow_step((-x.scale) as nat);
            assert(u == c * d);
            assert(x.mant > 0) by (nonlinear_arith)
                requires
                    m == x.mant * c,
                    m > 0,
                    c >= 1,
            ;
            vstd::arithmetic::div_mod::lemma_div_denominator(m, c, d);
            assert(m == c * x.mant) by (nonlinear_arith)
                requires
                    m == x.mant * c,
            ;
            vstd::arithmetic::div_mod::lemma_div_multiples_vanish(x.mant, c);
            assert(m / c == x.mant);
        }
    }
}

/// The scale of a product is no less than the sum of the scales of its
/// factors, so a product of numbers whose scales are not extreme can be
/// held.
pub proof fn lemma_times_scale(x: Dyadic, y: Dyadic)
    ensures
        x.times(y).normal(),
        !x.times(y).is_zero() ==> x.times(y).scale >= x.scale + y.scale,
        x.scale + y.scale >= -0x8000_0000 ==> x.times(y).representable(),
{
    lemma_normal_form(x.mant * y.mant, x.scale + y.scale);
}

/// The long division ends at `p + limb_count(d)` limbs below the radix
/// point at the latest.
pub proof fn lemma_quotient_shift_bound(a: nat, d: nat, p: nat, k: nat)
    requires
        k <= p + limb_count(d),
    ensures
        k <= quotient_shift_from(a, d, p, k) <= p + limb_count(d),
    decreases p + limb_count(d) - k,
{
    if !(quotient_stops(a, d, p, k) || k >= p + limb_count(d)) {
        lemma_quotient_shift_bound(a, d, p, k + 1);
    }
}

/// The scale of a quotient is at most the limbs of the dividend and twice
/// the limbs of the divisor below the difference of the scales, so a
/// quotient of numbers whose scales are not extreme can be held.
pub proof fn lemma_divided_by_scale(x: Dyadic, y: Dyadic)
    ensures
        x.divided_by(y).normal(),
        !x.divided_by(y).is_zero() ==> x.divided_by(y).scale >= x.scale - y.scale - limb_count(
            abs(x.mant),
        ) - 2 * limb_count(abs(y.mant)),
        x.scale - y.scale - limb_count(abs(x.mant)) - 2 * limb_count(abs(y.mant))
            >= -0x8000_0000 ==> x.divided_by(y).representable(),
{
    let a = abs(x.mant);
    let d = abs(y.mant);
    let p = limb_count(a) + limb_count(d);
    lemma_quotient_shift_bound(a, d, p, 0);
    let k = quotient_shift_from(a, d, p, 0);
    let q = ((a * radix_pow(k)) / (d as int)) as nat;
    let neg = (x.mant < 0) != (y.mant < 0);
    lemma_normal_form(signed(round_half_up(q), neg), x.scale - y.scale - k + 1);
    lemma_normal_form(signed(q, neg), x.scale - y.scale - k);
}

/// The magnitude of a number given at a scale.
pub proof fn lemma_nf_magnitude(a: int, e: int)
    ensures
        normal_form(a, e).magnitude() == normal_form(abs(a) as int, e),
{
    let x = normal_form(a, e);
    lemma_normal_form(a, e);
    lemma_normalized_normal(x);
    if a >= 0 {
        assert(x.magnitude() == x);
    } else {
        let y = Dyadic { mant: -x.mant, scale: x.scale };
        assert(y.normal());
        lemma_normalized_normal(y);
        lemma_nf_plus(a, 0, e);
        lemma_negated_same(x, x);
        assert(x.negated() == y);
    }
}

} // verus!
