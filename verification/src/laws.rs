//! The algebra of the numbers: what addition, multiplication, division and
//! the order obey on every input, first of the model and then of the values
//! of the number type.

use vstd::prelude::*;
use vstd::math::{abs, min};
use crate::big_num::BigNum;
use crate::dyadic::{
    normal_form, signed, quotient_stops, quotient_shift_from, round_half_up, lemma_nf_order,
    lemma_nf_plus, lemma_nf_times, lemma_nf_rescale, lemma_nf_at, lemma_nf_magnitude,
    lemma_quotient_shift_bound, Dyadic, lemma_at_self, lemma_same_at, lemma_same_symmetric,
    lemma_same_transitive, lemma_normal_unique, lemma_plus_at, lemma_times_at, lemma_lt_same,
    lemma_negated_at, lemma_sign_at,
};
use crate::radix::{
    radix, radix_pow, limb_count, lemma_radix_pow_step, lemma_limb_count_bounds,
    lemma_radix_pow_adds,
};

verus! {

/// Adding zero changes nothing: `a + 0 == a`.
pub proof fn lemma_additive_identity(a: Dyadic)
    requires
        a.normal(),
    ensures
        a.plus(Dyadic::zero()) == a,
        Dyadic::zero().plus(a) == a,
{
    let z = Dyadic::zero();
    let f = min(a.scale, 0);
    lemma_plus_at(a, z, f);
    lemma_plus_at(z, a, f);
    lemma_sign_at(z, f);
    let t = Dyadic { mant: a.at(f), scale: f };
    lemma_at_self(t);
    lemma_same_at(t, a, f);
    lemma_same_transitive(a.plus(z), t, a);
    lemma_normal_unique(a.plus(z), a);
    lemma_same_transitive(z.plus(a), t, a);
    lemma_normal_unique(z.plus(a), a);
}

/// A number and its negation add up to zero: `a + (-a) == 0`.
pub proof fn lemma_additive_inverse(a: Dyadic)
    ensures
        a.plus(a.negated()) == Dyadic::zero(),
        a.negated().plus(a) == Dyadic::zero(),
{
    let n = a.negated();
    lemma_negated_at(a, a.scale);
    lemma_at_self(a);
    crate::dyadic::lemma_normal_form(-a.mant, a.scale);
    let f = min(a.scale, n.scale);
    let m = Dyadic { mant: -a.mant, scale: a.scale };
    // n is the same number as (-a.mant, a.scale)
    lemma_same_at(n, m, f);
    lemma_at_self(m);
    crate::dyadic::lemma_at_rescale(m, a.scale, f);
    crate::dyadic::lemma_at_rescale(a, a.scale, f);
    let p = crate::radix::radix_pow((a.scale - f) as nat);
    assert(a.mant * p + (-a.mant) * p == 0) by (nonlinear_arith);
    lemma_plus_at(a, n, f);
    lemma_plus_at(n, a, f);
    let z = Dyadic { mant: 0, scale: f };
    lemma_sign_at(z, min(f, 0));
    lemma_same_at(z, Dyadic::zero(), min(f, 0));
    lemma_same_transitive(a.plus(n), z, Dyadic::zero());
    lemma_normal_unique(a.plus(n), Dyadic::zero());
    lemma_same_transitive(n.plus(a), z, Dyadic::zero());
    lemma_normal_unique(n.plus(a), Dyadic::zero());
}

/// Addition does not mind the order of its terms: `a + b == b + a`.
pub proof fn lemma_addition_commutes(a: Dyadic, b: Dyadic)
    ensures
        a.plus(b) == b.plus(a),
{
}

/// Addition does not mind the grouping of its terms:
/// `(a + b) + c == a + (b + c)`.
pub proof fn lemma_addition_associates(a: Dyadic, b: Dyadic, c: Dyadic)
    ensures
        a.plus(b).plus(c) == a.plus(b.plus(c)),
{
    let f = min(min(a.scale, b.scale), c.scale);
    let ab = a.plus(b);
    let bc = b.plus(c);
    lemma_plus_at(a, b, f);
    lemma_plus_at(b, c, f);
    let g = min(min(f, ab.scale), bc.scale);
    lemma_plus_at(a, b, g);
    lemma_plus_at(b, c, g);
    let tab = Dyadic { mant: a.at(g) + b.at(g), scale: g };
    let tbc = Dyadic { mant: b.at(g) + c.at(g), scale: g };
    lemma_at_self(tab);
    lemma_at_self(tbc);
    lemma_same_at(ab, tab, g);
    lemma_same_at(bc, tbc, g);
    lemma_plus_at(ab, c, g);
    lemma_plus_at(a, bc, g);
    let left = Dyadic { mant: ab.at(g) + c.at(g), scale: g };
    let right = Dyadic { mant: a.at(g) + bc.at(g), scale: g };
    assert(left == right);
    lemma_same_symmetric(a.plus(bc), right);
    lemma_same_transitive(ab.plus(c), left, a.plus(bc));
    lemma_normal_unique(ab.plus(c), a.plus(bc));
}

/// Multiplication spreads over addition: `a * (b + c) == a * b + a * c`.
#[verifier::rlimit(40)]
pub proof fn lemma_multiplication_distributes(a: Dyadic, b: Dyadic, c: Dyadic)
    ensures
        a.times(b.plus(c)) == a.times(b).plus(a.times(c)),
{
    let bc = b.plus(c);
    let ab = a.times(b);
    let ac = a.times(c);
    let g0 = min(b.scale, c.scale);
    lemma_plus_at(b, c, g0);
    let g = min(g0, bc.scale);
    let f = a.scale;
    lemma_plus_at(b, c, g);
    let tbc = Dyadic { mant: b.at(g) + c.at(g), scale: g };
    lemma_at_self(tbc);
    lemma_same_at(bc, tbc, g);
    // the two products at the scale f + g
    lemma_times_at(a, b, f, g);
    lemma_times_at(a, c, f, g);
    lemma_times_at(a, bc, f, g);
    let tab = Dyadic { mant: a.at(f) * b.at(g), scale: f + g };
    let tac = Dyadic { mant: a.at(f) * c.at(g), scale: f + g };
    let left = Dyadic { mant: a.at(f) * bc.at(g), scale: f + g };
    lemma_at_self(tab);
    lemma_at_self(tac);
    let h = min(min(f + g, ab.scale), ac.scale);
    lemma_same_at(ab, tab, h);
    lemma_same_at(ac, tac, h);
    lemma_plus_at(ab, ac, h);
    lemma_plus_at(tab, tac, h);
    // a * b + a * c is the same number as tab + tac
    let s1 = Dyadic { mant: ab.at(h) + ac.at(h), scale: h };
    let s2 = Dyadic { mant: tab.at(h) + tac.at(h), scale: h };
    assert(s1 == s2);
    lemma_same_symmetric(tab.plus(tac), s2);
    lemma_same_transitive(ab.plus(ac), s1, tab.plus(tac));
    lemma_plus_at(tab, tac, f + g);
    let right = Dyadic { mant: tab.mant + tac.mant, scale: f + g };
    lemma_same_transitive(ab.plus(ac), tab.plus(tac), right);
    let x = a.at(f);
    let y = b.at(g);
    let z = c.at(g);
    assert(x * (y + z) == x * y + x * z) by (nonlinear_arith);
    assert(left == right);
    lemma_same_symmetric(ab.plus(ac), right);
    lemma_same_transitive(a.times(bc), left, ab.plus(ac));
    lemma_normal_unique(a.times(bc), ab.plus(ac));
}

/// Of `a < b`, `a == b` and `a > b` exactly one holds.
pub proof fn lemma_order_total(a: Dyadic, b: Dyadic)
    requires
        a.normal(),
        b.normal(),
    ensures
        a.lt(b) || a == b || b.lt(a),
        !(a.lt(b) && a == b),
        !(a.lt(b) && b.lt(a)),
        !(a == b && b.lt(a)),
{
    let f = min(a.scale, b.scale);
    lemma_same_at(a, b, f);
    lemma_same_at(b, a, f);
    if a.same(b) {
        lemma_normal_unique(a, b);
    }
}

/// The order is transitive: `a < b` and `b < c` give `a < c`.
pub proof fn lemma_order_transitive(a: Dyadic, b: Dyadic, c: Dyadic)
    requires
        a.lt(b),
        b.lt(c),
    ensures
        a.lt(c),
{
    let f = min(min(a.scale, b.scale), c.scale);
    lemma_same_at(a, b, f);
    lemma_same_at(b, c, f);
    lemma_same_at(a, c, f);
}

/// The order is antisymmetric: `a <= b` and `b <= a` give `a == b`.
pub proof fn lemma_order_antisymmetric(a: Dyadic, b: Dyadic)
    requires
        a.normal(),
        b.normal(),
        a.le(b),
        b.le(a),
    ensures
        a == b,
{
    let f = min(a.scale, b.scale);
    lemma_same_at(a, b, f);
    lemma_same_at(b, a, f);
    lemma_normal_unique(a, b);
}

/// Adding or subtracting one number on both sides keeps the order:
/// `a < b` exactly when `a + c < b + c`, and exactly when `a - c < b - c`.
pub proof fn lemma_order_addition(a: Dyadic, b: Dyadic, c: Dyadic)
    ensures
        a.lt(b) <==> a.plus(c).lt(b.plus(c)),
        a.lt(b) <==> a.minus(c).lt(b.minus(c)),
{
    let f = min(min(a.scale, b.scale), c.scale);
    lemma_plus_at(a, c, f);
    lemma_plus_at(b, c, f);
    lemma_same_at(a, b, f);
    let ta = Dyadic { mant: a.at(f) + c.at(f), scale: f };
    let tb = Dyadic { mant: b.at(f) + c.at(f), scale: f };
    lemma_at_self(ta);
    lemma_at_self(tb);
    lemma_same_at(ta, tb, f);
    lemma_lt_same(a.plus(c), b.plus(c), ta, tb);
    let ua = Dyadic { mant: a.at(f) - c.at(f), scale: f };
    let ub = Dyadic { mant: b.at(f) - c.at(f), scale: f };
    lemma_at_self(ua);
    lemma_at_self(ub);
    lemma_same_at(ua, ub, f);
    lemma_lt_same(a.minus(c), b.minus(c), ua, ub);
}

/// Multiplying both sides by a positive number keeps the order, by a
/// negative number turns it round, and by zero makes both sides equal.
pub proof fn lemma_order_multiplication(a: Dyadic, b: Dyadic, c: Dyadic)
    requires
        a.lt(b),
    ensures
        c.is_positive() ==> a.times(c).lt(b.times(c)),
        c.is_negative() ==> b.times(c).lt(a.times(c)),
        c.is_zero() ==> a.times(c) == b.times(c),
{
    let f = min(a.scale, b.scale);
    let g = c.scale;
    lemma_same_at(a, b, f);
    lemma_times_at(a, c, f, g);
    lemma_times_at(b, c, f, g);
    lemma_at_self(c);
    let ta = Dyadic { mant: a.at(f) * c.at(g), scale: f + g };
    let tb = Dyadic { mant: b.at(f) * c.at(g), scale: f + g };
    lemma_at_self(ta);
    lemma_at_self(tb);
    lemma_same_at(ta, tb, f + g);
    lemma_same_at(tb, ta, f + g);
    lemma_lt_same(a.times(c), b.times(c), ta, tb);
    lemma_lt_same(b.times(c), a.times(c), tb, ta);
    let x = a.at(f);
    let y = b.at(f);
    let z = c.mant;
    assert((z > 0 ==> x * z < y * z) && (z < 0 ==> y * z < x * z) && (z == 0 ==> x * z == y * z))
        by (nonlinear_arith)
        requires
            x < y,
    ;
    if c.is_zero() {
        lemma_normal_unique(a.times(c), b.times(c));
    }
}

/// The long division of `a` by `d` to the precision of `p` limbs: where
/// the quotient has no more than `p` limbs the division has come out even,
/// and where its lowest limb is rounded off, the rounded quotient times the
/// radix times `d` is off `a` by no more than `d` times the radix.
pub proof fn lemma_quotient_error(a: nat, d: nat, p: nat)
    requires
        d > 0,
        p >= limb_count(a),
    ensures
        ({
            let k = quotient_shift_from(a, d, p, 0);
            let x = a * radix_pow(k);
            let q = x / (d as int);
            &&& q >= 0
            &&& q < radix_pow(p) ==> q * d == x
            &&& q >= radix_pow(p) ==> k >= 1 && -(d * radix()) <= round_half_up(q as nat) * radix()
                * d - x <= d * radix()
        }),
{
    lemma_quotient_shift_bound(a, d, p, 0);
    let k = quotient_shift_from(a, d, p, 0);
    let x = a * radix_pow(k);
    let q = x / (d as int);
    let rem = x % (d as int);
    let pp = radix_pow(p);
    lemma_radix_pow_step(k);
    lemma_radix_pow_step(p);
    assert(x >= 0) by (nonlinear_arith)
        requires
            x == a * radix_pow(k),
            radix_pow(k) >= 1,
    ;
    vstd::arithmetic::div_mod::lemma_fundamental_div_mod(x, d as int);
    vstd::arithmetic::div_mod::lemma_mod_pos_bound(x, d as int);
    vstd::arithmetic::div_mod::lemma_div_pos_is_pos(x, d as int);
    assert(d * q == q * d) by (nonlinear_arith);
    lemma_quotient_stops_at_end(a, d, p, 0);
    if q < pp {
        // the quotient has no more than p limbs, so the division has come out even
        if x >= d * pp {
            assert(false) by (nonlinear_arith)
                requires
                    x >= d * pp,
                    x == q * d + rem,
                    rem < d,
                    q + 1 <= pp,
                    d > 0,
            ;
        }
        if a == 0 {
            assert(0 * radix_pow(k) == 0);
        }
    } else {
        // at zero limbs below the point the quotient has at most the limbs of a
        if k == 0 {
            lemma_limb_count_bounds(a);
            crate::radix::lemma_radix_pow_monotone(limb_count(a), p);
            assert(a * 1 == a);
            assert(false) by (nonlinear_arith)
                requires
                    x == a,
                    x == q * d + rem,
                    rem >= 0,
                    q >= pp,
                    a < pp,
                    d >= 1,
            ;
        }
        let m = round_half_up(q as nat) as int;
        let low = q % 0x1_0000_0000_0000_0000;
        let off = m * radix() - q;
        assert(-0x8000_0000_0000_0000 <= off <= 0x8000_0000_0000_0000);
        assert(m * radix() * d - x == off * d - rem) by (nonlinear_arith)
            requires
                x == q * d + rem,
                off == m * radix() - q,
        ;
        assert(-(d * radix()) <= off * d - rem <= d * radix()) by (nonlinear_arith)
            requires
                -0x8000_0000_0000_0000 <= off <= 0x8000_0000_0000_0000,
                0 <= rem < d,
                radix() == 0x1_0000_0000_0000_0000,
        ;
    }
}

/// Where the long division ends, it has come out even or the quotient has
/// more than `p` limbs.
proof fn lemma_quotient_stops_at_end(a: nat, d: nat, p: nat, k: nat)
    requires
        d > 0,
        k <= p + limb_count(d),
    ensures
        quotient_stops(a, d, p, quotient_shift_from(a, d, p, k)),
    decreases p + limb_count(d) - k,
{
    if quotient_stops(a, d, p, k) {
    } else if k >= p + limb_count(d) {
        // the dividend has been given more limbs than the divisor and the
        // precision have together
        lemma_limb_count_bounds(d);
        lemma_radix_pow_adds(p, limb_count(d));
        lemma_radix_pow_step(p);
        let pd = radix_pow(limb_count(d));
        let pp = radix_pow(p);
        let x = a * radix_pow(k);
        if a == 0 {
            assert(0 * radix_pow(k) == 0);
            vstd::arithmetic::div_mod::lemma_small_mod(0, d);
            assert(false);
        }
        assert(x >= d * pp) by (nonlinear_arith)
            requires
                x == a * (pp * pd),
                a >= 1,
                d < pd,
                pp >= 1,
        ;
    } else {
        lemma_quotient_stops_at_end(a, d, p, k + 1);
    }
}

/// The quotient of two numbers times the divisor is off the dividend by no
/// more than the magnitude of the divisor times one unit of the last limb
/// that the long division has kept.
#[verifier::rlimit(40)]
pub proof fn lemma_division_error(x: Dyadic, y: Dyadic)
    requires
        x.normal(),
        y.normal(),
        !y.is_zero(),
    ensures
        ({
            let a = abs(x.mant);
            let d = abs(y.mant);
            let p = limb_count(a) + limb_count(d);
            let k = quotient_shift_from(a, d, p, 0);
            let q = (a * radix_pow(k)) / (d as int);
            let unit = Dyadic { mant: 1, scale: x.scale - y.scale - k + 1 };
            &&& x.divided_by(y).times(y).minus(x).magnitude().le(y.magnitude().times(unit))
            &&& q < radix_pow(p) ==> x.divided_by(y).times(y) == x
        }),
{
    let a = abs(x.mant);
    let d = abs(y.mant);
    let p = limb_count(a) + limb_count(d);
    let k = quotient_shift_from(a, d, p, 0);
    let xk = a * radix_pow(k);
    let q = xk / (d as int);
    let neg = (x.mant < 0) != (y.mant < 0);
    let base = x.scale - y.scale - k;
    let unit = Dyadic { mant: 1, scale: base + 1 };
    let r = x.divided_by(y);
    lemma_quotient_error(a, d, p);
    lemma_radix_pow_step(k);
    lemma_radix_pow_step(1);
    lemma_radix_pow_step(0);
    lemma_nf_at(x, x.scale);
    lemma_nf_at(y, y.scale);
    crate::dyadic::lemma_at_self(x);
    crate::dyadic::lemma_at_self(y);
    // the dividend at the scale k limbs below its own
    lemma_nf_rescale(x.mant, x.scale, k);
    let xs = x.mant * radix_pow(k);
    assert(x == normal_form(xs, x.scale - k));
    assert(abs(xs) == xk) by (nonlinear_arith)
        requires
            xs == x.mant * radix_pow(k),
            xk == abs(x.mant) * radix_pow(k),
            radix_pow(k) >= 1,
    ;
    // the divisor times the unit
    lemma_nf_magnitude(y.mant, y.scale);
    crate::dyadic::lemma_normalized_normal(unit);
    lemma_nf_times(d as int, y.scale, 1, base + 1);
    lemma_nf_rescale((d * 1) as int, x.scale - k + 1, 1);
    assert(d * 1 * radix_pow(1) == d * radix());
    let bound = normal_form(d * radix(), x.scale - k);
    assert(y.magnitude().times(unit) == bound);
    if q < radix_pow(p) {
        let m = signed(q as nat, neg);
        lemma_nf_times(m, base, y.mant, y.scale);
        assert(m * y.mant == xs) by (nonlinear_arith)
            requires
                q * d == xk,
                abs(xs) == xk,
                xs == x.mant * radix_pow(k),
                radix_pow(k) >= 1,
                m == signed(q as nat, neg),
                neg == ((x.mant < 0) != (y.mant < 0)),
                d == abs(y.mant),
                q >= 0,
                y.mant != 0,
        ;
        assert(r.times(y) == x);
        lemma_nf_plus(xs, xs, x.scale - k);
        lemma_nf_magnitude(0, x.scale - k);
        lemma_nf_order(0, d * radix(), x.scale - k);
    } else {
        let rounded = round_half_up(q as nat) as int;
        let m = signed(rounded as nat, neg);
        lemma_nf_times(m, base + 1, y.mant, y.scale);
        lemma_nf_rescale(m * y.mant, x.scale - k + 1, 1);
        let ry = m * y.mant * radix_pow(1);
        assert(r.times(y) == normal_form(ry, x.scale - k));
        lemma_nf_plus(ry, xs, x.scale - k);
        lemma_nf_magnitude(ry - xs, x.scale - k);
        lemma_nf_order(abs(ry - xs) as int, d * radix(), x.scale - k);
        let t = rounded * radix() * d - xk;
        assert(ry - xs == t || ry - xs == -t) by (nonlinear_arith)
            requires
                ry == m * y.mant * radix_pow(1),
                radix_pow(1) == radix(),
                t == rounded * radix() * d - xk,
                abs(xs) == xk,
                xs == x.mant * radix_pow(k),
                radix_pow(k) >= 1,
                m == signed(rounded as nat, neg),
                neg == ((x.mant < 0) != (y.mant < 0)),
                d == abs(y.mant),
                rounded >= 0,
                y.mant != 0,
        ;
    }
}

/// Adding zero to a value changes nothing: `a + 0 == a`.
pub proof fn lemma_value_additive_identity(a: BigNum)
    ensures
        a@.plus(Dyadic::zero()) == a@,
        Dyadic::zero().plus(a@) == a@,
{
    a.lemma_view();
    lemma_additive_identity(a@);
}

/// A value and its negation add up to zero: `a + (-a) == 0`.
pub proof fn lemma_value_additive_inverse(a: BigNum)
    ensures
        a@.plus(a@.negated()) == Dyadic::zero(),
{
    lemma_additive_inverse(a@);
}

/// Addition of values commutes and associates: `a + b == b + a` and
/// `(a + b) + c == a + (b + c)`.
pub proof fn lemma_value_addition(a: BigNum, b: BigNum, c: BigNum)
    ensures
        a@.plus(b@) == b@.plus(a@),
        a@.plus(b@).plus(c@) == a@.plus(b@.plus(c@)),
{
    lemma_addition_commutes(a@, b@);
    lemma_addition_associates(a@, b@, c@);
}

/// Multiplication of values spreads over addition:
/// `a * (b + c) == a * b + a * c`.
pub proof fn lemma_value_distributivity(a: BigNum, b: BigNum, c: BigNum)
    ensures
        a@.times(b@.plus(c@)) == a@.times(b@).plus(a@.times(c@)),
{
    lemma_multiplication_distributes(a@, b@, c@);
}

/// The order of values is total, transitive and antisymmetric: of `a < b`,
/// `a == b` and `a > b` exactly one holds; `a < b` and `b < c` give `a < c`;
/// `a <= b` and `b <= a` give `a == b`.
pub proof fn lemma_value_order(a: BigNum, b: BigNum, c: BigNum)
    ensures
        a@.lt(b@) || a@ == b@ || b@.lt(a@),
        !(a@.lt(b@) && a@ == b@),
        !(a@.lt(b@) && b@.lt(a@)),
        !(a@ == b@ && b@.lt(a@)),
        a@.lt(b@) && b@.lt(c@) ==> a@.lt(c@),
        a@.le(b@) && b@.le(a@) ==> a@ == b@,
{
    a.lemma_view();
    b.lemma_view();
    lemma_order_total(a@, b@);
    if a@.lt(b@) && b@.lt(c@) {
        lemma_order_transitive(a@, b@, c@);
    }
    if a@.le(b@) && b@.le(a@) {
        lemma_order_antisymmetric(a@, b@);
    }
}

/// Adding or subtracting one value on both sides keeps the order:
/// `a < b` gives `a + c < b + c` and `a - c < b - c`, and the other way
/// round.
pub proof fn lemma_value_order_addition(a: BigNum, b: BigNum, c: BigNum)
    ensures
        a@.lt(b@) <==> a@.plus(c@).lt(b@.plus(c@)),
        a@.lt(b@) <==> a@.minus(c@).lt(b@.minus(c@)),
{
    lemma_order_addition(a@, b@, c@);
}

/// Multiplying both sides by a value above zero keeps the order, by a
/// value below zero turns it round, and by zero makes both sides equal.
pub proof fn lemma_value_order_multiplication(a: BigNum, b: BigNum, c: BigNum)
    requires
        a@.lt(b@),
    ensures
        c@.is_positive() ==> a@.times(c@).lt(b@.times(c@)),
        c@.is_negative() ==> b@.times(c@).lt(a@.times(c@)),
        c@.is_zero() ==> a@.times(c@) == b@.times(c@),
{
    lemma_order_multiplication(a@, b@, c@);
}

} // verus!
