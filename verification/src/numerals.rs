//! Laws of numerals: which rows of characters spell a number, and that
//! reading a numeral and writing the number again gives the numeral back.

use vstd::prelude::*;
use vstd::arithmetic::div_mod::lemma_fundamental_div_mod_converse;
use vstd::arithmetic::power::{pow, lemma_pow0, lemma_pow1, lemma_pow_adds, lemma_pow_positive};
use vstd::arithmetic::power2::{
    pow2, lemma_pow2, lemma_pow2_adds, lemma_pow2_pos, lemma_pow2_strictly_increases, lemma2_to64,
};
use crate::codec::{
    Base, digit_value, digits_value, point_from, unsigned_part, unsigned_value, numeral_value,
    numeral_of, whole_digits, digits_from_place, lemma_top_place, lemma_digit_table,
    fraction_digits, digit_budget,
};
use crate::dyadic::{
    Dyadic, normal_form, lemma_from_int, lemma_normalized_normal, lemma_normal_form, lemma_nf_order,
    lemma_nf_plus, lemma_nf_times, lemma_nf_rescale, lemma_nf_at, lemma_nf_integer_part,
    quotient_shift_from, lemma_divided_by_scale, lemma_at_rescale, lemma_sign_at,
};
use crate::laws::lemma_division_error;
use crate::power::checked_quotient;
use crate::radix::{
    radix, radix_pow, limb_count, lemma_radix_pow_step, lemma_limb_count_bounds,
    lemma_limb_count_unique, lemma_radix_pow_adds, lemma_radix_pow_monotone,
};

verus! {

/// Every character is a digit of the base.
pub open spec fn is_digit_row(s: Seq<char>, base: nat) -> bool {
    forall|i: int| 0 <= i < s.len() ==> 0 <= digit_value(#[trigger] s[i]) < base
}

/// A numeral of a natural number as it is written: at least one digit, no
/// zero before other digits. A row that begins with the digit `+` of base 64
/// is left out, since a leading `+` is read as a sign.
pub open spec fn canonical_natural(s: Seq<char>, base: nat) -> bool {
    &&& s.len() >= 1
    &&& is_digit_row(s, base)
    &&& s.len() > 1 ==> s[0] != '0'
    &&& s[0] != '+'
}

/// A numeral of an integer as it is written: a canonical natural numeral,
/// or `-` before one that is not `0`.
pub open spec fn canonical_integer(s: Seq<char>, base: nat) -> bool {
    ||| canonical_natural(s, base)
    ||| (s.len() >= 2 && s[0] == '-' && canonical_natural(s.skip(1), base) && s.skip(1) != seq![
        '0',
    ])
}

/// A row of digits spells a number below the base to the power of its
/// length.
pub proof fn lemma_digit_row_value(s: Seq<char>, base: nat)
    requires
        is_digit_row(s, base),
        base >= 2,
    ensures
        digits_value(s, base) is Some,
        digits_value(s, base)->0 < pow(base as int, s.len()),
    decreases s.len(),
{
    if s.len() == 0 {
        lemma_pow0(base as int);
    } else {
        let t = s.drop_last();
        assert(forall|i: int| 0 <= i < t.len() ==> t[i] == s[i]);
        lemma_digit_row_value(t, base);
        let v = digits_value(t, base)->0 as int;
        let d = digit_value(s.last());
        let p = pow(base as int, t.len());
        lemma_pow_adds(base as int, t.len(), 1);
        lemma_pow1(base as int);
        assert(v * base + d < p * base) by (nonlinear_arith)
            requires
                v + 1 <= p,
                0 <= d < base,
        ;
        assert(v * base + d >= 0) by (nonlinear_arith)
            requires
                v >= 0,
                d >= 0,
                base >= 0,
        ;
    }
}

/// The first digit of a row counts the base to the power of the length of
/// the rest.
pub proof fn lemma_digits_prepend(s: Seq<char>, base: nat)
    requires
        is_digit_row(s, base),
        base >= 2,
        s.len() >= 1,
    ensures
        digits_value(s, base) is Some,
        digits_value(s.skip(1), base) is Some,
        digits_value(s, base)->0 == digit_value(s[0]) * pow(base as int, (s.len() - 1) as nat)
            + digits_value(s.skip(1), base)->0,
    decreases s.len(),
{
    let rest = s.skip(1);
    assert(forall|i: int| 0 <= i < rest.len() ==> rest[i] == s[i + 1]);
    lemma_digit_row_value(s, base);
    lemma_digit_row_value(rest, base);
    if s.len() == 1 {
        lemma_pow0(base as int);
        assert(s.drop_last() =~= Seq::<char>::empty());
        assert(rest =~= Seq::<char>::empty());
        assert(0 * base == 0);
        assert(digit_value(s[0]) * 1 == digit_value(s[0]));
    } else {
        let t = s.drop_last();
        assert(forall|i: int| 0 <= i < t.len() ==> t[i] == s[i]);
        lemma_digits_prepend(t, base);
        assert(t.skip(1) =~= rest.drop_last());
        assert(rest.last() == s.last());
        let c = digit_value(s[0]);
        let d = digit_value(s.last());
        let p = pow(base as int, (t.len() - 1) as nat);
        let w = digits_value(t.skip(1), base)->0 as int;
        lemma_pow_adds(base as int, (t.len() - 1) as nat, 1);
        lemma_pow1(base as int);
        assert((c * p + w) * base + d == c * (p * base) + (w * base + d)) by (nonlinear_arith);
    }
}

/// The digits of the number that a row of digits spells, from the place of
/// its first digit down, are the row.
pub proof fn lemma_digits_of_value(s: Seq<char>, base: nat)
    requires
        is_digit_row(s, base),
        2 <= base <= 64,
        s.len() >= 1,
    ensures
        digits_value(s, base) is Some,
        digits_from_place(digits_value(s, base)->0, base, (s.len() - 1) as nat) == s,
    decreases s.len(),
{
    lemma_digits_prepend(s, base);
    let v = digits_value(s, base)->0 as int;
    let d = digit_value(s[0]);
    lemma_digit_table(s[0], d);
    if s.len() == 1 {
        lemma_pow0(base as int);
        assert(s.skip(1) =~= Seq::<char>::empty());
        assert(d * 1 == d);
        assert(digits_from_place(v as nat, base, 0) =~= s);
    } else {
        let rest = s.skip(1);
        assert(forall|i: int| 0 <= i < rest.len() ==> rest[i] == s[i + 1]);
        lemma_digits_of_value(rest, base);
        lemma_digit_row_value(rest, base);
        let w = digits_value(rest, base)->0 as int;
        let p = pow(base as int, (s.len() - 1) as nat);
        lemma_pow_positive(base as int, (s.len() - 1) as nat);
        assert(p * d == d * p) by (nonlinear_arith);
        lemma_fundamental_div_mod_converse(v, p, d, w);
        assert(digits_from_place(v as nat, base, (s.len() - 1) as nat) =~= seq![s[0]]
            + digits_from_place(w as nat, base, (s.len() - 2) as nat));
        assert(seq![s[0]] + rest =~= s);
    }
}

/// A row without a point has its first point at its end.
pub proof fn lemma_no_point(s: Seq<char>, i: nat)
    requires
        forall|k: int| 0 <= k < s.len() ==> s[k] != '.',
        i <= s.len(),
    ensures
        point_from(s, i) == s.len(),
    decreases s.len() - i,
{
    if i < s.len() {
        lemma_no_point(s, i + 1);
    }
}

/// Round trip of natural numbers: a canonical natural numeral spells a
/// number, and the numeral of that number is the numeral itself.
pub proof fn lemma_round_trip_natural(s: Seq<char>, base: Base)
    requires
        canonical_natural(s, base.value()),
    ensures
        digits_value(s, base.value()) is Some,
        numeral_value(s, base.value()) == Some(
            Dyadic::from_int(digits_value(s, base.value())->0 as int),
        ),
        numeral_of(Dyadic::from_int(digits_value(s, base.value())->0 as int), base.value())
            == s,
        s != seq!['0'] ==> digits_value(s, base.value())->0 > 0,
{
    let b = base.value();
    lemma_digit_row_value(s, b);
    lemma_digits_of_value(s, b);
    lemma_digits_prepend(s, b);
    let v = digits_value(s, b)->0;
    let x = Dyadic::from_int(v as int);
    lemma_from_int(v as int);
    // reading
    lemma_digit_table(s[0], 0);
    assert(unsigned_part(s) == s);
    assert forall|k: int| 0 <= k < s.len() implies s[k] != '.' by {
        lemma_digit_table(s[k], 0);
    }
    lemma_no_point(s, 0);
    assert(unsigned_value(s, b) == Some(x));
    // writing
    let d0 = digit_value(s[0]);
    let p = pow(b as int, (s.len() - 1) as nat);
    let w = digits_value(s.skip(1), b)->0 as int;
    lemma_pow_positive(b as int, (s.len() - 1) as nat);
    if s.len() > 1 {
        assert(d0 >= 1);
        assert(d0 * p >= p) by (nonlinear_arith)
            requires
                d0 >= 1,
                p >= 1,
        ;
    } else {
        lemma_pow0(b as int);
        assert(d0 * 1 == d0);
        assert(s.skip(1) =~= Seq::<char>::empty());
        if d0 == 0 {
            assert(s =~= seq!['0']);
        }
    }
    lemma_top_place(v, b, (s.len() - 1) as nat);
    assert(whole_digits(v, b) == s);
    if v == 0 {
        assert(s =~= seq!['0']);
    } else {
        lemma_normalized_normal(x);
        assert(x.magnitude() == x);
        assert(x.integer_part() == x);
        assert(x.minus(x) == Dyadic::zero());
        assert(numeral_of(x, b) =~= s);
    }
}

/// Round trip of integers: a canonical integer numeral spells a number,
/// and the numeral of that number is the numeral itself, in each of the
/// five bases.
pub proof fn lemma_round_trip_integer(s: Seq<char>, base: Base)
    requires
        canonical_integer(s, base.value()),
    ensures
        numeral_value(s, base.value()) is Some,
        numeral_of(numeral_value(s, base.value())->0, base.value()) == s,
{
    let b = base.value();
    if canonical_natural(s, b) {
        lemma_round_trip_natural(s, base);
    } else {
        let t = s.skip(1);
        lemma_round_trip_natural(t, base);
        let v = digits_value(t, b)->0;
        let m = Dyadic::from_int(v as int);
        lemma_from_int(v as int);
        assert(unsigned_part(s) == t);
        lemma_digit_table(t[0], 0);
        assert(unsigned_part(t) == t);
        assert(numeral_value(s, b) == Some(m.negated()));
        let x = m.negated();
        let y = Dyadic { mant: -m.mant, scale: m.scale };
        assert(y.normal());
        lemma_normalized_normal(y);
        assert(x == y);
        lemma_normalized_normal(m);
        assert(x.magnitude() == m);
        assert(m.integer_part() == m);
        assert(m.minus(m) == Dyadic::zero());
        assert(numeral_of(m, b) == t);
        assert(numeral_of(x, b) =~= seq!['-'] + t);
        assert(seq!['-'] + t =~= s);
    }
}

/// A row of digits that does not begin with `+` is read as the number it
/// spells.
pub proof fn lemma_digit_row_numeral(f: Seq<char>, base: nat)
    requires
        is_digit_row(f, base),
        2 <= base <= 64,
        f.len() > 0 ==> f[0] != '+',
    ensures
        digits_value(f, base) is Some,
        numeral_value(f, base) == Some(Dyadic::from_int(digits_value(f, base)->0 as int)),
{
    lemma_digit_row_value(f, base);
    if f.len() > 0 {
        lemma_digit_table(f[0], 0);
    }
    assert(unsigned_part(f) == f);
    assert forall|k: int| 0 <= k < f.len() implies f[k] != '.' by {
        lemma_digit_table(f[k], 0);
    }
    lemma_no_point(f, 0);
}

/// The first point of a row stands where no point stands before.
pub proof fn lemma_first_point(s: Seq<char>, i: nat, n: nat)
    requires
        i <= n < s.len(),
        s[n as int] == '.',
        forall|k: int| i <= k < n ==> s[k] != '.',
    ensures
        point_from(s, i) == n,
    decreases n - i,
{
    if i < n {
        lemma_first_point(s, i + 1, n);
    }
}

/// A row of digits whose last digit is not zero spells a number that is
/// not zero.
pub proof fn lemma_digit_row_nonzero(f: Seq<char>, base: nat)
    requires
        is_digit_row(f, base),
        2 <= base <= 64,
        f.len() >= 1,
        f.last() != '0',
    ensures
        digits_value(f, base) is Some,
        digits_value(f, base)->0 > 0,
{
    let t = f.drop_last();
    assert(forall|i: int| 0 <= i < t.len() ==> t[i] == f[i]);
    lemma_digit_row_value(t, base);
    lemma_digit_row_value(f, base);
    lemma_digit_table(f.last(), 0);
    let v = digits_value(t, base)->0 as int;
    assert(v * base >= 0) by (nonlinear_arith)
        requires
            v >= 0,
            base >= 0,
    ;
}

/// The digits after the point of a fraction that comes out even are the
/// digits of its numerator: where `qv / radix^(-e)` is the number that the
/// row `f` spells divided by the base to the power of its length, its
/// digits after the point, as many as `f` has, are `f`.
#[verifier::rlimit(40)]
pub proof fn lemma_fraction_digits(f: Seq<char>, base: nat, qv: int, e: int, count: nat)
    requires
        is_digit_row(f, base),
        2 <= base <= 64,
        f.len() >= 1 ==> f.last() != '0',
        e <= 0,
        0 <= qv < radix_pow((-e) as nat),
        digits_value(f, base) is Some,
        qv * pow(base as int, f.len()) == digits_value(f, base)->0 * radix_pow((-e) as nat),
        count >= f.len(),
    ensures
        fraction_digits(normal_form(qv, e), base, count) == f,
    decreases f.len(),
{
    let b = base as int;
    let u = radix_pow((-e) as nat);
    let k = f.len();
    let fv = digits_value(f, base)->0 as int;
    lemma_radix_pow_step((-e) as nat);
    lemma_nf_order(qv, 0, e);
    if k == 0 {
        lemma_pow0(b);
        assert(fv == 0);
        assert(qv * 1 == qv);
        assert(0 * u == 0);
        assert(fraction_digits(normal_form(qv, e), base, count) =~= f);
    } else {
        lemma_digit_row_nonzero(f, base);
        lemma_digits_prepend(f, base);
        let rest = f.skip(1);
        assert(forall|i: int| 0 <= i < rest.len() ==> rest[i] == f[i + 1]);
        lemma_digit_row_value(rest, base);
        let d0 = digit_value(f[0]);
        lemma_digit_table(f[0], d0);
        let p = pow(b, (k - 1) as nat);
        let fr = digits_value(rest, base)->0 as int;
        lemma_pow_positive(b, (k - 1) as nat);
        lemma_pow_adds(b, 1, (k - 1) as nat);
        lemma_pow1(b);
        assert(pow(b, k) == b * p);
        assert(qv != 0) by (nonlinear_arith)
            requires
                qv * pow(b, k) == fv * u,
                fv > 0,
                u >= 1,
        ;
        let t = qv * b - d0 * u;
        let gb = qv * b;
        let du = d0 * u;
        let dp = d0 * p;
        assert(gb * p == qv * (b * p)) by (nonlinear_arith)
            requires
                gb == qv * b,
        ;
        assert((gb - du) * p == gb * p - du * p) by (nonlinear_arith);
        assert((dp + fr) * u == dp * u + fr * u) by (nonlinear_arith);
        assert(du * p == dp * u) by (nonlinear_arith)
            requires
                du == d0 * u,
                dp == d0 * p,
        ;
        assert(t * p == fr * u);
        assert(0 <= t < u) by (nonlinear_arith)
            requires
                t * p == fr * u,
                0 <= fr < p,
                u >= 1,
                p >= 1,
        ;
        let gv = qv * b;
        assert(u * d0 == d0 * u) by (nonlinear_arith);
        lemma_fundamental_div_mod_converse(gv, u, d0, t);
        // one step of the digits after the point
        let x = normal_form(qv, e);
        lemma_from_int(b);
        lemma_nf_times(qv, e, b, 0);
        let g = x.times(Dyadic::from_int(b));
        assert(g == normal_form(gv, e));
        assert(gv >= 0) by (nonlinear_arith)
            requires
                gv == qv * b,
                qv >= 0,
                b >= 0,
        ;
        lemma_nf_integer_part(gv, e);
        let d = g.integer_part();
        assert(d == Dyadic::from_int(d0));
        lemma_from_int(d0);
        lemma_nf_rescale(d0, 0, (-e) as nat);
        lemma_nf_plus(gv, d0 * u, e);
        assert(g.minus(d) == normal_form(t, e));
        if k > 1 {
            assert(rest.last() == f.last());
        }
        lemma_fraction_digits(rest, base, t, e, (count - 1) as nat);
        assert(fraction_digits(x, base, count) =~= seq![f[0]] + rest);
        assert(seq![f[0]] + rest =~= f);
    }
}

/// The digits of the number that a canonical natural numeral spells are
/// the numeral.
pub proof fn lemma_whole_digits(w: Seq<char>, base: nat)
    requires
        canonical_natural(w, base),
        2 <= base <= 64,
    ensures
        digits_value(w, base) is Some,
        whole_digits(digits_value(w, base)->0, base) == w,
{
    lemma_digit_row_value(w, base);
    lemma_digits_of_value(w, base);
    lemma_digits_prepend(w, base);
    let v = digits_value(w, base)->0;
    let d0 = digit_value(w[0]);
    let p = pow(base as int, (w.len() - 1) as nat);
    lemma_pow_positive(base as int, (w.len() - 1) as nat);
    lemma_digit_table(w[0], 0);
    if w.len() > 1 {
        assert(d0 * p >= p) by (nonlinear_arith)
            requires
                d0 >= 1,
                p >= 1,
        ;
    }
    lemma_top_place(v, base, (w.len() - 1) as nat);
}

/// The numeral made of an optional `-`, a canonical natural numeral, a
/// point and a row of digits.
pub open spec fn fraction_numeral(negative: bool, w: Seq<char>, f: Seq<char>) -> Seq<char> {
    let sign = if negative {
        seq!['-']
    } else {
        Seq::<char>::empty()
    };
    sign + w + seq!['.'] + f
}

/// The number of a natural numeral `w`, a point and a row of digits `f`:
/// the number of `w` plus the number of `f` divided by the base to the
/// power of the length of `f`.
pub open spec fn fraction_number(w: Seq<char>, f: Seq<char>, base: nat) -> Dyadic {
    let part = Dyadic::from_int(digits_value(f, base)->0 as int);
    let divisor = Dyadic::from_int(pow(base as int, f.len()));
    Dyadic::from_int(digits_value(w, base)->0 as int).plus(part.divided_by(divisor))
}

/// The division of the digits after the point by the power of the base
/// comes out even, and its quotient can be held.
pub open spec fn fraction_is_exact(f: Seq<char>, base: nat) -> bool {
    let part = Dyadic::from_int(digits_value(f, base)->0 as int);
    let divisor = Dyadic::from_int(pow(base as int, f.len()));
    let q = part.divided_by(divisor);
    q.representable() && q.times(divisor) == part
}

/// A numeral with a point is read as the number of its parts.
proof fn lemma_fraction_read(negative: bool, w: Seq<char>, f: Seq<char>, base: nat)
    requires
        2 <= base <= 64,
        canonical_natural(w, base),
        is_digit_row(f, base),
        f.len() >= 1,
        f[0] != '+',
        fraction_is_exact(f, base),
    ensures
        numeral_value(fraction_numeral(negative, w, f), base) == Some(
            if negative {
                fraction_number(w, f, base).negated()
            } else {
                fraction_number(w, f, base)
            },
        ),
{
    let s = fraction_numeral(negative, w, f);
    let u0 = w + seq!['.'] + f;
    lemma_digit_row_numeral(w, base);
    lemma_digit_row_numeral(f, base);
    let part = Dyadic::from_int(digits_value(f, base)->0 as int);
    let bk = pow(base as int, f.len());
    lemma_pow_positive(base as int, f.len());
    let divisor = Dyadic::from_int(bk);
    let q = part.divided_by(divisor);
    let x = fraction_number(w, f, base);
    lemma_from_int(bk);
    lemma_digit_table(w[0], 0);
    assert forall|i: int| 0 <= i < w.len() implies u0[i] != '.' by {
        lemma_digit_table(w[i], 0);
        assert(u0[i] == w[i]);
    }
    assert(u0[w.len() as int] == '.');
    lemma_first_point(u0, 0, w.len());
    assert(u0.take(w.len() as int) =~= w);
    assert(u0.skip(w.len() as int + 1) =~= f);
    assert(u0[0] == w[0]);
    assert(unsigned_part(u0) == u0);
    assert(checked_quotient(part, divisor) == Some(q));
    assert(unsigned_value(u0, base) == Some(x));
    if negative {
        assert(s.skip(1) =~= u0);
        assert(s[0] == '-');
        assert(unsigned_part(s) == u0);
    } else {
        assert(s =~= u0);
    }
}

/// The number of a numeral with a point, at a scale below its fraction:
/// its integer part is the number before the point, and what is left has
/// the digits after the point.
#[verifier::rlimit(40)]
proof fn lemma_fraction_parts(w: Seq<char>, f: Seq<char>, base: nat, count: nat)
    requires
        2 <= base <= 64,
        canonical_natural(w, base),
        is_digit_row(f, base),
        f.len() >= 1,
        f.last() != '0',
        fraction_is_exact(f, base),
        count >= f.len(),
    ensures
        fraction_number(w, f, base).normal(),
        fraction_number(w, f, base).is_positive(),
        fraction_number(w, f, base).integer_part() == Dyadic::from_int(
            digits_value(w, base)->0 as int,
        ),
        !fraction_number(w, f, base).minus(
            fraction_number(w, f, base).integer_part(),
        ).is_zero(),
        fraction_digits(
            fraction_number(w, f, base).minus(fraction_number(w, f, base).integer_part()),
            base,
            count,
        ) == f,
{
    let k = f.len();
    lemma_digit_row_value(w, base);
    lemma_digit_row_nonzero(f, base);
    lemma_digit_row_value(f, base);
    let wv = digits_value(w, base)->0 as int;
    let fv = digits_value(f, base)->0 as int;
    let whole = Dyadic::from_int(wv);
    let part = Dyadic::from_int(fv);
    let bk = pow(base as int, k);
    lemma_pow_positive(base as int, k);
    let divisor = Dyadic::from_int(bk);
    let q = part.divided_by(divisor);
    let x = whole.plus(q);
    lemma_from_int(wv);
    lemma_from_int(fv);
    lemma_from_int(bk);
    crate::dyadic::lemma_divided_by_scale(part, divisor);
    let e = vstd::math::min(q.scale, 0);
    let u = radix_pow((-e) as nat);
    lemma_radix_pow_step((-e) as nat);
    let qv = q.at(e);
    lemma_nf_at(q, e);
    lemma_nf_times(qv, e, bk, 0);
    lemma_nf_rescale(fv, 0, (-e) as nat);
    lemma_nf_order(qv * bk, fv * u, e);
    assert(qv * bk == fv * u);
    assert(0 < qv < u) by (nonlinear_arith)
        requires
            qv * bk == fv * u,
            0 < fv < bk,
            u >= 1,
            bk >= 1,
    ;
    lemma_nf_rescale(wv, 0, (-e) as nat);
    lemma_nf_plus(wv * u, qv, e);
    let xv = wv * u + qv;
    assert(x == normal_form(xv, e));
    assert(wv * u >= 0) by (nonlinear_arith)
        requires
            wv >= 0,
            u >= 1,
    ;
    lemma_nf_order(xv, 0, e);
    lemma_normal_form(xv, e);
    lemma_nf_integer_part(xv, e);
    assert(u * wv == wv * u) by (nonlinear_arith);
    lemma_fundamental_div_mod_converse(xv, u, wv, qv);
    assert(x.integer_part() == whole);
    lemma_nf_plus(xv, wv * u, e);
    assert(x.minus(whole) == q);
    lemma_nf_order(qv, 0, e);
    lemma_fraction_digits(f, base, qv, e, count);
}

/// Round trip of numerals with a point: a numeral of a canonical natural
/// numeral, a point and a row of digits that does not end in zero spells a
/// number, and the numeral of that number is the numeral itself, where the
/// division of the digits after the point by the power of the base comes
/// out even and the number is given as many digits after the point as the
/// numeral has. A row after the point that begins with the digit `+` of
/// base 64 is left out, since a leading `+` is read as a sign.
pub proof fn lemma_round_trip_fraction(negative: bool, w: Seq<char>, f: Seq<char>, base: Base)
    requires
        canonical_natural(w, base.value()),
        is_digit_row(f, base.value()),
        f.len() >= 1,
        f.last() != '0',
        f[0] != '+',
        fraction_is_exact(f, base.value()),
        f.len() <= digit_budget(
            limb_count(vstd::math::abs(fraction_number(w, f, base.value()).mant)),
            base.value(),
        ),
    ensures
        numeral_value(fraction_numeral(negative, w, f), base.value()) is Some,
        numeral_of(
            numeral_value(fraction_numeral(negative, w, f), base.value())->0,
            base.value(),
        ) == fraction_numeral(negative, w, f),
{
    let b = base.value();
    let s = fraction_numeral(negative, w, f);
    let u0 = w + seq!['.'] + f;
    let x = fraction_number(w, f, b);
    let budget = digit_budget(limb_count(vstd::math::abs(x.mant)), b);
    lemma_fraction_read(negative, w, f, b);
    lemma_fraction_parts(w, f, b, budget);
    lemma_whole_digits(w, b);
    lemma_normalized_normal(x);
    lemma_from_int(digits_value(w, b)->0 as int);
    assert(x.magnitude() == x);
    assert(numeral_of(x, b) =~= u0);
    if negative {
        let y = Dyadic { mant: -x.mant, scale: x.scale };
        assert(y.normal());
        lemma_normalized_normal(y);
        assert(x.negated() == y);
        assert(y.magnitude() == x);
        assert(numeral_of(y, b) =~= seq!['-'] + u0);
        assert(seq!['-'] + u0 =~= s);
    } else {
        assert(s =~= u0);
    }
}

/// A power of two has a power of two below the radix as its mantissa.
pub proof fn lemma_pow2_normal_form(n: nat, e: int)
    ensures
        normal_form(pow2(n) as int, e) == (Dyadic { mant: pow2(n % 64) as int, scale: e + n / 64 }),
        1 <= pow2(n % 64) < radix(),
    decreases n,
{
    lemma2_to64();
    lemma_pow2_pos(n);
    lemma_pow2_pos(n % 64);
    lemma_pow2_strictly_increases(n % 64, 64);
    if n < 64 {
        assert(pow2(n) % 0x1_0000_0000_0000_0000 == pow2(n));
    } else {
        lemma_pow2_adds(64, (n - 64) as nat);
        lemma_pow2_normal_form((n - 64) as nat, e + 1);
        let rest = pow2((n - 64) as nat) as int;
        lemma_pow2_pos((n - 64) as nat);
        assert(pow2(n) == 0x1_0000_0000_0000_0000 * rest);
        assert(pow2(n) % 0x1_0000_0000_0000_0000 == 0);
        assert(pow2(n) as int / 0x1_0000_0000_0000_0000 == rest);
    }
}

/// The bits of one digit of a base that is a power of two.
pub open spec fn digit_bits(base: Base) -> nat {
    match base {
        Base::Binary => 1,
        Base::Octal => 3,
        Base::Decimal => 0,
        Base::Hexadecimal => 4,
        Base::Base64 => 6,
    }
}

/// A power of a base that is a power of two is a power of two.
pub proof fn lemma_base_power(base: Base, k: nat)
    requires
        base != Base::Decimal,
    ensures
        pow(base.value() as int, k) == pow2(digit_bits(base) * k),
{
    let t = digit_bits(base);
    lemma2_to64();
    lemma_pow2(t);
    lemma_pow2(t * k);
    vstd::arithmetic::power::lemma_pow_multiplies(2, t, k);
}

/// A number divided by a power of two comes out even: the quotient times
/// the divisor is the number.
#[verifier::rlimit(40)]
pub proof fn lemma_division_by_power_of_two(x: Dyadic, n: nat)
    requires
        x.normal(),
    ensures
        x.divided_by(Dyadic::from_int(pow2(n) as int)).times(Dyadic::from_int(pow2(n) as int))
            == x,
{
    let y = Dyadic::from_int(pow2(n) as int);
    let m = n % 64;
    lemma_pow2_normal_form(n, 0);
    lemma2_to64();
    lemma_pow2_pos(m);
    let a = vstd::math::abs(x.mant);
    let d = pow2(m);
    assert(vstd::math::abs(y.mant) == d);
    lemma_radix_pow_step(0);
    lemma_radix_pow_step(1);
    lemma_limb_count_unique(d, 1);
    let p = limb_count(a) + 1;
    // the radix is a multiple of the divisor
    lemma_pow2_adds(m, (64 - m) as nat);
    let c = pow2((64 - m) as nat) as int;
    assert(radix() == d * c);
    assert((a * radix()) == (a * c) * d) by (nonlinear_arith)
        requires
            radix() == d * c,
    ;
    vstd::arithmetic::div_mod::lemma_fundamental_div_mod_converse(
        a * radix(),
        d as int,
        a * c,
        0,
    );
    assert(a * radix_pow(1) == a * radix());
    assert(a * radix_pow(0) == a);
    // so the long division ends within one limb below the point
    let k = quotient_shift_from(a, d, p, 0);
    assert(k <= 1) by {
        reveal_with_fuel(quotient_shift_from, 3);
    }
    let q = (a * radix_pow(k)) / (d as int);
    lemma_limb_count_bounds(a);
    lemma_radix_pow_step(limb_count(a));
    let pa = radix_pow(limb_count(a));
    assert(a * radix_pow(k) <= a * radix()) by (nonlinear_arith)
        requires
            radix_pow(k) <= radix(),
            a >= 0,
    ;
    assert(a * radix() < radix_pow(p)) by (nonlinear_arith)
        requires
            a < pa,
            radix_pow(p) == radix() * pa,
            radix() > 0,
    ;
    vstd::arithmetic::div_mod::lemma_div_nonincreasing(a * radix_pow(k), d as int);
    assert(a * radix_pow(k) >= 0) by (nonlinear_arith)
        requires
            a >= 0,
            radix_pow(k) >= 1,
    ;
    assert(q < radix_pow(p));
    lemma_from_int(pow2(n) as int);
    lemma_division_error(x, y);
}

/// Round trip of numerals with a point in the bases 2, 8, 16 and 64: a
/// numeral of a canonical natural numeral, a point and a row of digits
/// that does not end in zero spells a number, and the numeral of that
/// number is the numeral itself, where the number is given as many digits
/// after the point as the numeral has, for up to 2^28 digits after the
/// point.
pub proof fn lemma_round_trip_fraction_power_of_two(
    negative: bool,
    w: Seq<char>,
    f: Seq<char>,
    base: Base,
)
    requires
        base != Base::Decimal,
        canonical_natural(w, base.value()),
        is_digit_row(f, base.value()),
        f.len() >= 1,
        f.last() != '0',
        f[0] != '+',
        f.len() <= 0x1000_0000,
        f.len() <= digit_budget(
            limb_count(vstd::math::abs(fraction_number(w, f, base.value()).mant)),
            base.value(),
        ),
    ensures
        numeral_value(fraction_numeral(negative, w, f), base.value()) is Some,
        numeral_of(
            numeral_value(fraction_numeral(negative, w, f), base.value())->0,
            base.value(),
        ) == fraction_numeral(negative, w, f),
{
    lemma_digit_row_value(f, base.value());
    let fv = digits_value(f, base.value())->0 as int;
    lemma_from_int(fv);
    lemma_base_power(base, f.len());
    lemma_fraction_representable(fv as nat, base.value(), f.len());
    lemma_division_by_power_of_two(Dyadic::from_int(fv), digit_bits(base) * f.len());
    lemma_round_trip_fraction(negative, w, f, base);
}

/// The number of a natural number has as many limbs, mantissa and scale
/// together, as the natural number needs.
pub proof fn lemma_from_int_limbs(n: nat)
    ensures
        Dyadic::from_int(n as int).scale >= 0,
        Dyadic::from_int(n as int).mant >= 0,
        limb_count(vstd::math::abs(Dyadic::from_int(n as int).mant)) + Dyadic::from_int(
            n as int,
        ).scale <= limb_count(n) || n == 0,
        n == 0 ==> Dyadic::from_int(n as int) == Dyadic::zero(),
{
    let d = Dyadic::from_int(n as int);
    lemma_from_int(n as int);
    if n > 0 {
        let m = d.mant;
        let s = d.scale as nat;
        lemma_at_rescale(d, d.scale, 0);
        crate::dyadic::lemma_at_self(d);
        lemma_sign_at(d, 0);
        let c = limb_count(m as nat);
        lemma_limb_count_bounds(m as nat);
        lemma_radix_pow_adds((c - 1) as nat, s);
        lemma_radix_pow_adds(c, s);
        let ps = radix_pow(s);
        let lo = radix_pow((c - 1) as nat);
        let hi = radix_pow(c);
        assert(lo * ps <= m * ps < hi * ps) by (nonlinear_arith)
            requires
                lo <= m < hi,
                ps >= 1,
        ;
        lemma_limb_count_unique(n, c + s);
    }
}

/// A power of a base is at most the same power of the radix.
pub proof fn lemma_base_power_bound(base: nat, k: nat)
    requires
        2 <= base <= 64,
    ensures
        1 <= pow(base as int, k) <= radix_pow(k),
        limb_count(pow(base as int, k) as nat) <= k + 1,
    decreases k,
{
    lemma_radix_pow_step(k);
    if k == 0 {
        lemma_pow0(base as int);
    } else {
        lemma_base_power_bound(base, (k - 1) as nat);
        lemma_radix_pow_step((k - 1) as nat);
        lemma_pow_adds(base as int, (k - 1) as nat, 1);
        lemma_pow1(base as int);
        let p = pow(base as int, (k - 1) as nat);
        let r = radix_pow((k - 1) as nat);
        assert(1 <= p * base <= r * radix()) by (nonlinear_arith)
            requires
                1 <= p <= r,
                2 <= base <= 64,
                radix() == 0x1_0000_0000_0000_0000,
        ;
    }
    lemma_limb_count_bounds(pow(base as int, k) as nat);
    let c = limb_count(pow(base as int, k) as nat);
    if c > k + 1 {
        lemma_radix_pow_monotone(k, (c - 1) as nat);
        lemma_radix_pow_monotone(k, k + 1);
        if c - 1 > k {
            lemma_radix_pow_monotone(k + 1, (c - 1) as nat);
        }
        assert(radix() * radix_pow(k) <= radix_pow((c - 1) as nat));
        assert(false);
    }
}

/// The quotient of a number below a power of a base by that power can be
/// held, for a power of up to 2^28.
pub proof fn lemma_fraction_representable(v: nat, base: nat, k: nat)
    requires
        2 <= base <= 64,
        v < pow(base as int, k),
        k <= 0x1000_0000,
    ensures
        checked_quotient(Dyadic::from_int(v as int), Dyadic::from_int(pow(base as int, k))) is Some,
{
    let bk = pow(base as int, k) as nat;
    lemma_base_power_bound(base, k);
    let part = Dyadic::from_int(v as int);
    let divisor = Dyadic::from_int(bk as int);
    lemma_from_int(bk as int);
    lemma_from_int_limbs(v);
    lemma_from_int_limbs(bk);
    lemma_limb_count_bounds(v);
    let cv = limb_count(v);
    if cv > k + 1 {
        lemma_radix_pow_monotone(k, (cv - 1) as nat);
        assert(false);
    }
    lemma_divided_by_scale(part, divisor);
    if v == 0 {
        assert(limb_count(0) == 0);
    }
}

/// The row after its sign: the row that the digits of a row of digits are
/// read from, since a leading `+` counts as a sign.
pub proof fn lemma_digit_row_has_value(f: Seq<char>, base: nat)
    requires
        is_digit_row(f, base),
        2 <= base <= 64,
    ensures
        digits_value(unsigned_part(f), base) is Some,
        numeral_value(f, base) == Some(
            Dyadic::from_int(digits_value(unsigned_part(f), base)->0 as int),
        ),
        digits_value(unsigned_part(f), base)->0 < pow(base as int, f.len()),
{
    if f.len() > 0 {
        lemma_digit_table(f[0], 0);
    }
    let u = unsigned_part(f);
    assert forall|i: int| 0 <= i < u.len() implies 0 <= digit_value(#[trigger] u[i]) < base by {
        if u.len() < f.len() {
            assert(u[i] == f[i + 1]);
        }
    }
    lemma_digit_row_value(u, base);
    assert forall|k: int| 0 <= k < u.len() implies u[k] != '.' by {
        lemma_digit_table(u[k], 0);
    }
    lemma_no_point(u, 0);
    if u.len() < f.len() {
        lemma_pow_adds(base as int, u.len(), 1);
        lemma_pow1(base as int);
        lemma_pow_positive(base as int, u.len());
        let p = pow(base as int, u.len());
        assert(p <= p * base) by (nonlinear_arith)
            requires
                p >= 1,
                base >= 2,
        ;
    }
}

/// A numeral of the usual shape: after the sign, a row of digits, or two
/// rows of digits with a point between them.
pub open spec fn is_plain_numeral(s: Seq<char>, base: nat) -> bool {
    let u = unsigned_part(s);
    let i = point_from(u, 0);
    if i < u.len() {
        is_digit_row(u.take(i as int), base) && is_digit_row(u.skip(i as int + 1), base)
    } else {
        is_digit_row(u, base)
    }
}

/// A numeral of the usual shape spells a number, for up to 2^28
/// characters.
pub proof fn lemma_plain_numeral(s: Seq<char>, base: Base)
    requires
        is_plain_numeral(s, base.value()),
        s.len() <= 0x1000_0000,
    ensures
        numeral_value(s, base.value()) is Some,
{
    let b = base.value();
    let u = unsigned_part(s);
    let i = point_from(u, 0);
    if i < u.len() {
        let before = u.take(i as int);
        let after = u.skip(i as int + 1);
        lemma_digit_row_has_value(before, b);
        lemma_digit_row_has_value(after, b);
        let v = digits_value(unsigned_part(after), b)->0;
        lemma_fraction_representable(v, b, after.len());
    } else {
        lemma_digit_row_value(u, b);
    }
}

/// A power of the radix is a power of two.
pub proof fn lemma_radix_pow_is_pow2(n: nat)
    ensures
        radix_pow(n) == pow2(64 * n),
    decreases n,
{
    lemma2_to64();
    lemma_radix_pow_step(n);
    if n > 0 {
        lemma_radix_pow_is_pow2((n - 1) as nat);
        lemma_radix_pow_step((n - 1) as nat);
        lemma_pow2_adds(64, 64 * (n - 1) as nat);
    }
}

/// A number with a limb before the point is given the digits of its
/// fraction: in a base that is a power of two, a number of a canonical
/// natural numeral that is not `0`, a point and a row of digits that does
/// not end in zero has at most as many digits after the point as the
/// budget of its limbs.
#[verifier::rlimit(40)]
pub proof fn lemma_fraction_budget(w: Seq<char>, f: Seq<char>, base: Base)
    requires
        base != Base::Decimal,
        canonical_natural(w, base.value()),
        w != seq!['0'],
        is_digit_row(f, base.value()),
        f.len() >= 1,
        f.last() != '0',
        fraction_is_exact(f, base.value()),
    ensures
        f.len() <= digit_budget(
            limb_count(vstd::math::abs(fraction_number(w, f, base.value()).mant)),
            base.value(),
        ),
{
    let b = base.value();
    let t = digit_bits(base);
    let k = f.len();
    lemma_round_trip_natural(w, base);
    lemma_digit_row_nonzero(f, b);
    lemma_digit_row_value(f, b);
    let wv = digits_value(w, b)->0 as int;
    let fv = digits_value(f, b)->0 as int;
    let whole = Dyadic::from_int(wv);
    let part = Dyadic::from_int(fv);
    let bk = pow(b as int, k);
    lemma_pow_positive(b as int, k);
    lemma_base_power(base, k);
    lemma_base_power(base, 1);
    lemma_pow1(b as int);
    let divisor = Dyadic::from_int(bk);
    let q = part.divided_by(divisor);
    let x = whole.plus(q);
    lemma_from_int(wv);
    lemma_from_int(fv);
    lemma_from_int(bk);
    lemma_divided_by_scale(part, divisor);
    // the number at a scale below its fraction
    let e = vstd::math::min(q.scale, 0);
    let u = radix_pow((-e) as nat);
    lemma_radix_pow_step((-e) as nat);
    let qv = q.at(e);
    lemma_nf_at(q, e);
    lemma_nf_times(qv, e, bk, 0);
    lemma_nf_rescale(fv, 0, (-e) as nat);
    lemma_nf_order(qv * bk, fv * u, e);
    assert(qv * bk == fv * u);
    assert(0 < qv) by (nonlinear_arith)
        requires
            qv * bk == fv * u,
            0 < fv,
            u >= 1,
            bk >= 1,
    ;
    lemma_nf_rescale(wv, 0, (-e) as nat);
    lemma_nf_plus(wv * u, qv, e);
    let xv = wv * u + qv;
    assert(x == normal_form(xv, e));
    assert(wv * u >= u) by (nonlinear_arith)
        requires
            wv >= 1,
            u >= 1,
    ;
    lemma_normal_form(xv, e);
    let m = x.mant;
    let s = x.scale;
    let xe = Dyadic { mant: xv, scale: e };
    crate::dyadic::lemma_at_self(xe);
    crate::dyadic::lemma_same_at(x, xe, e);
    let c = radix_pow((s - e) as nat);
    lemma_radix_pow_step((s - e) as nat);
    assert(xv == m * c);
    // the whole number times the power of the base, plus the digits
    let i = wv * bk + fv;
    assert(xv * bk == i * u) by (nonlinear_arith)
        requires
            xv == wv * u + qv,
            qv * bk == fv * u,
            i == wv * bk + fv,
    ;
    // the last digit is what the base leaves of it
    let init = f.drop_last();
    assert(forall|j: int| 0 <= j < init.len() ==> init[j] == f[j]);
    lemma_digit_row_value(init, b);
    lemma_digit_table(f.last(), 0);
    let d = digit_value(f.last());
    let iv = digits_value(init, b)->0 as int;
    assert(fv == iv * b + d);
    lemma_pow_adds(b as int, 1, (k - 1) as nat);
    let bk1 = pow(b as int, (k - 1) as nat);
    assert(bk == b * bk1);
    assert(i == b * (wv * bk1 + iv) + d) by (nonlinear_arith)
        requires
            i == wv * bk + fv,
            bk == b * bk1,
            fv == iv * b + d,
    ;
    assert(0 <= d < b);
    let above = wv * bk1 + iv;
    assert(i == above * b + d) by (nonlinear_arith)
        requires
            i == b * above + d,
    ;
    vstd::arithmetic::div_mod::lemma_fundamental_div_mod_converse(i, b as int, above, d);
    assert(i % (b as int) == d);
    // the scale of the number is below zero
    if s > 0 {
        lemma_radix_pow_adds((-e) as nat, s as nat);
        lemma_radix_pow_step(s as nat);
        lemma_radix_pow_is_pow2(s as nat);
        let rs = radix_pow(s as nat);
        assert(c == u * rs);
        assert(i == m * rs * bk) by (nonlinear_arith)
            requires
                xv * bk == i * u,
                xv == m * c,
                c == u * rs,
                u >= 1,
        ;
        let factor = m * rs * bk1;
        assert(i == factor * b + 0) by (nonlinear_arith)
            requires
                i == m * rs * bk,
                bk == b * bk1,
                factor == m * rs * bk1,
        ;
        vstd::arithmetic::div_mod::lemma_fundamental_div_mod_converse(i, b as int, factor, 0);
        assert(false);
    }
    let n = (-s) as nat;
    let rn = radix_pow(n);
    lemma_radix_pow_adds((s - e) as nat, n);
    lemma_radix_pow_step(n);
    lemma_radix_pow_is_pow2(n);
    assert(u == c * rn);
    assert(m * bk == i * rn) by (nonlinear_arith)
        requires
            xv * bk == i * u,
            xv == m * c,
            u == c * rn,
            c >= 1,
    ;
    // the lowest bit of the number is no more than one digit above the end
    // of the row
    if 64 * n + t <= t * k {
        let rest = (t * k - 64 * n - t) as nat;
        lemma_pow2_adds(64 * n, t + rest);
        lemma_pow2_adds(t, rest);
        lemma_pow2_pos(rest);
        let pr = pow2(rest) as int;
        assert(bk == rn * ((b as int) * pr));
        let factor = m * pr;
        assert(i == factor * b + 0) by (nonlinear_arith)
            requires
                m * bk == i * rn,
                bk == rn * ((b as int) * pr),
                rn >= 1,
                factor == m * pr,
        ;
        vstd::arithmetic::div_mod::lemma_fundamental_div_mod_converse(i, b as int, factor, 0);
        assert(false);
    }
    // the number is at least one, so its mantissa reaches above the point
    assert(m >= rn) by (nonlinear_arith)
        requires
            xv == m * c,
            xv >= u,
            u == c * rn,
            c >= 1,
    ;
    lemma_limb_count_bounds(m as nat);
    let l = limb_count(m as nat);
    if l <= n {
        lemma_radix_pow_monotone(l, n);
        assert(false);
    }
    assert(64 * l >= t * k + 59);
}

/// Round trip of numerals with a point and a limb before it, in the bases
/// 2, 8, 16 and 64: a numeral of a canonical natural numeral that is not
/// `0`, a point and a row of digits that does not end in zero spells a
/// number, and the numeral of that number is the numeral itself, for up to
/// 2^28 digits after the point.
pub proof fn lemma_round_trip_fraction_above_one(
    negative: bool,
    w: Seq<char>,
    f: Seq<char>,
    base: Base,
)
    requires
        base != Base::Decimal,
        canonical_natural(w, base.value()),
        w != seq!['0'],
        is_digit_row(f, base.value()),
        f.len() >= 1,
        f.last() != '0',
        f[0] != '+',
        f.len() <= 0x1000_0000,
    ensures
        numeral_value(fraction_numeral(negative, w, f), base.value()) is Some,
        numeral_of(
            numeral_value(fraction_numeral(negative, w, f), base.value())->0,
            base.value(),
        ) == fraction_numeral(negative, w, f),
{
    lemma_digit_row_value(f, base.value());
    let fv = digits_value(f, base.value())->0 as int;
    lemma_from_int(fv);
    lemma_base_power(base, f.len());
    lemma_fraction_representable(fv as nat, base.value(), f.len());
    lemma_division_by_power_of_two(Dyadic::from_int(fv), digit_bits(base) * f.len());
    lemma_fraction_budget(w, f, base);
    lemma_round_trip_fraction(negative, w, f, base);
}

} // verus!
