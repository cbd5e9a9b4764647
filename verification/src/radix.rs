//! The limb radix 2^64, its powers, and the value of a limb sequence.

use vstd::prelude::*;
use vstd::arithmetic::mul::*;
use vstd::arithmetic::power::*;

verus! {

/// The limb radix, 2^64.
pub open spec fn radix() -> int {
    0x1_0000_0000_0000_0000
}

/// The radix raised to the power `n`.
pub open spec fn radix_pow(n: nat) -> int {
    pow(radix(), n)
}

/// The natural number that a limb sequence spells in base 2^64, least
/// significant limb first.
pub open spec fn limbs_value(s: Seq<u64>) -> nat
    decreases s.len(),
{
    if s.len() == 0 {
        0
    } else {
        (limbs_value(s.drop_last()) + s.last() * radix_pow((s.len() - 1) as nat)) as nat
    }
}

/// The number of limbs that a natural number needs in base 2^64.
pub open spec fn limb_count(n: nat) -> nat
    decreases n,
{
    if n == 0 {
        0
    } else {
        1 + limb_count(n / 0x1_0000_0000_0000_0000)
    }
}

/// The powers of the radix, step by step; none is below one.
pub proof fn lemma_radix_pow_step(n: nat)
    ensures
        radix_pow(0) == 1,
        radix_pow(1) == radix(),
        radix_pow(n + 1) == radix() * radix_pow(n),
        radix_pow(n + 1) == radix_pow(n) * radix(),
        radix_pow(n) >= 1,
{
    lemma_pow0(radix());
    lemma_pow1(radix());
    lemma_pow_positive(radix(), n);
    lemma_pow_adds(radix(), 1, n);
    lemma_pow_adds(radix(), n, 1);
}

/// The power of the radix by a sum is the product of the powers.
pub proof fn lemma_radix_pow_adds(a: nat, b: nat)
    ensures
        radix_pow(a + b) == radix_pow(a) * radix_pow(b),
        radix_pow(a) >= 1,
        radix_pow(b) >= 1,
{
    lemma_pow_adds(radix(), a, b);
    lemma_pow_positive(radix(), a);
    lemma_pow_positive(radix(), b);
}

/// A higher power of the radix is no smaller, and at least the radix times
/// a lower one.
pub proof fn lemma_radix_pow_monotone(a: nat, b: nat)
    requires
        a <= b,
    ensures
        radix_pow(a) <= radix_pow(b),
        a < b ==> radix() * radix_pow(a) <= radix_pow(b),
{
    lemma_radix_pow_adds(a, (b - a) as nat);
    let x = radix_pow(a);
    let y = radix_pow((b - a) as nat);
    assert(x * 1 <= x * y) by (nonlinear_arith)
        requires
            x >= 1,
            y >= 1,
    ;
    if a < b {
        lemma_radix_pow_step((b - a - 1) as nat);
        let z = radix_pow((b - a - 1) as nat);
        assert(y == radix() * z);
        assert(radix() * x <= x * y) by (nonlinear_arith)
            requires
                x >= 1,
                z >= 1,
                y == radix() * z,
                radix() >= 1,
        ;
    }
}

/// A multiple of a positive power of the radix is a multiple of the radix.
pub proof fn lemma_radix_pow_multiple(m: int, k: nat)
    requires
        k >= 1,
    ensures
        (m * radix_pow(k)) % radix() == 0,
        (m * radix_pow(k)) / radix() == m * radix_pow((k - 1) as nat),
{
    lemma_radix_pow_step((k - 1) as nat);
    let p = radix_pow((k - 1) as nat);
    assert(m * radix_pow(k) == (m * p) * radix()) by (nonlinear_arith)
        requires
            radix_pow(k) == p * radix(),
    ;
    vstd::arithmetic::div_mod::lemma_fundamental_div_mod_converse(
        m * radix_pow(k),
        radix(),
        m * p,
        0,
    );
}

/// A limb pushed on top counts the power of the radix at its place.
pub proof fn lemma_limbs_value_push(s: Seq<u64>, x: u64)
    ensures
        limbs_value(s.push(x)) == limbs_value(s) + x * radix_pow(s.len()),
{
    let t = s.push(x);
    assert(t.drop_last() =~= s);
    assert(t.last() == x);
    lemma_radix_pow_step(s.len());
    assert(x * radix_pow(s.len()) >= 0) by (nonlinear_arith)
        requires
            x >= 0,
            radix_pow(s.len()) >= 1,
    ;
}

/// The value of a concatenation: the second part counts from the power of
/// the radix at which it starts.
pub proof fn lemma_limbs_value_concat(a: Seq<u64>, b: Seq<u64>)
    ensures
        limbs_value(a + b) == limbs_value(a) + radix_pow(a.len()) * limbs_value(b),
    decreases b.len(),
{
    if b.len() == 0 {
        assert(a + b =~= a);
        assert(radix_pow(a.len()) * 0 == 0);
    } else {
        let b0 = b.drop_last();
        let x = b.last();
        assert(b =~= b0.push(x));
        assert(a + b =~= (a + b0).push(x));
        lemma_limbs_value_concat(a, b0);
        lemma_limbs_value_push(a + b0, x);
        lemma_limbs_value_push(b0, x);
        lemma_radix_pow_adds(a.len(), b0.len());
        let pa = radix_pow(a.len());
        let pb = radix_pow(b0.len());
        let vb0 = limbs_value(b0) as int;
        assert(pa * (vb0 + x * pb) == pa * vb0 + x * (pa * pb)) by (nonlinear_arith);
    }
}

/// A limb sequence of length `n` spells a number below the `n`-th power of
/// the radix.
pub proof fn lemma_limbs_value_bound(s: Seq<u64>)
    ensures
        limbs_value(s) < radix_pow(s.len()),
    decreases s.len(),
{
    if s.len() == 0 {
        lemma_radix_pow_step(0);
    } else {
        lemma_limbs_value_bound(s.drop_last());
        let n = (s.len() - 1) as nat;
        lemma_radix_pow_step(n);
        let p = radix_pow(n);
        let x = s.last() as int;
        assert(x * p + p <= radix() * p) by (nonlinear_arith)
            requires
                x + 1 <= radix(),
                p >= 1,
        ;
    }
}

/// A sequence of zero limbs spells zero.
pub proof fn lemma_limbs_value_zeros(s: Seq<u64>)
    requires
        forall|i: int| 0 <= i < s.len() ==> s[i] == 0,
    ensures
        limbs_value(s) == 0,
    decreases s.len(),
{
    if s.len() > 0 {
        lemma_limbs_value_zeros(s.drop_last());
        assert(s.last() == 0);
        assert(0 * radix_pow((s.len() - 1) as nat) == 0);
    }
}

/// A sequence that spells zero holds zero limbs only.
pub proof fn lemma_limbs_value_zero_limbs(s: Seq<u64>)
    requires
        limbs_value(s) == 0,
    ensures
        forall|i: int| 0 <= i < s.len() ==> s[i] == 0,
    decreases s.len(),
{
    if s.len() > 0 {
        let n = (s.len() - 1) as nat;
        lemma_radix_pow_step(n);
        let p = radix_pow(n);
        let x = s.last() as int;
        assert(x * p >= 0 && (x > 0 ==> x * p > 0)) by (nonlinear_arith)
            requires
                x >= 0,
                p >= 1,
        ;
        lemma_limbs_value_zero_limbs(s.drop_last());
        assert forall|i: int| 0 <= i < s.len() implies s[i] == 0 by {
            if i < s.len() - 1 {
                assert(s.drop_last()[i] == s[i]);
            }
        }
    }
}

/// Splitting off the least significant limb.
pub proof fn lemma_limbs_value_first(s: Seq<u64>)
    requires
        s.len() > 0,
    ensures
        limbs_value(s) == s[0] + radix() * limbs_value(s.drop_first()),
{
    let a = seq![s[0]];
    assert(s =~= a + s.drop_first());
    lemma_limbs_value_concat(a, s.drop_first());
    assert(a =~= Seq::<u64>::empty().push(s[0]));
    lemma_limbs_value_push(Seq::<u64>::empty(), s[0]);
    lemma_radix_pow_step(0);
    assert(limbs_value(Seq::<u64>::empty()) == 0);
    assert(s[0] * radix_pow(0) == s[0]);
    assert(limbs_value(a) == s[0]);
    assert(a.len() == 1);
}

/// With a nonzero top limb, the value reaches the power of the radix one
/// below the length.
pub proof fn lemma_limbs_value_lower_bound(s: Seq<u64>)
    requires
        s.len() > 0,
        s.last() != 0,
    ensures
        limbs_value(s) >= radix_pow((s.len() - 1) as nat),
{
    let n = (s.len() - 1) as nat;
    lemma_radix_pow_step(n);
    let p = radix_pow(n);
    let x = s.last() as int;
    assert(x * p >= p) by (nonlinear_arith)
        requires
            x >= 1,
            p >= 1,
    ;
}

/// The limb count of a number is the least `n` whose power of the radix
/// exceeds it.
pub proof fn lemma_limb_count_bounds(v: nat)
    ensures
        v < radix_pow(limb_count(v)),
        v > 0 ==> radix_pow((limb_count(v) - 1) as nat) <= v,
    decreases v,
{
    if v == 0 {
        lemma_radix_pow_step(0);
    } else {
        let q = v / 0x1_0000_0000_0000_0000;
        lemma_limb_count_bounds(q);
        let n = limb_count(q);
        lemma_radix_pow_step(n);
        let p = radix_pow(n);
        assert(v < radix() * p) by (nonlinear_arith)
            requires
                q < p,
                v < radix() * (q + 1),
                radix() > 0,
        ;
        if q > 0 {
            lemma_radix_pow_step((n - 1) as nat);
            let below = radix_pow((n - 1) as nat);
            assert(radix() * below <= v) by (nonlinear_arith)
                requires
                    below <= q,
                    radix() * q <= v,
                    radix() > 0,
            ;
        } else {
            lemma_radix_pow_step(0);
        }
    }
}

/// A number between two neighbouring powers of the radix has the limb count
/// of the upper one.
pub proof fn lemma_limb_count_unique(v: nat, n: nat)
    requires
        v < radix_pow(n),
        n > 0 ==> radix_pow((n - 1) as nat) <= v,
    ensures
        limb_count(v) == n,
{
    lemma_limb_count_bounds(v);
    let c = limb_count(v);
    if c < n {
        lemma_radix_pow_monotone(c, (n - 1) as nat);
    } else if c > n {
        lemma_radix_pow_step(0);
        lemma_radix_pow_monotone(n, (c - 1) as nat);
    }
}

/// A limb sequence with a nonzero top limb has as many limbs as its value
/// needs.
pub proof fn lemma_limb_count_of_limbs(s: Seq<u64>)
    requires
        s.len() > 0 ==> s.last() != 0,
    ensures
        limb_count(limbs_value(s)) == s.len(),
{
    lemma_limbs_value_bound(s);
    if s.len() > 0 {
        lemma_limbs_value_lower_bound(s);
    }
    lemma_limb_count_unique(limbs_value(s), s.len());
}

/// The value of a sequence, split at the limb `i`.
pub proof fn lemma_limbs_value_split(s: Seq<u64>, i: int)
    requires
        0 <= i < s.len(),
    ensures
        limbs_value(s) == limbs_value(s.take(i)) + s[i] * radix_pow(i as nat) + radix_pow(
            (i + 1) as nat,
        ) * limbs_value(s.skip(i + 1)),
{
    let lo = s.take(i);
    let hi = s.skip(i + 1);
    let mid = s.take(i + 1);
    assert(mid =~= lo.push(s[i]));
    assert(s =~= mid + hi);
    lemma_limbs_value_concat(mid, hi);
    lemma_limbs_value_push(lo, s[i]);
}

/// Replacing the limb `i` changes the value by the difference of the two
/// limbs at the power `i` of the radix.
pub proof fn lemma_limbs_value_update(s: Seq<u64>, i: int, x: u64)
    requires
        0 <= i < s.len(),
    ensures
        limbs_value(s.update(i, x)) == limbs_value(s) - s[i] * radix_pow(i as nat) + x * radix_pow(
            i as nat,
        ),
{
    let t = s.update(i, x);
    lemma_limbs_value_split(s, i);
    lemma_limbs_value_split(t, i);
    assert(t.take(i) =~= s.take(i));
    assert(t.skip(i + 1) =~= s.skip(i + 1));
}

/// Two sequences of one length that agree above the limb `k` are ordered as
/// their limbs `k` are.
pub proof fn lemma_limbs_value_order(a: Seq<u64>, b: Seq<u64>, k: int)
    requires
        a.len() == b.len(),
        0 <= k < a.len(),
        a.skip(k + 1) =~= b.skip(k + 1),
        a[k] < b[k],
    ensures
        limbs_value(a) < limbs_value(b),
{
    lemma_limbs_value_split(a, k);
    lemma_limbs_value_split(b, k);
    lemma_limbs_value_bound(a.take(k));
    let p = radix_pow(k as nat);
    let x = a[k] as int;
    let y = b[k] as int;
    assert(x * p + p <= y * p) by (nonlinear_arith)
        requires
            x + 1 <= y,
            p >= 0,
    ;
    lemma_radix_pow_step(k as nat);
}

/// Dividing by a product in two steps, and what the remainders are.
pub proof fn lemma_place_split(r: int, u: int, b: int)
    requires
        r >= 0,
        u > 0,
        b > 0,
    ensures
        u * b > 0,
        (r / u) / b == r / (u * b),
        (r % (u * b)) / u == (r / u) % b,
        (r % (u * b)) % u == r % u,
        0 <= r % (u * b) < u * b,
{
    vstd::arithmetic::div_mod::lemma_div_denominator(r, u, b);
    vstd::arithmetic::div_mod::lemma_breakdown(r, u, b);
    vstd::arithmetic::div_mod::lemma_mod_pos_bound(r, u);
    vstd::arithmetic::div_mod::lemma_mod_pos_bound(r, u * b);
    vstd::arithmetic::div_mod::lemma_div_pos_is_pos(r, u);
    vstd::arithmetic::div_mod::lemma_mod_pos_bound(r / u, b);
    let q = (r / u) % b;
    assert(u * q == q * u) by (nonlinear_arith);
    vstd::arithmetic::div_mod::lemma_fundamental_div_mod_converse(r % (u * b), u, q, r % u);
}

} // verus!
