//! Arithmetic on natural numbers held as limb vectors, least significant
//! limb first.

use vstd::prelude::*;
use crate::radix::{
    radix, radix_pow, limbs_value, lemma_radix_pow_step, lemma_radix_pow_adds,
    lemma_limbs_value_push, lemma_limbs_value_concat, lemma_limbs_value_bound,
    lemma_limbs_value_zeros, lemma_limbs_value_zero_limbs, lemma_limbs_value_update,
    lemma_limbs_value_order,
};

verus! {

/// The sign of a number, or of the difference of two numbers compared.
#[derive(Clone, Copy, Debug, PartialEq, Eq, Structural)]
pub enum Sign {
    Negative,
    Zero,
    Positive,
}

impl Sign {
    /// The sign of an integer.
    pub open spec fn of(n: int) -> Sign {
        if n < 0 {
            Sign::Negative
        } else if n == 0 {
            Sign::Zero
        } else {
            Sign::Positive
        }
    }

    /// The sign of the negated number.
    pub open spec fn opposite(self) -> Sign {
        match self {
            Sign::Negative => Sign::Positive,
            Sign::Zero => Sign::Zero,
            Sign::Positive => Sign::Negative,
        }
    }

    /// The sign of the negated number.
    pub fn flipped(self) -> (r: Sign)
        ensures
            r == self.opposite(),
    {
        match self {
            Sign::Negative => Sign::Positive,
            Sign::Zero => Sign::Zero,
            Sign::Positive => Sign::Negative,
        }
    }
}

/// The full 128-bit product of two limbs, as its low and high halves.
pub fn widening_mul(a: u64, b: u64) -> (r: (u64, u64))
    ensures
        r.0 + r.1 * radix() == a * b,
{
    assert(a * b <= 0xffff_ffff_ffff_ffff * 0xffff_ffff_ffff_ffff) by (nonlinear_arith)
        requires
            a <= 0xffff_ffff_ffff_ffff,
            b <= 0xffff_ffff_ffff_ffff,
    ;
    let prod: u128 = (a as u128) * (b as u128);
    let lower = (prod % 0x1_0000_0000_0000_0000) as u64;
    let upper = (prod / 0x1_0000_0000_0000_0000) as u64;
    (lower, upper)
}

/// A vector of `n` zero limbs.
pub(crate) fn zero_limbs(n: u128) -> (r: Vec<u64>)
    ensures
        r.len() == n,
        forall|i: int| 0 <= i < r.len() ==> r[i] == 0,
        limbs_value(r@) == 0,
{
    let mut r: Vec<u64> = Vec::new();
    let mut i: u128 = 0;
    while i < n
        invariant
            i <= n,
            r.len() == i,
            forall|k: int| 0 <= k < r.len() ==> r[k] == 0,
        decreases n - i,
    {
        r.push(0);
        i += 1;
    }
    proof {
        lemma_limbs_value_zeros(r@);
    }
    r
}

/// Appends the limbs of `src` to `dst`.
pub(crate) fn append_limbs(dst: &mut Vec<u64>, src: &Vec<u64>)
    ensures
        final(dst)@ == old(dst)@ + src@,
{
    let mut i: usize = 0;
    while i < src.len()
        invariant
            i <= src.len(),
            dst@ == old(dst)@ + src@.take(i as int),
        decreases src.len() - i,
    {
        dst.push(src[i]);
        proof {
            assert(src@.take(i + 1) =~= src@.take(i as int).push(src[i as int]));
            assert(dst@ =~= old(dst)@ + src@.take(i + 1));
        }
        i += 1;
    }
    proof {
        assert(src@.take(src.len() as int) =~= src@);
    }
}

/// The limbs of `v` above `k` zero limbs: the value of `v` times the `k`-th
/// power of the radix.
pub(crate) fn shifted_up(v: &Vec<u64>, k: u128) -> (r: Vec<u64>)
    ensures
        r.len() == v.len() + k,
        limbs_value(r@) == limbs_value(v@) * radix_pow(k as nat),
        r@.skip(k as int) == v@,
        forall|i: int| 0 <= i < k ==> r[i] == 0,
{
    let mut r = zero_limbs(k);
    let ghost zeros = r@;
    append_limbs(&mut r, v);
    proof {
        lemma_limbs_value_concat(zeros, v@);
        assert(r@.skip(k as int) =~= v@);
        assert(radix_pow(k as nat) * limbs_value(v@) == limbs_value(v@) * radix_pow(k as nat))
            by (nonlinear_arith);
    }
    r
}

/// Appends zero limbs at the top until `v` has `n` limbs; the value stays.
pub(crate) fn pad_to(v: &mut Vec<u64>, n: usize)
    requires
        old(v).len() <= n,
    ensures
        final(v).len() == n,
        limbs_value(final(v)@) == limbs_value(old(v)@),
        final(v)@.take(old(v).len() as int) == old(v)@,
        forall|i: int| old(v).len() <= i < n ==> final(v)[i] == 0,
{
    while v.len() < n
        invariant
            old(v).len() <= v.len() <= n,
            limbs_value(v@) == limbs_value(old(v)@),
            v@.take(old(v).len() as int) == old(v)@,
            forall|i: int| old(v).len() <= i < v.len() ==> v[i] == 0,
        decreases n - v.len(),
    {
        proof {
            lemma_limbs_value_push(v@, 0);
            assert(0 * radix_pow(v.len() as nat) == 0);
        }
        let ghost before = v@;
        v.push(0);
        proof {
            assert(v@.take(old(v).len() as int) =~= before.take(old(v).len() as int));
        }
    }
}

/// Drops the zero limbs at the top; the value stays.
pub(crate) fn trim(v: &mut Vec<u64>)
    ensures
        limbs_value(final(v)@) == limbs_value(old(v)@),
        final(v).len() <= old(v).len(),
        final(v)@ == old(v)@.take(final(v).len() as int),
        final(v).len() > 0 ==> final(v)@.last() != 0,
        forall|i: int| final(v).len() <= i < old(v).len() ==> old(v)[i] == 0,
{
    while v.len() > 0 && v[v.len() - 1] == 0
        invariant
            limbs_value(v@) == limbs_value(old(v)@),
            v.len() <= old(v).len(),
            v@ == old(v)@.take(v.len() as int),
            forall|i: int| v.len() <= i < old(v).len() ==> old(v)[i] == 0,
        decreases v.len(),
    {
        let ghost before = v@;
        v.pop();
        proof {
            assert(v@ =~= before.drop_last());
            assert(0 * radix_pow((before.len() - 1) as nat) == 0);
            assert(v@ =~= old(v)@.take(v.len() as int));
        }
    }
}

/// The number of zero limbs at the bottom of `v`, counted up to `limit`.
pub(crate) fn low_zero_count(v: &Vec<u64>, limit: u64) -> (k: usize)
    ensures
        k <= v.len(),
        k <= limit,
        forall|i: int| 0 <= i < k ==> v[i] == 0,
        k == limit || k == v.len() || v[k as int] != 0,
{
    let mut k: usize = 0;
    while k < v.len() && (k as u64) < limit && v[k] == 0
        invariant
            k <= v.len(),
            k <= limit,
            forall|i: int| 0 <= i < k ==> v[i] == 0,
        decreases v.len() - k,
    {
        k += 1;
    }
    k
}

/// The limbs of `v` from the limb `k` on, where the limbs below are zero.
pub(crate) fn dropped_low(v: &Vec<u64>, k: usize) -> (r: Vec<u64>)
    requires
        k <= v.len(),
        forall|i: int| 0 <= i < k ==> v[i] == 0,
    ensures
        r@ == v@.skip(k as int),
        limbs_value(v@) == limbs_value(r@) * radix_pow(k as nat),
{
    let r = upper_limbs(v, k);
    proof {
        let zeros = v@.take(k as int);
        assert(v@ =~= zeros + r@);
        lemma_limbs_value_concat(zeros, r@);
        lemma_limbs_value_zeros(zeros);
        assert(radix_pow(k as nat) * limbs_value(r@) == limbs_value(r@) * radix_pow(k as nat))
            by (nonlinear_arith);
    }
    r
}

/// A copy of the limbs of `v` from the limb `k` on.
pub(crate) fn upper_limbs(v: &Vec<u64>, k: usize) -> (r: Vec<u64>)
    requires
        k <= v.len(),
    ensures
        r@ == v@.skip(k as int),
{
    let mut r: Vec<u64> = Vec::new();
    let mut i: usize = k;
    while i < v.len()
        invariant
            k <= i <= v.len(),
            r@ == v@.subrange(k as int, i as int),
        decreases v.len() - i,
    {
        r.push(v[i]);
        proof {
            assert(r@ =~= v@.subrange(k as int, i + 1));
        }
        i += 1;
    }
    proof {
        assert(r@ =~= v@.skip(k as int));
    }
    r
}

/// A copy of the limbs of `v`.
pub(crate) fn copied(v: &Vec<u64>) -> (r: Vec<u64>)
    ensures
        r@ == v@,
{
    let r = upper_limbs(v, 0);
    proof {
        assert(v@.skip(0) =~= v@);
    }
    r
}

/// Whether `v` spells zero.
pub(crate) fn limbs_is_zero(v: &Vec<u64>) -> (r: bool)
    ensures
        r == (limbs_value(v@) == 0),
{
    let mut i: usize = 0;
    while i < v.len()
        invariant
            i <= v.len(),
            forall|k: int| 0 <= k < i ==> v[k] == 0,
        decreases v.len() - i,
    {
        if v[i] != 0 {
            proof {
                if limbs_value(v@) == 0 {
                    lemma_limbs_value_zero_limbs(v@);
                }
            }
            return false;
        }
        i += 1;
    }
    proof {
        lemma_limbs_value_zeros(v@);
    }
    true
}

/// The sign of the difference of two numbers of one limb count, found from
/// the most significant limb down.
pub(crate) fn limbs_compare(a: &Vec<u64>, b: &Vec<u64>) -> (r: Sign)
    requires
        a.len() == b.len(),
    ensures
        r == Sign::of(limbs_value(a@) - limbs_value(b@)),
{
    let mut i: usize = a.len();
    while i > 0
        invariant
            i <= a.len(),
            a.len() == b.len(),
            a@.skip(i as int) =~= b@.skip(i as int),
        decreases i,
    {
        let k = i - 1;
        if a[k] < b[k] {
            proof {
                lemma_limbs_value_order(a@, b@, k as int);
            }
            return Sign::Negative;
        }
        if a[k] > b[k] {
            proof {
                lemma_limbs_value_order(b@, a@, k as int);
            }
            return Sign::Positive;
        }
        proof {
            assert(a@.skip(k as int) =~= seq![a[k as int]] + a@.skip(i as int));
            assert(b@.skip(k as int) =~= seq![b[k as int]] + b@.skip(i as int));
        }
        i = k;
    }
    proof {
        assert(a@.skip(0) =~= a@);
        assert(b@.skip(0) =~= b@);
    }
    Sign::Zero
}

/// The sum of two numbers of one limb count, by limb-wise addition with
/// carry; a last carry makes one more limb.
pub(crate) fn limbs_add(a: &Vec<u64>, b: &Vec<u64>) -> (r: Vec<u64>)
    requires
        a.len() == b.len(),
    ensures
        limbs_value(r@) == limbs_value(a@) + limbs_value(b@),
        a.len() <= r.len() <= a.len() + 1,
        r.len() == a.len() + 1 ==> r@.last() == 1,
{
    let n = a.len();
    let mut r: Vec<u64> = Vec::new();
    let mut carry: u64 = 0;
    let mut i: usize = 0;
    while i < n
        invariant
            n == a.len(),
            n == b.len(),
            i <= n,
            r.len() == i,
            carry <= 1,
            limbs_value(r@) + carry * radix_pow(i as nat) == limbs_value(a@.take(i as int))
                + limbs_value(b@.take(i as int)),
        decreases n - i,
    {
        let s: u128 = a[i] as u128 + b[i] as u128 + carry as u128;
        let limb = (s % 0x1_0000_0000_0000_0000) as u64;
        let c = (s / 0x1_0000_0000_0000_0000) as u64;
        proof {
            let p = radix_pow(i as nat);
            lemma_radix_pow_step(i as nat);
            lemma_limbs_value_push(r@, limb);
            assert(a@.take(i + 1) =~= a@.take(i as int).push(a[i as int]));
            assert(b@.take(i + 1) =~= b@.take(i as int).push(b[i as int]));
            lemma_limbs_value_push(a@.take(i as int), a[i as int]);
            lemma_limbs_value_push(b@.take(i as int), b[i as int]);
            let x = a[i as int] as int;
            let y = b[i as int] as int;
            let cin = carry as int;
            assert(limb + c * radix() == x + y + cin);
            assert(limb * p + c * (radix() * p) == x * p + y * p + cin * p) by (nonlinear_arith)
                requires
                    limb + c * radix() == x + y + cin,
            ;
        }
        r.push(limb);
        carry = c;
        i += 1;
    }
    proof {
        assert(a@.take(n as int) =~= a@);
        assert(b@.take(n as int) =~= b@);
    }
    if carry != 0 {
        proof {
            lemma_limbs_value_push(r@, carry);
        }
        r.push(carry);
    } else {
        proof {
            assert(0 * radix_pow(n as nat) == 0);
        }
    }
    r
}

/// The difference of two numbers of one limb count, the first no smaller
/// than the second, by limb-wise subtraction with borrow.
pub(crate) fn limbs_sub(a: &Vec<u64>, b: &Vec<u64>) -> (r: Vec<u64>)
    requires
        a.len() == b.len(),
        limbs_value(a@) >= limbs_value(b@),
    ensures
        limbs_value(r@) == limbs_value(a@) - limbs_value(b@),
        r.len() == a.len(),
{
    let n = a.len();
    let mut r: Vec<u64> = Vec::new();
    let mut borrow: u64 = 0;
    let mut i: usize = 0;
    while i < n
        invariant
            n == a.len(),
            n == b.len(),
            i <= n,
            r.len() == i,
            borrow <= 1,
            limbs_value(r@) - borrow * radix_pow(i as nat) == limbs_value(a@.take(i as int))
                - limbs_value(b@.take(i as int)),
        decreases n - i,
    {
        let take: u128 = b[i] as u128 + borrow as u128;
        let have: u128 = a[i] as u128;
        let limb: u64;
        let c: u64;
        if have >= take {
            limb = (have - take) as u64;
            c = 0;
        } else {
            limb = (have + 0x1_0000_0000_0000_0000 - take) as u64;
            c = 1;
        }
        proof {
            let p = radix_pow(i as nat);
            lemma_radix_pow_step(i as nat);
            lemma_limbs_value_push(r@, limb);
            assert(a@.take(i + 1) =~= a@.take(i as int).push(a[i as int]));
            assert(b@.take(i + 1) =~= b@.take(i as int).push(b[i as int]));
            lemma_limbs_value_push(a@.take(i as int), a[i as int]);
            lemma_limbs_value_push(b@.take(i as int), b[i as int]);
            let x = a[i as int] as int;
            let y = b[i as int] as int;
            let cin = borrow as int;
            assert(limb - c * radix() == x - y - cin);
            assert(limb * p - c * (radix() * p) == x * p - y * p - cin * p) by (nonlinear_arith)
                requires
                    limb - c * radix() == x - y - cin,
            ;
        }
        r.push(limb);
        borrow = c;
        i += 1;
    }
    proof {
        assert(a@.take(n as int) =~= a@);
        assert(b@.take(n as int) =~= b@);
        lemma_limbs_value_bound(r@);
        // a borrow left over would make the difference negative
        if borrow == 1 {
            assert(1 * radix_pow(n as nat) == radix_pow(n as nat));
            assert(false);
        }
        assert(0 * radix_pow(n as nat) == 0);
    }
    r
}

/// The product of two numbers by the schoolbook method: every pair of limbs
/// is multiplied to a double-width product, whose low half is added at the
/// sum of the two positions and whose high half is carried upward.
#[verifier::rlimit(40)]
pub(crate) fn limbs_mul(a: &Vec<u64>, b: &Vec<u64>) -> (r: Vec<u64>)
    ensures
        limbs_value(r@) == limbs_value(a@) * limbs_value(b@),
        r.len() == a.len() + b.len(),
{
    let la = a.len();
    let lb = b.len();
    let mut r: Vec<u64> = Vec::new();
    let mut n: usize = 0;
    while n < la
        invariant
            n <= la,
            r.len() == n,
            forall|k: int| 0 <= k < r.len() ==> r[k] == 0,
        decreases la - n,
    {
        r.push(0);
        n += 1;
    }
    n = 0;
    while n < lb
        invariant
            n <= lb,
            r.len() == la + n,
            forall|k: int| 0 <= k < r.len() ==> r[k] == 0,
        decreases lb - n,
    {
        r.push(0);
        n += 1;
    }
    proof {
        lemma_limbs_value_zeros(r@);
        assert(a@.take(0) =~= Seq::<u64>::empty());
        assert(0 * limbs_value(b@) == 0);
    }
    let mut i: usize = 0;
    while i < la
        invariant
            la == a.len(),
            lb == b.len(),
            i <= la,
            r.len() == la + lb,
            limbs_value(r@) == limbs_value(a@.take(i as int)) * limbs_value(b@),
            forall|k: int| i + lb <= k < r.len() ==> r[k] == 0,
        decreases la - i,
    {
        let ax = a[i];
        let mut carry: u64 = 0;
        let mut j: usize = 0;
        proof {
            assert(b@.take(0) =~= Seq::<u64>::empty());
            assert(0 * radix_pow(i as nat) == 0);
            assert(ax * 0 * radix_pow(i as nat) == 0);
        }
        while j < lb
            invariant
                la == a.len(),
                lb == b.len(),
                i < la,
                j <= lb,
                ax == a[i as int],
                r.len() == la + lb,
                limbs_value(r@) + carry * radix_pow((i + j) as nat) == limbs_value(
                    a@.take(i as int),
                ) * limbs_value(b@) + ax * limbs_value(b@.take(j as int)) * radix_pow(i as nat),
                forall|k: int| i + lb <= k < r.len() ==> r[k] == 0,
            decreases lb - j,
        {
            let (lo, hi) = widening_mul(ax, b[j]);
            let cur = r[i + j];
            let s: u128 = lo as u128 + cur as u128 + carry as u128;
            let limb = (s % 0x1_0000_0000_0000_0000) as u64;
            let over = (s / 0x1_0000_0000_0000_0000) as u64;
            proof {
                let bj = b[j as int] as int;
                assert(ax * bj <= 0xffff_ffff_ffff_ffff * 0xffff_ffff_ffff_ffff)
                    by (nonlinear_arith)
                    requires
                        0 <= ax <= 0xffff_ffff_ffff_ffff,
                        0 <= bj <= 0xffff_ffff_ffff_ffff,
                ;
                assert(hi + over <= 0xffff_ffff_ffff_ffff);
            }
            let next: u64 = hi + over;
            proof {
                let bj = b[j as int] as int;
                let pi = radix_pow(i as nat);
                let pj = radix_pow(j as nat);
                let pij = radix_pow((i + j) as nat);
                lemma_radix_pow_adds(i as nat, j as nat);
                lemma_radix_pow_step((i + j) as nat);
                lemma_limbs_value_update(r@, i + j, limb);
                assert(b@.take(j + 1) =~= b@.take(j as int).push(b[j as int]));
                lemma_limbs_value_push(b@.take(j as int), b[j as int]);
                let vb = limbs_value(b@.take(j as int)) as int;
                let cin = carry as int;
                assert(limb + next * radix() == ax * bj + cur + cin);
                let ab = ax * bj;
                let nr = next * radix();
                assert((limb + nr) * pij == limb * pij + next * (radix() * pij))
                    by (nonlinear_arith)
                    requires
                        nr == next * radix(),
                ;
                assert((ab + cur + cin) * pij == ab * pij + cur * pij + cin * pij)
                    by (nonlinear_arith);
                assert(ab * pij == ax * (bj * pj) * pi) by (nonlinear_arith)
                    requires
                        ab == ax * bj,
                        pij == pi * pj,
                ;
                assert(ax * (vb + bj * pj) * pi == ax * vb * pi + ax * (bj * pj) * pi)
                    by (nonlinear_arith);
            }
            r[i + j] = limb;
            carry = next;
            j += 1;
        }
        proof {
            assert(b@.take(lb as int) =~= b@);
            lemma_limbs_value_update(r@, i + lb, carry);
            assert(r[i + lb] == 0);
            assert(0 * radix_pow((i + lb) as nat) == 0);
            assert(a@.take(i + 1) =~= a@.take(i as int).push(a[i as int]));
            lemma_limbs_value_push(a@.take(i as int), a[i as int]);
            let va = limbs_value(a@.take(i as int)) as int;
            let vb = limbs_value(b@) as int;
            let pi = radix_pow(i as nat);
            assert(va * vb + ax * vb * pi == (va + ax * pi) * vb) by (nonlinear_arith);
        }
        r[i + lb] = carry;
        i += 1;
    }
    proof {
        assert(a@.take(la as int) =~= a@);
    }
    r
}

} // verus!
