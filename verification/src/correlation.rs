//! Rank correlation between samples, in exact integer arithmetic.
//!
//! The correlation coefficient of two samples `a` and `b` of `n` values is
//! `cov / sqrt(var_a * var_b)` with `cov = n * sum(a * b) - sum(a) * sum(b)`
//! and `var_a`, `var_b` the same expression of `a` with `a` and of `b` with
//! `b`. Over ranks all three are integers. They are computed here; the
//! quotient is left to the caller.

use vstd::prelude::*;
use vstd::arithmetic::mul::{
    lemma_mul_is_associative, lemma_mul_is_commutative, lemma_mul_is_distributive_add,
    lemma_mul_is_distributive_add_other_way, lemma_mul_nonnegative, lemma_mul_upper_bound,
};
use crate::rank::{doubled_rank, doubled_ranks};
use crate::similarity::SimilarityError;

verus! {

/// The sum of the values of `a`.
pub open spec fn sum(a: Seq<int>) -> int
    decreases a.len(),
{
    if a.len() == 0 {
        0
    } else {
        sum(a.drop_last()) + a.last()
    }
}

/// The sum of the products of the values of `a` with the values of `b` at
/// the same positions.
pub open spec fn dot(a: Seq<int>, b: Seq<int>) -> int
    decreases a.len(),
{
    if a.len() == 0 {
        0
    } else {
        dot(a.drop_last(), b.take(a.len() - 1)) + a.last() * b[a.len() - 1]
    }
}

/// The covariance of two samples of `n` values, scaled by the square of
/// `n`.
pub open spec fn covariance(a: Seq<int>, b: Seq<int>) -> int {
    a.len() * dot(a, b) - sum(a) * sum(b)
}

/// The variance of a sample of `n` values, scaled by the square of `n`.
pub open spec fn variance(a: Seq<int>) -> int {
    covariance(a, a)
}

/// The sample `s * a + t * b`.
pub open spec fn combined(s: int, a: Seq<int>, t: int, b: Seq<int>) -> Seq<int> {
    Seq::new(a.len(), |i: int| s * a[i] + t * b[i])
}

/// The variance of a sample is not negative.
pub proof fn lemma_variance_not_negative(a: Seq<int>)
    ensures
        variance(a) >= 0,
    decreases a.len(),
{
    if a.len() > 0 {
        let t = a.drop_last();
        let x = a.last();
        let n = t.len() as int;
        let q = dot(t, t);
        let s = sum(t);
        lemma_variance_not_negative(t);
        assert(t.take(n) =~= t);
        assert(a.take(n) =~= t);
        assert(dot(a, a) == q + x * x);
        assert(sum(a) == s + x);
        assert(n * q - s * s >= 0);
        // n * (q + n * x * x - 2 * s * x) >= (s - n * x) * (s - n * x) >= 0
        assert(q + n * x * x - 2 * s * x >= 0) by (nonlinear_arith)
            requires
                n >= 0,
                n * q - s * s >= 0,
                n == 0 ==> q == 0 && s == 0,
        {
            if n > 0 {
                assert(n * (q + n * x * x - 2 * s * x) == (n * q - s * s) + (s - n * x) * (s - n * x));
                assert((s - n * x) * (s - n * x) >= 0);
                assert(n * (q + n * x * x - 2 * s * x) >= 0);
            }
        }
        assert((n + 1) * (q + x * x) - (s + x) * (s + x) == (n * q - s * s) + (q + n * x * x - 2
            * s * x)) by (nonlinear_arith);
    }
}

/// The sum and the products with a third sample are linear in a sample.
proof fn lemma_combined(s: int, a: Seq<int>, t: int, b: Seq<int>, c: Seq<int>)
    requires
        a.len() == b.len(),
        a.len() == c.len(),
    ensures
        sum(combined(s, a, t, b)) == s * sum(a) + t * sum(b),
        dot(combined(s, a, t, b), c) == s * dot(a, c) + t * dot(b, c),
    decreases a.len(),
{
    let m = combined(s, a, t, b);
    if a.len() > 0 {
        let n = a.len() - 1;
        let a0 = a.drop_last();
        let b0 = b.drop_last();
        let c0 = c.drop_last();
        lemma_combined(s, a0, t, b0, c0);
        assert(m.drop_last() =~= combined(s, a0, t, b0));
        assert(c.take(n) =~= c0);
        assert(m.last() == s * a.last() + t * b.last());
        assert(sum(m) == s * sum(a0) + t * sum(b0) + (s * a.last() + t * b.last()));
        assert(s * (sum(a0) + a.last()) + t * (sum(b0) + b.last()) == s * sum(a0) + t * sum(b0) + (
        s * a.last() + t * b.last())) by {
            lemma_mul_is_distributive_add(s, sum(a0), a.last());
            lemma_mul_is_distributive_add(t, sum(b0), b.last());
        }
        let da = dot(a0, c0);
        let db = dot(b0, c0);
        let x = a.last();
        let y = b.last();
        let z = c[n];
        assert(dot(m, c) == s * da + t * db + (s * x + t * y) * z);
        assert(dot(a, c) == da + x * z);
        assert(dot(b, c) == db + y * z);
        assert(s * (da + x * z) + t * (db + y * z) == s * da + t * db + (s * x + t * y) * z) by {
            lemma_mul_is_distributive_add(s, da, x * z);
            lemma_mul_is_distributive_add(t, db, y * z);
            lemma_mul_is_associative(s, x, z);
            lemma_mul_is_associative(t, y, z);
            lemma_mul_is_distributive_add_other_way(z, s * x, t * y);
        }
    }
}

/// The sum of products does not depend on the order of the two samples.
proof fn lemma_dot_symmetric(a: Seq<int>, b: Seq<int>)
    requires
        a.len() == b.len(),
    ensures
        dot(a, b) == dot(b, a),
    decreases a.len(),
{
    if a.len() > 0 {
        let n = a.len() - 1;
        lemma_dot_symmetric(a.drop_last(), b.drop_last());
        assert(b.take(n) =~= b.drop_last());
        assert(a.take(n) =~= a.drop_last());
        assert(a.last() * b[n] == b.last() * a[n]) by (nonlinear_arith)
            requires
                a.last() == a[n],
                b.last() == b[n],
        ;
    }
}

/// A product of two products may be regrouped.
proof fn lemma_regroup(a: int, b: int, c: int, d: int)
    ensures
        (a * b) * (c * d) == (a * c) * (b * d),
{
    assert((a * b) * (c * d) == (a * c) * (b * d)) by (nonlinear_arith);
}

/// A factor may be pulled into a product.
proof fn lemma_pull(n: int, a: int, b: int)
    ensures
        n * (a * b) == a * (n * b),
{
    assert(n * (a * b) == a * (n * b)) by (nonlinear_arith);
}

/// The variance of a combination of two samples is a quadratic form of the
/// two factors.
proof fn lemma_variance_combined(s: int, a: Seq<int>, t: int, b: Seq<int>)
    requires
        a.len() == b.len(),
    ensures
        variance(combined(s, a, t, b)) == s * s * variance(a) + 2 * (s * t * covariance(a, b)) + t
            * t * variance(b),
{
    let m = combined(s, a, t, b);
    let n = a.len() as int;
    lemma_combined(s, a, t, b, m);
    lemma_dot_symmetric(a, m);
    lemma_dot_symmetric(b, m);
    lemma_combined(s, a, t, b, a);
    lemma_combined(s, a, t, b, b);
    lemma_dot_symmetric(a, b);
    let daa = dot(a, a);
    let dab = dot(a, b);
    let dbb = dot(b, b);
    let sa = sum(a);
    let sb = sum(b);
    assert(dot(m, a) == s * daa + t * dab);
    assert(dot(m, b) == s * dab + t * dbb);
    assert(dot(m, m) == s * (s * daa + t * dab) + t * (s * dab + t * dbb));
    assert(sum(m) == s * sa + t * sb);
    let ss = s * s;
    let st = s * t;
    let tt = t * t;
    assert(s * (s * daa + t * dab) + t * (s * dab + t * dbb) == ss * daa + 2 * (st * dab) + tt
        * dbb) by {
        lemma_mul_is_distributive_add(s, s * daa, t * dab);
        lemma_mul_is_distributive_add(t, s * dab, t * dbb);
        lemma_mul_is_associative(s, s, daa);
        lemma_mul_is_associative(s, t, dab);
        lemma_mul_is_associative(t, s, dab);
        lemma_mul_is_associative(t, t, dbb);
        lemma_mul_is_commutative(t, s);
    }
    let u = s * sa;
    let v = t * sb;
    assert((u + v) * (u + v) == u * u + 2 * (u * v) + v * v) by (nonlinear_arith);
    lemma_regroup(s, sa, s, sa);
    lemma_regroup(s, sa, t, sb);
    lemma_regroup(t, sb, t, sb);
    let x = ss * daa;
    let y = st * dab;
    let z = tt * dbb;
    assert(n * (x + 2 * y + z) == n * x + 2 * (n * y) + n * z) by (nonlinear_arith);
    lemma_pull(n, ss, daa);
    lemma_pull(n, st, dab);
    lemma_pull(n, tt, dbb);
    assert(ss * (n * daa) - ss * (sa * sa) == ss * (n * daa - sa * sa)) by (nonlinear_arith);
    assert(st * (n * dab) - st * (sa * sb) == st * (n * dab - sa * sb)) by (nonlinear_arith);
    assert(tt * (n * dbb) - tt * (sb * sb) == tt * (n * dbb - sb * sb)) by (nonlinear_arith);
    assert(s * s * variance(a) == ss * (n * daa - sa * sa));
    assert(s * t * covariance(a, b) == st * (n * dab - sa * sb));
    assert(t * t * variance(b) == tt * (n * dbb - sb * sb));
}

/// The covariance of two samples is bounded by their variances: its square
/// is at most their product, so that the correlation coefficient lies
/// between -1 and 1.
pub proof fn lemma_covariance_bounded(a: Seq<int>, b: Seq<int>)
    requires
        a.len() == b.len(),
    ensures
        variance(a) >= 0,
        variance(b) >= 0,
        covariance(a, b) * covariance(a, b) <= variance(a) * variance(b),
{
    let va = variance(a);
    let vb = variance(b);
    let c = covariance(a, b);
    lemma_variance_not_negative(a);
    lemma_variance_not_negative(b);
    if vb > 0 {
        lemma_variance_combined(vb, a, -c, b);
        lemma_variance_not_negative(combined(vb, a, -c, b));
        assert(vb * vb * va + 2 * (vb * (-c) * c) + (-c) * (-c) * vb == vb * (va * vb - c * c))
            by (nonlinear_arith);
        assert(va * vb - c * c >= 0) by (nonlinear_arith)
            requires
                vb > 0,
                vb * (va * vb - c * c) >= 0,
        ;
        assert(c * c <= va * vb);
    } else {
        let t = if c >= 0 {
            -(va + 1)
        } else {
            va + 1
        };
        lemma_variance_combined(1, a, t, b);
        lemma_variance_not_negative(combined(1, a, t, b));
        assert(1 * 1 * va + 2 * (1 * t * c) + t * t * vb == va + 2 * (t * c)) by (nonlinear_arith)
            requires
                vb == 0,
        ;
        assert(c == 0) by (nonlinear_arith)
            requires
                va >= 0,
                va + 2 * (t * c) >= 0,
                t == if c >= 0 {
                    -(va + 1)
                } else {
                    va + 1
                },
        ;
        assert(c * c == 0);
        assert(va * vb == 0) by (nonlinear_arith)
            requires
                vb == 0,
        ;
    }
}

/// The longest sample whose correlation is computed: its statistics fit
/// 128-bit integers.
pub const MAX_SAMPLE: usize = 0x7fff_ffff;

/// The numbers of `v` as integers.
pub open spec fn as_ints(v: Seq<u64>) -> Seq<int> {
    Seq::new(v.len(), |i: int| v[i] as int)
}

/// The rank transform of a sample: for each value twice its average rank.
pub open spec fn ranks_of(sample: Seq<u64>) -> Seq<int> {
    Seq::new(sample.len(), |i: int| doubled_rank(sample, sample[i]))
}

/// The three integers that make up a correlation coefficient, which is
/// `covariance / sqrt(variance_x * variance_y)`.
#[derive(Debug, Clone, Copy, PartialEq, Eq, Structural)]
pub struct Correlation {
    pub covariance: i128,
    pub variance_x: i128,
    pub variance_y: i128,
}

impl Correlation {
    /// The three integers as a triple.
    pub open spec fn view(&self) -> (int, int, int) {
        (self.covariance as int, self.variance_x as int, self.variance_y as int)
    }
}

/// The correlation of two samples of ranks.
pub open spec fn correlation_of(a: Seq<int>, b: Seq<int>) -> (int, int, int) {
    (covariance(a, b), variance(a), variance(b))
}

/// The sum of a sample of numbers that are at most `0xffff_ffff`.
fn total(a: &Vec<u64>) -> (t: i128)
    requires
        a.len() <= MAX_SAMPLE,
        forall|i: int| 0 <= i < a.len() ==> #[trigger] a[i] <= 0xffff_ffff,
    ensures
        t as int == sum(as_ints(a@)),
        0 <= t <= a.len() * 0xffff_ffff,
{
    let ghost s = as_ints(a@);
    let mut t: i128 = 0;
    let mut k: usize = 0;
    assert(s.take(0) =~= Seq::<int>::empty());
    while k < a.len()
        invariant
            k <= a.len(),
            a.len() <= MAX_SAMPLE,
            s == as_ints(a@),
            forall|i: int| 0 <= i < a.len() ==> #[trigger] a[i] <= 0xffff_ffff,
            t as int == sum(s.take(k as int)),
            0 <= t <= k * 0xffff_ffff,
        decreases a.len() - k,
    {
        proof {
            assert(s.take(k + 1).drop_last() =~= s.take(k as int));
            assert(s.take(k + 1).last() == a[k as int]);
        }
        t = t + a[k] as i128;
        k += 1;
    }
    assert(s.take(k as int) =~= s);
    t
}

/// The sum of the products of two samples of numbers that are at most
/// `0xffff_ffff`.
fn products(a: &Vec<u64>, b: &Vec<u64>) -> (t: i128)
    requires
        a.len() == b.len(),
        a.len() <= MAX_SAMPLE,
        forall|i: int| 0 <= i < a.len() ==> #[trigger] a[i] <= 0xffff_ffff,
        forall|i: int| 0 <= i < b.len() ==> #[trigger] b[i] <= 0xffff_ffff,
    ensures
        t as int == dot(as_ints(a@), as_ints(b@)),
        0 <= t <= a.len() * 0x1_0000_0000_0000_0000,
{
    let ghost s = as_ints(a@);
    let ghost u = as_ints(b@);
    let mut t: i128 = 0;
    let mut k: usize = 0;
    assert(s.take(0) =~= Seq::<int>::empty());
    while k < a.len()
        invariant
            k <= a.len(),
            a.len() == b.len(),
            a.len() <= MAX_SAMPLE,
            s == as_ints(a@),
            u == as_ints(b@),
            forall|i: int| 0 <= i < a.len() ==> #[trigger] a[i] <= 0xffff_ffff,
            forall|i: int| 0 <= i < b.len() ==> #[trigger] b[i] <= 0xffff_ffff,
            t as int == dot(s.take(k as int), u.take(k as int)),
            0 <= t <= k * 0x1_0000_0000_0000_0000,
        decreases a.len() - k,
    {
        let x = a[k] as i128;
        let y = b[k] as i128;
        proof {
            assert(s.take(k + 1).drop_last() =~= s.take(k as int));
            assert(u.take(k + 1).take(k as int) =~= u.take(k as int));
            assert(s.take(k + 1).last() == x);
            assert(u.take(k + 1)[k as int] == y);
            assert(0 <= x * y <= 0x1_0000_0000_0000_0000) by (nonlinear_arith)
                requires
                    0 <= x <= 0xffff_ffff,
                    0 <= y <= 0xffff_ffff,
            ;
        }
        t = t + x * y;
        k += 1;
    }
    assert(s.take(k as int) =~= s);
    assert(u.take(k as int) =~= u);
    t
}

/// The covariance `n * products - sum_a * sum_b` of two samples of `n`
/// values.
fn scaled_covariance(n: usize, products: i128, sum_a: i128, sum_b: i128) -> (c: i128)
    requires
        n <= MAX_SAMPLE,
        0 <= products <= n * 0x1_0000_0000_0000_0000,
        0 <= sum_a <= n * 0xffff_ffff,
        0 <= sum_b <= n * 0xffff_ffff,
    ensures
        c as int == n * products - sum_a * sum_b,
{
    let m = n as i128;
    proof {
        lemma_mul_nonnegative(m as int, products as int);
        lemma_mul_upper_bound(
            m as int,
            0x8000_0000,
            products as int,
            0x8000_0000_0000_0000_0000_0000,
        );
        lemma_mul_nonnegative(sum_a as int, sum_b as int);
        lemma_mul_upper_bound(
            sum_a as int,
            0x8000_0000_0000_0000,
            sum_b as int,
            0x8000_0000_0000_0000,
        );
        assert(0x8000_0000 * 0x8000_0000_0000_0000_0000_0000
            == 0x4000_0000_0000_0000_0000_0000_0000_0000) by (nonlinear_arith);
        assert(0x8000_0000_0000_0000 * 0x8000_0000_0000_0000
            == 0x4000_0000_0000_0000_0000_0000_0000_0000) by (nonlinear_arith);
    }
    m * products - sum_a * sum_b
}

/// The correlation of two samples of ranks.
fn correlate(a: &Vec<u64>, b: &Vec<u64>) -> (c: Correlation)
    requires
        a.len() == b.len(),
        a.len() <= MAX_SAMPLE,
        forall|i: int| 0 <= i < a.len() ==> #[trigger] a[i] <= 0xffff_ffff,
        forall|i: int| 0 <= i < b.len() ==> #[trigger] b[i] <= 0xffff_ffff,
    ensures
        c@ == correlation_of(as_ints(a@), as_ints(b@)),
{
    let n = a.len();
    let sum_a = total(a);
    let sum_b = total(b);
    let ab = products(a, b);
    let aa = products(a, a);
    let bb = products(b, b);
    Correlation {
        covariance: scaled_covariance(n, ab, sum_a, sum_b),
        variance_x: scaled_covariance(n, aa, sum_a, sum_a),
        variance_y: scaled_covariance(n, bb, sum_b, sum_b),
    }
}

/// The rank transform of a sample, with its model.
fn rank_transform(sample: &Vec<u64>) -> (ranks: Vec<u64>)
    requires
        sample.len() <= MAX_SAMPLE,
    ensures
        ranks.len() == sample.len(),
        as_ints(ranks@) == ranks_of(sample@),
        forall|i: int| 0 <= i < ranks.len() ==> #[trigger] ranks[i] <= 0xffff_ffff,
{
    let ranks = doubled_ranks(sample);
    assert(as_ints(ranks@) =~= ranks_of(sample@));
    ranks
}

/// Computes the rank correlation of two samples: the correlation of their
/// rank transforms. The samples must have the same length, and be no longer
/// than `MAX_SAMPLE`.
pub fn rank_correlation(x: &Vec<u64>, y: &Vec<u64>) -> (r: Result<Correlation, SimilarityError>)
    requires
        x.len() <= MAX_SAMPLE,
    ensures
        match r {
            Ok(c) => x.len() == y.len() && c@ == correlation_of(ranks_of(x@), ranks_of(y@)),
            Err(e) => x.len() != y.len() && e == SimilarityError::ShapeMismatch,
        },
{
    if x.len() != y.len() {
        return Err(SimilarityError::ShapeMismatch);
    }
    let a = rank_transform(x);
    let b = rank_transform(y);
    Ok(correlate(&a, &b))
}

/// A sample correlates fully with itself: its covariance with itself is its
/// variance, so that the coefficient is 1 where the variance is not 0.
pub proof fn lemma_self_correlation(a: Seq<int>)
    ensures
        correlation_of(a, a) == (variance(a), variance(a), variance(a)),
{
}

/// The rank correlation does not depend on the order of the two samples.
pub proof fn lemma_correlation_symmetric(a: Seq<int>, b: Seq<int>)
    requires
        a.len() == b.len(),
    ensures
        covariance(a, b) == covariance(b, a),
{
    lemma_dot_symmetric(a, b);
    assert(sum(a) * sum(b) == sum(b) * sum(a)) by (nonlinear_arith);
}

/// Every row has `ncols` values.
pub open spec fn has_columns(rows: Seq<Vec<u64>>, ncols: int) -> bool {
    forall|i: int| 0 <= i < rows.len() ==> (#[trigger] rows[i]).len() == ncols
}

/// Whether every row has `ncols` values.
fn check_columns(rows: &Vec<Vec<u64>>, ncols: usize) -> (ok: bool)
    ensures
        ok == has_columns(rows@, ncols as int),
{
    let mut i: usize = 0;
    while i < rows.len()
        invariant
            i <= rows.len(),
            forall|k: int| 0 <= k < i ==> (#[trigger] rows[k]).len() == ncols,
        decreases rows.len() - i,
    {
        if rows[i].len() != ncols {
            return false;
        }
        i += 1;
    }
    true
}

/// The rank transform of every row.
fn rank_rows(rows: &Vec<Vec<u64>>, ncols: usize) -> (ranks: Vec<Vec<u64>>)
    requires
        ncols <= MAX_SAMPLE,
        has_columns(rows@, ncols as int),
    ensures
        ranks.len() == rows.len(),
        has_columns(ranks@, ncols as int),
        forall|i: int|
            0 <= i < rows.len() ==> as_ints((#[trigger] ranks[i])@) == ranks_of(rows[i]@),
        forall|i: int, k: int|
            0 <= i < ranks.len() && 0 <= k < ranks[i].len() ==> (#[trigger] ranks[i][k])
                <= 0xffff_ffff,
{
    let mut ranks: Vec<Vec<u64>> = Vec::new();
    let mut i: usize = 0;
    while i < rows.len()
        invariant
            i <= rows.len(),
            ncols <= MAX_SAMPLE,
            has_columns(rows@, ncols as int),
            ranks.len() == i,
            has_columns(ranks@, ncols as int),
            forall|k: int|
                0 <= k < i ==> as_ints((#[trigger] ranks[k])@) == ranks_of(rows[k]@),
            forall|h: int, k: int|
                0 <= h < ranks.len() && 0 <= k < ranks[h].len() ==> (#[trigger] ranks[h][k])
                    <= 0xffff_ffff,
        decreases rows.len() - i,
    {
        let row = rank_transform(&rows[i]);
        ranks.push(row);
        i += 1;
    }
    ranks
}

/// The rank correlation of every row of `mat` with every row of `other`.
///
/// Entry `[i][j]` of the result is the correlation of the rank transforms of
/// row `i` of `mat` and row `j` of `other`. The call is rejected unless
/// every row of both matrices has `ncols` values. `ncols` must not exceed
/// `MAX_SAMPLE`.
pub fn spearman2(mat: &Vec<Vec<u64>>, other: &Vec<Vec<u64>>, ncols: usize) -> (r: Result<
    Vec<Vec<Correlation>>,
    SimilarityError,
>)
    requires
        ncols <= MAX_SAMPLE,
    ensures
        match r {
            Ok(sim) => {
                &&& has_columns(mat@, ncols as int)
                &&& has_columns(other@, ncols as int)
                &&& sim.len() == mat.len()
                &&& forall|i: int| 0 <= i < sim.len() ==> (#[trigger] sim[i]).len() == other.len()
                &&& forall|i: int, j: int|
                    0 <= i < mat.len() && 0 <= j < other.len() ==> (#[trigger] sim[i][j])@
                        == correlation_of(ranks_of(mat[i]@), ranks_of(other[j]@))
            },
            Err(e) => !(has_columns(mat@, ncols as int) && has_columns(other@, ncols as int)) && e
                == SimilarityError::ShapeMismatch,
        },
{
    if !check_columns(mat, ncols) || !check_columns(other, ncols) {
        return Err(SimilarityError::ShapeMismatch);
    }
    let ranks = rank_rows(mat, ncols);
    let other_ranks = rank_rows(other, ncols);
    let mut sim: Vec<Vec<Correlation>> = Vec::new();
    let mut i: usize = 0;
    while i < mat.len()
        invariant
            i <= mat.len(),
            ncols <= MAX_SAMPLE,
            ranks.len() == mat.len(),
            other_ranks.len() == other.len(),
            has_columns(ranks@, ncols as int),
            has_columns(other_ranks@, ncols as int),
            forall|h: int|
                0 <= h < mat.len() ==> as_ints((#[trigger] ranks[h])@) == ranks_of(mat[h]@),
            forall|h: int|
                0 <= h < other.len() ==> as_ints((#[trigger] other_ranks[h])@) == ranks_of(
                    other[h]@,
                ),
            forall|h: int, k: int|
                0 <= h < ranks.len() && 0 <= k < ranks[h].len() ==> (#[trigger] ranks[h][k])
                    <= 0xffff_ffff,
            forall|h: int, k: int|
                0 <= h < other_ranks.len() && 0 <= k < other_ranks[h].len() ==> (
                #[trigger] other_ranks[h][k]) <= 0xffff_ffff,
            sim.len() == i,
            forall|h: int| 0 <= h < i ==> (#[trigger] sim[h]).len() == other.len(),
            forall|h: int, j: int|
                0 <= h < i && 0 <= j < other.len() ==> (#[trigger] sim[h][j])@ == correlation_of(
                    ranks_of(mat[h]@),
                    ranks_of(other[j]@),
                ),
        decreases mat.len() - i,
    {
        let mut row: Vec<Correlation> = Vec::new();
        let mut j: usize = 0;
        while j < other.len()
            invariant
                j <= other.len(),
                i < mat.len(),
                ncols <= MAX_SAMPLE,
                ranks.len() == mat.len(),
                other_ranks.len() == other.len(),
                has_columns(ranks@, ncols as int),
                has_columns(other_ranks@, ncols as int),
                as_ints(ranks[i as int]@) == ranks_of(mat[i as int]@),
                forall|h: int|
                    0 <= h < other.len() ==> as_ints((#[trigger] other_ranks[h])@) == ranks_of(
                        other[h]@,
                    ),
                forall|h: int, k: int|
                    0 <= h < ranks.len() && 0 <= k < ranks[h].len() ==> (#[trigger] ranks[h][k])
                        <= 0xffff_ffff,
                forall|h: int, k: int|
                    0 <= h < other_ranks.len() && 0 <= k < other_ranks[h].len() ==> (
                    #[trigger] other_ranks[h][k]) <= 0xffff_ffff,
                row.len() == j,
                forall|h: int|
                    0 <= h < j ==> (#[trigger] row[h])@ == correlation_of(
                        ranks_of(mat[i as int]@),
                        ranks_of(other[h]@),
                    ),
            decreases other.len() - j,
        {
            let a = &ranks[i];
            let b = &other_ranks[j];
            assert forall|k: int| 0 <= k < a.len() implies #[trigger] a[k] <= 0xffff_ffff by {
                assert(ranks[i as int][k] <= 0xffff_ffff);
            }
            assert forall|k: int| 0 <= k < b.len() implies #[trigger] b[k] <= 0xffff_ffff by {
                assert(other_ranks[j as int][k] <= 0xffff_ffff);
            }
            row.push(correlate(a, b));
            j += 1;
        }
        sim.push(row);
        i += 1;
    }
    Ok(sim)
}

/// The rank correlation of every row of `mat` with every row of `mat`.
pub fn spearman(mat: &Vec<Vec<u64>>, ncols: usize) -> (r: Result<
    Vec<Vec<Correlation>>,
    SimilarityError,
>)
    requires
        ncols <= MAX_SAMPLE,
    ensures
        match r {
            Ok(sim) => {
                &&& has_columns(mat@, ncols as int)
                &&& sim.len() == mat.len()
                &&& forall|i: int| 0 <= i < sim.len() ==> (#[trigger] sim[i]).len() == mat.len()
                &&& forall|i: int, j: int|
                    0 <= i < mat.len() && 0 <= j < mat.len() ==> (#[trigger] sim[i][j])@
                        == correlation_of(ranks_of(mat[i]@), ranks_of(mat[j]@))
            },
            Err(e) => !has_columns(mat@, ncols as int) && e == SimilarityError::ShapeMismatch,
        },
{
    spearman2(mat, mat, ncols)
}

} // verus!
