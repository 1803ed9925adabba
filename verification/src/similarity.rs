//! Set similarity between the rows of sparse matrices.
//!
//! A matrix is taken in by its sparsity pattern, the compressed sparse row
//! layout that tells which columns each row occupies. The Jaccard similarity
//! of two rows is the weight of the columns that both occupy over the weight
//! of the columns that either occupies; it is given as an exact ratio of
//! integers.

use vstd::prelude::*;
use crate::sparsity::{
    ascending, in_range, in_row, layout_view, row_has, row_set, valid_layout, PatternView,
    SparsityPattern,
};

verus! {

/// Why a similarity could not be computed.
#[derive(Debug, Clone, Copy, PartialEq, Eq, Structural)]
pub enum SimilarityError {
    /// The row pointer and the column indices do not form a valid layout.
    MalformedPattern,
    /// The two matrices, or a matrix and the weights, differ in their number
    /// of columns.
    ShapeMismatch,
    /// The numbers are stored in a type that is not supported.
    UnsupportedType,
}

/// The weight of column `c`: 1 where no weights are given.
pub open spec fn weight_at(weights: Option<Seq<u64>>, c: int) -> int {
    match weights {
        None => 1,
        Some(w) => w[c] as int,
    }
}

/// The total weight of the columns below `c` that belong to `columns`.
pub open spec fn weight_below(columns: Set<int>, weights: Option<Seq<u64>>, c: int) -> int
    decreases c,
{
    if c <= 0 {
        0
    } else {
        weight_below(columns, weights, c - 1) + if columns.contains(c - 1) {
            weight_at(weights, c - 1)
        } else {
            0
        }
    }
}

/// A weight lies between 0 and the largest weight times the number of
/// columns counted.
pub proof fn lemma_weight_bounds(columns: Set<int>, weights: Option<Seq<u64>>, c: int)
    requires
        0 <= c,
    ensures
        0 <= weight_below(columns, weights, c) <= c * u64::MAX,
    decreases c,
{
    if c > 0 {
        lemma_weight_bounds(columns, weights, c - 1);
        assert((c - 1) * u64::MAX + u64::MAX == c * u64::MAX) by (nonlinear_arith);
    }
}

/// Columns that do not belong to `columns` add nothing.
pub proof fn lemma_weight_skip(columns: Set<int>, weights: Option<Seq<u64>>, c1: int, c2: int)
    requires
        0 <= c1 <= c2,
        forall|c: int| c1 <= c < c2 ==> !columns.contains(c),
    ensures
        weight_below(columns, weights, c2) == weight_below(columns, weights, c1),
    decreases c2 - c1,
{
    if c1 < c2 {
        lemma_weight_skip(columns, weights, c1, c2 - 1);
    }
}

/// The weights of a union and of the intersection add up to the weights of
/// the two sets.
pub proof fn lemma_weight_union(x: Set<int>, y: Set<int>, weights: Option<Seq<u64>>, c: int)
    ensures
        weight_below(x.union(y), weights, c) + weight_below(x.intersect(y), weights, c)
            == weight_below(x, weights, c) + weight_below(y, weights, c),
    decreases c,
{
    if c > 0 {
        lemma_weight_union(x, y, weights, c - 1);
    }
}

/// A subset weighs no more than the whole.
pub proof fn lemma_weight_subset(x: Set<int>, y: Set<int>, weights: Option<Seq<u64>>, c: int)
    requires
        x.subset_of(y),
    ensures
        weight_below(x, weights, c) <= weight_below(y, weights, c),
    decreases c,
{
    if c > 0 {
        lemma_weight_subset(x, y, weights, c - 1);
    }
}

/// An exact ratio of two weights.
#[derive(Debug, Clone, Copy, PartialEq, Eq, Structural)]
pub struct Ratio {
    pub numerator: u128,
    pub denominator: u128,
}

/// The Jaccard similarity of two rows that occupy the columns `x` and `y`:
/// the weight of the columns in both over the weight of the columns in
/// either.
pub open spec fn jaccard_of(x: Set<int>, y: Set<int>, weights: Option<Seq<u64>>, ncols: int) -> (
    int,
    int,
) {
    (weight_below(x.intersect(y), weights, ncols), weight_below(x.union(y), weights, ncols))
}

/// The weights as a model.
pub open spec fn weights_view(weights: Option<&Vec<u64>>) -> Option<Seq<u64>> {
    match weights {
        None => None,
        Some(w) => Some(w@),
    }
}

/// The weight of column `c`.
fn weight(weights: Option<&Vec<u64>>, c: usize) -> (w: u64)
    requires
        weights matches Some(v) ==> c < v.len(),
    ensures
        w as int == weight_at(weights_view(weights), c as int),
{
    match weights {
        None => 1,
        Some(v) => v[c],
    }
}

/// `j` is among the first `upto` entries of `list`.
pub open spec fn listed(list: Seq<usize>, upto: int, j: int) -> bool {
    exists|t: int| 0 <= t < upto && #[trigger] list[t] == j
}

/// Column `c` is among the column indices from `lo` up to `hi`.
pub open spec fn seen(indices: Seq<usize>, lo: int, hi: int, c: int) -> bool {
    exists|k: int| lo <= k < hi && #[trigger] indices[k] == c
}

/// Every entry of every list lies below `bound`.
pub open spec fn all_below(cols: Seq<Vec<usize>>, bound: int) -> bool {
    forall|c: int, t: int|
        0 <= c < cols.len() && 0 <= t < cols[c]@.len() ==> (#[trigger] cols[c]@[t]) < bound
}

/// Every list ascends strictly.
pub open spec fn all_ascending(cols: Seq<Vec<usize>>) -> bool {
    forall|c: int| 0 <= c < cols.len() ==> ascending(#[trigger] cols[c]@, 0, cols[c]@.len() as int)
}

/// The lists hold, for each column, the rows below `r` that occupy it, and
/// row `r` where the column is among the column indices from `lo` up to `k`.
#[verifier::opaque]
pub open spec fn lists_upto(
    cols: Seq<Vec<usize>>,
    indptr: Seq<usize>,
    indices: Seq<usize>,
    r: int,
    lo: int,
    k: int,
) -> bool {
    &&& all_ascending(cols)
    &&& all_below(cols, r + 1)
    &&& forall|c: int, j: int|
        0 <= c < cols.len() ==> (#[trigger] listed(cols[c]@, cols[c]@.len() as int, j) <==> (0 <= j
            < r && row_has(indptr, indices, j, c)) || (j == r && seen(indices, lo, k, c)))
}

/// Lists that are all empty hold the rows below 0.
proof fn lemma_lists_start(cols: Seq<Vec<usize>>, indptr: Seq<usize>, indices: Seq<usize>, lo: int)
    requires
        forall|c: int| 0 <= c < cols.len() ==> (#[trigger] cols[c])@.len() == 0,
    ensures
        lists_upto(cols, indptr, indices, 0, lo, lo),
{
    reveal(lists_upto);
}

/// Adding row `r` to the list of the column of entry `k` accounts for that
/// entry.
proof fn lemma_lists_push(
    before: Seq<Vec<usize>>,
    after: Seq<Vec<usize>>,
    indptr: Seq<usize>,
    indices: Seq<usize>,
    r: int,
    lo: int,
    k: int,
    hi: int,
)
    requires
        0 <= r < usize::MAX,
        lo <= k < hi <= indices.len(),
        0 <= lo,
        ascending(indices, lo, hi),
        lists_upto(before, indptr, indices, r, lo, k),
        after.len() == before.len(),
        indices[k] < before.len(),
        after[indices[k] as int]@ == before[indices[k] as int]@.push(r as usize),
        forall|d: int| 0 <= d < before.len() && d != indices[k] ==> after[d] == before[d],
    ensures
        lists_upto(after, indptr, indices, r, lo, k + 1),
{
    reveal(lists_upto);
    let c = indices[k] as int;
    let old_list = before[c]@;
    let new_list = after[c]@;
    assert(!seen(indices, lo, k, c)) by {
        if seen(indices, lo, k, c) {
            let k2 = choose|k2: int| lo <= k2 < k && #[trigger] indices[k2] == c;
            assert(indices[k2] < indices[k]);
        }
    }
    assert(!listed(old_list, old_list.len() as int, r));
    assert forall|t: int| 0 <= t < old_list.len() implies old_list[t] < r by {
        assert(before[c]@[t] < r + 1);
        if old_list[t] == r {
            assert(listed(old_list, old_list.len() as int, r));
        }
    }
    assert(all_ascending(after)) by {
        assert forall|d: int| 0 <= d < after.len() implies ascending(
            #[trigger] after[d]@,
            0,
            after[d]@.len() as int,
        ) by {
            if d != c {
                assert(after[d] == before[d]);
            } else {
                assert(ascending(before[d]@, 0, before[d]@.len() as int));
            }
        }
    }
    assert(all_below(after, r + 1)) by {
        assert forall|d: int, t: int| 0 <= d < after.len() && 0 <= t < after[d]@.len() implies (
        #[trigger] after[d]@[t]) < r + 1 by {
            if d != c {
                assert(after[d] == before[d]);
                assert(before[d]@[t] < r + 1);
            } else if t < old_list.len() {
                assert(before[d]@[t] < r + 1);
            }
        }
    }
    assert forall|d: int, j: int| 0 <= d < after.len() implies (#[trigger] listed(
        after[d]@,
        after[d]@.len() as int,
        j,
    ) <==> (0 <= j < r && row_has(indptr, indices, j, d)) || (j == r && seen(
        indices,
        lo,
        k + 1,
        d,
    ))) by {
        let was = listed(before[d]@, before[d]@.len() as int, j);
        if d != c {
            assert(after[d] == before[d]);
            if seen(indices, lo, k + 1, d) {
                let k2 = choose|k2: int| lo <= k2 < k + 1 && #[trigger] indices[k2] == d;
                assert(seen(indices, lo, k, d));
            }
            if seen(indices, lo, k, d) {
                let k2 = choose|k2: int| lo <= k2 < k && #[trigger] indices[k2] == d;
                assert(seen(indices, lo, k + 1, d));
            }
        } else {
            assert(indices[k] == c);
            assert(seen(indices, lo, k + 1, d));
            if listed(new_list, new_list.len() as int, j) {
                let t = choose|t: int| 0 <= t < new_list.len() && #[trigger] new_list[t] == j;
                if t < old_list.len() {
                    assert(old_list[t] == j);
                    assert(was);
                }
            }
            if was {
                let t = choose|t: int| 0 <= t < old_list.len() && #[trigger] old_list[t] == j;
                assert(new_list[t] == j);
            }
            if j == r {
                assert(new_list[old_list.len() as int] == j);
            }
        }
    }
}

/// Once all entries of row `r` are accounted for, the lists hold the rows
/// below `r + 1`.
proof fn lemma_lists_next_row(
    cols: Seq<Vec<usize>>,
    indptr: Seq<usize>,
    indices: Seq<usize>,
    r: int,
    next: int,
)
    requires
        0 <= r,
        r + 1 < indptr.len(),
        lists_upto(cols, indptr, indices, r, indptr[r] as int, indptr[r + 1] as int),
    ensures
        lists_upto(cols, indptr, indices, r + 1, next, next),
{
    reveal(lists_upto);
    let lo = indptr[r] as int;
    let hi = indptr[r + 1] as int;
    assert forall|c: int, j: int| 0 <= c < cols.len() implies (#[trigger] listed(
        cols[c]@,
        cols[c]@.len() as int,
        j,
    ) <==> (0 <= j < r + 1 && row_has(indptr, indices, j, c)) || (j == r + 1 && seen(
        indices,
        next,
        next,
        c,
    ))) by {
        if seen(indices, lo, hi, c) {
            let k2 = choose|k2: int| lo <= k2 < hi && #[trigger] indices[k2] == c;
            assert(in_row(indptr, r, k2));
        }
        if row_has(indptr, indices, r, c) {
            let k2 = choose|k2: int| in_row(indptr, r, k2) && #[trigger] indices[k2] == c;
            assert(seen(indices, lo, hi, c));
        }
        if listed(cols[c]@, cols[c]@.len() as int, j) {
            let t = choose|t: int| 0 <= t < cols[c]@.len() && #[trigger] cols[c]@[t] == j;
            assert(cols[c]@[t] < r + 1);
        }
    }
    assert(all_below(cols, r + 2)) by {
        assert forall|c: int, t: int| 0 <= c < cols.len() && 0 <= t < cols[c]@.len() implies (
        #[trigger] cols[c]@[t]) < r + 2 by {
            assert(cols[c]@[t] < r + 1);
        }
    }
}

/// Lists that hold all rows of a layout are the lists of its pattern.
proof fn lemma_lists_done(
    cols: Seq<Vec<usize>>,
    indptr: Seq<usize>,
    indices: Seq<usize>,
    ncols: int,
    next: int,
)
    requires
        indptr.len() >= 1,
        cols.len() == ncols,
        lists_upto(cols, indptr, indices, indptr.len() - 1, next, next),
    ensures
        lists_of(cols, layout_view(indptr, indices, ncols)),
{
    reveal(lists_upto);
    let b = layout_view(indptr, indices, ncols);
    assert forall|c: int, j: int| 0 <= c < cols.len() implies (#[trigger] listed(
        cols[c]@,
        cols[c]@.len() as int,
        j,
    ) <==> 0 <= j < b.rows.len() && b.rows[j].contains(c)) by {
        if 0 <= j < b.rows.len() {
            assert(b.rows[j].contains(c) <==> row_has(indptr, indices, j, c));
        }
    }
}

/// For each column the rows of a layout that occupy it, in ascending order.
fn column_lists(indptr: &Vec<usize>, indices: &Vec<usize>, ncols: usize) -> (cols: Vec<Vec<usize>>)
    requires
        valid_layout(indptr@, indices@, ncols as int),
    ensures
        lists_of(cols@, layout_view(indptr@, indices@, ncols as int)),
{
    let n = indptr.len() - 1;
    let mut cols: Vec<Vec<usize>> = Vec::new();
    let mut c: usize = 0;
    while c < ncols
        invariant
            c <= ncols,
            cols.len() == c,
            forall|d: int| 0 <= d < c ==> (#[trigger] cols[d])@.len() == 0,
        decreases ncols - c,
    {
        cols.push(Vec::new());
        c += 1;
    }
    proof {
        lemma_lists_start(cols@, indptr@, indices@, indptr[0] as int);
    }
    let mut r: usize = 0;
    while r < n
        invariant
            r <= n,
            n == indptr.len() - 1,
            valid_layout(indptr@, indices@, ncols as int),
            cols.len() == ncols,
            lists_upto(cols@, indptr@, indices@, r as int, indptr[r as int] as int, indptr[r as int] as int),
        decreases n - r,
    {
        let lo = indptr[r];
        let hi = indptr[r + 1];
        assert(indptr[r as int] <= indptr[r + 1] <= indptr[indptr.len() - 1]);
        assert(ascending(indices@, lo as int, hi as int));
        let mut k: usize = lo;
        while k < hi
            invariant
                lo <= k <= hi,
                hi <= indices.len(),
                r < n,
                n == indptr.len() - 1,
                lo == indptr[r as int],
                hi == indptr[r + 1],
                in_range(indices@, ncols as int),
                ascending(indices@, lo as int, hi as int),
                cols.len() == ncols,
                lists_upto(cols@, indptr@, indices@, r as int, lo as int, k as int),
            decreases hi - k,
        {
            let c = indices[k];
            let ghost before = cols@;
            cols[c].push(r);
            proof {
                lemma_lists_push(
                    before,
                    cols@,
                    indptr@,
                    indices@,
                    r as int,
                    lo as int,
                    k as int,
                    hi as int,
                );
            }
            k += 1;
        }
        proof {
            lemma_lists_next_row(cols@, indptr@, indices@, r as int, indptr[r + 1] as int);
        }
        r += 1;
    }
    proof {
        lemma_lists_done(cols@, indptr@, indices@, ncols as int, indptr[n as int] as int);
    }
    cols
}

/// The lists tell for each column which rows of the pattern `b` occupy it.
pub open spec fn lists_of(cols: Seq<Vec<usize>>, b: PatternView) -> bool {
    &&& cols.len() == b.ncols
    &&& all_ascending(cols)
    &&& forall|c: int, j: int|
        0 <= c < cols.len() ==> (#[trigger] listed(cols[c]@, cols[c]@.len() as int, j) <==> 0 <= j
            < b.rows.len() && b.rows[j].contains(c))
}

/// A total weight over fewer than `ncols` columns leaves room for one more
/// weight in the accumulator.
proof fn lemma_weight_fits(columns: Set<int>, weights: Option<Seq<u64>>, c: int, ncols: usize)
    requires
        0 <= c <= ncols,
    ensures
        0 <= weight_below(columns, weights, c),
        weight_below(columns, weights, c) + u64::MAX <= u128::MAX,
{
    lemma_weight_bounds(columns, weights, c);
    assert(c * u64::MAX <= 0xffff_ffff_ffff_ffff * 0xffff_ffff_ffff_ffff) by (nonlinear_arith)
        requires
            0 <= c <= 0xffff_ffff_ffff_ffff,
    ;
}

/// The column indices of a row from `lo` up to `k` lie below `bound`, and
/// those from `k` up to `hi` do not.
pub open spec fn split_at(indices: Seq<usize>, lo: int, k: int, hi: int, bound: int) -> bool {
    &&& forall|k2: int| lo <= k2 < k ==> #[trigger] indices[k2] < bound
    &&& forall|k2: int| k <= k2 < hi ==> #[trigger] indices[k2] >= bound
}

/// In a row that ascends, the entry at `k` is the next occupied column at or
/// above `bound`.
proof fn lemma_next_column(indptr: Seq<usize>, indices: Seq<usize>, r: int, k: int, bound: int)
    requires
        in_row(indptr, r, k),
        ascending(indices, indptr[r] as int, indptr[r + 1] as int),
        split_at(indices, indptr[r] as int, k, indptr[r + 1] as int, bound),
    ensures
        bound <= indices[k],
        row_set(indptr, indices, r).contains(indices[k] as int),
        forall|x: int| bound <= x < indices[k] ==> !row_set(indptr, indices, r).contains(x),
        split_at(indices, indptr[r] as int, k + 1, indptr[r + 1] as int, indices[k] + 1),
{
    let row = row_set(indptr, indices, r);
    assert forall|x: int| bound <= x < indices[k] implies !row.contains(x) by {
        if row.contains(x) {
            let k2 = choose|k2: int| in_row(indptr, r, k2) && #[trigger] indices[k2] == x;
            if k2 > k {
                assert(indices[k] < indices[k2]);
            }
        }
    }
    assert forall|k2: int| k + 1 <= k2 < indptr[r + 1] implies #[trigger] indices[k2] >= indices[k]
        + 1 by {
        assert(indices[k] < indices[k2]);
    }
    assert forall|k2: int| indptr[r] <= k2 < k + 1 implies #[trigger] indices[k2] < indices[k]
        + 1 by {
        if k2 < k {
            assert(indices[k2] < indices[k]);
        }
    }
}

/// Once all entries of a row lie below `bound`, the row occupies no column
/// from `bound` on.
proof fn lemma_no_more_columns(indptr: Seq<usize>, indices: Seq<usize>, r: int, bound: int)
    requires
        split_at(indices, indptr[r] as int, indptr[r + 1] as int, indptr[r + 1] as int, bound),
    ensures
        forall|x: int| bound <= x ==> !row_set(indptr, indices, r).contains(x),
{
    let row = row_set(indptr, indices, r);
    assert forall|x: int| bound <= x implies !row.contains(x) by {
        if row.contains(x) {
            let k2 = choose|k2: int| in_row(indptr, r, k2) && #[trigger] indices[k2] == x;
        }
    }
}

/// Adds `amount` to the entries of `acc` whose positions `list` holds.
fn add_at(acc: &mut Vec<u128>, list: &Vec<usize>, amount: u64)
    requires
        ascending(list@, 0, list@.len() as int),
        forall|t: int| 0 <= t < list@.len() ==> (#[trigger] list@[t]) < old(acc).len(),
        forall|x: int| 0 <= x < old(acc).len() ==> (#[trigger] old(acc)[x]) + amount <= u128::MAX,
    ensures
        final(acc).len() == old(acc).len(),
        forall|x: int|
            0 <= x < old(acc).len() ==> (#[trigger] final(acc)[x]) as int == old(acc)[x] + if listed(
                list@,
                list@.len() as int,
                x,
            ) {
                amount as int
            } else {
                0
            },
{
    let ghost start = acc@;
    let mut u: usize = 0;
    while u < list.len()
        invariant
            u <= list.len(),
            acc.len() == start.len(),
            ascending(list@, 0, list@.len() as int),
            forall|t: int| 0 <= t < list@.len() ==> (#[trigger] list@[t]) < start.len(),
            forall|x: int| 0 <= x < start.len() ==> (#[trigger] start[x]) + amount <= u128::MAX,
            forall|x: int|
                0 <= x < start.len() ==> (#[trigger] acc[x]) as int == start[x] + if listed(
                    list@,
                    u as int,
                    x,
                ) {
                    amount as int
                } else {
                    0
                },
        decreases list.len() - u,
    {
        let j = list[u];
        let ghost before = acc@;
        proof {
            assert(!listed(list@, u as int, j as int)) by {
                if listed(list@, u as int, j as int) {
                    let t = choose|t: int| 0 <= t < u && #[trigger] list@[t] == j;
                    assert(list@[t] < list@[u as int]);
                }
            }
            assert(before[j as int] == start[j as int]);
        }
        acc[j] = acc[j] + amount as u128;
        proof {
            assert forall|x: int| 0 <= x < start.len() implies (#[trigger] acc[x]) as int
                == start[x] + if listed(list@, u + 1, x) {
                amount as int
            } else {
                0
            } by {
                if listed(list@, u + 1, x) {
                    let t = choose|t: int| 0 <= t < u + 1 && #[trigger] list@[t] == x;
                    if t < u {
                        assert(listed(list@, u as int, x));
                    }
                }
                if listed(list@, u as int, x) {
                    let t = choose|t: int| 0 <= t < u && #[trigger] list@[t] == x;
                    assert(listed(list@, u + 1, x));
                }
                if x == j {
                    assert(list@[u as int] == x);
                    assert(listed(list@, u + 1, x));
                } else {
                    assert(acc[x] == before[x]);
                }
            }
        }
        u += 1;
    }
}

/// The total weight of the columns that row `r` of a layout occupies.
fn row_weight(
    indptr: &Vec<usize>,
    indices: &Vec<usize>,
    ncols: usize,
    r: usize,
    weights: Option<&Vec<u64>>,
) -> (total: u128)
    requires
        r + 1 < indptr.len(),
        indptr[r as int] <= indptr[r + 1] <= indices.len(),
        in_range(indices@, ncols as int),
        ascending(indices@, indptr[r as int] as int, indptr[r + 1] as int),
        weights matches Some(w) ==> w.len() == ncols,
    ensures
        total as int == weight_below(
            row_set(indptr@, indices@, r as int),
            weights_view(weights),
            ncols as int,
        ),
{
    let ghost row = row_set(indptr@, indices@, r as int);
    let ghost w = weights_view(weights);
    let lo = indptr[r];
    let hi = indptr[r + 1];
    let mut total: u128 = 0;
    let ghost mut bound: int = 0;
    let mut k: usize = lo;
    while k < hi
        invariant
            lo <= k <= hi,
            hi <= indices.len(),
            r + 1 < indptr.len(),
            lo == indptr[r as int],
            hi == indptr[r + 1],
            row == row_set(indptr@, indices@, r as int),
            w == weights_view(weights),
            weights matches Some(v) ==> v.len() == ncols,
            in_range(indices@, ncols as int),
            ascending(indices@, lo as int, hi as int),
            0 <= bound <= ncols,
            split_at(indices@, lo as int, k as int, hi as int, bound),
            total as int == weight_below(row, w, bound),
        decreases hi - k,
    {
        let c = indices[k];
        proof {
            lemma_next_column(indptr@, indices@, r as int, k as int, bound);
            lemma_weight_skip(row, w, bound, c as int);
            lemma_weight_fits(row, w, c as int, ncols);
            bound = c + 1;
        }
        total = total + weight(weights, c) as u128;
        k += 1;
    }
    proof {
        lemma_no_more_columns(indptr@, indices@, r as int, bound);
        lemma_weight_skip(row, w, bound, ncols as int);
    }
    total
}

/// For every row `j` of the pattern behind `cols`, the total weight of the
/// columns that row `i` of a layout and row `j` both occupy.
fn shared_weights(
    indptr: &Vec<usize>,
    indices: &Vec<usize>,
    ncols: usize,
    i: usize,
    cols: &Vec<Vec<usize>>,
    m: usize,
    weights: Option<&Vec<u64>>,
    Ghost(b): Ghost<PatternView>,
) -> (acc: Vec<u128>)
    requires
        i + 1 < indptr.len(),
        indptr[i as int] <= indptr[i + 1] <= indices.len(),
        in_range(indices@, ncols as int),
        ascending(indices@, indptr[i as int] as int, indptr[i + 1] as int),
        weights matches Some(w) ==> w.len() == ncols,
        b.ncols == ncols,
        b.rows.len() == m,
        lists_of(cols@, b),
    ensures
        acc.len() == m,
        forall|j: int|
            0 <= j < m ==> (#[trigger] acc[j]) as int == weight_below(
                row_set(indptr@, indices@, i as int).intersect(b.rows[j]),
                weights_view(weights),
                ncols as int,
            ),
{
    let ghost row = row_set(indptr@, indices@, i as int);
    let ghost w = weights_view(weights);
    let lo = indptr[i];
    let hi = indptr[i + 1];
    let mut acc: Vec<u128> = Vec::new();
    let mut j: usize = 0;
    while j < m
        invariant
            j <= m,
            acc.len() == j,
            forall|x: int| 0 <= x < j ==> #[trigger] acc[x] == 0,
        decreases m - j,
    {
        acc.push(0);
        j += 1;
    }
    let ghost mut bound: int = 0;
    let mut k: usize = lo;
    while k < hi
        invariant
            lo <= k <= hi,
            hi <= indices.len(),
            i + 1 < indptr.len(),
            lo == indptr[i as int],
            hi == indptr[i + 1],
            row == row_set(indptr@, indices@, i as int),
            w == weights_view(weights),
            weights matches Some(v) ==> v.len() == ncols,
            in_range(indices@, ncols as int),
            ascending(indices@, lo as int, hi as int),
            b.ncols == ncols,
            b.rows.len() == m,
            lists_of(cols@, b),
            0 <= bound <= ncols,
            split_at(indices@, lo as int, k as int, hi as int, bound),
            acc.len() == m,
            forall|j: int|
                0 <= j < m ==> (#[trigger] acc[j]) as int == weight_below(
                    row.intersect(b.rows[j]),
                    w,
                    bound,
                ),
        decreases hi - k,
    {
        let c = indices[k];
        let ghost before = acc@;
        proof {
            lemma_next_column(indptr@, indices@, i as int, k as int, bound);
            assert forall|x: int| 0 <= x < m implies (#[trigger] before[x]) as int == weight_below(
                row.intersect(b.rows[x]),
                w,
                c as int,
            ) && before[x] + u64::MAX <= u128::MAX by {
                lemma_weight_skip(row.intersect(b.rows[x]), w, bound, c as int);
                lemma_weight_fits(row.intersect(b.rows[x]), w, c as int, ncols);
            }
            assert forall|t: int| 0 <= t < cols[c as int]@.len() implies (
            #[trigger] cols[c as int]@[t]) < m by {
                assert(listed(cols[c as int]@, cols[c as int]@.len() as int, cols[c as int]@[t] as int));
            }
            assert(ascending(cols[c as int]@, 0, cols[c as int]@.len() as int));
        }
        add_at(&mut acc, &cols[c], weight(weights, c));
        proof {
            bound = c + 1;
            assert forall|x: int| 0 <= x < m implies (#[trigger] acc[x]) as int == weight_below(
                row.intersect(b.rows[x]),
                w,
                bound,
            ) by {
                assert(listed(cols[c as int]@, cols[c as int]@.len() as int, x)
                    <==> b.rows[x].contains(c as int));
            }
        }
        k += 1;
    }
    proof {
        lemma_no_more_columns(indptr@, indices@, i as int, bound);
        assert forall|x: int| 0 <= x < m implies (#[trigger] acc[x]) as int == weight_below(
            row.intersect(b.rows[x]),
            w,
            ncols as int,
        ) by {
            lemma_weight_skip(row.intersect(b.rows[x]), w, bound, ncols as int);
        }
    }
    acc
}

/// The two patterns have the same number of columns, and the weights, where
/// given, hold one weight per column.
pub open spec fn compatible(a: PatternView, b: PatternView, weights: Option<Seq<u64>>) -> bool {
    a.ncols == b.ncols && (weights matches Some(w) ==> w.len() == a.ncols)
}

impl Ratio {
    /// The ratio as a pair of numerator and denominator.
    pub open spec fn view(&self) -> (int, int) {
        (self.numerator as int, self.denominator as int)
    }
}

/// The similarities of row `i` of `mat` with every row of `other`.
fn jaccard_row(
    mat: &SparsityPattern,
    i: usize,
    other: &SparsityPattern,
    cols: &Vec<Vec<usize>>,
    sizes: &Vec<u128>,
    weights: Option<&Vec<u64>>,
) -> (row: Vec<Ratio>)
    requires
        i < mat@.rows.len(),
        compatible(mat@, other@, weights_view(weights)),
        lists_of(cols@, other@),
        sizes.len() == other@.rows.len(),
        forall|j: int|
            0 <= j < sizes.len() ==> (#[trigger] sizes[j]) as int == weight_below(
                other@.rows[j],
                weights_view(weights),
                other@.ncols,
            ),
    ensures
        row.len() == other@.rows.len(),
        forall|j: int|
            0 <= j < row.len() ==> (#[trigger] row[j])@ == jaccard_of(
                mat@.rows[i as int],
                other@.rows[j],
                weights_view(weights),
                mat@.ncols,
            ),
{
    let (indptr, indices, ncols) = mat.layout();
    proof {
        assert(indptr@[i as int] <= indptr@[i + 1] <= indptr@[indptr@.len() - 1]);
    }
    let ghost w = weights_view(weights);
    let ghost x = mat@.rows[i as int];
    let m = sizes.len();
    let size = row_weight(indptr, indices, ncols, i, weights);
    let shared = shared_weights(indptr, indices, ncols, i, cols, m, weights, Ghost(other@));
    let mut row: Vec<Ratio> = Vec::new();
    let mut j: usize = 0;
    while j < m
        invariant
            j <= m,
            m == sizes.len(),
            m == other@.rows.len(),
            shared.len() == m,
            row.len() == j,
            x == mat@.rows[i as int],
            w == weights_view(weights),
            mat@.ncols == ncols,
            other@.ncols == ncols,
            size as int == weight_below(x, w, ncols as int),
            forall|y: int|
                0 <= y < m ==> (#[trigger] sizes[y]) as int == weight_below(
                    other@.rows[y],
                    w,
                    ncols as int,
                ),
            forall|y: int|
                0 <= y < m ==> (#[trigger] shared[y]) as int == weight_below(
                    x.intersect(other@.rows[y]),
                    w,
                    ncols as int,
                ),
            forall|y: int|
                0 <= y < j ==> (#[trigger] row[y])@ == jaccard_of(
                    x,
                    other@.rows[y],
                    w,
                    ncols as int,
                ),
        decreases m - j,
    {
        proof {
            let y = other@.rows[j as int];
            lemma_weight_union(x, y, w, ncols as int);
            lemma_weight_subset(x.intersect(y), y, w, ncols as int);
            lemma_weight_fits(x.union(y), w, ncols as int, ncols);
        }
        row.push(Ratio { numerator: shared[j], denominator: size + (sizes[j] - shared[j]) });
        j += 1;
    }
    row
}

/// The Jaccard similarity of every row of `mat` with every row of `other`.
///
/// Entry `[i][j]` of the result is the similarity of row `i` of `mat` and
/// row `j` of `other`, as an exact ratio. Where `weights` is given, it holds
/// the weight of each column; otherwise every column weighs 1. The call is
/// rejected where the two patterns differ in their number of columns, or
/// where the weights are not one per column.
pub fn jaccard2(mat: &SparsityPattern, other: &SparsityPattern, weights: Option<&Vec<u64>>) -> (r:
    Result<Vec<Vec<Ratio>>, SimilarityError>)
    ensures
        match r {
            Ok(sim) => {
                &&& compatible(mat@, other@, weights_view(weights))
                &&& sim.len() == mat@.rows.len()
                &&& forall|i: int|
                    0 <= i < sim.len() ==> (#[trigger] sim[i]).len() == other@.rows.len()
                &&& forall|i: int, j: int|
                    0 <= i < mat@.rows.len() && 0 <= j < other@.rows.len() ==> (
                    #[trigger] sim[i][j])@ == jaccard_of(
                        mat@.rows[i],
                        other@.rows[j],
                        weights_view(weights),
                        mat@.ncols,
                    )
            },
            Err(e) => !compatible(mat@, other@, weights_view(weights)) && e
                == SimilarityError::ShapeMismatch,
        },
{
    if mat.ncols() != other.ncols() {
        return Err(SimilarityError::ShapeMismatch);
    }
    match weights {
        Some(w) => {
            if w.len() != mat.ncols() {
                return Err(SimilarityError::ShapeMismatch);
            }
        },
        None => {},
    }
    let ghost w = weights_view(weights);
    let (indptr, indices, ncols) = other.layout();
    let cols = column_lists(indptr, indices, ncols);
    let m = other.nrows();
    let mut sizes: Vec<u128> = Vec::new();
    let mut j: usize = 0;
    while j < m
        invariant
            j <= m,
            m == other@.rows.len(),
            m == indptr@.len() - 1,
            valid_layout(indptr@, indices@, ncols as int),
            other@ == layout_view(indptr@, indices@, ncols as int),
            compatible(mat@, other@, weights_view(weights)),
            w == weights_view(weights),
            sizes.len() == j,
            forall|y: int|
                0 <= y < j ==> (#[trigger] sizes[y]) as int == weight_below(
                    other@.rows[y],
                    w,
                    other@.ncols,
                ),
        decreases m - j,
    {
        assert(indptr@[j as int] <= indptr@[j + 1] <= indptr@[indptr@.len() - 1]);
        let size = row_weight(indptr, indices, ncols, j, weights);
        sizes.push(size);
        j += 1;
    }
    let n = mat.nrows();
    let mut sim: Vec<Vec<Ratio>> = Vec::new();
    let mut i: usize = 0;
    while i < n
        invariant
            i <= n,
            n == mat@.rows.len(),
            compatible(mat@, other@, weights_view(weights)),
            lists_of(cols@, other@),
            sizes.len() == other@.rows.len(),
            forall|y: int|
                0 <= y < sizes.len() ==> (#[trigger] sizes[y]) as int == weight_below(
                    other@.rows[y],
                    weights_view(weights),
                    other@.ncols,
                ),
            sim.len() == i,
            forall|a: int| 0 <= a < i ==> (#[trigger] sim[a]).len() == other@.rows.len(),
            forall|a: int, b: int|
                0 <= a < i && 0 <= b < other@.rows.len() ==> (#[trigger] sim[a][b])@ == jaccard_of(
                    mat@.rows[a],
                    other@.rows[b],
                    weights_view(weights),
                    mat@.ncols,
                ),
        decreases n - i,
    {
        let row = jaccard_row(mat, i, other, &cols, &sizes, weights);
        sim.push(row);
        i += 1;
    }
    Ok(sim)
}

/// The Jaccard similarity of every row of `mat` with every row of `mat`.
pub fn jaccard(mat: &SparsityPattern, weights: Option<&Vec<u64>>) -> (r: Result<
    Vec<Vec<Ratio>>,
    SimilarityError,
>)
    ensures
        match r {
            Ok(sim) => {
                &&& compatible(mat@, mat@, weights_view(weights))
                &&& sim.len() == mat@.rows.len()
                &&& forall|i: int| 0 <= i < sim.len() ==> (#[trigger] sim[i]).len() == mat@.rows.len()
                &&& forall|i: int, j: int|
                    0 <= i < mat@.rows.len() && 0 <= j < mat@.rows.len() ==> (
                    #[trigger] sim[i][j])@ == jaccard_of(
                        mat@.rows[i],
                        mat@.rows[j],
                        weights_view(weights),
                        mat@.ncols,
                    )
            },
            Err(e) => !compatible(mat@, mat@, weights_view(weights)) && e
                == SimilarityError::ShapeMismatch,
        },
{
    jaccard2(mat, mat, weights)
}

/// Symmetry: the similarity of two rows does not depend on their order.
pub proof fn lemma_jaccard_symmetric(
    x: Set<int>,
    y: Set<int>,
    weights: Option<Seq<u64>>,
    ncols: int,
)
    ensures
        jaccard_of(x, y, weights, ncols) == jaccard_of(y, x, weights, ncols),
{
    assert(x.intersect(y) =~= y.intersect(x));
    assert(x.union(y) =~= y.union(x));
}

/// Every column below `ncols` that is given a weight weighs 1.
pub open spec fn unit_weights(weights: Option<Seq<u64>>, ncols: int) -> bool {
    forall|c: int| 0 <= c < ncols ==> weight_at(weights, c) == 1
}

/// With weights that are all 1 a set of columns weighs what it weighs
/// without weights.
pub proof fn lemma_unit_weights(columns: Set<int>, weights: Option<Seq<u64>>, ncols: int, c: int)
    requires
        unit_weights(weights, ncols),
        c <= ncols,
    ensures
        weight_below(columns, weights, c) == weight_below(columns, None, c),
    decreases c,
{
    if c > 0 {
        lemma_unit_weights(columns, weights, ncols, c - 1);
    }
}

/// The weighted similarity reduces to the unweighted one: with weights that
/// are all 1 the similarity of two rows is what it is without weights.
pub proof fn lemma_jaccard_unit_weights(
    x: Set<int>,
    y: Set<int>,
    weights: Option<Seq<u64>>,
    ncols: int,
)
    requires
        unit_weights(weights, ncols),
    ensures
        jaccard_of(x, y, weights, ncols) == jaccard_of(x, y, None, ncols),
{
    lemma_unit_weights(x.intersect(y), weights, ncols, ncols);
    lemma_unit_weights(x.union(y), weights, ncols, ncols);
}

/// The similarity of a row with itself has equal numerator and denominator,
/// and without weights both are positive where the row occupies a column:
/// the similarity is 1.
pub proof fn lemma_jaccard_diagonal(x: Set<int>, weights: Option<Seq<u64>>, ncols: int, c: int)
    ensures
        jaccard_of(x, x, weights, ncols).0 == jaccard_of(x, x, weights, ncols).1,
        0 <= c < ncols && x.contains(c) ==> jaccard_of(x, x, None, ncols).1 > 0,
{
    assert(x.intersect(x) =~= x);
    assert(x.union(x) =~= x);
    if 0 <= c < ncols && x.contains(c) {
        lemma_weight_positive(x, ncols, c);
    }
}

/// Without weights a set that holds a column below `ncols` weighs more than
/// nothing.
pub proof fn lemma_weight_positive(columns: Set<int>, ncols: int, c: int)
    requires
        0 <= c < ncols,
        columns.contains(c),
    ensures
        weight_below(columns, None, ncols) > 0,
    decreases ncols,
{
    if c < ncols - 1 {
        lemma_weight_positive(columns, ncols - 1, c);
    } else {
        lemma_weight_bounds(columns, None, ncols - 1);
    }
}

/// The columns of `columns` that lie below `c`.
pub open spec fn columns_below(columns: Set<int>, c: int) -> Set<int> {
    columns.intersect(Set::new(|x: int| 0 <= x < c))
}

/// Without weights the weight of a set of columns is the number of its
/// columns: the similarity of two rows is then the number of the columns
/// that both occupy over the number of the columns that either occupies.
pub proof fn lemma_weight_counts(columns: Set<int>, c: int)
    ensures
        columns_below(columns, c).finite(),
        weight_below(columns, None, c) == columns_below(columns, c).len(),
    decreases c,
{
    if c <= 0 {
        assert(columns_below(columns, c) =~= Set::<int>::empty());
    } else {
        lemma_weight_counts(columns, c - 1);
        let before = columns_below(columns, c - 1);
        if columns.contains(c - 1) {
            assert(columns_below(columns, c) =~= before.insert(c - 1));
        } else {
            assert(columns_below(columns, c) =~= before);
        }
    }
}

} // verus!
