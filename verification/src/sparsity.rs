//! Compressed sparse row patterns: which columns each row of a matrix
//! occupies.
//!
//! A pattern is taken over from a row pointer and a list of column indices,
//! whatever the width of the integers in which these are stored. It is
//! checked once, when it is taken over, and cannot be changed afterwards.

use vstd::prelude::*;
use crate::similarity::SimilarityError;

verus! {

/// Mathematical model of a [`SparsityPattern`]: for each row the set of the
/// columns that it occupies, and the number of columns.
pub struct PatternView {
    pub rows: Seq<Set<int>>,
    pub ncols: int,
}

/// Entry `k` of the column indices belongs to row `r`.
pub open spec fn in_row(indptr: Seq<usize>, r: int, k: int) -> bool {
    indptr[r] <= k < indptr[r + 1]
}

/// Row `r` of the layout occupies column `c`.
pub open spec fn row_has(indptr: Seq<usize>, indices: Seq<usize>, r: int, c: int) -> bool {
    exists|k: int| in_row(indptr, r, k) && #[trigger] indices[k] == c
}

/// The columns that row `r` of the layout occupies.
pub open spec fn row_set(indptr: Seq<usize>, indices: Seq<usize>, r: int) -> Set<int> {
    Set::new(|c: int| row_has(indptr, indices, r, c))
}

/// The pattern that a layout describes.
pub open spec fn layout_view(indptr: Seq<usize>, indices: Seq<usize>, ncols: int) -> PatternView {
    PatternView {
        rows: Seq::new((indptr.len() - 1) as nat, |r: int| row_set(indptr, indices, r)),
        ncols: ncols,
    }
}

/// The row pointer never decreases.
pub open spec fn monotone(indptr: Seq<usize>) -> bool {
    forall|r: int, s: int| 0 <= r <= s < indptr.len() ==> #[trigger] indptr[r] <= #[trigger] indptr[s]
}

/// Every column index lies below `ncols`.
pub open spec fn in_range(indices: Seq<usize>, ncols: int) -> bool {
    forall|k: int| 0 <= k < indices.len() ==> #[trigger] indices[k] < ncols
}

/// The column indices of the entries from `lo` up to `hi` ascend strictly.
pub open spec fn ascending(indices: Seq<usize>, lo: int, hi: int) -> bool {
    forall|k1: int, k2: int|
        lo <= k1 < k2 < hi ==> #[trigger] indices[k1] < #[trigger] indices[k2]
}

/// Within every one of the first `n` rows the column indices ascend
/// strictly.
pub open spec fn rows_ascending(indptr: Seq<usize>, indices: Seq<usize>, n: int) -> bool {
    forall|r: int|
        0 <= r < n ==> ascending(indices, (#[trigger] indptr[r]) as int, indptr[r + 1] as int)
}

/// A layout is valid when the row pointer starts at 0, never decreases and
/// ends at the number of column indices, and when the column indices lie
/// below `ncols` and ascend strictly within each row.
pub open spec fn valid_layout(indptr: Seq<usize>, indices: Seq<usize>, ncols: int) -> bool {
    &&& indptr.len() >= 1
    &&& indptr[0] == 0
    &&& monotone(indptr)
    &&& indptr[indptr.len() - 1] == indices.len()
    &&& in_range(indices, ncols)
    &&& rows_ascending(indptr, indices, indptr.len() - 1)
}

/// The occupied columns of each row of a matrix, in compressed sparse row
/// layout.
pub struct SparsityPattern {
    indptr: Vec<usize>,
    indices: Vec<usize>,
    ncols: usize,
}

impl View for SparsityPattern {
    type V = PatternView;

    closed spec fn view(&self) -> PatternView {
        layout_view(self.indptr@, self.indices@, self.ncols as int)
    }
}

/// Whether the row pointer never decreases.
fn check_monotone(indptr: &Vec<usize>) -> (ok: bool)
    ensures
        ok == monotone(indptr@),
{
    let mut r: usize = 1;
    while r < indptr.len()
        invariant
            1 <= r,
            forall|a: int, b: int|
                0 <= a <= b < r && b < indptr.len() ==> #[trigger] indptr[a] <= #[trigger] indptr[b],
        decreases indptr.len() - r,
    {
        if indptr[r - 1] > indptr[r] {
            return false;
        }
        assert forall|a: int, b: int| 0 <= a <= b < r + 1 && b < indptr.len() implies #[trigger] indptr[a]
            <= #[trigger] indptr[b] by {
            if b == r && a < r {
                assert(indptr[a] <= indptr[r - 1]);
            }
        }
        r += 1;
    }
    true
}

/// Whether every column index lies below `ncols`.
fn check_in_range(indices: &Vec<usize>, ncols: usize) -> (ok: bool)
    ensures
        ok == in_range(indices@, ncols as int),
{
    let mut k: usize = 0;
    while k < indices.len()
        invariant
            forall|j: int| 0 <= j < k && j < indices.len() ==> #[trigger] indices[j] < ncols,
        decreases indices.len() - k,
    {
        if indices[k] >= ncols {
            return false;
        }
        k += 1;
    }
    true
}

/// Whether the column indices ascend strictly within each row.
fn check_rows_ascending(indptr: &Vec<usize>, indices: &Vec<usize>) -> (ok: bool)
    requires
        indptr.len() >= 1,
        monotone(indptr@),
        indptr[indptr.len() - 1] == indices.len(),
    ensures
        ok == rows_ascending(indptr@, indices@, indptr.len() - 1),
{
    let mut r: usize = 0;
    while r + 1 < indptr.len()
        invariant
            r < indptr.len(),
            monotone(indptr@),
            indptr[indptr.len() - 1] == indices.len(),
            rows_ascending(indptr@, indices@, r as int),
        decreases indptr.len() - r,
    {
        let lo = indptr[r];
        let hi = indptr[r + 1];
        assert(indptr[r as int] <= indptr[r + 1] <= indptr[indptr.len() - 1]);
        let mut k: usize = lo;
        while k < hi
            invariant
                lo <= k <= hi,
                hi <= indices.len(),
                lo == indptr[r as int],
                hi == indptr[r + 1],
                r + 1 < indptr.len(),
                ascending(indices@, lo as int, if k < hi { k + 1 } else { hi as int }),
            decreases hi - k,
        {
            if k + 1 < hi {
                if indices[k] >= indices[k + 1] {
                    assert(!ascending(indices@, lo as int, hi as int)) by {
                        if ascending(indices@, lo as int, hi as int) {
                            assert(indices@[k as int] < indices@[k + 1]);
                        }
                    }
                    return false;
                }
                assert forall|k1: int, k2: int| lo <= k1 < k2 < k + 2 implies #[trigger] indices[k1]
                    < #[trigger] indices[k2] by {
                    if k2 == k + 1 && k1 < k {
                        assert(indices[k1] < indices[k as int]);
                    }
                }
            }
            k += 1;
        }
        r += 1;
    }
    true
}

impl SparsityPattern {
    #[verifier::type_invariant]
    spec fn well_formed(self) -> bool {
        valid_layout(self.indptr@, self.indices@, self.ncols as int)
    }

    /// Takes a layout over for a matrix of `ncols` columns: `indptr` is the
    /// row pointer and `indices` holds the column indices. Succeeds exactly
    /// on a valid layout.
    pub fn new(indptr: Vec<usize>, indices: Vec<usize>, ncols: usize) -> (r: Result<
        Self,
        SimilarityError,
    >)
        ensures
            match r {
                Ok(p) => valid_layout(indptr@, indices@, ncols as int) && p@ == layout_view(
                    indptr@,
                    indices@,
                    ncols as int,
                ),
                Err(e) => !valid_layout(indptr@, indices@, ncols as int) && e
                    == SimilarityError::MalformedPattern,
            },
    {
        if indptr.len() == 0 || indptr[0] != 0 || indptr[indptr.len() - 1] != indices.len() {
            return Err(SimilarityError::MalformedPattern);
        }
        if !check_monotone(&indptr) || !check_in_range(&indices, ncols) {
            return Err(SimilarityError::MalformedPattern);
        }
        if !check_rows_ascending(&indptr, &indices) {
            return Err(SimilarityError::MalformedPattern);
        }
        Ok(SparsityPattern { indptr, indices, ncols })
    }

    /// The number of rows.
    pub fn nrows(&self) -> (n: usize)
        ensures
            n == self@.rows.len(),
    {
        proof {
            use_type_invariant(self);
        }
        self.indptr.len() - 1
    }

    /// The number of columns.
    pub fn ncols(&self) -> (n: usize)
        ensures
            n == self@.ncols,
    {
        self.ncols
    }
}

/// Every number of `s` is a position: it is not negative and fits the
/// machine's index type.
pub open spec fn are_positions_i32(s: Seq<i32>) -> bool {
    forall|k: int| 0 <= k < s.len() ==> 0 <= #[trigger] s[k] <= usize::MAX
}

/// The numbers of `s` as positions.
pub open spec fn positions_i32(s: Seq<i32>) -> Seq<usize> {
    Seq::new(s.len(), |k: int| s[k] as usize)
}

/// Every number of `s` is a position: it is not negative and fits the
/// machine's index type.
pub open spec fn are_positions_i64(s: Seq<i64>) -> bool {
    forall|k: int| 0 <= k < s.len() ==> 0 <= #[trigger] s[k] <= usize::MAX
}

/// The numbers of `s` as positions.
pub open spec fn positions_i64(s: Seq<i64>) -> Seq<usize> {
    Seq::new(s.len(), |k: int| s[k] as usize)
}

/// Converts 32-bit numbers to positions, if all of them are positions.
fn to_positions_i32(v: &Vec<i32>) -> (r: Option<Vec<usize>>)
    ensures
        match r {
            Some(out) => are_positions_i32(v@) && out@ == positions_i32(v@),
            None => !are_positions_i32(v@),
        },
{
    let mut out: Vec<usize> = Vec::new();
    let mut k: usize = 0;
    while k < v.len()
        invariant
            k <= v.len(),
            out.len() == k,
            forall|j: int| 0 <= j < k ==> 0 <= #[trigger] v[j] <= usize::MAX,
            forall|j: int| 0 <= j < k ==> #[trigger] out[j] == v[j] as usize,
        decreases v.len() - k,
    {
        let x = v[k];
        if x < 0 || x as u64 > usize::MAX as u64 {
            return None;
        }
        out.push(x as usize);
        k += 1;
    }
    assert(out@ =~= positions_i32(v@));
    Some(out)
}

/// Converts 64-bit numbers to positions, if all of them are positions.
fn to_positions_i64(v: &Vec<i64>) -> (r: Option<Vec<usize>>)
    ensures
        match r {
            Some(out) => are_positions_i64(v@) && out@ == positions_i64(v@),
            None => !are_positions_i64(v@),
        },
{
    let mut out: Vec<usize> = Vec::new();
    let mut k: usize = 0;
    while k < v.len()
        invariant
            k <= v.len(),
            out.len() == k,
            forall|j: int| 0 <= j < k ==> 0 <= #[trigger] v[j] <= usize::MAX,
            forall|j: int| 0 <= j < k ==> #[trigger] out[j] == v[j] as usize,
        decreases v.len() - k,
    {
        let x = v[k];
        if x < 0 || x as u64 > usize::MAX as u64 {
            return None;
        }
        out.push(x as usize);
        k += 1;
    }
    assert(out@ =~= positions_i64(v@));
    Some(out)
}

impl SparsityPattern {
    /// Takes over a layout whose row pointer and column indices are stored
    /// as 32-bit integers. Succeeds exactly when all of them are positions
    /// that form a valid layout.
    pub fn from_i32(indptr: &Vec<i32>, indices: &Vec<i32>, ncols: usize) -> (r: Result<
        Self,
        SimilarityError,
    >)
        ensures
            match r {
                Ok(p) => {
                    &&& are_positions_i32(indptr@)
                    &&& are_positions_i32(indices@)
                    &&& valid_layout(positions_i32(indptr@), positions_i32(indices@), ncols as int)
                    &&& p@ == layout_view(
                        positions_i32(indptr@),
                        positions_i32(indices@),
                        ncols as int,
                    )
                },
                Err(e) => e == SimilarityError::MalformedPattern && !(are_positions_i32(indptr@)
                    && are_positions_i32(indices@) && valid_layout(
                    positions_i32(indptr@),
                    positions_i32(indices@),
                    ncols as int,
                )),
            },
    {
        match to_positions_i32(indptr) {
            None => Err(SimilarityError::MalformedPattern),
            Some(row_pointer) => match to_positions_i32(indices) {
                None => Err(SimilarityError::MalformedPattern),
                Some(columns) => SparsityPattern::new(row_pointer, columns, ncols),
            },
        }
    }

    /// Takes over a layout whose row pointer and column indices are stored
    /// as 64-bit integers. Succeeds exactly when all of them are positions
    /// that form a valid layout.
    pub fn from_i64(indptr: &Vec<i64>, indices: &Vec<i64>, ncols: usize) -> (r: Result<
        Self,
        SimilarityError,
    >)
        ensures
            match r {
                Ok(p) => {
                    &&& are_positions_i64(indptr@)
                    &&& are_positions_i64(indices@)
                    &&& valid_layout(positions_i64(indptr@), positions_i64(indices@), ncols as int)
                    &&& p@ == layout_view(
                        positions_i64(indptr@),
                        positions_i64(indices@),
                        ncols as int,
                    )
                },
                Err(e) => e == SimilarityError::MalformedPattern && !(are_positions_i64(indptr@)
                    && are_positions_i64(indices@) && valid_layout(
                    positions_i64(indptr@),
                    positions_i64(indices@),
                    ncols as int,
                )),
            },
    {
        match to_positions_i64(indptr) {
            None => Err(SimilarityError::MalformedPattern),
            Some(row_pointer) => match to_positions_i64(indices) {
                None => Err(SimilarityError::MalformedPattern),
                Some(columns) => SparsityPattern::new(row_pointer, columns, ncols),
            },
        }
    }
}

impl SparsityPattern {
    /// The row pointer, the column indices and the number of columns.
    pub(crate) fn layout(&self) -> (r: (&Vec<usize>, &Vec<usize>, usize))
        ensures
            valid_layout(r.0@, r.1@, r.2 as int),
            self@ == layout_view(r.0@, r.1@, r.2 as int),
    {
        proof {
            use_type_invariant(self);
        }
        (&self.indptr, &self.indices, self.ncols)
    }
}

} // verus!
