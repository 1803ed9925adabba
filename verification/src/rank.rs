//! Ranks: a total order on values given as IEEE 754 binary64 bit patterns,
//! and the rank transform of a sample.
//!
//! Peaks compete by an integer rank. A confidence value that is held as a
//! 64-bit floating-point number is turned into such a rank from its bit
//! pattern: ranks order bit patterns as the numbers they encode are ordered,
//! the two zeros rank alike, and every pattern that encodes no number ranks
//! below all numbers.
//!
//! The rank transform replaces each value of a sample by its position in
//! the sorted sample, counted from 1, and values that tie by the average of
//! their positions. Averages may end in one half, so the transform gives
//! twice the rank.

use vstd::prelude::*;

verus! {

/// The sign bit of a binary64 pattern.
pub const SIGN_BIT: u64 = 0x8000_0000_0000_0000;

/// The pattern of positive infinity: the largest magnitude that is a number.
pub const INFINITY_BITS: u64 = 0x7FF0_0000_0000_0000;

/// The pattern has its sign bit set.
pub open spec fn is_negative(bits: u64) -> bool {
    bits >= SIGN_BIT
}

/// The pattern without its sign bit.
pub open spec fn magnitude(bits: u64) -> int {
    if is_negative(bits) {
        bits - SIGN_BIT
    } else {
        bits as int
    }
}

/// The pattern encodes no number.
pub open spec fn is_nan(bits: u64) -> bool {
    magnitude(bits) > INFINITY_BITS
}

/// The rank of a bit pattern: 0 for a pattern that encodes no number,
/// otherwise the magnitude counted upwards from `SIGN_BIT` for a number that
/// is not negative and downwards from it for a negative one.
pub open spec fn rank_key(bits: u64) -> int {
    if is_nan(bits) {
        0
    } else if is_negative(bits) {
        SIGN_BIT - magnitude(bits)
    } else {
        SIGN_BIT + magnitude(bits)
    }
}

/// Computes the rank of a binary64 bit pattern.
pub fn rank_of_bits(bits: u64) -> (r: u64)
    ensures
        r as int == rank_key(bits),
{
    let negative = bits >= SIGN_BIT;
    let m = if negative {
        bits - SIGN_BIT
    } else {
        bits
    };
    if m > INFINITY_BITS {
        0
    } else if negative {
        SIGN_BIT - m
    } else {
        SIGN_BIT + m
    }
}

/// The rank is a total order in which patterns that encode no number come
/// lowest, negative numbers rank by falling magnitude, other numbers by
/// rising magnitude, every negative number other than zero ranks below every
/// number that is not negative, and the two zeros rank alike.
pub proof fn lemma_rank_order(a: u64, b: u64)
    ensures
        0 <= rank_key(a) <= u64::MAX,
        is_nan(a) && !is_nan(b) ==> rank_key(a) < rank_key(b),
        is_nan(a) && is_nan(b) ==> rank_key(a) == rank_key(b),
        !is_nan(a) && !is_nan(b) && !is_negative(a) && !is_negative(b) ==> (rank_key(a) < rank_key(
            b,
        ) <==> magnitude(a) < magnitude(b)),
        !is_nan(a) && !is_nan(b) && is_negative(a) && is_negative(b) ==> (rank_key(a) < rank_key(b)
            <==> magnitude(a) > magnitude(b)),
        !is_nan(a) && !is_nan(b) && is_negative(a) && !is_negative(b) ==> (rank_key(a) < rank_key(b)
            <==> magnitude(a) > 0 || magnitude(b) > 0),
        !is_nan(a) && !is_nan(b) && magnitude(a) == 0 && magnitude(b) == 0 ==> rank_key(a)
            == rank_key(b),
{
}

/// The number of elements of `s` for which `f` holds.
pub open spec fn count_where(s: Seq<u64>, f: spec_fn(u64) -> bool) -> int
    decreases s.len(),
{
    if s.len() == 0 {
        0
    } else {
        count_where(s.drop_last(), f) + if f(s.last()) {
            1int
        } else {
            0int
        }
    }
}

/// The values below `x`.
pub open spec fn below(x: u64) -> spec_fn(u64) -> bool {
    |v: u64| v < x
}

/// The values equal to `x`.
pub open spec fn same(x: u64) -> spec_fn(u64) -> bool {
    |v: u64| v == x
}

/// Twice the average rank of `x` in the sample `s`: where `l` values of the
/// sample lie below `x` and `e` values equal it, these take the positions
/// `l + 1` to `l + e`, whose average is `l + (e + 1) / 2`.
pub open spec fn doubled_rank(s: Seq<u64>, x: u64) -> int {
    2 * count_where(s, below(x)) + count_where(s, same(x)) + 1
}

/// Taking one element out lowers the count by one where `f` holds of it.
proof fn lemma_count_remove(s: Seq<u64>, f: spec_fn(u64) -> bool, j: int)
    requires
        0 <= j < s.len(),
    ensures
        count_where(s, f) == count_where(s.remove(j), f) + if f(s[j]) {
            1int
        } else {
            0int
        },
    decreases s.len(),
{
    if j == s.len() - 1 {
        assert(s.remove(j) =~= s.drop_last());
    } else {
        lemma_count_remove(s.drop_last(), f, j);
        assert(s.remove(j).drop_last() =~= s.drop_last().remove(j));
        assert(s.remove(j).last() == s.last());
    }
}

/// Two samples that hold the same values equally often give the same
/// counts.
proof fn lemma_count_permutation(s: Seq<u64>, t: Seq<u64>, f: spec_fn(u64) -> bool)
    requires
        s.to_multiset() == t.to_multiset(),
    ensures
        count_where(s, f) == count_where(t, f),
    decreases s.len(),
{
    s.to_multiset_ensures();
    t.to_multiset_ensures();
    assert(s.len() == s.to_multiset().len());
    assert(t.len() == t.to_multiset().len());
    if s.len() > 0 {
        let e = s.last();
        assert(s.contains(e)) by {
            assert(s[s.len() - 1] == e);
        }
        assert(s.to_multiset().count(e) > 0);
        assert(t.to_multiset().count(e) > 0);
        assert(t.contains(e));
        let j = choose|j: int| 0 <= j < t.len() && t[j] == e;
        assert(s.remove(s.len() - 1) =~= s.drop_last());
        assert(s.remove(s.len() - 1).to_multiset() =~= s.to_multiset().remove(e));
        assert(t.remove(j).to_multiset() =~= t.to_multiset().remove(e));
        lemma_count_permutation(s.drop_last(), t.remove(j), f);
        lemma_count_remove(t, f, j);
    }
}

/// Where `f` holds exactly of the elements from position `p` up to `q`, it
/// holds of `q - p` elements.
proof fn lemma_count_range(s: Seq<u64>, f: spec_fn(u64) -> bool, p: int, q: int)
    requires
        0 <= p <= q <= s.len(),
        forall|k: int| 0 <= k < s.len() ==> (f(#[trigger] s[k]) <==> p <= k < q),
    ensures
        count_where(s, f) == q - p,
    decreases s.len(),
{
    if s.len() > 0 {
        let t = s.drop_last();
        let n = s.len() - 1;
        assert forall|k: int| 0 <= k < t.len() implies (f(#[trigger] t[k]) <==> p <= k < (if q
            <= n {
            q
        } else {
            n
        })) by {
            assert(t[k] == s[k]);
        }
        if p <= n {
            lemma_count_range(
                t,
                f,
                p,
                if q <= n {
                    q
                } else {
                    n
                },
            );
        } else {
            lemma_count_range(t, f, n, n);
        }
        assert(f(s[n]) <==> p <= n < q);
    }
}

/// The values ascend.
pub open spec fn sorted(s: Seq<u64>) -> bool {
    forall|i: int, j: int| 0 <= i <= j < s.len() ==> #[trigger] s[i] <= #[trigger] s[j]
}

/// Sorts numbers with `slice::sort_unstable` of the standard library, which
/// orders the slice in place. The claim is that the numbers ascend
/// afterwards and that each occurs as often as before.
#[verifier::external_body]
fn sort_numbers(v: &mut Vec<u64>)
    ensures
        sorted(final(v)@),
        final(v)@.to_multiset() == old(v)@.to_multiset(),
{
    v.sort_unstable();
}

/// The first position of a sorted sample whose value is not below `x`.
fn lower_bound(v: &Vec<u64>, x: u64) -> (p: usize)
    requires
        sorted(v@),
    ensures
        p <= v.len(),
        forall|k: int| 0 <= k < p ==> #[trigger] v[k] < x,
        forall|k: int| p <= k < v.len() ==> #[trigger] v[k] >= x,
{
    let mut lo: usize = 0;
    let mut hi: usize = v.len();
    while lo < hi
        invariant
            lo <= hi <= v.len(),
            sorted(v@),
            forall|k: int| 0 <= k < lo ==> #[trigger] v[k] < x,
            forall|k: int| hi <= k < v.len() ==> #[trigger] v[k] >= x,
        decreases hi - lo,
    {
        let mid = lo + (hi - lo) / 2;
        if v[mid] < x {
            assert forall|k: int| 0 <= k < mid + 1 implies #[trigger] v[k] < x by {
                assert(v[k] <= v[mid as int]);
            }
            lo = mid + 1;
        } else {
            assert forall|k: int| mid <= k < v.len() implies #[trigger] v[k] >= x by {
                assert(v[mid as int] <= v[k]);
            }
            hi = mid;
        }
    }
    lo
}

/// The first position of a sorted sample whose value is above `x`.
fn upper_bound(v: &Vec<u64>, x: u64) -> (q: usize)
    requires
        sorted(v@),
    ensures
        q <= v.len(),
        forall|k: int| 0 <= k < q ==> #[trigger] v[k] <= x,
        forall|k: int| q <= k < v.len() ==> #[trigger] v[k] > x,
{
    let mut lo: usize = 0;
    let mut hi: usize = v.len();
    while lo < hi
        invariant
            lo <= hi <= v.len(),
            sorted(v@),
            forall|k: int| 0 <= k < lo ==> #[trigger] v[k] <= x,
            forall|k: int| hi <= k < v.len() ==> #[trigger] v[k] > x,
        decreases hi - lo,
    {
        let mid = lo + (hi - lo) / 2;
        if v[mid] <= x {
            assert forall|k: int| 0 <= k < mid + 1 implies #[trigger] v[k] <= x by {
                assert(v[k] <= v[mid as int]);
            }
            lo = mid + 1;
        } else {
            assert forall|k: int| mid <= k < v.len() implies #[trigger] v[k] > x by {
                assert(v[mid as int] <= v[k]);
            }
            hi = mid;
        }
    }
    lo
}

/// The rank transform of a sample: for each value twice its average rank.
///
/// The sample must be short enough for twice its length to be a 64-bit
/// number.
pub fn doubled_ranks(sample: &Vec<u64>) -> (ranks: Vec<u64>)
    requires
        2 * sample.len() + 1 <= u64::MAX,
    ensures
        ranks.len() == sample.len(),
        forall|i: int|
            0 <= i < sample.len() ==> (#[trigger] ranks[i]) as int == doubled_rank(
                sample@,
                sample[i],
            ),
        forall|i: int| 0 <= i < sample.len() ==> 1 <= #[trigger] ranks[i] <= 2 * sample.len(),
{
    let mut ordered = sample.clone();
    assert(ordered@ =~= sample@);
    sort_numbers(&mut ordered);
    proof {
        ordered@.to_multiset_ensures();
        sample@.to_multiset_ensures();
        assert(ordered@.len() == ordered@.to_multiset().len());
        assert(sample@.len() == sample@.to_multiset().len());
    }
    let mut ranks: Vec<u64> = Vec::new();
    let mut i: usize = 0;
    while i < sample.len()
        invariant
            i <= sample.len(),
            2 * sample.len() + 1 <= u64::MAX,
            sorted(ordered@),
            ordered@.to_multiset() == sample@.to_multiset(),
            ordered.len() == sample.len(),
            ranks.len() == i,
            forall|k: int|
                0 <= k < i ==> (#[trigger] ranks[k]) as int == doubled_rank(sample@, sample[k]),
            forall|k: int| 0 <= k < i ==> 1 <= #[trigger] ranks[k] <= 2 * sample.len(),
        decreases sample.len() - i,
    {
        let x = sample[i];
        let p = lower_bound(&ordered, x);
        let q = upper_bound(&ordered, x);
        proof {
            assert(p <= q) by {
                if q < p {
                    assert(ordered[q as int] < x);
                }
            }
            assert(p < q) by {
                assert(sample@.contains(x)) by {
                    assert(sample@[i as int] == x);
                }
                ordered@.to_multiset_ensures();
                sample@.to_multiset_ensures();
                assert(sample@.to_multiset().count(x) > 0);
                assert(ordered@.to_multiset().count(x) > 0);
                assert(ordered@.contains(x));
                let k = choose|k: int| 0 <= k < ordered@.len() && ordered@[k] == x;
                if k < p {
                    assert(ordered[k] < x);
                }
                if k >= q {
                    assert(ordered[k] > x);
                }
            }
            assert forall|k: int| 0 <= k < ordered.len() implies (below(x)(#[trigger] ordered@[k])
                <==> 0 <= k < p) by {
                if k < p {
                    assert(ordered[k] < x);
                } else {
                    assert(ordered[k] >= x);
                }
            }
            assert forall|k: int| 0 <= k < ordered.len() implies (same(x)(#[trigger] ordered@[k])
                <==> p <= k < q) by {
                if k < p {
                    assert(ordered[k] < x);
                } else if k < q {
                    assert(ordered[k] >= x);
                    assert(ordered[k] <= x);
                } else {
                    assert(ordered[k] > x);
                }
            }
            lemma_count_range(ordered@, below(x), 0, p as int);
            lemma_count_range(ordered@, same(x), p as int, q as int);
            lemma_count_permutation(ordered@, sample@, below(x));
            lemma_count_permutation(ordered@, sample@, same(x));
        }
        let p64 = p as u64;
        let q64 = q as u64;
        ranks.push(2 * p64 + (q64 - p64) + 1);
        i += 1;
    }
    ranks
}

} // verus!
