//! Greedy selection of a non-overlapping set of peaks within one group.
//!
//! The best remaining peak is picked again and again, and every remaining
//! peak that overlaps it is dropped. Among peaks of equal rank the one that
//! comes first in the input wins.

use vstd::prelude::*;
use crate::peak::{overlaps, peaks_overlap, Peak, PeakView};

verus! {

/// The models of a sequence of peaks, in the same order.
pub open spec fn views(s: Seq<Peak>) -> Seq<PeakView> {
    Seq::new(s.len(), |i: int| s[i]@)
}

/// Index of the first peak of maximal rank; 0 for an empty sequence.
pub open spec fn best_index(s: Seq<PeakView>) -> int
    decreases s.len(),
{
    if s.len() <= 1 {
        0
    } else {
        let b = best_index(s.drop_last());
        if s.last().rank > s[b].rank {
            s.len() - 1
        } else {
            b
        }
    }
}

/// `b` is the first position of maximal rank in `s`.
pub open spec fn is_best(s: Seq<PeakView>, b: int) -> bool {
    &&& 0 <= b < s.len()
    &&& forall|j: int| 0 <= j < s.len() ==> (#[trigger] s[j]).rank <= s[b].rank
    &&& forall|j: int| 0 <= j < b ==> (#[trigger] s[j]).rank < s[b].rank
}

/// `best_index` is the first position of maximal rank.
pub proof fn lemma_best_index(s: Seq<PeakView>)
    requires
        s.len() > 0,
    ensures
        is_best(s, best_index(s)),
    decreases s.len(),
{
    if s.len() > 1 {
        let t = s.drop_last();
        lemma_best_index(t);
        let b = best_index(t);
        assert forall|j: int| 0 <= j < s.len() implies (#[trigger] s[j]).rank <= s[best_index(
            s,
        )].rank by {
            if j < t.len() {
                assert(t[j] == s[j]);
            }
        }
        assert forall|j: int| 0 <= j < best_index(s) implies (#[trigger] s[j]).rank < s[best_index(
            s,
        )].rank by {
            assert(t[j] == s[j]);
        }
    }
}

/// The peaks of `s` that do not overlap `w`, in their order.
pub open spec fn clear_of(s: Seq<PeakView>, w: PeakView) -> Seq<PeakView>
    decreases s.len(),
{
    if s.len() == 0 {
        Seq::empty()
    } else {
        let rest = clear_of(s.drop_last(), w);
        if overlaps(s.last(), w) {
            rest
        } else {
            rest.push(s.last())
        }
    }
}

/// `clear_of` keeps exactly the peaks that do not overlap `w`, and does not
/// lengthen the sequence.
pub proof fn lemma_clear_of(s: Seq<PeakView>, w: PeakView)
    ensures
        clear_of(s, w).len() <= s.len(),
        forall|x: PeakView| #[trigger]
            clear_of(s, w).contains(x) <==> s.contains(x) && !overlaps(x, w),
    decreases s.len(),
{
    if s.len() > 0 {
        let t = s.drop_last();
        lemma_clear_of(t, w);
        let r = clear_of(t, w);
        assert forall|x: PeakView| #[trigger]
            clear_of(s, w).contains(x) <==> s.contains(x) && !overlaps(x, w) by {
            if clear_of(s, w).contains(x) {
                let i = choose|i: int| 0 <= i < clear_of(s, w).len() && clear_of(s, w)[i] == x;
                if i < r.len() {
                    assert(r.contains(x));
                    let j = choose|j: int| 0 <= j < t.len() && t[j] == x;
                    assert(s[j] == x);
                } else {
                    assert(s[s.len() - 1] == x);
                }
            }
            if s.contains(x) && !overlaps(x, w) {
                let j = choose|j: int| 0 <= j < s.len() && s[j] == x;
                if j < t.len() {
                    assert(t[j] == x);
                    assert(r.contains(x));
                    let i = choose|i: int| 0 <= i < r.len() && r[i] == x;
                    assert(clear_of(s, w)[i] == x);
                } else {
                    assert(clear_of(s, w)[r.len() as int] == x);
                }
            }
        }
    }
}

/// The winners of the greedy selection over one group, in the order in which
/// they are picked: the best peak of `s`, then the winners among the other
/// peaks of `s` that do not overlap it.
pub open spec fn selected(s: Seq<PeakView>) -> Seq<PeakView>
    decreases s.len(),
    via selected_decreases
{
    if s.len() == 0 {
        Seq::empty()
    } else {
        let b = best_index(s);
        seq![s[b]] + selected(clear_of(s.remove(b), s[b]))
    }
}

#[via_fn]
proof fn selected_decreases(s: Seq<PeakView>) {
    if s.len() != 0 {
        lemma_best_index(s);
        let b = best_index(s);
        lemma_clear_of(s.remove(b), s[b]);
    }
}

/// Every winner is one of the candidates.
pub proof fn lemma_selected_subset(s: Seq<PeakView>)
    ensures
        selected(s).len() <= s.len(),
        forall|i: int| 0 <= i < selected(s).len() ==> s.contains(#[trigger] selected(s)[i]),
    decreases s.len(),
{
    if s.len() > 0 {
        lemma_best_index(s);
        let b = best_index(s);
        let rest = clear_of(s.remove(b), s[b]);
        lemma_clear_of(s.remove(b), s[b]);
        lemma_selected_subset(rest);
        assert forall|i: int| 0 <= i < selected(s).len() implies s.contains(
            #[trigger] selected(s)[i],
        ) by {
            if i > 0 {
                let x = selected(rest)[i - 1];
                assert(rest.contains(x));
                assert(s.remove(b).contains(x));
                let j = choose|j: int| 0 <= j < s.remove(b).len() && s.remove(b)[j] == x;
                if j < b {
                    assert(s[j] == x);
                } else {
                    assert(s[j + 1] == x);
                }
            }
        }
    }
}

/// No two winners overlap: whatever the candidates, the peaks that the
/// greedy selection retains are pairwise free of overlap.
pub proof fn lemma_selected_non_overlapping(s: Seq<PeakView>)
    ensures
        forall|i: int, j: int|
            0 <= i < j < selected(s).len() ==> !overlaps(
                #[trigger] selected(s)[i],
                #[trigger] selected(s)[j],
            ),
    decreases s.len(),
{
    if s.len() > 0 {
        lemma_best_index(s);
        let b = best_index(s);
        let rest = clear_of(s.remove(b), s[b]);
        lemma_clear_of(s.remove(b), s[b]);
        lemma_selected_subset(rest);
        lemma_selected_non_overlapping(rest);
        assert forall|i: int, j: int| 0 <= i < j < selected(s).len() implies !overlaps(
            #[trigger] selected(s)[i],
            #[trigger] selected(s)[j],
        ) by {
            if i == 0 {
                let x = selected(rest)[j - 1];
                assert(rest.contains(x));
            } else {
                assert(selected(s)[i] == selected(rest)[i - 1]);
                assert(selected(s)[j] == selected(rest)[j - 1]);
            }
        }
    }
}

/// `x` lost to a winner: some peak of `winners` overlaps it and ranks at
/// least as high.
pub open spec fn dominated(x: PeakView, winners: Seq<PeakView>) -> bool {
    exists|i: int|
        0 <= i < winners.len() && overlaps(#[trigger] winners[i], x) && winners[i].rank >= x.rank
}

/// `x` is accounted for by `winners`: it is one of them, or it lost to one
/// of them.
pub open spec fn settled(x: PeakView, winners: Seq<PeakView>) -> bool {
    winners.contains(x) || dominated(x, winners)
}

/// Every candidate is either retained or dominated: a discarded peak
/// overlaps a retained peak whose rank is at least its own.
pub proof fn lemma_selected_dominates(s: Seq<PeakView>, k: int)
    requires
        0 <= k < s.len(),
    ensures
        settled(s[k], selected(s)),
    decreases s.len(),
{
    lemma_best_index(s);
    let b = best_index(s);
    let w = s[b];
    let x = s[k];
    let others = s.remove(b);
    let rest = clear_of(others, w);
    let sel = selected(s);
    assert(sel[0] == w);
    if k == b {
    } else if overlaps(x, w) {
        assert(overlaps(sel[0], x) && sel[0].rank >= x.rank);
    } else {
        lemma_clear_of(others, w);
        if k < b {
            assert(others[k] == x);
        } else {
            assert(others[k - 1] == x);
        }
        assert(others.contains(x));
        assert(rest.contains(x));
        let m = choose|m: int| 0 <= m < rest.len() && rest[m] == x;
        lemma_selected_dominates(rest, m);
        if selected(rest).contains(x) {
            let i = choose|i: int| 0 <= i < selected(rest).len() && selected(rest)[i] == x;
            assert(sel[i + 1] == x);
        } else {
            let i = choose|i: int|
                0 <= i < selected(rest).len() && overlaps(#[trigger] selected(rest)[i], x)
                    && selected(rest)[i].rank >= x.rank;
            assert(sel[i + 1] == selected(rest)[i]);
        }
    }
}

/// Finds the first peak of maximal rank.
pub fn find_best(peaks: &Vec<Peak>) -> (b: usize)
    requires
        peaks.len() > 0,
    ensures
        b as int == best_index(views(peaks@)),
        b < peaks.len(),
{
    let ghost s = views(peaks@);
    let mut b: usize = 0;
    let mut i: usize = 1;
    assert(s.take(1).len() == 1);
    while i < peaks.len()
        invariant
            1 <= i <= peaks.len(),
            s == views(peaks@),
            b < i,
            b as int == best_index(s.take(i as int)),
        decreases peaks.len() - i,
    {
        proof {
            let t = s.take(i + 1);
            assert(t.drop_last() =~= s.take(i as int));
            assert(t.last() == s[i as int]);
            assert(t[b as int] == s[b as int]);
        }
        if peaks[i].rank > peaks[b].rank {
            b = i;
        }
        i += 1;
    }
    assert(s.take(i as int) =~= s);
    b
}

/// Keeps the peaks that do not overlap `winner`, in their order.
pub fn drop_overlapping(peaks: &Vec<Peak>, winner: &Peak) -> (kept: Vec<Peak>)
    ensures
        views(kept@) == clear_of(views(peaks@), winner@),
{
    let ghost s = views(peaks@);
    let mut kept: Vec<Peak> = Vec::new();
    let mut i: usize = 0;
    assert(views(kept@) =~= clear_of(s.take(0), winner@));
    while i < peaks.len()
        invariant
            i <= peaks.len(),
            s == views(peaks@),
            views(kept@) == clear_of(s.take(i as int), winner@),
        decreases peaks.len() - i,
    {
        proof {
            let t = s.take(i + 1);
            assert(t.drop_last() =~= s.take(i as int));
            assert(t.last() == peaks[i as int]@);
        }
        let ghost before = views(kept@);
        if !peaks_overlap(&peaks[i], winner) {
            let p = peaks[i].clone();
            kept.push(p);
            assert(views(kept@) =~= before.push(peaks[i as int]@));
        }
        i += 1;
    }
    assert(s.take(i as int) =~= s);
    kept
}

/// Selects a non-overlapping subset of one group of peaks.
///
/// The peak of highest rank wins (the earliest of them where ranks tie), and
/// every other peak that overlaps it is discarded; the same is then done with
/// what is left, until nothing is left. The winners come out in the order in
/// which they were picked.
pub fn iterative_merge(peaks: Vec<Peak>) -> (result: Vec<Peak>)
    ensures
        views(result@) == selected(views(peaks@)),
{
    let ghost all = views(peaks@);
    let mut remaining = peaks;
    let mut result: Vec<Peak> = Vec::new();
    assert(views(result@) + selected(views(remaining@)) =~= selected(all));
    while remaining.len() > 0
        invariant
            views(result@) + selected(views(remaining@)) == selected(all),
        decreases remaining.len(),
    {
        let ghost before = views(remaining@);
        let ghost done = views(result@);
        let b = find_best(&remaining);
        let best = remaining.remove(b);
        assert(views(remaining@) =~= before.remove(b as int));
        let kept = drop_overlapping(&remaining, &best);
        proof {
            lemma_clear_of(before.remove(b as int), before[b as int]);
        }
        remaining = kept;
        result.push(best);
        assert(views(result@) =~= done.push(before[b as int]));
        assert(done.push(before[b as int]) + selected(views(remaining@)) =~= done + selected(
            before,
        ));
    }
    assert(views(result@) + Seq::<PeakView>::empty() =~= views(result@));
    result
}

} // verus!
