//! Consolidation of candidate peaks into non-overlapping representatives.
//!
//! Every candidate is first rewritten to a window of fixed width around its
//! summit. The windows are then grouped by chromosome, in the order in which
//! the chromosomes are first seen, and each group is thinned out by the
//! greedy selection of [`crate::selection`].

use vstd::prelude::*;
use crate::peak::{overlaps, Peak, PeakView};
use crate::selection::{
    dominated, iterative_merge, lemma_selected_dominates, lemma_selected_non_overlapping,
    lemma_selected_subset, selected, settled, views,
};

verus! {

/// The window of `half_window` positions to either side of the summit of
/// `p`, cut off at position 0. The summit keeps its absolute position.
pub open spec fn recentered(p: PeakView, half_window: int) -> PeakView {
    let summit = p.summit();
    let start = if summit >= half_window {
        summit - half_window
    } else {
        0
    };
    PeakView {
        chrom: p.chrom,
        start: start,
        end: summit + half_window + 1,
        summit_offset: summit - start,
        rank: p.rank,
        record: p.record,
    }
}

/// The end of the window around the summit of `p` is a representable
/// coordinate.
pub open spec fn fits_window(p: PeakView, half_window: int) -> bool {
    p.summit() + half_window + 1 <= u64::MAX
}

/// Every peak of `s` recentered.
pub open spec fn recentered_all(s: Seq<PeakView>, half_window: int) -> Seq<PeakView> {
    Seq::new(s.len(), |i: int| recentered(s[i], half_window))
}

/// The distinct chromosomes of `s`, in the order in which they first occur.
pub open spec fn chromosomes(s: Seq<PeakView>) -> Seq<Seq<char>>
    decreases s.len(),
{
    if s.len() == 0 {
        Seq::empty()
    } else {
        let seen = chromosomes(s.drop_last());
        if seen.contains(s.last().chrom) {
            seen
        } else {
            seen.push(s.last().chrom)
        }
    }
}

/// The peaks of `s` that lie on chromosome `c`, in their order.
pub open spec fn on_chromosome(s: Seq<PeakView>, c: Seq<char>) -> Seq<PeakView>
    decreases s.len(),
{
    if s.len() == 0 {
        Seq::empty()
    } else {
        let before = on_chromosome(s.drop_last(), c);
        if s.last().chrom == c {
            before.push(s.last())
        } else {
            before
        }
    }
}

/// The result of consolidating `s`: one group per chromosome, in first-seen
/// order, holding the winners among the recentered peaks of that chromosome.
pub open spec fn merged(s: Seq<PeakView>, half_window: int) -> Seq<Seq<PeakView>> {
    let r = recentered_all(s, half_window);
    Seq::new(chromosomes(r).len(), |g: int| selected(on_chromosome(r, chromosomes(r)[g])))
}

/// The models of a sequence of groups of peaks.
pub open spec fn group_views(groups: Seq<Vec<Peak>>) -> Seq<Seq<PeakView>> {
    Seq::new(groups.len(), |g: int| views(groups[g]@))
}

/// Some peak of `s` lies on chromosome `c`.
pub open spec fn occurs(s: Seq<PeakView>, c: Seq<char>) -> bool {
    exists|k: int| 0 <= k < s.len() && (#[trigger] s[k]).chrom == c
}

/// `chromosomes` lists each chromosome of `s` once, and nothing else.
pub proof fn lemma_chromosomes(s: Seq<PeakView>)
    ensures
        chromosomes(s).no_duplicates(),
        forall|k: int| 0 <= k < s.len() ==> chromosomes(s).contains((#[trigger] s[k]).chrom),
        forall|g: int| 0 <= g < chromosomes(s).len() ==> occurs(s, #[trigger] chromosomes(s)[g]),
    decreases s.len(),
{
    if s.len() > 0 {
        let t = s.drop_last();
        let seen = chromosomes(t);
        let c = s.last().chrom;
        lemma_chromosomes(t);
        assert forall|k: int| 0 <= k < s.len() implies chromosomes(s).contains(
            (#[trigger] s[k]).chrom,
        ) by {
            if k < t.len() {
                assert(seen.contains(t[k].chrom));
                let g = choose|g: int| 0 <= g < seen.len() && seen[g] == t[k].chrom;
                assert(chromosomes(s)[g] == s[k].chrom);
            } else if seen.contains(c) {
            } else {
                assert(chromosomes(s)[seen.len() as int] == c);
            }
        }
        assert forall|g: int| 0 <= g < chromosomes(s).len() implies occurs(
            s,
            #[trigger] chromosomes(s)[g],
        ) by {
            if g < seen.len() {
                assert(occurs(t, seen[g]));
                let k = choose|k: int| 0 <= k < t.len() && (#[trigger] t[k]).chrom == seen[g];
                assert(s[k].chrom == chromosomes(s)[g]);
            } else {
                assert(s[s.len() - 1].chrom == chromosomes(s)[g]);
            }
        }
    }
}

/// `on_chromosome` keeps exactly the peaks of chromosome `c`.
pub proof fn lemma_on_chromosome(s: Seq<PeakView>, c: Seq<char>)
    ensures
        on_chromosome(s, c).len() <= s.len(),
        forall|i: int|
            0 <= i < on_chromosome(s, c).len() ==> (#[trigger] on_chromosome(s, c)[i]).chrom == c
                && s.contains(on_chromosome(s, c)[i]),
        forall|k: int|
            0 <= k < s.len() && s[k].chrom == c ==> on_chromosome(s, c).contains(#[trigger] s[k]),
    decreases s.len(),
{
    if s.len() > 0 {
        let t = s.drop_last();
        let before = on_chromosome(t, c);
        lemma_on_chromosome(t, c);
        assert forall|i: int| 0 <= i < on_chromosome(s, c).len() implies (#[trigger] on_chromosome(
            s,
            c,
        )[i]).chrom == c && s.contains(on_chromosome(s, c)[i]) by {
            if i < before.len() {
                let x = before[i];
                assert(t.contains(x));
                let k = choose|k: int| 0 <= k < t.len() && t[k] == x;
                assert(s[k] == x);
            } else {
                assert(s[s.len() - 1] == on_chromosome(s, c)[i]);
            }
        }
        assert forall|k: int| 0 <= k < s.len() && s[k].chrom == c implies on_chromosome(
            s,
            c,
        ).contains(#[trigger] s[k]) by {
            if k < t.len() {
                assert(before.contains(t[k]));
                let i = choose|i: int| 0 <= i < before.len() && before[i] == t[k];
                assert(on_chromosome(s, c)[i] == s[k]);
            } else {
                assert(on_chromosome(s, c)[before.len() as int] == s[k]);
            }
        }
    }
}

/// Rewrites a peak to the window of `half_window` positions to either side
/// of its summit. The window must end at a representable coordinate.
pub fn recenter(p: &Peak, half_window: u64) -> (r: Peak)
    requires
        fits_window(p@, half_window as int),
    ensures
        r@ == recentered(p@, half_window as int),
{
    let summit = p.start + p.summit_offset;
    let start = if summit >= half_window {
        summit - half_window
    } else {
        0
    };
    Peak {
        chrom: p.chrom.clone(),
        start,
        end: summit + half_window + 1,
        summit_offset: summit - start,
        rank: p.rank,
        record: p.record,
    }
}

/// Whether the window around the summit of every peak ends at a
/// representable coordinate.
pub fn windows_fit(peaks: &Vec<Peak>, half_window: u64) -> (ok: bool)
    ensures
        ok == forall|i: int|
            0 <= i < peaks.len() ==> fits_window(#[trigger] peaks[i]@, half_window as int),
{
    let mut i: usize = 0;
    while i < peaks.len()
        invariant
            i <= peaks.len(),
            forall|k: int| 0 <= k < i ==> fits_window(#[trigger] peaks[k]@, half_window as int),
        decreases peaks.len() - i,
    {
        let fits = match peaks[i].start.checked_add(peaks[i].summit_offset) {
            Some(summit) => match summit.checked_add(half_window) {
                Some(reach) => reach < u64::MAX,
                None => false,
            },
            None => false,
        };
        if !fits {
            assert(!fits_window(peaks[i as int]@, half_window as int));
            return false;
        }
        i += 1;
    }
    true
}

/// Position of `chrom` among `names`, if it is there.
fn position_of(names: &Vec<String>, chrom: &String) -> (r: Option<usize>)
    ensures
        match r {
            Some(g) => g < names.len() && names[g as int]@ == chrom@,
            None => forall|g: int| 0 <= g < names.len() ==> names[g]@ != chrom@,
        },
{
    let mut g: usize = 0;
    while g < names.len()
        invariant
            g <= names.len(),
            forall|h: int| 0 <= h < g ==> names[h]@ != chrom@,
        decreases names.len() - g,
    {
        if names[g] == *chrom {
            return Some(g);
        }
        g += 1;
    }
    None
}

/// Splits peaks into one group per chromosome. The groups come in the order
/// in which their chromosomes first occur, and each keeps the order of its
/// peaks.
pub fn group_by_chromosome(peaks: &Vec<Peak>) -> (groups: Vec<Vec<Peak>>)
    ensures
        groups.len() == chromosomes(views(peaks@)).len(),
        forall|g: int|
            0 <= g < groups.len() ==> views(#[trigger] groups[g]@) == on_chromosome(
                views(peaks@),
                chromosomes(views(peaks@))[g],
            ),
{
    let ghost s = views(peaks@);
    let mut names: Vec<String> = Vec::new();
    let mut groups: Vec<Vec<Peak>> = Vec::new();
    let mut i: usize = 0;
    while i < peaks.len()
        invariant
            i <= peaks.len(),
            s == views(peaks@),
            names.len() == groups.len(),
            groups.len() == chromosomes(s.take(i as int)).len(),
            forall|g: int|
                0 <= g < names.len() ==> (#[trigger] names[g])@ == chromosomes(
                    s.take(i as int),
                )[g],
            forall|g: int|
                0 <= g < groups.len() ==> views(#[trigger] groups[g]@) == on_chromosome(
                    s.take(i as int),
                    chromosomes(s.take(i as int))[g],
                ),
        decreases peaks.len() - i,
    {
        let ghost t = s.take(i as int);
        let ghost u = s.take(i + 1);
        let ghost seen = chromosomes(t);
        let ghost old_groups = groups@;
        proof {
            assert(u.drop_last() =~= t);
            assert(u.last() == peaks[i as int]@);
            lemma_chromosomes(t);
        }
        let p = peaks[i].clone();
        match position_of(&names, &peaks[i].chrom) {
            Some(g) => {
                assert(seen[g as int] == p@.chrom);
                assert(chromosomes(u) == seen);
                let ghost before = views(groups[g as int]@);
                groups[g].push(p);
                assert(views(groups[g as int]@) =~= before.push(peaks[i as int]@));
                assert forall|h: int| 0 <= h < groups.len() implies views(
                    #[trigger] groups[h]@,
                ) == on_chromosome(u, chromosomes(u)[h]) by {
                    if h != g {
                        assert(groups[h] == old_groups[h]);
                    }
                }
            },
            None => {
                assert(!seen.contains(p@.chrom)) by {
                    if seen.contains(p@.chrom) {
                        let g = choose|g: int| 0 <= g < seen.len() && seen[g] == p@.chrom;
                        assert(names[g]@ == seen[g]);
                    }
                }
                assert(chromosomes(u) == seen.push(p@.chrom));
                proof {
                    lemma_absent_chromosome(t, p@.chrom);
                }
                names.push(peaks[i].chrom.clone());
                let mut group: Vec<Peak> = Vec::new();
                group.push(p);
                assert(views(group@) =~= Seq::<PeakView>::empty().push(peaks[i as int]@));
                groups.push(group);
                assert forall|h: int| 0 <= h < groups.len() implies views(
                    #[trigger] groups[h]@,
                ) == on_chromosome(u, chromosomes(u)[h]) by {
                    if h < old_groups.len() {
                        assert(groups[h] == old_groups[h]);
                        assert(seen.contains(seen[h]));
                    }
                }
            },
        }
        i += 1;
    }
    assert(s.take(i as int) =~= s);
    groups
}

/// A chromosome that `chromosomes` does not list has no peaks.
pub proof fn lemma_absent_chromosome(s: Seq<PeakView>, c: Seq<char>)
    requires
        !chromosomes(s).contains(c),
    ensures
        on_chromosome(s, c) == Seq::<PeakView>::empty(),
    decreases s.len(),
{
    if s.len() > 0 {
        let t = s.drop_last();
        lemma_chromosomes(s);
        assert(chromosomes(s).contains(s[s.len() - 1].chrom));
        if chromosomes(t).contains(c) {
            let g = choose|g: int| 0 <= g < chromosomes(t).len() && chromosomes(t)[g] == c;
            assert(chromosomes(s)[g] == c);
        }
        lemma_absent_chromosome(t, c);
    }
}

/// Consolidates candidate peaks into non-overlapping representatives.
///
/// Each peak is recentered on its summit, the windows are grouped by
/// chromosome in first-seen order, and each group is reduced to its winners
/// by greedy selection: the result is exactly `merged`. Groups come out in
/// the order in which their chromosomes first occur in `peaks`; callers
/// should not build on that order. The window of every peak must end at a
/// representable coordinate, which `windows_fit` tells.
pub fn merge_peaks(peaks: Vec<Peak>, half_window_size: u64) -> (result: Vec<Vec<Peak>>)
    requires
        forall|i: int| 0 <= i < peaks.len() ==> fits_window(#[trigger] peaks[i]@, half_window_size as int),
    ensures
        group_views(result@) == merged(views(peaks@), half_window_size as int),
        forall|g: int, i: int, j: int|
            0 <= g < result.len() && 0 <= i < j < result[g].len() ==> !overlaps(
                #[trigger] result[g][i]@,
                #[trigger] result[g][j]@,
            ),
{
    let ghost s = views(peaks@);
    let ghost hw = half_window_size as int;
    let mut windows: Vec<Peak> = Vec::new();
    let mut i: usize = 0;
    while i < peaks.len()
        invariant
            i <= peaks.len(),
            s == views(peaks@),
            hw == half_window_size as int,
            forall|k: int| 0 <= k < peaks.len() ==> fits_window(#[trigger] peaks[k]@, hw),
            windows.len() == i,
            forall|k: int| 0 <= k < i ==> (#[trigger] windows[k])@ == recentered(s[k], hw),
        decreases peaks.len() - i,
    {
        let w = recenter(&peaks[i], half_window_size);
        windows.push(w);
        i += 1;
    }
    assert(views(windows@) =~= recentered_all(s, hw));
    let mut groups = group_by_chromosome(&windows);
    let ghost r = recentered_all(s, hw);
    let mut result: Vec<Vec<Peak>> = Vec::new();
    let mut g: usize = 0;
    while g < groups.len()
        invariant
            g <= groups.len(),
            groups.len() == chromosomes(r).len(),
            result.len() == g,
            forall|h: int|
                0 <= h < g ==> views(#[trigger] result[h]@) == selected(
                    on_chromosome(r, chromosomes(r)[h]),
                ),
            forall|h: int|
                g <= h < groups.len() ==> views(#[trigger] groups[h]@) == on_chromosome(
                    r,
                    chromosomes(r)[h],
                ),
        decreases groups.len() - g,
    {
        let mut group: Vec<Peak> = Vec::new();
        std::mem::swap(&mut group, &mut groups[g]);
        let winners = iterative_merge(group);
        result.push(winners);
        g += 1;
    }
    assert(group_views(result@) =~= merged(s, hw));
    proof {
        lemma_merged_non_overlapping(s, hw);
        assert forall|g: int, i: int, j: int|
            0 <= g < result.len() && 0 <= i < j < result[g].len() implies !overlaps(
            #[trigger] result[g][i]@,
            #[trigger] result[g][j]@,
        ) by {
            assert(group_views(result@)[g] == views(result[g]@));
            assert(merged(s, hw)[g][i] == result[g][i]@);
            assert(merged(s, hw)[g][j] == result[g][j]@);
        }
    }
    result
}

/// Non-overlap: in the result of a consolidation no two peaks of one group
/// overlap.
pub proof fn lemma_merged_non_overlapping(s: Seq<PeakView>, half_window: int)
    ensures
        forall|g: int, i: int, j: int|
            0 <= g < merged(s, half_window).len() && 0 <= i < j < merged(s, half_window)[g].len()
                ==> !overlaps(
                #[trigger] merged(s, half_window)[g][i],
                #[trigger] merged(s, half_window)[g][j],
            ),
{
    let r = recentered_all(s, half_window);
    assert forall|g: int, i: int, j: int|
        0 <= g < merged(s, half_window).len() && 0 <= i < j < merged(
            s,
            half_window,
        )[g].len() implies !overlaps(
        #[trigger] merged(s, half_window)[g][i],
        #[trigger] merged(s, half_window)[g][j],
    ) by {
        lemma_selected_non_overlapping(on_chromosome(r, chromosomes(r)[g]));
    }
}

/// Every peak of group `g` of a consolidation lies on the chromosome of that
/// group and is the window of one of the candidates.
pub proof fn lemma_merged_from_input(s: Seq<PeakView>, half_window: int, g: int, i: int)
    requires
        0 <= g < merged(s, half_window).len(),
        0 <= i < merged(s, half_window)[g].len(),
    ensures
        merged(s, half_window)[g][i].chrom == chromosomes(recentered_all(s, half_window))[g],
        exists|k: int|
            0 <= k < s.len() && merged(s, half_window)[g][i] == recentered(
                #[trigger] s[k],
                half_window,
            ),
{
    let r = recentered_all(s, half_window);
    let c = chromosomes(r)[g];
    let members = on_chromosome(r, c);
    let x = merged(s, half_window)[g][i];
    lemma_selected_subset(members);
    assert(members.contains(selected(members)[i]));
    lemma_on_chromosome(r, c);
    let m = choose|m: int| 0 <= m < members.len() && members[m] == x;
    assert(members[m].chrom == c && r.contains(members[m]));
    let k = choose|k: int| 0 <= k < r.len() && r[k] == x;
    assert(x == recentered(s[k], half_window));
}

/// Peaks of different groups of a consolidation do not overlap either: they
/// lie on different chromosomes.
pub proof fn lemma_merged_groups_apart(
    s: Seq<PeakView>,
    half_window: int,
    g: int,
    i: int,
    h: int,
    j: int,
)
    requires
        0 <= g < merged(s, half_window).len(),
        0 <= i < merged(s, half_window)[g].len(),
        0 <= h < merged(s, half_window).len(),
        0 <= j < merged(s, half_window)[h].len(),
        g != h,
    ensures
        merged(s, half_window)[g][i].chrom != merged(s, half_window)[h][j].chrom,
        !overlaps(merged(s, half_window)[g][i], merged(s, half_window)[h][j]),
{
    lemma_merged_from_input(s, half_window, g, i);
    lemma_merged_from_input(s, half_window, h, j);
    lemma_chromosomes(recentered_all(s, half_window));
}

/// Domination: the window of every candidate is retained in the group of its
/// chromosome, or it overlaps a retained peak of that group whose rank is at
/// least its own. As the window of a peak whose coordinates are not
/// negative is not empty, the window of every such candidate, discarded or
/// not, overlaps a retained peak whose rank is at least its own.
pub proof fn lemma_merged_dominates(s: Seq<PeakView>, half_window: int, k: int)
    requires
        0 <= k < s.len(),
    ensures
        exists|g: int|
            0 <= g < merged(s, half_window).len() && settled(
                recentered(s[k], half_window),
                #[trigger] merged(s, half_window)[g],
            ),
        0 <= half_window && 0 <= s[k].summit() ==> exists|g: int|
            0 <= g < merged(s, half_window).len() && dominated(
                recentered(s[k], half_window),
                #[trigger] merged(s, half_window)[g],
            ),
{
    let r = recentered_all(s, half_window);
    let x = recentered(s[k], half_window);
    assert(r[k] == x);
    lemma_chromosomes(r);
    assert(chromosomes(r).contains(r[k].chrom));
    let g = choose|g: int| 0 <= g < chromosomes(r).len() && chromosomes(r)[g] == x.chrom;
    let members = on_chromosome(r, x.chrom);
    lemma_on_chromosome(r, x.chrom);
    assert(members.contains(r[k]));
    let m = choose|m: int| 0 <= m < members.len() && members[m] == x;
    lemma_selected_dominates(members, m);
    let winners = merged(s, half_window)[g];
    assert(winners == selected(members));
    assert(settled(x, winners));
    if 0 <= half_window && 0 <= s[k].summit() && winners.contains(x) {
        let i = choose|i: int| 0 <= i < winners.len() && winners[i] == x;
        assert(overlaps(winners[i], x) && winners[i].rank >= x.rank);
    }
}

/// A window is well formed and not empty, whatever the peak it is made
/// from.
pub proof fn lemma_recentered_well_formed(p: PeakView, half_window: int)
    requires
        0 <= p.start,
        0 <= p.summit_offset,
        0 <= half_window,
    ensures
        recentered(p, half_window).well_formed(),
        recentered(p, half_window).start < recentered(p, half_window).end,
        recentered(p, half_window).summit() == p.summit(),
        recentered(p, half_window).end - recentered(p, half_window).start <= 2 * half_window + 1,
{
}

} // verus!
