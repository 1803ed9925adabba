//! Set-membership tests of peaks against lists of regions: removal of
//! blacklisted peaks, reproducibility across replicates, and the presence of
//! consolidated peaks in the samples that they came from.

use vstd::prelude::*;
use crate::clip::{clip_peak, clipped_by, ChromSizes, ClipError};
use crate::merge::{fits_window, group_views, merge_peaks, merged};
use crate::overlap::{region_views, OverlapIndex};
use crate::peak::{regions_overlap, Peak, PeakView, Region, RegionView};
use crate::selection::views;

verus! {

/// Some region of `regions` overlaps `query`.
pub open spec fn hits_any(regions: Seq<RegionView>, query: RegionView) -> bool {
    exists|i: int| 0 <= i < regions.len() && regions_overlap(#[trigger] regions[i], query)
}

/// The regions that the peaks of `s` cover.
pub open spec fn peak_regions(s: Seq<PeakView>) -> Seq<RegionView> {
    Seq::new(s.len(), |i: int| s[i].region())
}

/// The peaks that no region of `blacklist` overlaps.
pub open spec fn is_clear(blacklist: Seq<RegionView>) -> spec_fn(PeakView) -> bool {
    |p: PeakView| !hits_any(blacklist, p.region())
}

/// The peaks that are clear of `blacklist` and that overlap some peak of
/// every replicate.
pub open spec fn is_reproducible(
    replicates: Seq<Seq<RegionView>>,
    blacklist: Seq<RegionView>,
) -> spec_fn(PeakView) -> bool {
    |p: PeakView|
        !hits_any(blacklist, p.region()) && forall|r: int|
            0 <= r < replicates.len() ==> hits_any(#[trigger] replicates[r], p.region())
}

/// One more element either joins what a filter keeps or leaves it as it is.
pub proof fn lemma_filter_step<A>(s: Seq<A>, pred: spec_fn(A) -> bool, i: int)
    requires
        0 <= i < s.len(),
    ensures
        s.take(i + 1).filter(pred) == if pred(s[i]) {
            s.take(i).filter(pred).push(s[i])
        } else {
            s.take(i).filter(pred)
        },
{
    reveal(Seq::filter);
    assert(s.take(i + 1).drop_last() =~= s.take(i));
}

/// The regions that the given peaks cover, in their order.
pub fn regions_of(peaks: &Vec<Peak>) -> (regions: Vec<Region>)
    ensures
        region_views(regions@) == peak_regions(views(peaks@)),
{
    let mut regions: Vec<Region> = Vec::new();
    let mut i: usize = 0;
    while i < peaks.len()
        invariant
            i <= peaks.len(),
            regions.len() == i,
            forall|k: int| 0 <= k < i ==> (#[trigger] regions[k])@ == peaks[k]@.region(),
        decreases peaks.len() - i,
    {
        regions.push(peaks[i].region());
        i += 1;
    }
    assert(region_views(regions@) =~= peak_regions(views(peaks@)));
    regions
}

/// Tells for each of `regions` whether some region of `bed` overlaps it.
pub fn intersect_bed(regions: &Vec<Region>, bed: &Vec<Region>) -> (flags: Vec<bool>)
    ensures
        flags.len() == regions.len(),
        forall|i: int|
            0 <= i < regions.len() ==> #[trigger] flags[i] == hits_any(
                region_views(bed@),
                regions[i]@,
            ),
{
    let index = OverlapIndex::build(bed);
    let mut flags: Vec<bool> = Vec::new();
    let mut i: usize = 0;
    while i < regions.len()
        invariant
            i <= regions.len(),
            index@ == region_views(bed@),
            flags.len() == i,
            forall|k: int|
                0 <= k < i ==> #[trigger] flags[k] == hits_any(region_views(bed@), regions[k]@),
        decreases regions.len() - i,
    {
        let hit = index.is_overlapped(&regions[i]);
        flags.push(hit);
        i += 1;
    }
    flags
}

/// Keeps the peaks that no region of the index overlaps, in their order.
pub fn remove_blacklisted(peaks: &Vec<Peak>, blacklist: &OverlapIndex) -> (kept: Vec<Peak>)
    ensures
        views(kept@) == views(peaks@).filter(is_clear(blacklist@)),
{
    let ghost s = views(peaks@);
    let ghost pred = is_clear(blacklist@);
    let mut kept: Vec<Peak> = Vec::new();
    let mut i: usize = 0;
    proof {
        reveal(Seq::filter);
        assert(views(kept@) =~= s.take(0).filter(pred));
    }
    while i < peaks.len()
        invariant
            i <= peaks.len(),
            s == views(peaks@),
            pred == is_clear(blacklist@),
            views(kept@) == s.take(i as int).filter(pred),
        decreases peaks.len() - i,
    {
        proof {
            lemma_filter_step(s, pred, i as int);
        }
        let ghost before = views(kept@);
        let region = peaks[i].region();
        if !blacklist.is_overlapped(&region) {
            kept.push(peaks[i].clone());
            assert(views(kept@) =~= before.push(s[i as int]));
        }
        i += 1;
    }
    assert(s.take(i as int) =~= s);
    kept
}

/// The models of the indexes of a list.
pub open spec fn index_views(indexes: Seq<OverlapIndex>) -> Seq<Seq<RegionView>> {
    Seq::new(indexes.len(), |r: int| indexes[r]@)
}

/// The regions that the peaks of each replicate cover.
pub open spec fn replicate_regions(replicates: Seq<Vec<Peak>>) -> Seq<Seq<RegionView>> {
    Seq::new(replicates.len(), |r: int| peak_regions(views(replicates[r]@)))
}

/// Whether every index of the list holds a region that overlaps `query`.
fn overlapped_by_all(indexes: &Vec<OverlapIndex>, query: &Region) -> (all: bool)
    ensures
        all == forall|r: int|
            0 <= r < indexes.len() ==> hits_any(#[trigger] index_views(indexes@)[r], query@),
{
    let mut r: usize = 0;
    while r < indexes.len()
        invariant
            r <= indexes.len(),
            forall|k: int| 0 <= k < r ==> hits_any(#[trigger] index_views(indexes@)[k], query@),
        decreases indexes.len() - r,
    {
        if !indexes[r].is_overlapped(query) {
            assert(!hits_any(index_views(indexes@)[r as int], query@));
            return false;
        }
        r += 1;
    }
    true
}

/// Keeps the peaks that are reproducible: those that no region of
/// `blacklist` overlaps and that overlap at least one peak of every
/// replicate. The order of the peaks is kept.
pub fn find_reproducible_peaks(
    peaks: &Vec<Peak>,
    replicates: &Vec<Vec<Peak>>,
    blacklist: &Vec<Region>,
) -> (kept: Vec<Peak>)
    ensures
        views(kept@) == views(peaks@).filter(
            is_reproducible(replicate_regions(replicates@), region_views(blacklist@)),
        ),
{
    let black = OverlapIndex::build(blacklist);
    let mut indexes: Vec<OverlapIndex> = Vec::new();
    let mut r: usize = 0;
    while r < replicates.len()
        invariant
            r <= replicates.len(),
            indexes.len() == r,
            forall|k: int|
                0 <= k < r ==> (#[trigger] indexes[k])@ == peak_regions(views(replicates[k]@)),
        decreases replicates.len() - r,
    {
        let regions = regions_of(&replicates[r]);
        indexes.push(OverlapIndex::build(&regions));
        r += 1;
    }
    assert(index_views(indexes@) =~= replicate_regions(replicates@));
    let ghost s = views(peaks@);
    let ghost pred = is_reproducible(replicate_regions(replicates@), region_views(blacklist@));
    let mut kept: Vec<Peak> = Vec::new();
    let mut i: usize = 0;
    proof {
        reveal(Seq::filter);
        assert(views(kept@) =~= s.take(0).filter(pred));
    }
    while i < peaks.len()
        invariant
            i <= peaks.len(),
            s == views(peaks@),
            black@ == region_views(blacklist@),
            index_views(indexes@) == replicate_regions(replicates@),
            pred == is_reproducible(replicate_regions(replicates@), region_views(blacklist@)),
            views(kept@) == s.take(i as int).filter(pred),
        decreases peaks.len() - i,
    {
        proof {
            lemma_filter_step(s, pred, i as int);
        }
        let ghost before = views(kept@);
        let region = peaks[i].region();
        if !black.is_overlapped(&region) && overlapped_by_all(&indexes, &region) {
            kept.push(peaks[i].clone());
            assert(views(kept@) =~= before.push(s[i as int]));
        }
        i += 1;
    }
    assert(s.take(i as int) =~= s);
    kept
}

/// Removes from every named list of peaks those that a region of
/// `blacklist` overlaps. Names and order are kept.
pub fn fetch_peaks(peaks: &Vec<(String, Vec<Peak>)>, blacklist: &Vec<Region>) -> (kept: Vec<
    (String, Vec<Peak>),
>)
    ensures
        kept.len() == peaks.len(),
        forall|k: int|
            0 <= k < peaks.len() ==> (#[trigger] kept[k]).0@ == peaks[k].0@ && views(kept[k].1@)
                == views(peaks[k].1@).filter(is_clear(region_views(blacklist@))),
{
    let black = OverlapIndex::build(blacklist);
    let mut kept: Vec<(String, Vec<Peak>)> = Vec::new();
    let mut k: usize = 0;
    while k < peaks.len()
        invariant
            k <= peaks.len(),
            black@ == region_views(blacklist@),
            kept.len() == k,
            forall|j: int|
                0 <= j < k ==> (#[trigger] kept[j]).0@ == peaks[j].0@ && views(kept[j].1@) == views(
                    peaks[j].1@,
                ).filter(is_clear(region_views(blacklist@))),
        decreases peaks.len() - k,
    {
        let clear = remove_blacklisted(&peaks[k].1, &black);
        kept.push((peaks[k].0.clone(), clear));
        k += 1;
    }
    kept
}

/// The peaks of all groups, one group after the other.
pub open spec fn concat(groups: Seq<Seq<PeakView>>) -> Seq<PeakView>
    decreases groups.len(),
{
    if groups.len() == 0 {
        Seq::empty()
    } else {
        concat(groups.drop_last()) + groups.last()
    }
}

/// Joins groups of peaks into one list, one group after the other.
pub fn flatten(groups: &Vec<Vec<Peak>>) -> (all: Vec<Peak>)
    ensures
        views(all@) == concat(group_views(groups@)),
{
    let ghost gv = group_views(groups@);
    let mut all: Vec<Peak> = Vec::new();
    let mut g: usize = 0;
    assert(views(all@) =~= concat(gv.take(0)));
    while g < groups.len()
        invariant
            g <= groups.len(),
            gv == group_views(groups@),
            views(all@) == concat(gv.take(g as int)),
        decreases groups.len() - g,
    {
        let ghost done = views(all@);
        let mut i: usize = 0;
        assert(views(all@) =~= done + gv[g as int].take(0));
        while i < groups[g].len()
            invariant
                g < groups.len(),
                i <= groups[g as int].len(),
                gv == group_views(groups@),
                views(all@) == done + gv[g as int].take(i as int),
            decreases groups[g as int].len() - i,
        {
            let ghost before = views(all@);
            all.push(groups[g][i].clone());
            assert(views(all@) =~= before.push(gv[g as int][i as int]));
            assert(views(all@) =~= done + gv[g as int].take(i + 1));
            i += 1;
        }
        proof {
            assert(gv[g as int].take(i as int) =~= gv[g as int]);
            assert(gv.take(g + 1).drop_last() =~= gv.take(g as int));
            assert(gv.take(g + 1).last() == gv[g as int]);
        }
        g += 1;
    }
    assert(gv.take(g as int) =~= gv);
    all
}

/// What clipping every peak of `s` against `sizes` gives: the clipped peaks,
/// or the error of the first peak that cannot be clipped.
pub open spec fn clipped_all(s: Seq<PeakView>, sizes: Map<Seq<char>, u64>) -> Result<
    Seq<PeakView>,
    ClipError,
>
    decreases s.len(),
{
    if s.len() == 0 {
        Ok(Seq::empty())
    } else {
        match clipped_all(s.drop_last(), sizes) {
            Err(e) => Err(e),
            Ok(done) => match clipped_by(s.last(), sizes) {
                Err(e) => Err(e),
                Ok(q) => Ok(done.push(q)),
            },
        }
    }
}

/// Clips every peak to the length of its chromosome, and fails with the
/// error of the first peak that cannot be clipped.
pub fn clip_peaks(peaks: &Vec<Peak>, chrom_sizes: &ChromSizes) -> (r: Result<Vec<Peak>, ClipError>)
    ensures
        match r {
            Ok(out) => clipped_all(views(peaks@), chrom_sizes@) == Ok::<Seq<PeakView>, ClipError>(
                views(out@),
            ),
            Err(e) => clipped_all(views(peaks@), chrom_sizes@) == Err::<Seq<PeakView>, ClipError>(
                e,
            ),
        },
{
    let ghost s = views(peaks@);
    let mut out: Vec<Peak> = Vec::new();
    let mut i: usize = 0;
    assert(views(out@) =~= Seq::<PeakView>::empty());
    while i < peaks.len()
        invariant
            i <= peaks.len(),
            s == views(peaks@),
            clipped_all(s.take(i as int), chrom_sizes@) == Ok::<Seq<PeakView>, ClipError>(
                views(out@),
            ),
        decreases peaks.len() - i,
    {
        proof {
            assert(s.take(i + 1).drop_last() =~= s.take(i as int));
            assert(s.take(i + 1).last() == s[i as int]);
            lemma_clipped_all_prefix(s, chrom_sizes@, i + 1);
        }
        let ghost before = views(out@);
        match clip_peak(peaks[i].clone(), chrom_sizes) {
            Ok(q) => {
                out.push(q);
                assert(views(out@) =~= before.push(q@));
            },
            Err(e) => {
                return Err(e);
            },
        }
        i += 1;
    }
    assert(s.take(i as int) =~= s);
    Ok(out)
}

/// Where the clipping of a prefix fails, the clipping of the whole list
/// fails with the same error.
pub proof fn lemma_clipped_all_prefix(s: Seq<PeakView>, sizes: Map<Seq<char>, u64>, n: int)
    requires
        0 <= n <= s.len(),
    ensures
        clipped_all(s.take(n), sizes) matches Err(e) ==> clipped_all(s, sizes) == Err::<
            Seq<PeakView>,
            ClipError,
        >(e),
    decreases s.len() - n,
{
    if n < s.len() {
        assert(s.take(n + 1).drop_last() =~= s.take(n));
        lemma_clipped_all_prefix(s, sizes, n + 1);
    } else {
        assert(s.take(n) =~= s);
    }
}

/// Tells for each region of the index whether some region of `queries`
/// overlaps it.
pub fn mark_overlapping(index: &OverlapIndex, queries: &Vec<Region>) -> (flags: Vec<bool>)
    ensures
        flags.len() == index@.len(),
        forall|i: int|
            0 <= i < flags.len() ==> #[trigger] flags[i] == hits_any(
                region_views(queries@),
                index@[i],
            ),
{
    let ghost qs = region_views(queries@);
    let n = index.len();
    let mut flags: Vec<bool> = Vec::new();
    let mut i: usize = 0;
    while i < n
        invariant
            i <= n,
            flags.len() == i,
            forall|k: int| 0 <= k < i ==> !#[trigger] flags[k],
        decreases n - i,
    {
        flags.push(false);
        i += 1;
    }
    let mut j: usize = 0;
    while j < queries.len()
        invariant
            j <= queries.len(),
            n == index@.len(),
            qs == region_views(queries@),
            flags.len() == n,
            forall|k: int|
                0 <= k < n ==> #[trigger] flags[k] == hits_any(qs.take(j as int), index@[k]),
        decreases queries.len() - j,
    {
        let ghost before = flags@;
        let hits = index.query_overlaps(&queries[j]);
        let mut h: usize = 0;
        assert forall|m: int| 0 <= m < hits.len() implies (#[trigger] hits[m]) < n by {
            assert(hits@.contains(hits[m]));
        }
        while h < hits.len()
            invariant
                h <= hits.len(),
                flags.len() == n,
                before.len() == n,
                n == index@.len(),
                forall|m: int| 0 <= m < hits.len() ==> (#[trigger] hits[m]) < n,
                forall|k: int|
                    0 <= k < n ==> #[trigger] flags[k] == (before[k] || exists|m: int|
                        0 <= m < h && #[trigger] hits[m] == k),
            decreases hits.len() - h,
        {
            flags.set(hits[h], true);
            h += 1;
        }
        proof {
            assert forall|k: int| 0 <= k < n implies #[trigger] flags[k] == hits_any(
                qs.take(j + 1),
                index@[k],
            ) by {
                let x = index@[k];
                let q = qs[j as int];
                assert(hits@.contains(k as usize) <==> regions_overlap(x, q));
                if flags[k] {
                    if before[k] {
                        let w = choose|w: int|
                            0 <= w < qs.take(j as int).len() && regions_overlap(
                                #[trigger] qs.take(j as int)[w],
                                x,
                            );
                        assert(regions_overlap(qs.take(j + 1)[w], x));
                    } else {
                        let m = choose|m: int| 0 <= m < h && #[trigger] hits[m] == k;
                        assert(hits@.contains(k as usize));
                        assert(regions_overlap(qs.take(j + 1)[j as int], x));
                    }
                }
                if hits_any(qs.take(j + 1), x) {
                    let w = choose|w: int|
                        0 <= w < qs.take(j + 1).len() && regions_overlap(
                            #[trigger] qs.take(j + 1)[w],
                            x,
                        );
                    if w < j {
                        assert(regions_overlap(qs.take(j as int)[w], x));
                    } else {
                        assert(hits@.contains(k as usize));
                        let m = choose|m: int| 0 <= m < hits.len() && hits[m] == k as usize;
                        assert(flags[k]);
                    }
                }
            }
        }
        j += 1;
    }
    assert(qs.take(j as int) =~= qs);
    flags
}

/// Every peak of a concatenation comes from one of the groups.
pub proof fn lemma_concat_members(groups: Seq<Seq<PeakView>>, k: int)
    requires
        0 <= k < concat(groups).len(),
    ensures
        exists|a: int, i: int|
            0 <= a < groups.len() && 0 <= i < groups[a].len() && (#[trigger] groups[a][i])
                == concat(groups)[k],
    decreases groups.len(),
{
    let before = concat(groups.drop_last());
    if k < before.len() {
        lemma_concat_members(groups.drop_last(), k);
        let (a, i) = choose|a: int, i: int|
            0 <= a < groups.drop_last().len() && 0 <= i < groups.drop_last()[a].len() && (
            #[trigger] groups.drop_last()[a][i]) == before[k];
        assert(groups[a][i] == concat(groups)[k]);
    } else {
        assert(groups[groups.len() - 1][k - before.len()] == concat(groups)[k]);
    }
}

/// The consensus peaks of several samples: the peaks of all samples are
/// consolidated together, and the winners of all groups, one group after the
/// other, are clipped to their chromosomes.
pub open spec fn consensus(
    samples: Seq<Seq<PeakView>>,
    sizes: Map<Seq<char>, u64>,
    half_width: int,
) -> Result<Seq<PeakView>, ClipError> {
    clipped_all(concat(merged(concat(samples), half_width)), sizes)
}

/// Computes the consensus peaks of several samples, and for each sample
/// which of the consensus peaks it supports.
///
/// On success the first part of the result is `consensus`, and the second
/// holds one row per sample: its entry for a consensus peak tells whether
/// some peak of that sample, as it was given, overlaps the consensus peak.
/// It fails exactly when the clipping of a winner fails, with that error.
/// The window of every peak must end at a representable coordinate.
pub fn py_merge_peaks(peaks: &Vec<Vec<Peak>>, chrom_sizes: &ChromSizes, half_width: u64) -> (r:
    Result<(Vec<Peak>, Vec<Vec<bool>>), ClipError>)
    requires
        forall|a: int, i: int|
            0 <= a < peaks.len() && 0 <= i < peaks[a].len() ==> fits_window(
                (#[trigger] peaks[a][i])@,
                half_width as int,
            ),
    ensures
        match r {
            Ok((out, presence)) => {
                &&& consensus(group_views(peaks@), chrom_sizes@, half_width as int) == Ok::<
                    Seq<PeakView>,
                    ClipError,
                >(views(out@))
                &&& presence.len() == peaks.len()
                &&& forall|a: int|
                    0 <= a < peaks.len() ==> (#[trigger] presence[a]).len() == out.len()
                &&& forall|a: int, i: int|
                    0 <= a < peaks.len() && 0 <= i < out.len() ==> #[trigger] presence[a][i]
                        == hits_any(peak_regions(views(peaks[a]@)), out[i]@.region())
            },
            Err(e) => consensus(group_views(peaks@), chrom_sizes@, half_width as int) == Err::<
                Seq<PeakView>,
                ClipError,
            >(e),
        },
{
    let ghost samples = group_views(peaks@);
    let all = flatten(peaks);
    assert forall|k: int| 0 <= k < all.len() implies fits_window(
        #[trigger] all[k]@,
        half_width as int,
    ) by {
        assert(views(all@)[k] == all[k]@);
        lemma_concat_members(samples, k);
        let (a, i) = choose|a: int, i: int|
            0 <= a < samples.len() && 0 <= i < samples[a].len() && (#[trigger] samples[a][i])
                == concat(samples)[k];
        assert(samples[a][i] == peaks[a][i]@);
    }
    let groups = merge_peaks(all, half_width);
    let winners = flatten(&groups);
    let out = match clip_peaks(&winners, chrom_sizes) {
        Ok(out) => out,
        Err(e) => {
            return Err(e);
        },
    };
    let regions = regions_of(&out);
    let index = OverlapIndex::build(&regions);
    let mut presence: Vec<Vec<bool>> = Vec::new();
    let mut a: usize = 0;
    while a < peaks.len()
        invariant
            a <= peaks.len(),
            index@ == peak_regions(views(out@)),
            presence.len() == a,
            forall|b: int| 0 <= b < a ==> (#[trigger] presence[b]).len() == out.len(),
            forall|b: int, i: int|
                0 <= b < a && 0 <= i < out.len() ==> #[trigger] presence[b][i] == hits_any(
                    peak_regions(views(peaks[b]@)),
                    out[i]@.region(),
                ),
        decreases peaks.len() - a,
    {
        let queries = regions_of(&peaks[a]);
        let flags = mark_overlapping(&index, &queries);
        assert forall|i: int| 0 <= i < out.len() implies #[trigger] flags[i] == hits_any(
            peak_regions(views(peaks[a as int]@)),
            out[i]@.region(),
        ) by {
            assert(index@[i] == out[i]@.region());
        }
        presence.push(flags);
        a += 1;
    }
    Ok((out, presence))
}

} // verus!
