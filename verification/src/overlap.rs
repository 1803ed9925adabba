//! A static index over regions for overlap queries.
//!
//! The index is built once from a list of regions and never changes
//! afterwards. It answers which of the regions overlap a query, by their
//! positions in that list. The search itself is done by the interval trees
//! of `bed_utils`.

use vstd::prelude::*;
use vstd::multiset::Multiset;
use bed_utils::bed::tree::BedTree;
use bed_utils::bed::BEDLike;
use bed_utils::bed::GenomicRange;
use crate::peak::{regions_overlap, Region, RegionView};

verus! {

#[verifier::external_type_specification]
#[verifier::external_body]
#[verifier::reject_recursive_types(D)]
pub struct ExBedTree<D>(BedTree<D>);

/// The entries that a tree holds: each a region with the number stored for
/// it.
pub uninterp spec fn tree_entries(tree: BedTree<usize>) -> Multiset<(RegionView, usize)>;

/// The models of a list of entries.
pub open spec fn entry_views(items: Seq<(Region, usize)>) -> Seq<(RegionView, usize)> {
    Seq::new(items.len(), |i: int| (items[i].0@, items[i].1))
}

/// The entries that overlap `query`.
pub open spec fn overlapping(query: RegionView) -> spec_fn((RegionView, usize)) -> bool {
    |e: (RegionView, usize)| regions_overlap(e.0, query)
}

/// Builds a tree with `BedTree::from_iter`, which stores every pair handed
/// to it, duplicates included. The claim is that the tree holds exactly the
/// given entries. A region whose start lies behind its end is kept out: the
/// interval tree below would panic on it.
#[verifier::external_body]
fn build_tree(items: &Vec<(Region, usize)>) -> (tree: BedTree<usize>)
    requires
        forall|i: int| 0 <= i < items.len() ==> (#[trigger] items[i]).0.start <= items[i].0.end,
    ensures
        tree_entries(tree) == entry_views(items@).to_multiset(),
{
    items.iter().map(|x| (GenomicRange::new(x.0.chrom.clone(), x.0.start, x.0.end), x.1)).collect()
}

/// Queries a tree with `BedTree::find`, which walks the tree of the query's
/// chromosome and yields each entry whose interval intersects the query's,
/// both being non-empty. The claim is that what comes back is exactly the
/// entries that overlap the query, in no particular order.
#[verifier::external_body]
fn tree_find(tree: &BedTree<usize>, query: &Region) -> (hits: Vec<(Region, usize)>)
    requires
        query.start <= query.end,
    ensures
        entry_views(hits@).to_multiset() == tree_entries(*tree).filter(overlapping(query@)),
{
    tree.find(&GenomicRange::new(query.chrom.clone(), query.start, query.end)).map(
        |(r, i)| (Region { chrom: r.chrom().to_string(), start: r.start(), end: r.end() }, *i),
    ).collect()
}

/// Some entry of `entries` overlaps `query`.
pub open spec fn any_overlapping(entries: Multiset<(RegionView, usize)>, query: RegionView) -> bool {
    exists|e: (RegionView, usize)| #[trigger] entries.count(e) > 0 && regions_overlap(e.0, query)
}

/// Asks a tree with `BedTree::is_overlapped`, which reports whether `find`
/// yields anything. The claim is that it answers whether some entry overlaps
/// the query.
#[verifier::external_body]
fn tree_is_overlapped(tree: &BedTree<usize>, query: &Region) -> (hit: bool)
    requires
        query.start <= query.end,
    ensures
        hit == any_overlapping(tree_entries(*tree), query@),
{
    tree.is_overlapped(&GenomicRange::new(query.chrom.clone(), query.start, query.end))
}

/// The models of a list of regions.
pub open spec fn region_views(s: Seq<Region>) -> Seq<RegionView> {
    Seq::new(s.len(), |i: int| s[i]@)
}

/// The non-empty regions of `s`, each with its position in `s`.
pub open spec fn proper_entries(s: Seq<RegionView>) -> Seq<(RegionView, usize)>
    decreases s.len(),
{
    if s.len() == 0 {
        Seq::empty()
    } else {
        let before = proper_entries(s.drop_last());
        if s.last().start < s.last().end {
            before.push((s.last(), (s.len() - 1) as usize))
        } else {
            before
        }
    }
}

/// `proper_entries` lists each non-empty region of `s` once, with its
/// position.
pub proof fn lemma_proper_entries(s: Seq<RegionView>)
    requires
        s.len() <= usize::MAX,
    ensures
        proper_entries(s).no_duplicates(),
        forall|e: (RegionView, usize)| #[trigger]
            proper_entries(s).contains(e) <==> e.1 < s.len() && s[e.1 as int] == e.0 && e.0.start
                < e.0.end,
    decreases s.len(),
{
    if s.len() > 0 {
        let t = s.drop_last();
        let before = proper_entries(t);
        lemma_proper_entries(t);
        let last = (s.last(), (s.len() - 1) as usize);
        assert(!before.contains(last));
        assert forall|e: (RegionView, usize)| #[trigger]
            proper_entries(s).contains(e) <==> e.1 < s.len() && s[e.1 as int] == e.0 && e.0.start
                < e.0.end by {
            if proper_entries(s).contains(e) {
                let i = choose|i: int| 0 <= i < proper_entries(s).len() && proper_entries(s)[i] == e;
                if i < before.len() {
                    assert(before.contains(e));
                    assert(t[e.1 as int] == s[e.1 as int]);
                }
            }
            if e.1 < s.len() && s[e.1 as int] == e.0 && e.0.start < e.0.end {
                if e.1 < t.len() {
                    assert(t[e.1 as int] == s[e.1 as int]);
                    assert(before.contains(e));
                    let i = choose|i: int| 0 <= i < before.len() && before[i] == e;
                    assert(proper_entries(s)[i] == e);
                } else {
                    assert(proper_entries(s)[before.len() as int] == e);
                }
            }
        }
    }
}

/// A static index over a list of regions.
pub struct OverlapIndex {
    tree: BedTree<usize>,
    size: usize,
    regions: Ghost<Seq<RegionView>>,
}

impl OverlapIndex {
    #[verifier::type_invariant]
    spec fn well_formed(self) -> bool {
        &&& self.regions@.len() == self.size
        &&& tree_entries(self.tree) == proper_entries(self.regions@).to_multiset()
    }

    /// The regions that the index was built from, in their order.
    pub closed spec fn view(&self) -> Seq<RegionView> {
        self.regions@
    }

    /// Builds the index of `regions`.
    pub fn build(regions: &Vec<Region>) -> (index: Self)
        ensures
            index@ == region_views(regions@),
    {
        let ghost s = region_views(regions@);
        let mut items: Vec<(Region, usize)> = Vec::new();
        let mut i: usize = 0;
        while i < regions.len()
            invariant
                i <= regions.len(),
                s == region_views(regions@),
                entry_views(items@) == proper_entries(s.take(i as int)),
                forall|k: int|
                    0 <= k < items.len() ==> (#[trigger] items[k]).0.start <= items[k].0.end,
            decreases regions.len() - i,
        {
            proof {
                assert(s.take(i + 1).drop_last() =~= s.take(i as int));
                assert(s.take(i + 1).last() == regions[i as int]@);
            }
            let ghost before = entry_views(items@);
            if regions[i].start < regions[i].end {
                items.push((regions[i].clone(), i));
                assert(entry_views(items@) =~= before.push((regions[i as int]@, i)));
            }
            i += 1;
        }
        assert(s.take(i as int) =~= s);
        let tree = build_tree(&items);
        OverlapIndex { tree, size: regions.len(), regions: Ghost(s) }
    }

    /// The number of regions that the index was built from.
    pub fn len(&self) -> (n: usize)
        ensures
            n == self@.len(),
    {
        proof {
            use_type_invariant(self);
        }
        self.size
    }

    /// The positions of the regions that overlap `query`, each once, in no
    /// particular order.
    pub fn query_overlaps(&self, query: &Region) -> (hits: Vec<usize>)
        ensures
            hits@.no_duplicates(),
            forall|i: usize| #[trigger]
                hits@.contains(i) <==> i < self@.len() && regions_overlap(self@[i as int], query@),
    {
        proof {
            use_type_invariant(self);
        }
        let ghost s = self.regions@;
        if query.start >= query.end {
            return Vec::new();
        }
        let found = tree_find(&self.tree, query);
        let ghost entries = entry_views(found@);
        proof {
            lemma_proper_entries(s);
            proper_entries(s).lemma_multiset_has_no_duplicates();
            broadcast use vstd::multiset::group_multiset_axioms;
            broadcast use vstd::seq_lib::group_to_multiset_ensures;

            assert forall|e: (RegionView, usize)| #[trigger]
                entries.contains(e) <==> proper_entries(s).contains(e) && regions_overlap(
                    e.0,
                    query@,
                ) by {
                assert(entries.to_multiset().count(e) == if overlapping(query@)(e) {
                    proper_entries(s).to_multiset().count(e)
                } else {
                    0
                });
            }
            assert forall|e: (RegionView, usize)|
                entries.to_multiset().contains(e) implies entries.to_multiset().count(e) == 1 by {
                assert(entries.to_multiset().count(e) == if overlapping(query@)(e) {
                    proper_entries(s).to_multiset().count(e)
                } else {
                    0
                });
            }
            entries.lemma_multiset_has_no_duplicates_conv();
        }
        let mut hits: Vec<usize> = Vec::new();
        let mut k: usize = 0;
        while k < found.len()
            invariant
                k <= found.len(),
                entries == entry_views(found@),
                hits.len() == k,
                forall|j: int| 0 <= j < k ==> #[trigger] hits[j] == entries[j].1,
            decreases found.len() - k,
        {
            hits.push(found[k].1);
            k += 1;
        }
        proof {
            assert forall|a: int, b: int| 0 <= a < hits.len() && 0 <= b < hits.len() && a
                != b implies hits[a] != hits[b] by {
                assert(entries.contains(entries[a]));
                assert(entries.contains(entries[b]));
                assert(proper_entries(s).contains(entries[a]));
                assert(proper_entries(s).contains(entries[b]));
            }
            assert forall|i: usize| #[trigger]
                hits@.contains(i) <==> i < s.len() && regions_overlap(s[i as int], query@) by {
                if hits@.contains(i) {
                    let j = choose|j: int| 0 <= j < hits.len() && hits[j] == i;
                    assert(entries.contains(entries[j]));
                    assert(proper_entries(s).contains(entries[j]));
                }
                if i < s.len() && regions_overlap(s[i as int], query@) {
                    let e = (s[i as int], i);
                    assert(proper_entries(s).contains(e));
                    assert(entries.contains(e));
                    let j = choose|j: int| 0 <= j < entries.len() && entries[j] == e;
                    assert(hits[j] == i);
                }
            }
        }
        hits
    }

    /// Whether any region of the index overlaps `query`.
    pub fn is_overlapped(&self, query: &Region) -> (hit: bool)
        ensures
            hit == exists|i: int|
                0 <= i < self@.len() && regions_overlap(#[trigger] self@[i], query@),
    {
        proof {
            use_type_invariant(self);
        }
        let ghost s = self.regions@;
        if query.start >= query.end {
            return false;
        }
        let hit = tree_is_overlapped(&self.tree, query);
        proof {
            lemma_proper_entries(s);
            broadcast use vstd::seq_lib::group_to_multiset_ensures;

            let entries = tree_entries(self.tree);
            if hit {
                let e = choose|e: (RegionView, usize)|
                    #[trigger] entries.count(e) > 0 && regions_overlap(e.0, query@);
                assert(proper_entries(s).contains(e));
                assert(regions_overlap(s[e.1 as int], query@));
            }
            if exists|i: int| 0 <= i < s.len() && regions_overlap(#[trigger] s[i], query@) {
                let i = choose|i: int| 0 <= i < s.len() && regions_overlap(#[trigger] s[i], query@);
                let e = (s[i], i as usize);
                assert(proper_entries(s).contains(e));
                assert(entries.count(e) > 0 && regions_overlap(e.0, query@));
            }
            assert(self@ == s);
        }
        hit
    }
}

} // verus!
