//! Clipping of peaks to the length of their chromosome.

use vstd::prelude::*;
use crate::peak::{Peak, PeakView};

verus! {

/// Why a peak could not be clipped.
#[derive(Debug, Clone, Copy, PartialEq, Eq, Structural)]
pub enum ClipError {
    /// The length of the peak's chromosome is not known.
    UnknownChromosome,
    /// The peak starts beyond its own end or beyond the end of the
    /// chromosome, so that nothing of it is left.
    StartBeyondEnd,
}

/// What clipping `p` to a chromosome of `length` positions gives.
///
/// The end is lowered to `length` where it lies beyond; the start stays. The
/// summit keeps its absolute position unless it falls behind the new end, in
/// which case it is pinned there. A peak that starts behind the new end is
/// rejected.
pub open spec fn clipped(p: PeakView, length: int) -> Result<PeakView, ClipError> {
    let end = if p.end <= length {
        p.end
    } else {
        length
    };
    let summit = if p.summit() <= end {
        p.summit()
    } else {
        end
    };
    if p.start <= end {
        Ok(
            PeakView {
                chrom: p.chrom,
                start: p.start,
                end: end,
                summit_offset: summit - p.start,
                rank: p.rank,
                record: p.record,
            },
        )
    } else {
        Err(ClipError::StartBeyondEnd)
    }
}

/// The outcome of a clipping, as a model.
pub open spec fn result_view(r: Result<Peak, ClipError>) -> Result<PeakView, ClipError> {
    match r {
        Ok(p) => Ok(p@),
        Err(e) => Err(e),
    }
}

/// Clips a peak to a chromosome of `length` positions.
pub fn clip(peak: Peak, length: u64) -> (r: Result<Peak, ClipError>)
    ensures
        result_view(r) == clipped(peak@, length as int),
{
    let end = if peak.end <= length {
        peak.end
    } else {
        length
    };
    if peak.start > end {
        return Err(ClipError::StartBeyondEnd);
    }
    let room = end - peak.start;
    let summit_offset = if peak.summit_offset <= room {
        peak.summit_offset
    } else {
        room
    };
    Ok(
        Peak {
            chrom: peak.chrom,
            start: peak.start,
            end,
            summit_offset,
            rank: peak.rank,
            record: peak.record,
        },
    )
}

/// Clipping is idempotent: a peak that came out of a clipping is left as it
/// is by another clipping to the same length.
pub proof fn lemma_clip_idempotent(p: PeakView, length: int)
    ensures
        clipped(p, length) matches Ok(q) ==> clipped(q, length) == Ok::<PeakView, ClipError>(q),
{
}

/// A clipped peak ends within the chromosome, and where the peak was well
/// formed and started within the chromosome, clipping succeeds and the
/// result is well formed.
pub proof fn lemma_clip_bounds(p: PeakView, length: int)
    ensures
        clipped(p, length) matches Ok(q) ==> q.end <= length && q.start == p.start && q.chrom
            == p.chrom && q.rank == p.rank && q.record == p.record,
        p.well_formed() && p.start <= length ==> clipped(p, length) is Ok,
        p.well_formed() ==> (clipped(p, length) matches Ok(q) ==> q.well_formed()),
        p.well_formed() && p.end <= length ==> clipped(p, length) == Ok::<PeakView, ClipError>(p),
{
}

/// The lengths of the known chromosomes, by name.
pub struct ChromSizes {
    entries: Vec<(String, u64)>,
}

/// Position of the entry named `name`; `entries.len()` if there is none.
pub open spec fn entry_index(entries: Seq<(String, u64)>, name: Seq<char>) -> int
    decreases entries.len(),
{
    if entries.len() == 0 {
        0
    } else if entries[0].0@ == name {
        0
    } else {
        1 + entry_index(entries.subrange(1, entries.len() as int), name)
    }
}

/// `entry_index` is the first position that holds `name`.
pub proof fn lemma_entry_index(entries: Seq<(String, u64)>, name: Seq<char>)
    ensures
        0 <= entry_index(entries, name) <= entries.len(),
        entry_index(entries, name) < entries.len() ==> entries[entry_index(entries, name)].0@
            == name,
        forall|i: int| 0 <= i < entry_index(entries, name) ==> (#[trigger] entries[i]).0@ != name,
    decreases entries.len(),
{
    if entries.len() > 0 && entries[0].0@ != name {
        let rest = entries.subrange(1, entries.len() as int);
        lemma_entry_index(rest, name);
        assert forall|i: int| 0 <= i < entry_index(entries, name) implies (#[trigger] entries[i]).0@
            != name by {
            if i > 0 {
                assert(rest[i - 1] == entries[i]);
            }
        }
    }
}

impl ChromSizes {
    /// The table as a map from chromosome name to length.
    pub closed spec fn view(&self) -> Map<Seq<char>, u64> {
        Map::new(
            |name: Seq<char>| entry_index(self.entries@, name) < self.entries@.len(),
            |name: Seq<char>| self.entries@[entry_index(self.entries@, name)].1,
        )
    }

    /// A table that knows no chromosome.
    pub fn new() -> (r: Self)
        ensures
            r@ == Map::<Seq<char>, u64>::empty(),
    {
        let r = ChromSizes { entries: Vec::new() };
        assert(r@ =~= Map::<Seq<char>, u64>::empty());
        r
    }

    /// Position of the entry of `chrom`, or the number of entries.
    fn find(&self, chrom: &String) -> (i: usize)
        ensures
            i as int == entry_index(self.entries@, chrom@),
            i <= self.entries@.len(),
    {
        let mut i: usize = 0;
        proof {
            lemma_entry_index(self.entries@, chrom@);
        }
        while i < self.entries.len()
            invariant
                i <= self.entries.len(),
                i <= entry_index(self.entries@, chrom@) <= self.entries.len(),
                forall|k: int| 0 <= k < i ==> (#[trigger] self.entries@[k]).0@ != chrom@,
            decreases self.entries.len() - i,
        {
            proof {
                lemma_entry_index(self.entries@, chrom@);
            }
            if self.entries[i].0 == *chrom {
                return i;
            }
            i += 1;
        }
        i
    }

    /// The length of chromosome `chrom`, if it is known.
    pub fn get(&self, chrom: &String) -> (r: Option<u64>)
        ensures
            r == (if self@.dom().contains(chrom@) {
                Some(self@[chrom@])
            } else {
                None
            }),
    {
        let i = self.find(chrom);
        if i < self.entries.len() {
            Some(self.entries[i].1)
        } else {
            None
        }
    }

    /// Records `length` as the length of chromosome `chrom`, in place of a
    /// length recorded for it before.
    pub fn insert(&mut self, chrom: String, length: u64)
        ensures
            final(self)@ == old(self)@.insert(chrom@, length),
    {
        let ghost before = self.entries@;
        let ghost name = chrom@;
        let i = self.find(&chrom);
        proof {
            lemma_entry_index(before, name);
        }
        if i < self.entries.len() {
            self.entries.set(i, (chrom, length));
        } else {
            self.entries.push((chrom, length));
        }
        proof {
            let after = self.entries@;
            assert forall|other: Seq<char>| true implies {
                &&& (entry_index(after, other) < after.len()) == (other == name || entry_index(
                    before,
                    other,
                ) < before.len())
                &&& other != name && entry_index(before, other) < before.len() ==> after[entry_index(
                    after,
                    other,
                )].1 == before[entry_index(before, other)].1
                &&& after[entry_index(after, name)].1 == length
            } by {
                lemma_entry_index(before, other);
                lemma_entry_index(after, other);
                lemma_entry_index(after, name);
                let a = entry_index(after, other);
                let b = entry_index(before, other);
                if b < before.len() && other != name {
                    assert(after[b].0@ == other);
                    if a < b {
                        assert(before[a].0@ != other);
                    }
                }
                if a < after.len() && other != name {
                    assert(a != i);
                    assert(before[a].0@ == other);
                }
                assert(after[i as int].0@ == name);
            }
            assert(self@ =~= old(self)@.insert(name, length));
        }
    }
}

/// What clipping `p` against the table `sizes` gives: the clipping to the
/// length of its chromosome, or the error that the chromosome is unknown.
pub open spec fn clipped_by(p: PeakView, sizes: Map<Seq<char>, u64>) -> Result<
    PeakView,
    ClipError,
> {
    if sizes.dom().contains(p.chrom) {
        clipped(p, sizes[p.chrom] as int)
    } else {
        Err(ClipError::UnknownChromosome)
    }
}

/// Clips a peak to the length of its chromosome.
///
/// Fails with `UnknownChromosome` exactly when `chrom_sizes` does not hold
/// the peak's chromosome, and otherwise as `clip` does.
pub fn clip_peak(peak: Peak, chrom_sizes: &ChromSizes) -> (r: Result<Peak, ClipError>)
    ensures
        result_view(r) == clipped_by(peak@, chrom_sizes@),
{
    match chrom_sizes.get(&peak.chrom) {
        Some(length) => clip(peak, length),
        None => Err(ClipError::UnknownChromosome),
    }
}

/// Clipping against a table is idempotent as well.
pub proof fn lemma_clip_peak_idempotent(p: PeakView, sizes: Map<Seq<char>, u64>)
    ensures
        clipped_by(p, sizes) matches Ok(q) ==> clipped_by(q, sizes) == Ok::<PeakView, ClipError>(
            q,
        ),
{
}

} // verus!
