//! Scored genomic intervals and their overlap relation.

use vstd::prelude::*;

verus! {

/// The strand of a chromosome that a record lies on.
#[derive(Debug, Clone, Copy, PartialEq, Eq, Structural)]
pub enum Strand {
    Forward,
    Reverse,
}

/// Mathematical model of a [`Region`].
pub struct RegionView {
    pub chrom: Seq<char>,
    pub start: int,
    pub end: int,
}

/// The positions `[start, end)` of one chromosome.
#[derive(Debug)]
pub struct Region {
    pub chrom: String,
    pub start: u64,
    pub end: u64,
}

impl View for Region {
    type V = RegionView;

    open spec fn view(&self) -> RegionView {
        RegionView { chrom: self.chrom@, start: self.start as int, end: self.end as int }
    }
}

impl Clone for Region {
    fn clone(&self) -> (r: Self)
        ensures
            r@ == self@,
    {
        Region { chrom: self.chrom.clone(), start: self.start, end: self.end }
    }
}

/// Two regions overlap when they lie on the same chromosome and share at
/// least one position. Regions that merely touch do not overlap, and an
/// empty region overlaps nothing.
pub open spec fn regions_overlap(a: RegionView, b: RegionView) -> bool {
    a.chrom == b.chrom && a.start < b.end && b.start < a.end && a.start < a.end && b.start < b.end
}

/// Decides whether two regions overlap.
pub fn overlap(a: &Region, b: &Region) -> (r: bool)
    ensures
        r == regions_overlap(a@, b@),
{
    a.chrom == b.chrom && a.start < b.end && b.start < a.end && a.start < a.end && b.start < b.end
}

/// Mathematical model of a [`Peak`].
pub struct PeakView {
    pub chrom: Seq<char>,
    pub start: int,
    pub end: int,
    pub summit_offset: int,
    pub rank: int,
    pub record: int,
}

/// A scored interval `[start, end)` on one chromosome.
///
/// `summit_offset` is the distance from `start` to the point of maximal
/// signal. `rank` is the integer key by which competing peaks are ordered
/// (a higher rank is more confident). `record` is the position of the source
/// record, by which a caller finds the peak's remaining annotation again.
#[derive(Debug)]
pub struct Peak {
    pub chrom: String,
    pub start: u64,
    pub end: u64,
    pub summit_offset: u64,
    pub rank: u64,
    pub record: usize,
}

impl View for Peak {
    type V = PeakView;

    open spec fn view(&self) -> PeakView {
        PeakView {
            chrom: self.chrom@,
            start: self.start as int,
            end: self.end as int,
            summit_offset: self.summit_offset as int,
            rank: self.rank as int,
            record: self.record as int,
        }
    }
}

impl PeakView {
    /// Absolute position of the summit.
    pub open spec fn summit(self) -> int {
        self.start + self.summit_offset
    }

    /// The positions that the peak covers.
    pub open spec fn region(self) -> RegionView {
        RegionView { chrom: self.chrom, start: self.start, end: self.end }
    }

    /// The summit lies inside the interval, which may be empty.
    pub open spec fn well_formed(self) -> bool {
        0 <= self.start <= self.end && 0 <= self.summit_offset <= self.end - self.start
    }
}

/// Two peaks overlap when the regions that they cover do.
pub open spec fn overlaps(a: PeakView, b: PeakView) -> bool {
    regions_overlap(a.region(), b.region())
}

impl Clone for Peak {
    fn clone(&self) -> (r: Self)
        ensures
            r@ == self@,
    {
        Peak {
            chrom: self.chrom.clone(),
            start: self.start,
            end: self.end,
            summit_offset: self.summit_offset,
            rank: self.rank,
            record: self.record,
        }
    }
}

/// The coordinates do not make a peak.
#[derive(Debug, Clone, Copy, PartialEq, Eq, Structural)]
pub struct MalformedRecord;

impl Peak {
    /// Makes a peak of the given coordinates. Succeeds exactly when the
    /// interval is not empty and holds the summit.
    pub fn new(
        chrom: String,
        start: u64,
        end: u64,
        summit_offset: u64,
        rank: u64,
        record: usize,
    ) -> (r: Result<Peak, MalformedRecord>)
        ensures
            match r {
                Ok(p) => {
                    &&& start < end
                    &&& summit_offset <= end - start
                    &&& p.chrom@ == chrom@
                    &&& p.start == start
                    &&& p.end == end
                    &&& p.summit_offset == summit_offset
                    &&& p.rank == rank
                    &&& p.record == record
                    &&& p@.well_formed()
                },
                Err(_) => !(start < end && summit_offset <= end - start),
            },
    {
        if start < end && summit_offset <= end - start {
            Ok(Peak { chrom, start, end, summit_offset, rank, record })
        } else {
            Err(MalformedRecord)
        }
    }

    /// The positions that the peak covers.
    pub fn region(&self) -> (r: Region)
        ensures
            r@ == self@.region(),
    {
        Region { chrom: self.chrom.clone(), start: self.start, end: self.end }
    }
}

/// Decides whether two peaks overlap.
pub fn peaks_overlap(a: &Peak, b: &Peak) -> (r: bool)
    ensures
        r == overlaps(a@, b@),
{
    a.chrom == b.chrom && a.start < b.end && b.start < a.end && a.start < a.end && b.start < b.end
}

} // verus!
