use snapatac2_core::clip::{ChromSizes, ClipError};
use snapatac2_core::membership::{
    fetch_peaks, find_reproducible_peaks, flatten, intersect_bed, mark_overlapping, py_merge_peaks,
    regions_of, remove_blacklisted,
};
use snapatac2_core::overlap::OverlapIndex;
use snapatac2_core::peak::{Peak, Region};

fn peak(chrom: &str, start: u64, end: u64, summit_offset: u64, rank: u64, record: usize) -> Peak {
    Peak { chrom: chrom.to_string(), start, end, summit_offset, rank, record }
}

fn region(chrom: &str, start: u64, end: u64) -> Region {
    Region { chrom: chrom.to_string(), start, end }
}

fn records(peaks: &[Peak]) -> Vec<usize> {
    peaks.iter().map(|p| p.record).collect()
}

fn sorted(mut hits: Vec<usize>) -> Vec<usize> {
    hits.sort();
    hits
}

#[test]
fn index_finds_exactly_the_overlapping_regions() {
    let regions = vec![
        region("chr1", 0, 10),
        region("chr1", 5, 15),
        region("chr2", 0, 10),
        region("chr1", 10, 20),
        region("chr1", 7, 7),
        region("chr1", 9, 3),
        region("chr1", 5, 15),
    ];
    let index = OverlapIndex::build(&regions);
    assert_eq!(index.len(), 7);
    assert_eq!(sorted(index.query_overlaps(&region("chr1", 8, 9))), vec![0, 1, 6]);
    assert_eq!(sorted(index.query_overlaps(&region("chr1", 10, 11))), vec![1, 3, 6]);
    assert_eq!(sorted(index.query_overlaps(&region("chr1", 0, 100))), vec![0, 1, 3, 6]);
    assert_eq!(sorted(index.query_overlaps(&region("chr2", 9, 10))), vec![2]);
    assert_eq!(sorted(index.query_overlaps(&region("chr2", 10, 20))), Vec::<usize>::new());
    assert_eq!(sorted(index.query_overlaps(&region("chr3", 0, 100))), Vec::<usize>::new());
    assert_eq!(sorted(index.query_overlaps(&region("chr1", 8, 8))), Vec::<usize>::new());
    assert_eq!(sorted(index.query_overlaps(&region("chr1", 9, 2))), Vec::<usize>::new());
}

#[test]
fn index_tells_whether_anything_overlaps() {
    let regions = vec![region("chr1", 0, 10), region("chr1", 20, 30), region("chr2", 5, 6)];
    let index = OverlapIndex::build(&regions);
    assert!(index.is_overlapped(&region("chr1", 9, 10)));
    assert!(!index.is_overlapped(&region("chr1", 10, 20)));
    assert!(index.is_overlapped(&region("chr1", 10, 21)));
    assert!(index.is_overlapped(&region("chr2", 0, 100)));
    assert!(!index.is_overlapped(&region("chr2", 6, 100)));
    assert!(!index.is_overlapped(&region("chr3", 0, 100)));
    assert!(!index.is_overlapped(&region("chr1", 5, 5)));
    assert!(!index.is_overlapped(&region("chr1", 8, 2)));
}

#[test]
fn empty_index_overlaps_nothing() {
    let index = OverlapIndex::build(&Vec::new());
    assert_eq!(index.len(), 0);
    assert!(!index.is_overlapped(&region("chr1", 0, 100)));
    assert_eq!(index.query_overlaps(&region("chr1", 0, 100)).len(), 0);
}

#[test]
fn index_agrees_with_scan_on_many_regions() {
    let mut regions = Vec::new();
    let mut seed: u64 = 99;
    for _ in 0..300 {
        seed = seed.wrapping_mul(6364136223846793005).wrapping_add(1442695040888963407);
        let start = (seed >> 33) % 2000;
        let width = (seed >> 20) % 60;
        let chrom = if (seed >> 10) % 3 == 0 { "chr2" } else { "chr1" };
        regions.push(region(chrom, start, start + width));
    }
    let index = OverlapIndex::build(&regions);
    for q in 0..100u64 {
        let query = region(if q % 2 == 0 { "chr1" } else { "chr2" }, q * 20, q * 20 + 35);
        let expected: Vec<usize> = (0..regions.len())
            .filter(|&i| {
                let r = &regions[i];
                r.chrom == query.chrom
                    && r.start < r.end
                    && r.start < query.end
                    && query.start < r.end
            })
            .collect();
        assert_eq!(sorted(index.query_overlaps(&query)), expected);
        assert_eq!(index.is_overlapped(&query), !expected.is_empty());
    }
}

#[test]
fn regions_of_peaks() {
    let peaks = vec![peak("chr1", 3, 9, 1, 0, 0), peak("chr2", 4, 5, 0, 0, 1)];
    let regions = regions_of(&peaks);
    let got: Vec<(String, u64, u64)> =
        regions.iter().map(|r| (r.chrom.clone(), r.start, r.end)).collect();
    assert_eq!(got, vec![("chr1".to_string(), 3, 9), ("chr2".to_string(), 4, 5)]);
}

#[test]
fn intersect_bed_flags_overlapped_regions() {
    let bed = vec![region("chr1", 100, 200), region("chr2", 0, 50)];
    let queries = vec![
        region("chr1", 0, 100),
        region("chr1", 0, 101),
        region("chr1", 199, 300),
        region("chr1", 200, 300),
        region("chr2", 10, 20),
        region("chr3", 10, 20),
    ];
    assert_eq!(intersect_bed(&queries, &bed), vec![false, true, true, false, true, false]);
    assert_eq!(intersect_bed(&queries, &Vec::new()), vec![false; 6]);
    assert_eq!(intersect_bed(&Vec::new(), &bed), Vec::<bool>::new());
}

#[test]
fn remove_blacklisted_keeps_clear_peaks_in_order() {
    let black = OverlapIndex::build(&vec![region("chr1", 100, 200)]);
    let peaks = vec![
        peak("chr1", 0, 100, 0, 0, 0),
        peak("chr1", 150, 160, 0, 0, 1),
        peak("chr2", 150, 160, 0, 0, 2),
        peak("chr1", 199, 250, 0, 0, 3),
        peak("chr1", 200, 250, 0, 0, 4),
    ];
    assert_eq!(records(&remove_blacklisted(&peaks, &black)), vec![0, 2, 4]);
}

#[test]
fn fetch_peaks_filters_every_list() {
    let lists = vec![
        ("a".to_string(), vec![peak("chr1", 0, 100, 0, 0, 0), peak("chr1", 150, 160, 0, 0, 1)]),
        ("b".to_string(), vec![peak("chr1", 120, 130, 0, 0, 2)]),
        ("c".to_string(), vec![peak("chr2", 120, 130, 0, 0, 3)]),
    ];
    let out = fetch_peaks(&lists, &vec![region("chr1", 100, 200)]);
    let got: Vec<(String, Vec<usize>)> =
        out.iter().map(|(k, v)| (k.clone(), records(v))).collect();
    assert_eq!(
        got,
        vec![
            ("a".to_string(), vec![0]),
            ("b".to_string(), vec![]),
            ("c".to_string(), vec![3]),
        ]
    );
    let all = fetch_peaks(&lists, &Vec::new());
    let got: Vec<Vec<usize>> = all.iter().map(|(_, v)| records(v)).collect();
    assert_eq!(got, vec![vec![0, 1], vec![2], vec![3]]);
}

#[test]
fn reproducible_peaks_overlap_every_replicate_and_no_blacklisted_region() {
    let peaks = vec![
        peak("chr1", 0, 100, 0, 0, 0),
        peak("chr1", 200, 300, 0, 0, 1),
        peak("chr1", 400, 500, 0, 0, 2),
        peak("chr2", 0, 100, 0, 0, 3),
    ];
    let replicates = vec![
        vec![peak("chr1", 50, 60, 0, 0, 0), peak("chr1", 250, 260, 0, 0, 1), peak("chr1", 450, 460, 0, 0, 2)],
        vec![peak("chr1", 90, 110, 0, 0, 0), peak("chr1", 300, 310, 0, 0, 1), peak("chr1", 499, 600, 0, 0, 2), peak("chr2", 0, 1, 0, 0, 3)],
    ];
    let none: Vec<Region> = Vec::new();
    assert_eq!(records(&find_reproducible_peaks(&peaks, &replicates, &none)), vec![0, 2]);
    let black = vec![region("chr1", 0, 10)];
    assert_eq!(records(&find_reproducible_peaks(&peaks, &replicates, &black)), vec![2]);
    let no_replicates: Vec<Vec<Peak>> = Vec::new();
    assert_eq!(records(&find_reproducible_peaks(&peaks, &no_replicates, &black)), vec![1, 2, 3]);
}

#[test]
fn flatten_joins_groups_in_order() {
    let groups = vec![
        vec![peak("chr1", 0, 1, 0, 0, 4), peak("chr1", 0, 1, 0, 0, 2)],
        vec![],
        vec![peak("chr1", 0, 1, 0, 0, 9)],
    ];
    assert_eq!(records(&flatten(&groups)), vec![4, 2, 9]);
}

#[test]
fn mark_overlapping_flags_index_regions() {
    let index = OverlapIndex::build(&vec![
        region("chr1", 0, 10),
        region("chr1", 20, 30),
        region("chr2", 0, 10),
        region("chr1", 5, 5),
    ]);
    let queries = vec![region("chr1", 9, 21), region("chr1", 25, 26), region("chr3", 0, 100)];
    assert_eq!(mark_overlapping(&index, &queries), vec![true, true, false, false]);
    assert_eq!(mark_overlapping(&index, &Vec::new()), vec![false, false, false, false]);
}

#[test]
fn consensus_peaks_and_their_presence_in_samples() {
    let mut sizes = ChromSizes::new();
    sizes.insert("chr1".to_string(), 1000);
    sizes.insert("chr2".to_string(), 505);
    let samples = vec![
        vec![peak("chr1", 90, 200, 10, 5, 0), peak("chr2", 400, 600, 100, 1, 1)],
        vec![peak("chr1", 95, 200, 10, 7, 2), peak("chr1", 600, 700, 50, 2, 3)],
        vec![],
    ];
    let (peaks, presence) = py_merge_peaks(&samples, &sizes, 10).unwrap();
    let got: Vec<(String, u64, u64, u64, usize)> = peaks
        .iter()
        .map(|p| (p.chrom.clone(), p.start, p.end, p.summit_offset, p.record))
        .collect();
    assert_eq!(
        got,
        vec![
            ("chr1".to_string(), 95, 116, 10, 2),
            ("chr1".to_string(), 640, 661, 10, 3),
            ("chr2".to_string(), 490, 505, 10, 1),
        ]
    );
    assert_eq!(
        presence,
        vec![vec![true, false, true], vec![true, true, false], vec![false, false, false]]
    );
}

#[test]
fn consensus_fails_where_a_winner_cannot_be_clipped() {
    let mut sizes = ChromSizes::new();
    sizes.insert("chr1".to_string(), 1000);
    let samples = vec![vec![peak("chr1", 90, 200, 10, 5, 0), peak("chr2", 400, 600, 100, 1, 1)]];
    assert_eq!(py_merge_peaks(&samples, &sizes, 10).unwrap_err(), ClipError::UnknownChromosome);
    sizes.insert("chr2".to_string(), 100);
    assert_eq!(py_merge_peaks(&samples, &sizes, 10).unwrap_err(), ClipError::StartBeyondEnd);
}
