use snapatac2_core::merge::{group_by_chromosome, merge_peaks, recenter, windows_fit};
use snapatac2_core::peak::{overlap, peaks_overlap, MalformedRecord, Peak, Region};
use snapatac2_core::rank::{doubled_ranks, rank_of_bits};
use snapatac2_core::selection::{drop_overlapping, find_best, iterative_merge};

fn peak(chrom: &str, start: u64, end: u64, summit_offset: u64, rank: u64, record: usize) -> Peak {
    Peak { chrom: chrom.to_string(), start, end, summit_offset, rank, record }
}

fn region(chrom: &str, start: u64, end: u64) -> Region {
    Region { chrom: chrom.to_string(), start, end }
}

fn records(peaks: &[Peak]) -> Vec<usize> {
    peaks.iter().map(|p| p.record).collect()
}

#[test]
fn touching_regions_do_not_overlap() {
    assert!(!overlap(&region("chr1", 0, 10), &region("chr1", 10, 20)));
    assert!(!overlap(&region("chr1", 10, 20), &region("chr1", 0, 10)));
    assert!(overlap(&region("chr1", 0, 11), &region("chr1", 10, 20)));
    assert!(overlap(&region("chr1", 10, 20), &region("chr1", 0, 11)));
    assert!(overlap(&region("chr1", 0, 100), &region("chr1", 10, 20)));
}

#[test]
fn regions_on_different_chromosomes_do_not_overlap() {
    assert!(!overlap(&region("chr1", 0, 10), &region("chr2", 0, 10)));
}

#[test]
fn empty_region_overlaps_nothing() {
    assert!(!overlap(&region("chr1", 5, 5), &region("chr1", 0, 10)));
    assert!(!overlap(&region("chr1", 0, 10), &region("chr1", 5, 5)));
    assert!(!overlap(&region("chr1", 5, 5), &region("chr1", 5, 5)));
    assert!(!overlap(&region("chr1", 7, 3), &region("chr1", 0, 10)));
}

#[test]
fn peaks_overlap_as_their_regions_do() {
    let a = peak("chr1", 0, 10, 5, 1, 0);
    let b = peak("chr1", 9, 20, 5, 1, 1);
    let c = peak("chr1", 10, 20, 5, 1, 2);
    assert!(peaks_overlap(&a, &b));
    assert!(!peaks_overlap(&a, &c));
    assert_eq!(a.region().start, 0);
    assert_eq!(a.region().end, 10);
    assert_eq!(a.region().chrom, "chr1");
}

#[test]
fn recenter_builds_window_around_summit() {
    let out = recenter(&peak("chr1", 9977, 16487, 425, 9, 4), 200);
    assert_eq!(
        (out.chrom.as_str(), out.start, out.end, out.summit_offset, out.rank, out.record),
        ("chr1", 10202, 10603, 200, 9, 4)
    );
}

#[test]
fn recenter_cuts_window_at_zero() {
    let out = recenter(&peak("chr3", 0, 1164, 100, 9, 4), 200);
    assert_eq!((out.start, out.end, out.summit_offset), (0, 301, 100));
}

#[test]
fn recenter_with_zero_half_window() {
    let out = recenter(&peak("chr3", 10, 20, 3, 9, 4), 0);
    assert_eq!((out.start, out.end, out.summit_offset), (13, 14, 0));
}

#[test]
fn find_best_takes_first_of_equal_ranks() {
    let peaks = vec![
        peak("chr1", 0, 10, 0, 5, 0),
        peak("chr1", 0, 10, 0, 9, 1),
        peak("chr1", 0, 10, 0, 9, 2),
        peak("chr1", 0, 10, 0, 3, 3),
    ];
    assert_eq!(find_best(&peaks), 1);
}

#[test]
fn drop_overlapping_keeps_order() {
    let peaks = vec![
        peak("chr1", 0, 10, 0, 5, 0),
        peak("chr1", 20, 30, 0, 9, 1),
        peak("chr1", 5, 25, 0, 9, 2),
        peak("chr2", 0, 10, 0, 3, 3),
        peak("chr1", 10, 20, 0, 3, 4),
    ];
    let winner = peak("chr1", 0, 10, 0, 5, 9);
    assert_eq!(records(&drop_overlapping(&peaks, &winner)), vec![1, 3, 4]);
}

#[test]
fn iterative_merge_picks_by_rank_and_drops_overlaps() {
    let peaks = vec![
        peak("chr1", 0, 10, 0, 1, 0),
        peak("chr1", 5, 15, 0, 3, 1),
        peak("chr1", 12, 22, 0, 2, 2),
        peak("chr1", 30, 40, 0, 1, 3),
        peak("chr1", 21, 31, 0, 1, 4),
    ];
    // 1 wins and removes 0 and 2; then 3 (first of rank 1) wins and removes 4.
    assert_eq!(records(&iterative_merge(peaks)), vec![1, 3]);
}

#[test]
fn iterative_merge_of_nothing_is_nothing() {
    assert_eq!(iterative_merge(Vec::new()).len(), 0);
}

#[test]
fn iterative_merge_result_is_free_of_overlap_and_dominates() {
    let mut peaks = Vec::new();
    let mut seed: u64 = 12345;
    for i in 0..200usize {
        seed = seed.wrapping_mul(6364136223846793005).wrapping_add(1442695040888963407);
        let start = (seed >> 33) % 5000;
        let rank = (seed >> 20) % 50;
        peaks.push(peak("chr1", start, start + 101, 50, rank, i));
    }
    let winners = iterative_merge(peaks.clone());
    for a in 0..winners.len() {
        for b in (a + 1)..winners.len() {
            assert!(!peaks_overlap(&winners[a], &winners[b]));
        }
    }
    for p in &peaks {
        let kept = winners.iter().any(|w| w.record == p.record);
        let lost = winners.iter().any(|w| peaks_overlap(w, p) && w.rank >= p.rank);
        assert!(kept || lost);
    }
}

#[test]
fn group_by_chromosome_keeps_first_seen_order() {
    let peaks = vec![
        peak("chr2", 0, 10, 0, 1, 0),
        peak("chr1", 5, 15, 0, 3, 1),
        peak("chr2", 12, 22, 0, 2, 2),
        peak("chr3", 30, 40, 0, 1, 3),
        peak("chr1", 21, 31, 0, 1, 4),
    ];
    let groups = group_by_chromosome(&peaks);
    let got: Vec<Vec<usize>> = groups.iter().map(|g| records(g)).collect();
    assert_eq!(got, vec![vec![0, 2], vec![1, 4], vec![3]]);
}

#[test]
fn merge_peaks_groups_by_chromosome_in_first_seen_order() {
    let peaks = vec![
        peak("chr2", 1000, 2000, 500, 1, 0),
        peak("chr1", 1000, 2000, 500, 3, 1),
        peak("chr2", 1000, 2000, 510, 2, 2),
        peak("chr1", 5000, 6000, 0, 1, 3),
    ];
    let groups = merge_peaks(peaks, 10);
    let got: Vec<Vec<(String, u64, u64, u64, usize)>> = groups
        .iter()
        .map(|g| {
            g.iter().map(|p| (p.chrom.clone(), p.start, p.end, p.summit_offset, p.record)).collect()
        })
        .collect();
    assert_eq!(
        got,
        vec![
            vec![("chr2".to_string(), 1500, 1521, 10, 2)],
            vec![("chr1".to_string(), 1490, 1511, 10, 1), ("chr1".to_string(), 4990, 5011, 10, 3)],
        ]
    );
}

#[test]
fn merge_peaks_keeps_touching_windows() {
    // windows [0, 21) and [21, 42) touch but share no position
    let peaks = vec![peak("chr1", 10, 11, 0, 1, 0), peak("chr1", 31, 32, 0, 1, 1)];
    let groups = merge_peaks(peaks, 10);
    assert_eq!(groups.len(), 1);
    assert_eq!(records(&groups[0]), vec![0, 1]);
}

#[test]
fn merge_peaks_of_nothing_is_nothing() {
    assert_eq!(merge_peaks(Vec::new(), 200).len(), 0);
}

#[test]
fn rank_of_bits_orders_as_numbers_do() {
    let values = [
        f64::NEG_INFINITY,
        -1.0e300,
        -2.5,
        -1.0,
        -1.0e-300,
        -f64::MIN_POSITIVE,
        0.0,
        f64::MIN_POSITIVE,
        1.0e-300,
        1.0,
        74.1871,
        74.611,
        290.0,
        295.33,
        1.0e300,
        f64::INFINITY,
    ];
    for a in values {
        for b in values {
            let ra = rank_of_bits(a.to_bits());
            let rb = rank_of_bits(b.to_bits());
            assert_eq!(a < b, ra < rb);
            assert_eq!(a == b, ra == rb);
        }
    }
}

#[test]
fn rank_of_bits_treats_zeros_alike() {
    assert_eq!(rank_of_bits((0.0f64).to_bits()), rank_of_bits((-0.0f64).to_bits()));
    assert_eq!(rank_of_bits((0.0f64).to_bits()), 0x8000_0000_0000_0000);
}

#[test]
fn rank_of_bits_puts_nan_lowest() {
    assert_eq!(rank_of_bits(f64::NAN.to_bits()), 0);
    assert_eq!(rank_of_bits((-f64::NAN).to_bits()), 0);
    assert_eq!(rank_of_bits(0x7FF0_0000_0000_0001), 0);
    assert_eq!(rank_of_bits(0xFFFF_FFFF_FFFF_FFFF), 0);
    assert!(rank_of_bits(f64::NEG_INFINITY.to_bits()) > 0);
    assert_eq!(rank_of_bits(f64::NEG_INFINITY.to_bits()), 0x0010_0000_0000_0000);
    assert_eq!(rank_of_bits(f64::INFINITY.to_bits()), 0xFFF0_0000_0000_0000);
}

#[test]
fn doubled_ranks_average_ties() {
    assert_eq!(doubled_ranks(&vec![10, 20, 20, 5, 30]), vec![4, 7, 7, 2, 10]);
    assert_eq!(doubled_ranks(&vec![7, 7, 7]), vec![4, 4, 4]);
    assert_eq!(doubled_ranks(&vec![3, 2, 1]), vec![6, 4, 2]);
    assert_eq!(doubled_ranks(&vec![0, u64::MAX, 0, u64::MAX]), vec![3, 7, 3, 7]);
    assert_eq!(doubled_ranks(&vec![42]), vec![2]);
    assert_eq!(doubled_ranks(&Vec::new()), Vec::<u64>::new());
}

#[test]
fn doubled_ranks_sum_to_what_distinct_ranks_sum_to() {
    let mut sample = Vec::new();
    let mut seed: u64 = 5;
    for _ in 0..1000 {
        seed = seed.wrapping_mul(6364136223846793005).wrapping_add(1442695040888963407);
        sample.push((seed >> 33) % 50);
    }
    let ranks = doubled_ranks(&sample);
    let total: u64 = ranks.iter().sum();
    assert_eq!(total, 1000 * 1001);
    for i in 0..sample.len() {
        let less = sample.iter().filter(|&&v| v < sample[i]).count() as u64;
        let equal = sample.iter().filter(|&&v| v == sample[i]).count() as u64;
        assert_eq!(ranks[i], 2 * less + equal + 1);
    }
}

#[test]
fn new_peak_holds_its_summit() {
    let p = Peak::new("chr1".to_string(), 10, 20, 10, 3, 7).unwrap();
    assert_eq!(
        (p.chrom.as_str(), p.start, p.end, p.summit_offset, p.rank, p.record),
        ("chr1", 10, 20, 10, 3, 7)
    );
    assert!(Peak::new("chr1".to_string(), 10, 20, 0, 3, 7).is_ok());
}

#[test]
fn new_peak_rejects_bad_coordinates() {
    assert_eq!(Peak::new("chr1".to_string(), 10, 10, 0, 3, 7).unwrap_err(), MalformedRecord);
    assert_eq!(Peak::new("chr1".to_string(), 20, 10, 0, 3, 7).unwrap_err(), MalformedRecord);
    assert_eq!(Peak::new("chr1".to_string(), 10, 20, 11, 3, 7).unwrap_err(), MalformedRecord);
}

#[test]
fn windows_fit_where_their_end_is_a_coordinate() {
    let near = peak("chr1", u64::MAX - 20, u64::MAX - 10, 5, 1, 0);
    assert!(windows_fit(&vec![near.clone()], 14));
    assert!(!windows_fit(&vec![near.clone()], 15));
    assert!(!windows_fit(&vec![peak("chr1", 0, 10, 5, 1, 0), near.clone()], u64::MAX));
    assert!(!windows_fit(&vec![peak("chr1", u64::MAX, u64::MAX, 1, 1, 0)], 0));
    assert!(windows_fit(&vec![peak("chr1", 0, 10, 5, 1, 0)], 200));
    assert!(windows_fit(&Vec::new(), u64::MAX));
    let out = recenter(&near, 14);
    assert_eq!((out.start, out.end, out.summit_offset), (u64::MAX - 29, u64::MAX, 14));
}
