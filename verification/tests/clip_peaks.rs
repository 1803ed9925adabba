use snapatac2_core::clip::{clip, clip_peak, ChromSizes, ClipError};
use snapatac2_core::membership::clip_peaks;
use snapatac2_core::peak::Peak;

fn peak(chrom: &str, start: u64, end: u64, summit_offset: u64) -> Peak {
    Peak { chrom: chrom.to_string(), start, end, summit_offset, rank: 7, record: 3 }
}

fn fields(p: &Peak) -> (String, u64, u64, u64, u64, usize) {
    (p.chrom.clone(), p.start, p.end, p.summit_offset, p.rank, p.record)
}

#[test]
fn clip_leaves_peak_inside_chromosome() {
    let out = clip(peak("chr1", 100, 200, 40), 1000).unwrap();
    assert_eq!(fields(&out), ("chr1".to_string(), 100, 200, 40, 7, 3));
}

#[test]
fn clip_lowers_end_and_keeps_summit() {
    let out = clip(peak("chr1", 100, 200, 40), 150).unwrap();
    assert_eq!(fields(&out), ("chr1".to_string(), 100, 150, 40, 7, 3));
}

#[test]
fn clip_pins_summit_to_new_end() {
    let out = clip(peak("chr1", 100, 200, 80), 150).unwrap();
    assert_eq!(fields(&out), ("chr1".to_string(), 100, 150, 50, 7, 3));
}

#[test]
fn clip_to_start_gives_empty_peak() {
    let out = clip(peak("chr1", 100, 200, 80), 100).unwrap();
    assert_eq!(fields(&out), ("chr1".to_string(), 100, 100, 0, 7, 3));
}

#[test]
fn clip_rejects_start_beyond_chromosome() {
    assert_eq!(clip(peak("chr1", 100, 200, 80), 99).unwrap_err(), ClipError::StartBeyondEnd);
}

#[test]
fn clip_rejects_start_beyond_own_end() {
    assert_eq!(clip(peak("chr1", 300, 200, 0), 1000).unwrap_err(), ClipError::StartBeyondEnd);
}

#[test]
fn clip_pins_summit_whose_position_overflows() {
    let out = clip(peak("chr1", u64::MAX - 1, u64::MAX, u64::MAX), u64::MAX).unwrap();
    assert_eq!(out.summit_offset, 1);
}

#[test]
fn clip_is_idempotent() {
    for length in [0u64, 50, 100, 120, 150, 199, 200, 500] {
        for offset in [0u64, 10, 60, 100, 150] {
            if let Ok(once) = clip(peak("chr1", 100, 200, offset), length) {
                let twice = clip(once.clone(), length).unwrap();
                assert_eq!(fields(&once), fields(&twice));
            }
        }
    }
}

#[test]
fn chrom_sizes_get_and_insert() {
    let mut sizes = ChromSizes::new();
    assert_eq!(sizes.get(&"chr1".to_string()), None);
    sizes.insert("chr1".to_string(), 1000);
    sizes.insert("chr2".to_string(), 500);
    assert_eq!(sizes.get(&"chr1".to_string()), Some(1000));
    assert_eq!(sizes.get(&"chr2".to_string()), Some(500));
    assert_eq!(sizes.get(&"chr3".to_string()), None);
    sizes.insert("chr1".to_string(), 70);
    assert_eq!(sizes.get(&"chr1".to_string()), Some(70));
    assert_eq!(sizes.get(&"chr2".to_string()), Some(500));
}

#[test]
fn clip_peak_uses_length_of_chromosome() {
    let mut sizes = ChromSizes::new();
    sizes.insert("chr1".to_string(), 150);
    sizes.insert("chr2".to_string(), 1000);
    let a = clip_peak(peak("chr1", 100, 200, 80), &sizes).unwrap();
    assert_eq!(fields(&a), ("chr1".to_string(), 100, 150, 50, 7, 3));
    let b = clip_peak(peak("chr2", 100, 200, 80), &sizes).unwrap();
    assert_eq!(fields(&b), ("chr2".to_string(), 100, 200, 80, 7, 3));
}

#[test]
fn clip_peak_reports_unknown_chromosome() {
    let mut sizes = ChromSizes::new();
    sizes.insert("chr1".to_string(), 150);
    assert_eq!(
        clip_peak(peak("chrX", 100, 200, 80), &sizes).unwrap_err(),
        ClipError::UnknownChromosome
    );
}

#[test]
fn clip_peak_reports_start_beyond_end() {
    let mut sizes = ChromSizes::new();
    sizes.insert("chr1".to_string(), 50);
    assert_eq!(
        clip_peak(peak("chr1", 100, 200, 80), &sizes).unwrap_err(),
        ClipError::StartBeyondEnd
    );
}

#[test]
fn clip_peaks_clips_all_or_reports_first_error() {
    let mut sizes = ChromSizes::new();
    sizes.insert("chr1".to_string(), 150);
    let good = vec![peak("chr1", 0, 100, 50), peak("chr1", 100, 200, 80)];
    let out = clip_peaks(&good, &sizes).unwrap();
    assert_eq!(out.len(), 2);
    assert_eq!(fields(&out[0]), ("chr1".to_string(), 0, 100, 50, 7, 3));
    assert_eq!(fields(&out[1]), ("chr1".to_string(), 100, 150, 50, 7, 3));
    let bad = vec![peak("chr1", 0, 100, 50), peak("chr1", 160, 200, 0), peak("chr9", 0, 1, 0)];
    assert_eq!(clip_peaks(&bad, &sizes).unwrap_err(), ClipError::StartBeyondEnd);
    let bad = vec![peak("chr9", 0, 100, 50), peak("chr1", 160, 200, 0)];
    assert_eq!(clip_peaks(&bad, &sizes).unwrap_err(), ClipError::UnknownChromosome);
}
