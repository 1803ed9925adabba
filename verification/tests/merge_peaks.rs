use bed_utils::bed::io::Reader;
use bed_utils::bed::NarrowPeak;
use snapatac2_core::merge::merge_peaks;
use snapatac2_core::peak::Peak;
use snapatac2_core::rank::rank_of_bits;

fn read_peaks(text: &str) -> Vec<NarrowPeak> {
    Reader::new(text.as_bytes(), None)
        .into_records()
        .map(|x| x.unwrap())
        .collect()
}

fn to_peaks(records: &[NarrowPeak]) -> Vec<Peak> {
    records
        .iter()
        .enumerate()
        .map(|(i, x)| Peak {
            chrom: x.chrom.clone(),
            start: x.start,
            end: x.end,
            summit_offset: x.peak,
            rank: rank_of_bits(x.p_value.to_bits()),
            record: i,
        })
        .collect()
}

fn to_record(records: &[NarrowPeak], peak: &Peak) -> NarrowPeak {
    let mut out = records[peak.record].clone();
    out.chrom = peak.chrom.clone();
    out.start = peak.start;
    out.end = peak.end;
    out.peak = peak.summit_offset;
    out
}

#[test]
fn test_merge_peaks() {
    let input = "chr1\t9977\t16487\ta\t1000\t.\t74.611\t290.442\t293.049\t189
chr1\t9977\t16487\tb\t1000\t.\t74.1871\t295.33\t290.939\t425
chr1\t9977\t16487\tb\t1000\t.\t74.1871\t295\t290.939\t425
chr1\t9977\t16487\tb\t1000\t.\t74.1871\t295\t290.939\t625
chr1\t9977\t16487\tb\t1000\t.\t74.1871\t290\t290.939\t925
chr2\t9977\t16487\tb\t1000\t.\t74.1871\t295\t290.939\t625
chr2\t9977\t16487\tb\t1000\t.\t74.1871\t290\t290.939\t325
chr2\t9977\t16487\tb\t1000\t.\t74.1871\t290\t290.939\t525
chr2\t9977\t16487\tb\t1000\t.\t74.1871\t290\t290.939\t725
chr3\t0\t1164\tb\t1000\t.\t74.1871\t290\t290.939\t100
";
    let output = "chr1\t10202\t10603\tb\t1000\t.\t74.1871\t295.33\t290.939\t200
chr1\t10702\t11103\tb\t1000\t.\t74.1871\t290\t290.939\t200
chr2\t10402\t10803\tb\t1000\t.\t74.1871\t295\t290.939\t200
chr3\t0\t301\tb\t1000\t.\t74.1871\t290\t290.939\t100
";

    let expected: Vec<NarrowPeak> = read_peaks(output);
    let records = read_peaks(input);
    let result: Vec<NarrowPeak> = merge_peaks(to_peaks(&records), 200)
        .into_iter()
        .flatten()
        .map(|x| to_record(&records, &x))
        .collect();

    assert_eq!(expected, result);
}

#[test]
fn peak_whose_p_value_is_no_number_loses() {
    let input = "chr1\t100\t200\ta\t1000\t.\t5\tNaN\t1\t50
chr1\t110\t210\tb\t1000\t.\t5\t-3.5\t1\t50
";
    let records = read_peaks(input);
    assert!(records[0].p_value.is_nan());
    let result: Vec<NarrowPeak> = merge_peaks(to_peaks(&records), 20)
        .into_iter()
        .flatten()
        .map(|x| to_record(&records, &x))
        .collect();
    assert_eq!(result.len(), 1);
    assert_eq!(result[0].name, Some("b".to_string()));
    assert_eq!((result[0].start, result[0].end, result[0].peak), (140, 181, 20));
}
