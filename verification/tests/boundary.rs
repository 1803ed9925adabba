use snapatac2_core::dtype::{
    element_type, float_width, index_width, ElementType, FloatWidth, IndexWidth,
};
use snapatac2_core::export::{
    export_files, export_keys, fragment_tags, keep_fragment, tag_file_name, LengthsDiffer,
};
use snapatac2_core::files::{
    annotation_format, detect_compression, writer_kind, AnnotationFormat, Compression,
    UnsupportedCompression, WriterKind,
};
use snapatac2_core::peak::Strand;
use snapatac2_core::similarity::{jaccard, Ratio, SimilarityError};
use snapatac2_core::sparsity::SparsityPattern;
use snapatac2_core::text::reads;

fn s(text: &str) -> String {
    text.to_string()
}

fn names(texts: &[&str]) -> Vec<String> {
    texts.iter().map(|t| t.to_string()).collect()
}

fn keys(pairs: &[(&str, &str)]) -> Vec<(String, String)> {
    pairs.iter().map(|(a, b)| (a.to_string(), b.to_string())).collect()
}

#[test]
fn index_width_by_name() {
    assert_eq!(index_width(&s("int32")), Ok(IndexWidth::Int32));
    assert_eq!(index_width(&s("int64")), Ok(IndexWidth::Int64));
    assert_eq!(index_width(&s("uint32")), Err(SimilarityError::UnsupportedType));
    assert_eq!(index_width(&s("int16")), Err(SimilarityError::UnsupportedType));
    assert_eq!(index_width(&s("")), Err(SimilarityError::UnsupportedType));
    assert_eq!(index_width(&s("Int32")), Err(SimilarityError::UnsupportedType));
}

#[test]
fn float_width_by_name() {
    assert_eq!(float_width(&s("float32")), Ok(FloatWidth::Float32));
    assert_eq!(float_width(&s("float64")), Ok(FloatWidth::Float64));
    assert_eq!(float_width(&s("float16")), Err(SimilarityError::UnsupportedType));
    assert_eq!(float_width(&s("int64")), Err(SimilarityError::UnsupportedType));
}

#[test]
fn element_type_by_name() {
    assert_eq!(element_type(&s("uint32")), Ok(ElementType::UInt32));
    assert_eq!(element_type(&s("int32")), Ok(ElementType::Int32));
    assert_eq!(element_type(&s("uint64")), Ok(ElementType::UInt64));
    assert_eq!(element_type(&s("int64")), Ok(ElementType::Int64));
    assert_eq!(element_type(&s("float32")), Ok(ElementType::Float32));
    assert_eq!(element_type(&s("float64")), Ok(ElementType::Float64));
    assert_eq!(element_type(&s("bool")), Err(SimilarityError::UnsupportedType));
}

#[test]
fn pattern_from_either_width_gives_same_similarity() {
    let narrow = SparsityPattern::from_i32(&vec![0, 2, 3], &vec![0, 2, 2], 3).unwrap();
    let wide = SparsityPattern::from_i64(&vec![0, 2, 3], &vec![0, 2, 2], 3).unwrap();
    let plain = SparsityPattern::new(vec![0, 2, 3], vec![0, 2, 2], 3).unwrap();
    let expected = vec![
        vec![Ratio { numerator: 2, denominator: 2 }, Ratio { numerator: 1, denominator: 2 }],
        vec![Ratio { numerator: 1, denominator: 2 }, Ratio { numerator: 1, denominator: 1 }],
    ];
    assert_eq!(jaccard(&narrow, None).unwrap(), expected);
    assert_eq!(jaccard(&wide, None).unwrap(), expected);
    assert_eq!(jaccard(&plain, None).unwrap(), expected);
}

#[test]
fn pattern_rejects_negative_numbers() {
    assert!(matches!(
        SparsityPattern::from_i32(&vec![0, 2], &vec![-1, 2], 3),
        Err(SimilarityError::MalformedPattern)
    ));
    assert!(matches!(
        SparsityPattern::from_i32(&vec![-1, 2], &vec![0, 2], 3),
        Err(SimilarityError::MalformedPattern)
    ));
    assert!(matches!(
        SparsityPattern::from_i64(&vec![0, 2], &vec![0, -2], 3),
        Err(SimilarityError::MalformedPattern)
    ));
    assert!(matches!(
        SparsityPattern::from_i64(&vec![0, 2], &vec![2, 0], 3),
        Err(SimilarityError::MalformedPattern)
    ));
}

#[test]
fn writer_kind_by_compression_and_level() {
    assert_eq!(writer_kind(None, None), Ok(WriterKind::Plain));
    assert_eq!(writer_kind(None, Some(9)), Ok(WriterKind::Plain));
    assert_eq!(writer_kind(Some(&s("gzip")), None), Ok(WriterKind::Gzip(6)));
    assert_eq!(writer_kind(Some(&s("gzip")), Some(1)), Ok(WriterKind::Gzip(1)));
    assert_eq!(writer_kind(Some(&s("zstandard")), None), Ok(WriterKind::Zstd(3)));
    assert_eq!(writer_kind(Some(&s("zstandard")), Some(1)), Ok(WriterKind::Zstd(1)));
    assert_eq!(writer_kind(Some(&s("zstd")), None), Err(UnsupportedCompression));
    assert_eq!(writer_kind(Some(&s("")), Some(2)), Err(UnsupportedCompression));
}

#[test]
fn compression_by_header_and_extension() {
    assert_eq!(detect_compression(true, None), Compression::Gzip);
    assert_eq!(detect_compression(true, Some(&s("zst"))), Compression::Gzip);
    assert_eq!(detect_compression(false, Some(&s("zst"))), Compression::Zstd);
    assert_eq!(detect_compression(false, Some(&s("gz"))), Compression::Uncompressed);
    assert_eq!(detect_compression(false, Some(&s("bed"))), Compression::Uncompressed);
    assert_eq!(detect_compression(false, None), Compression::Uncompressed);
}

#[test]
fn annotation_format_by_extension() {
    assert_eq!(annotation_format(&s("gff"), None), Some(AnnotationFormat::Gff));
    assert_eq!(annotation_format(&s("gtf"), Some(&s("x"))), Some(AnnotationFormat::Gtf));
    assert_eq!(annotation_format(&s("gff3"), None), Some(AnnotationFormat::GffThenGtf));
    assert_eq!(annotation_format(&s("gz"), Some(&s("gff"))), Some(AnnotationFormat::Gff));
    assert_eq!(annotation_format(&s("gz"), Some(&s("gtf"))), Some(AnnotationFormat::Gtf));
    assert_eq!(annotation_format(&s("gz"), Some(&s("txt"))), Some(AnnotationFormat::GffThenGtf));
    assert_eq!(annotation_format(&s("gz"), None), None);
}

#[test]
fn export_keys_pairs_groups_with_replicates() {
    let groups = names(&["a", "b", "a"]);
    let replicates = names(&["r1", "r1", "r2"]);
    assert_eq!(
        export_keys(3, &groups, Some(&replicates)),
        Ok(keys(&[("a", "r1"), ("b", "r1"), ("a", "r2")]))
    );
    assert_eq!(export_keys(3, &groups, None), Ok(keys(&[("a", ""), ("b", ""), ("a", "")])));
    assert_eq!(export_keys(0, &Vec::new(), None), Ok(Vec::new()));
}

#[test]
fn export_keys_rejects_lengths_that_differ() {
    let groups = names(&["a", "b", "a"]);
    assert_eq!(export_keys(2, &groups, None), Err(LengthsDiffer));
    assert_eq!(export_keys(4, &groups, None), Err(LengthsDiffer));
    assert_eq!(export_keys(3, &groups, Some(&names(&["r1", "r2"]))), Err(LengthsDiffer));
}

#[test]
fn export_files_lists_each_selected_key_once() {
    let all = keys(&[("a", "r1"), ("b", "r1"), ("a", "r1"), ("a", "r2"), ("c", ""), ("b", "r1")]);
    assert_eq!(
        export_files(&all, None),
        keys(&[("a", "r1"), ("b", "r1"), ("a", "r2"), ("c", "")])
    );
    assert_eq!(
        export_files(&all, Some(&names(&["c", "a"]))),
        keys(&[("a", "r1"), ("a", "r2"), ("c", "")])
    );
    assert_eq!(export_files(&all, Some(&names(&["r1"]))), Vec::new());
    assert_eq!(export_files(&all, Some(&Vec::new())), Vec::new());
}

#[test]
fn tag_file_name_replaces_slashes() {
    assert_eq!(tag_file_name(&s("B cell"), &s("rep1")), "B cell_rep1.zst");
    assert_eq!(tag_file_name(&s("a/b/c"), &s("x/y")), "a+b+c_x+y.zst");
    assert_eq!(tag_file_name(&s("T"), &s("")), "T_.zst");
    assert_eq!(tag_file_name(&s(""), &s("")), "_.zst");
    assert_eq!(tag_file_name(&s("é/ü"), &s("+")), "é+ü_+.zst");
}

#[test]
fn keep_fragment_by_strand_and_length() {
    assert!(keep_fragment(true, 5000, Some(100)));
    assert!(keep_fragment(false, 100, Some(100)));
    assert!(!keep_fragment(false, 101, Some(100)));
    assert!(keep_fragment(false, 101, None));
    assert!(keep_fragment(true, 101, None));
}

#[test]
fn fragment_tags_by_strand() {
    assert_eq!(fragment_tags(10, 20, None), vec![(10, 0), (19, 1)]);
    assert_eq!(fragment_tags(10, 20, Some(Strand::Forward)), vec![(10, 0)]);
    assert_eq!(fragment_tags(10, 20, Some(Strand::Reverse)), vec![(19, 1)]);
    assert_eq!(fragment_tags(0, 0, Some(Strand::Forward)), vec![(0, 0)]);
}

#[test]
fn reads_compares_whole_names() {
    assert!(reads(&s("int32"), "int32"));
    assert!(!reads(&s("int32"), "int3"));
    assert!(!reads(&s("int3"), "int32"));
    assert!(reads(&s(""), ""));
}
