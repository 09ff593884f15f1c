use faba::gff::{parse, parse_decimal, split_fields, split_words};

#[test]
fn parse_full_line() {
    let line = "chr1\tHAVANA\texon\t11869\t12227\t.\t+\t.\tgene_id:ENSG1 tag:basic";
    let g = parse(line).unwrap();
    assert_eq!(g.seqname, "chr1");
    assert_eq!(g.source, "HAVANA");
    assert_eq!(g.feature_type, "exon");
    assert_eq!((g.start, g.end), (11869, 12227));
    assert_eq!(g.score, ".");
    assert_eq!(g.strand, "+");
    assert_eq!(g.phase, None);
    assert_eq!(
        g.attributes,
        vec![("gene_id".to_string(), "ENSG1".to_string()), ("tag".to_string(), "basic".to_string())]
    );
}

#[test]
fn parse_rejects_wrong_field_count() {
    assert!(parse("chr1\tsrc\texon\t1\t2\t.\t+\t.").is_none());
    assert!(parse("chr1\tsrc\texon\t1\t2\t.\t+\t.\ta:b\textra").is_none());
    assert!(parse("").is_none());
}

#[test]
fn parse_defaults_bad_numbers_to_zero() {
    let g = parse("c\ts\tCDS\tx12\t99999999999999999999999\t0.5\t-\t2\tk:v:w odd").unwrap();
    assert_eq!((g.start, g.end), (0, 0));
    assert_eq!(g.phase, Some(2));
    assert!(g.attributes.is_empty());
    let h = parse("c\ts\tCDS\t+7\t8\t.\t-\tx\t").unwrap();
    assert_eq!((h.start, h.end), (7, 8));
    assert_eq!(h.phase, Some(0));
    assert!(h.attributes.is_empty());
}

#[test]
fn decimal_fields() {
    assert_eq!(parse_decimal("0", u64::MAX), Some(0));
    assert_eq!(parse_decimal("007", u64::MAX), Some(7));
    assert_eq!(parse_decimal("+42", u64::MAX), Some(42));
    assert_eq!(parse_decimal("18446744073709551615", u64::MAX), Some(u64::MAX));
    assert_eq!(parse_decimal("18446744073709551616", u64::MAX), None);
    assert_eq!(parse_decimal("256", 255), None);
    assert_eq!(parse_decimal("255", 255), Some(255));
    assert_eq!(parse_decimal("", u64::MAX), None);
    assert_eq!(parse_decimal("+", u64::MAX), None);
    assert_eq!(parse_decimal("-1", u64::MAX), None);
    assert_eq!(parse_decimal("1 ", u64::MAX), None);
}

#[test]
fn split_keeps_empty_fields() {
    assert_eq!(split_fields("a\t\tb\t", '\t'), vec!["a", "", "b", ""]);
    assert_eq!(split_fields("", '\t'), vec![""]);
    assert_eq!(split_fields("é:ü", ':'), vec!["é", "ü"]);
}

#[test]
fn words_split_on_any_white_space() {
    assert_eq!(split_words("  a b\t\tc\n"), vec!["a", "b", "c"]);
    assert_eq!(split_words("x\u{3000}y\u{a0}z"), vec!["x", "y", "z"]);
    assert!(split_words(" \t ").is_empty());
}
