use faba::aggregate::get_dna_base_freq;
use faba::bam::{dna_of_base, AlignedRead, BamSample};
use faba::dna::Dna;
use faba::error::SiftError;
use faba::scan::{counts_fit, scan_block};
use faba::rules::BaseFilters;

fn read_at(start: i64, bases: &str, reverse: bool, barcode: Option<&str>) -> AlignedRead {
    let seq: Vec<u8> = bases.bytes().collect();
    let pairs = (0..seq.len() as i64).map(|i| (i, start + i)).collect();
    AlignedRead {
        is_duplicate: false,
        is_reverse: reverse,
        barcode: barcode.map(|b| b.to_string()),
        seq,
        pairs,
    }
}

#[test]
fn base_letters_in_either_case() {
    assert_eq!(dna_of_base(b'A'), Some(Dna::A));
    assert_eq!(dna_of_base(b't'), Some(Dna::T));
    assert_eq!(dna_of_base(b'g'), Some(Dna::G));
    assert_eq!(dna_of_base(b'C'), Some(Dna::C));
    assert_eq!(dna_of_base(b'N'), None);
    assert_eq!(dna_of_base(b'-'), None);
}

#[test]
fn empty_region_is_an_error() {
    let reads = vec![read_at(0, "ACGT", false, None)];
    assert!(matches!(get_dna_base_freq(5, 5, &reads), Err(SiftError::Region)));
    assert!(matches!(get_dna_base_freq(6, 5, &reads), Err(SiftError::Region)));
}

#[test]
fn no_reads_gives_zero_tables() {
    let m = get_dna_base_freq(10, 14, &vec![]).unwrap();
    assert_eq!(m.samples().len(), 1);
    assert_eq!(m.samples()[0], BamSample::Combined);
    let f = m.get_forward(&BamSample::Combined).unwrap();
    assert_eq!(f.len(), 4);
    for (i, s) in f.iter().enumerate() {
        assert_eq!(s.position(), 10 + i as i64);
        for b in [Dna::A, Dna::T, Dna::G, Dna::C] {
            assert_eq!(s.get(b), 0);
        }
    }
}

#[test]
fn counts_follow_strand_and_letter() {
    let reads = vec![
        read_at(100, "ACgt", false, None),
        read_at(101, "CCNA", false, None),
        read_at(100, "TTTT", true, None),
    ];
    let m = get_dna_base_freq(100, 104, &reads).unwrap();
    let f = m.get_forward(&BamSample::Combined).unwrap();
    let r = m.get_reverse(&BamSample::Combined).unwrap();
    assert_eq!(f[0].get(Dna::A), 1);
    assert_eq!(f[1].get(Dna::C), 2);
    assert_eq!(f[2].get(Dna::G), 1);
    assert_eq!(f[2].get(Dna::C), 1);
    assert_eq!(f[3].get(Dna::T), 1);
    assert_eq!(f[3].get(Dna::A), 0);
    for s in r.iter() {
        assert_eq!(s.get(Dna::T), 1);
        assert_eq!(s.get(Dna::A), 0);
    }
    for (i, s) in f.iter().enumerate() {
        assert_eq!(s.position(), 100 + i as i64);
    }
    for (i, s) in r.iter().enumerate() {
        assert_eq!(s.position(), 100 + i as i64);
    }
}

#[test]
fn duplicates_and_outside_pairs_are_skipped() {
    let mut dup = read_at(0, "GGGG", false, None);
    dup.is_duplicate = true;
    let mut wide = read_at(-2, "AAAAAAAA", false, None);
    wide.pairs.push((50, 3));
    let reads = vec![dup, wide];
    let m = get_dna_base_freq(0, 4, &reads).unwrap();
    let f = m.get_forward(&BamSample::Combined).unwrap();
    assert_eq!(f.iter().map(|s| s.get(Dna::G)).sum::<u64>(), 0);
    assert_eq!(f.iter().map(|s| s.get(Dna::A)).collect::<Vec<_>>(), vec![1, 1, 1, 1]);
}

#[test]
fn barcodes_make_samples_in_order_of_appearance() {
    let reads = vec![
        read_at(0, "AA", false, Some("CELL2")),
        read_at(0, "CC", false, None),
        read_at(0, "GG", true, Some("CELL1")),
        read_at(0, "TT", false, Some("CELL2")),
    ];
    let m = get_dna_base_freq(0, 2, &reads).unwrap();
    let names: Vec<String> = m.samples().iter().map(|s| s.name()).collect();
    assert_eq!(names, vec![".", "CELL2", "CELL1"]);
    assert!(m.has_sample(&BamSample::Barcode("CELL1".to_string())));
    assert!(!m.has_sample(&BamSample::Barcode("CELL3".to_string())));
    let c2 = m.get_forward(&BamSample::Barcode("CELL2".to_string())).unwrap();
    assert_eq!((c2[0].get(Dna::A), c2[0].get(Dna::T)), (1, 1));
    let comb = m.get_forward(&BamSample::Combined).unwrap();
    assert_eq!((comb[1].get(Dna::C), comb[1].get(Dna::A)), (1, 0));
    let c1 = m.get_reverse(&BamSample::Barcode("CELL1".to_string())).unwrap();
    assert_eq!(c1[1].get(Dna::G), 1);
    assert!(m.get_forward(&BamSample::Barcode("CELL3".to_string())).is_none());
}

#[test]
fn scan_finds_mixed_positions_per_strand() {
    let reads = vec![
        read_at(0, "AAAAA", false, None),
        read_at(0, "AAGAA", false, None),
        read_at(0, "CCCCT", true, None),
        read_at(0, "CCCCC", true, None),
    ];
    let f = BaseFilters::new();
    let (fwd, rev) = scan_block(0, 5, &reads, &f).unwrap();
    assert_eq!(fwd, vec![2]);
    assert_eq!(rev, vec![4]);
    assert!(matches!(scan_block(3, 3, &reads, &f), Err(SiftError::Region)));
}

#[test]
fn scan_counts_each_sample_on_its_own() {
    let reads = vec![
        read_at(0, "A", false, Some("X")),
        read_at(0, "G", false, Some("Y")),
    ];
    let (fwd, _) = scan_block(0, 1, &reads, &BaseFilters::new()).unwrap();
    assert!(fwd.is_empty());
}

#[test]
fn ordinary_read_sets_fit_the_counters() {
    assert!(counts_fit(&vec![read_at(0, "ACGT", false, None)]));
    assert!(counts_fit(&vec![]));
}
