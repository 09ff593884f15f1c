use faba::bam::{AlignedRead, BamSample};
use faba::compare::{compare, differs};
use faba::dna::{Dna, DnaBaseStat};
use faba::error::SiftError;
use faba::rules::Cutoff;
use faba::sifter::{BamSifter, SifterStage};

fn aligned(start: i64, bases: &str, reverse: bool) -> AlignedRead {
    let seq: Vec<u8> = bases.bytes().collect();
    let pairs = (0..seq.len() as i64).map(|i| (i, start + i)).collect();
    AlignedRead { is_duplicate: false, is_reverse: reverse, barcode: None, seq, pairs }
}

/// The reads of a small file over one 30-base reference: position 12 and
/// position 25 carry two bases on the forward strand, all others one.
fn mixed_file() -> Vec<(i64, String, bool)> {
    let base = "A".repeat(30);
    let mut alt: Vec<u8> = base.clone().into_bytes();
    alt[12] = b'G';
    alt[25] = b'T';
    vec![
        (0, base.clone(), false),
        (0, String::from_utf8(alt).unwrap(), false),
        (0, "C".repeat(30), true),
    ]
}

fn fetch(file: &[(i64, String, bool)], lb: i64, ub: i64) -> Vec<AlignedRead> {
    file.iter()
        .filter(|(s, b, _)| *s < ub && *s + b.len() as i64 > lb)
        .map(|(s, b, r)| aligned(*s, b, *r))
        .collect()
}

fn one_reference(len: i64) -> Vec<(String, i64)> {
    vec![("chr1".to_string(), len)]
}

fn sweep_all(s: &mut BamSifter, file: &[(i64, String, bool)]) {
    for t in 0..s.num_sequences() {
        let blocks = s.sequence_blocks(t).clone();
        for (k, (lb, ub)) in blocks.iter().enumerate() {
            s.sweep_block(t, k, Ok(fetch(file, *lb, *ub)));
        }
    }
}

fn flag_only(len: i64, pos: usize) -> Vec<(i64, String, bool)> {
    let mut alt: Vec<u8> = "A".repeat(len as usize).into_bytes();
    alt[pos] = b'C';
    vec![(0, "A".repeat(len as usize), false), (0, String::from_utf8(alt).unwrap(), false)]
}

#[test]
fn new_sifter_cuts_blocks() {
    let s = BamSifter::new(&vec![("chr1".to_string(), 30), ("chr2".to_string(), 5)], Some(10));
    assert_eq!(s.num_sequences(), 2);
    assert_eq!(s.sequence_name(1), "chr2");
    assert_eq!(s.sequence_blocks(0), &vec![(0, 10), (10, 20), (20, 30)]);
    assert_eq!(s.sequence_blocks(1), &vec![(0, 5)]);
    assert_eq!(s.stage(), SifterStage::Initialized);
    let d = BamSifter::new(&one_reference(25_000), None);
    assert_eq!(d.sequence_blocks(0), &vec![(0, 10_000), (10_000, 20_000), (20_000, 25_000)]);
}

#[test]
fn end_to_end_sweep_and_statistics() {
    let file = mixed_file();
    let mut a = BamSifter::new(&one_reference(30), Some(10));
    sweep_all(&mut a, &file);
    a.finish_sweep();
    assert_eq!(a.get_forward_variable_positions()[0], vec![12, 25]);
    assert!(a.get_reverse_variable_positions()[0].is_empty());

    let mut b = BamSifter::new(&one_reference(30), Some(10));
    sweep_all(&mut b, &[]);
    b.finish_sweep();
    a.add_missed_positions(&b);
    b.add_missed_positions(&a);

    for pos in a.candidate_positions(0) {
        a.populate_position(0, pos, Ok(fetch(&file, pos, pos + 1)));
    }
    a.finish_statistics();
    assert_eq!(a.stage(), SifterStage::StatisticsPopulated);
    let entry = a.statistics().get(&BamSample::Combined, 0).unwrap();
    let fwd = entry.forward();
    assert_eq!(fwd.len(), 2);
    assert_eq!(fwd[0].position(), 12);
    assert_eq!((fwd[0].get(Dna::A), fwd[0].get(Dna::G)), (1, 1));
    assert_eq!(fwd[1].position(), 25);
    assert_eq!((fwd[1].get(Dna::A), fwd[1].get(Dna::T)), (1, 1));
    let rev = entry.reverse();
    assert_eq!(rev.len(), 2);
    assert_eq!(rev[0].get(Dna::C), 1);
    assert!(a.failures().is_empty());
}

#[test]
fn reconciliation_unions_both_datasets() {
    let mut a = BamSifter::new(&one_reference(30), Some(10));
    let mut b = BamSifter::new(&one_reference(30), Some(10));
    sweep_all(&mut a, &flag_only(30, 12));
    sweep_all(&mut b, &flag_only(30, 25));
    a.finish_sweep();
    b.finish_sweep();
    assert_eq!(a.get_forward_variable_positions()[0], vec![12]);
    assert_eq!(b.get_forward_variable_positions()[0], vec![25]);
    a.add_missed_positions(&b);
    b.add_missed_positions(&a);
    assert_eq!(a.get_forward_variable_positions()[0], vec![12, 25]);
    assert_eq!(b.get_forward_variable_positions()[0], vec![12, 25]);
    assert_eq!(a.stage(), SifterStage::Reconciled);
}

#[test]
fn reconciliation_matches_sequences_by_name() {
    let mut a = BamSifter::new(&vec![("chrA".to_string(), 20), ("chrB".to_string(), 20)], Some(10));
    let mut b = BamSifter::new(&vec![("chrB".to_string(), 20), ("chrC".to_string(), 20)], Some(10));
    for k in 0..2 {
        let lb = 10 * k as i64;
        a.sweep_block(1, k, Ok(fetch(&flag_only(20, 3), lb, lb + 10)));
        b.sweep_block(0, k, Ok(fetch(&flag_only(20, 14), lb, lb + 10)));
        b.sweep_block(1, k, Ok(fetch(&flag_only(20, 7), lb, lb + 10)));
    }
    a.finish_sweep();
    b.finish_sweep();
    a.add_missed_positions(&b);
    b.add_missed_positions(&a);
    assert!(a.get_forward_variable_positions()[0].is_empty());
    assert_eq!(a.get_forward_variable_positions()[1], vec![3, 14]);
    assert_eq!(b.get_forward_variable_positions()[0], vec![3, 14]);
    assert_eq!(b.get_forward_variable_positions()[1], vec![7]);
    assert_eq!(a.num_sequences(), 3);
    assert_eq!(a.sequence_name(2), "chrC");
    assert!(a.sequence_blocks(2).is_empty());
    assert_eq!(a.get_forward_variable_positions()[2], vec![7]);
    assert_eq!(b.num_sequences(), 3);
    assert_eq!(b.sequence_name(2), "chrA");
    assert!(b.get_forward_variable_positions()[2].is_empty());
}

#[test]
fn sweeping_twice_gives_the_same_positions() {
    let file = mixed_file();
    let mut once = BamSifter::new(&one_reference(30), Some(10));
    sweep_all(&mut once, &file);
    let mut twice = BamSifter::new(&one_reference(30), Some(10));
    sweep_all(&mut twice, &file);
    sweep_all(&mut twice, &file);
    assert_eq!(once.get_forward_variable_positions(), twice.get_forward_variable_positions());
    assert_eq!(once.get_reverse_variable_positions(), twice.get_reverse_variable_positions());
}

#[test]
fn block_order_does_not_matter() {
    let file = mixed_file();
    let mut fwd = BamSifter::new(&one_reference(30), Some(7));
    sweep_all(&mut fwd, &file);
    let mut back = BamSifter::new(&one_reference(30), Some(7));
    let blocks = back.sequence_blocks(0).clone();
    for k in (0..blocks.len()).rev() {
        let (lb, ub) = blocks[k];
        back.sweep_block(0, k, Ok(fetch(&file, lb, ub)));
    }
    assert_eq!(fwd.get_forward_variable_positions(), back.get_forward_variable_positions());
    assert_eq!(back.get_forward_variable_positions()[0], vec![12, 25]);
}

#[test]
fn reconcile_is_symmetric_on_shared_sequences() {
    let mut a = BamSifter::new(&one_reference(30), Some(10));
    let mut b = BamSifter::new(&one_reference(30), Some(10));
    sweep_all(&mut a, &mixed_file());
    sweep_all(&mut b, &flag_only(30, 3));
    a.finish_sweep();
    b.finish_sweep();
    a.add_missed_positions(&b);
    b.add_missed_positions(&a);
    assert_eq!(a.get_forward_variable_positions(), b.get_forward_variable_positions());
    assert_eq!(a.get_reverse_variable_positions(), b.get_reverse_variable_positions());
    assert_eq!(a.get_forward_variable_positions()[0], vec![3, 12, 25]);
}

#[test]
fn failed_blocks_are_recorded() {
    let mut s = BamSifter::new(&one_reference(30), Some(10));
    s.sweep_block(0, 1, Err(SiftError::Io("unknown reference".to_string())));
    s.sweep_block(0, 0, Ok(fetch(&mixed_file(), 0, 10)));
    assert_eq!(s.failures().len(), 1);
    let f = &s.failures()[0];
    assert_eq!((f.tid, f.lb, f.ub), (0, 10, 20));
    assert_eq!(f.error, SiftError::Io("unknown reference".to_string()));
    assert!(s.get_forward_variable_positions()[0].is_empty());
}

#[test]
fn failed_positions_are_recorded() {
    let mut a = BamSifter::new(&one_reference(30), Some(10));
    sweep_all(&mut a, &mixed_file());
    a.finish_sweep();
    let b = {
        let mut b = BamSifter::new(&one_reference(30), Some(10));
        b.finish_sweep();
        b
    };
    a.add_missed_positions(&b);
    a.populate_position(0, 12, Err(SiftError::Io("truncated".to_string())));
    assert_eq!(a.failures().len(), 1);
    assert_eq!((a.failures()[0].lb, a.failures()[0].ub), (12, 13));
    assert!(a.statistics().get(&BamSample::Combined, 0).is_none());
}

#[test]
fn candidates_cover_both_strands() {
    let mut s = BamSifter::new(&one_reference(10), Some(10));
    let file = vec![
        (0, "AAAAAAAAAA".to_string(), false),
        (0, "AAAAGAAAAA".to_string(), false),
        (0, "CCCCCCCCCC".to_string(), true),
        (0, "CCCCCCCTCC".to_string(), true),
    ];
    sweep_all(&mut s, &file);
    assert_eq!(s.get_forward_variable_positions()[0], vec![4]);
    assert_eq!(s.get_reverse_variable_positions()[0], vec![7]);
    assert_eq!(s.candidate_positions(0), vec![4, 7]);
}

fn stat_with(gpos: i64, counts: [u64; 4]) -> DnaBaseStat {
    let mut s = DnaBaseStat::new(gpos);
    s.add(Dna::A, counts[0]);
    s.add(Dna::T, counts[1]);
    s.add(Dna::G, counts[2]);
    s.add(Dna::C, counts[3]);
    s
}

#[test]
fn differs_unless_same_confident_major_allele() {
    let cut = Cutoff { num: 9, den: 10 };
    assert!(!differs(&stat_with(0, [95, 5, 0, 0]), &stat_with(0, [99, 1, 0, 0]), cut));
    assert!(differs(&stat_with(0, [95, 5, 0, 0]), &stat_with(0, [5, 95, 0, 0]), cut));
    assert!(differs(&stat_with(0, [60, 40, 0, 0]), &stat_with(0, [99, 1, 0, 0]), cut));
    assert!(!differs(&stat_with(0, [0, 0, 0, 0]), &stat_with(0, [5, 95, 0, 0]), cut));
}

#[test]
fn compare_reports_differing_positions() {
    let mut fg = BamSifter::new(&one_reference(30), Some(10));
    let mut bg = BamSifter::new(&one_reference(30), Some(10));
    sweep_all(&mut fg, &mixed_file());
    fg.finish_sweep();
    bg.finish_sweep();
    fg.add_missed_positions(&bg);
    bg.add_missed_positions(&fg);
    let bg_file = vec![(0, "A".repeat(30), false), (0, "A".repeat(30), false)];
    for pos in fg.candidate_positions(0) {
        fg.populate_position(0, pos, Ok(fetch(&mixed_file(), pos, pos + 1)));
        bg.populate_position(0, pos, Ok(fetch(&bg_file, pos, pos + 1)));
    }
    let found = compare(&fg, &bg, Cutoff { num: 9, den: 10 });
    let fwd: Vec<i64> = found.iter().filter(|c| !c.reverse).map(|c| c.position).collect();
    assert_eq!(fwd, vec![12, 25]);
    assert!(found.iter().all(|c| c.sample == BamSample::Combined && c.tid == 0));
    assert!(found.iter().filter(|c| c.reverse).count() == 0);
}

fn populated(order: &[i64]) -> BamSifter {
    let file = mixed_file();
    let mut a = BamSifter::new(&one_reference(30), Some(10));
    sweep_all(&mut a, &file);
    a.finish_sweep();
    let mut b = BamSifter::new(&one_reference(30), Some(10));
    b.finish_sweep();
    a.add_missed_positions(&b);
    for &pos in order {
        a.populate_position(0, pos, Ok(fetch(&file, pos, pos + 1)));
    }
    a
}

fn table_rows(s: &BamSifter) -> Vec<(String, usize, Vec<(i64, u64, u64, u64, u64)>)> {
    let row = |v: &Vec<DnaBaseStat>| -> Vec<(i64, u64, u64, u64, u64)> {
        v.iter()
            .map(|x| (x.position(), x.get(Dna::A), x.get(Dna::T), x.get(Dna::G), x.get(Dna::C)))
            .collect()
    };
    let mut out = vec![];
    for e in s.statistics().entries() {
        out.push((e.sample().name(), e.tid(), row(e.forward())));
        out.push((e.sample().name(), e.tid(), row(e.reverse())));
    }
    out
}

#[test]
fn statistics_do_not_depend_on_position_order() {
    let up = populated(&[12, 25]);
    let down = populated(&[25, 12]);
    assert_eq!(table_rows(&up), table_rows(&down));
    let fwd = up.statistics().get(&BamSample::Combined, 0).unwrap().forward();
    assert_eq!(fwd.iter().map(|x| x.position()).collect::<Vec<_>>(), vec![12, 25]);
}

#[test]
fn populating_a_position_twice_changes_nothing() {
    let once = populated(&[12, 25]);
    let twice = populated(&[12, 25, 12, 25]);
    assert_eq!(table_rows(&once), table_rows(&twice));
    assert_eq!(once.statistics().entries().len(), 1);
}

fn tagged(start: i64, bases: &str, barcode: &str) -> AlignedRead {
    let mut r = aligned(start, bases, false);
    r.barcode = Some(barcode.to_string());
    r
}

fn reads_at(all: &[AlignedRead], pos: i64) -> Vec<AlignedRead> {
    all.iter()
        .filter(|r| r.pairs.iter().any(|&(_, g)| g == pos))
        .map(|r| AlignedRead {
            is_duplicate: r.is_duplicate,
            is_reverse: r.is_reverse,
            barcode: r.barcode.clone(),
            seq: r.seq.clone(),
            pairs: r.pairs.clone(),
        })
        .collect()
}

fn reconciled_pair(fg_names: &[&str], bg_names: &[&str]) -> (BamSifter, BamSifter) {
    let refs = |names: &[&str]| names.iter().map(|n| (n.to_string(), 30i64)).collect::<Vec<_>>();
    let mut fg = BamSifter::new(&refs(fg_names), Some(10));
    let mut bg = BamSifter::new(&refs(bg_names), Some(10));
    let t = fg.num_sequences() - 1;
    fg.sweep_block(t, 1, Ok(fetch(&flag_only(30, 12), 10, 20)));
    fg.sweep_block(t, 2, Ok(fetch(&flag_only(30, 25), 20, 30)));
    fg.finish_sweep();
    bg.finish_sweep();
    bg.add_missed_positions(&fg);
    fg.add_missed_positions(&bg);
    (fg, bg)
}

#[test]
fn compare_pairs_tallies_by_position() {
    let (mut fg, mut bg) = reconciled_pair(&["chr1"], &["chr1"]);
    let fg_reads = vec![tagged(12, "A", "X"), tagged(12, "G", "X"), tagged(25, "A", "X"), tagged(25, "T", "X")];
    let bg_reads = vec![tagged(25, "A", "X")];
    for pos in fg.candidate_positions(0) {
        fg.populate_position(0, pos, Ok(reads_at(&fg_reads, pos)));
        bg.populate_position(0, pos, Ok(reads_at(&bg_reads, pos)));
    }
    let x = BamSample::Barcode("X".to_string());
    let bx = bg.statistics().get(&x, 0).unwrap().forward();
    assert_eq!(bx.iter().map(|s| s.position()).collect::<Vec<_>>(), vec![25]);
    let found = compare(&fg, &bg, Cutoff { num: 9, den: 10 });
    let at: Vec<i64> = found.iter().filter(|c| c.sample == x && !c.reverse).map(|c| c.position).collect();
    assert_eq!(at, vec![25]);
}

#[test]
fn compare_survives_a_failed_fetch() {
    let (mut fg, mut bg) = reconciled_pair(&["chr1"], &["chr1"]);
    let fg_reads = vec![aligned(12, "A", false), aligned(12, "G", false), aligned(25, "A", false), aligned(25, "T", false)];
    let bg_reads = vec![aligned(12, "A", false), aligned(25, "A", false)];
    for pos in fg.candidate_positions(0) {
        fg.populate_position(0, pos, Ok(reads_at(&fg_reads, pos)));
        if pos == 12 {
            bg.populate_position(0, pos, Err(SiftError::Io("bad block".to_string())));
        } else {
            bg.populate_position(0, pos, Ok(reads_at(&bg_reads, pos)));
        }
    }
    assert_eq!(bg.failures().len(), 1);
    let found = compare(&fg, &bg, Cutoff { num: 9, den: 10 });
    let at: Vec<i64> = found.iter().filter(|c| !c.reverse).map(|c| c.position).collect();
    assert_eq!(at, vec![25]);
}

#[test]
fn compare_matches_sequences_by_name() {
    let (mut fg, mut bg) = reconciled_pair(&["chr1", "chr2"], &["chr2", "chr1"]);
    assert_eq!(bg.get_forward_variable_positions()[0], vec![12, 25]);
    let fg_reads = vec![aligned(12, "A", false), aligned(12, "G", false)];
    let bg_reads = vec![aligned(12, "A", false)];
    for pos in fg.candidate_positions(1) {
        fg.populate_position(1, pos, Ok(reads_at(&fg_reads, pos)));
    }
    for pos in bg.candidate_positions(0) {
        bg.populate_position(0, pos, Ok(reads_at(&bg_reads, pos)));
    }
    let found = compare(&fg, &bg, Cutoff { num: 9, den: 10 });
    let at: Vec<(usize, i64)> = found.iter().filter(|c| !c.reverse).map(|c| (c.tid, c.position)).collect();
    assert_eq!(at, vec![(1, 12)]);
}
