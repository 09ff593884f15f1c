use faba::dna::{Dna, DnaBaseStat};
use faba::rules::{BaseFilters, Cutoff};

fn tally(gpos: i64, a: u64, t: u64, g: u64, c: u64) -> DnaBaseStat {
    let mut s = DnaBaseStat::new(gpos);
    s.add(Dna::A, a);
    s.add(Dna::T, t);
    s.add(Dna::G, g);
    s.add(Dna::C, c);
    s
}

#[test]
fn new_stat_is_zero_at_its_position() {
    let s = DnaBaseStat::new(42);
    assert_eq!(s.position(), 42);
    for b in [Dna::A, Dna::T, Dna::G, Dna::C] {
        assert_eq!(s.get(b), 0);
    }
}

#[test]
fn add_and_set_touch_one_count() {
    let mut s = DnaBaseStat::new(7);
    s.add(Dna::G, 3);
    s.add(Dna::G, 2);
    assert_eq!(s.get(Dna::G), 5);
    assert_eq!(s.get(Dna::A), 0);
    s.set(Dna::G, 1);
    assert_eq!(s.get(Dna::G), 1);
    s.set(Dna::C, 9);
    assert_eq!(s.get(Dna::C), 9);
    assert_eq!(s.position(), 7);
}

#[test]
fn most_frequent_picks_largest_count() {
    let s = tally(0, 1, 8, 3, 2);
    assert_eq!(s.most_frequent(), (Dna::T, 8));
    assert_eq!(s.second_most_frequent(), (Dna::G, 3));
}

#[test]
fn ties_go_to_the_later_allele() {
    let s = tally(0, 4, 4, 1, 1);
    assert_eq!(s.most_frequent(), (Dna::T, 4));
    assert_eq!(s.second_most_frequent(), (Dna::A, 4));
    let z = DnaBaseStat::new(0);
    assert_eq!(z.most_frequent(), (Dna::C, 0));
    assert_eq!(z.second_most_frequent(), (Dna::G, 0));
}

#[test]
fn bi_allelic_stat_reports_two_leading_alleles() {
    let s = tally(3, 2, 0, 9, 5);
    let b = s.bi_allelic_stat();
    assert_eq!(b.a1, Dna::G);
    assert_eq!(b.n1, 9);
    assert_eq!(b.a2, Dna::C);
    assert_eq!(b.n2, 5);
}

#[test]
fn variable_with_two_observed_bases() {
    let f = BaseFilters::new();
    assert!(f.is_variable(&tally(0, 5, 3, 0, 0)));
    assert!(!f.is_variable(&tally(0, 5, 0, 0, 0)));
    assert!(!f.is_variable(&tally(0, 0, 0, 0, 0)));
    assert!(f.is_variable(&tally(0, 0, 0, 1, 1)));
    assert!(f.is_variable(&tally(0, 1, 1, 1, 1)));
    assert!(!f.is_variable(&tally(0, 0, 0, 0, 7)));
}

#[test]
fn major_allele_frequency_example() {
    let f = BaseFilters::new();
    let (allele, freq) = f.major_allele_frequency(&tally(0, 9, 1, 0, 0)).unwrap();
    assert_eq!(allele, Dna::A);
    assert_eq!((freq.num, freq.den), (9, 10));
    let share = freq.num as f64 / freq.den as f64;
    assert!((share - 0.9).abs() < 1e-12);
}

#[test]
fn major_allele_frequency_absent_without_reads() {
    let f = BaseFilters::new();
    assert!(f.major_allele_frequency(&DnaBaseStat::new(5)).is_none());
}

#[test]
fn major_allele_frequency_uses_all_counts() {
    let f = BaseFilters::new();
    let (allele, freq) = f.major_allele_frequency(&tally(0, 1, 2, 6, 1)).unwrap();
    assert_eq!(allele, Dna::G);
    assert_eq!((freq.num, freq.den), (6, 10));
}

#[test]
fn b_allele_frequency_over_two_leading_alleles() {
    let f = BaseFilters::new();
    let r = f.b_allele_frequency(&tally(0, 1, 2, 6, 1));
    assert_eq!((r.num, r.den), (6, 8));
    let z = f.b_allele_frequency(&DnaBaseStat::new(0));
    assert_eq!((z.num, z.den), (0, 1));
}

#[test]
fn near_zero_variance_needs_share_above_cutoff() {
    let f = BaseFilters::new();
    assert!(f.is_near_zero_variance(&tally(0, 5, 0, 0, 0)));
    assert!(!f.is_near_zero_variance(&tally(0, 9999, 1, 0, 0)));
    assert!(f.is_near_zero_variance(&tally(0, 100000, 1, 0, 0)));
    assert!(!f.is_near_zero_variance(&DnaBaseStat::new(0)));
    let loose = BaseFilters::with_cutoffs(Cutoff { num: 1, den: 2 }, Cutoff { num: 1, den: 2 });
    assert!(loose.is_near_zero_variance(&tally(0, 3, 2, 0, 0)));
    assert!(!loose.is_near_zero_variance(&tally(0, 2, 2, 0, 0)));
}

#[test]
fn default_cutoffs() {
    let f = BaseFilters::new();
    assert_eq!(f.major_allele_cutoff(), Cutoff { num: 9999, den: 10000 });
    assert_eq!(f.minor_allele_cutoff(), Cutoff { num: 1, den: 10000 });
}
