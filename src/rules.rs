use crate::dna::{BiAllele, Dna, DnaBaseStat};
use vstd::prelude::*;

verus! {

/// A threshold between zero and one, written as `num / den`.
#[derive(Debug, PartialEq, Eq, Clone, Copy, Structural)]
pub struct Cutoff {
    pub num: u32,
    pub den: u32,
}

/// A frequency written as `num / den`, with `den > 0`.
#[derive(Debug, PartialEq, Eq, Clone, Copy, Structural)]
pub struct Fraction {
    pub num: u128,
    pub den: u128,
}

impl Cutoff {
    pub open spec fn wf(self) -> bool {
        0 < self.den && self.num <= self.den
    }
}

/// Stateless rules that classify the tally of one position.
#[derive(Debug, PartialEq, Eq, Clone, Copy, Structural)]
pub struct BaseFilters {
    max_major_allele_cutoff: Cutoff,
    min_minor_allele_cutoff: Cutoff,
}

/// True iff at least two nucleotides were observed at the position.
pub open spec fn spec_is_variable(stat: DnaBaseStat) -> bool {
    stat.num_observed() >= 2
}

/// True iff the share of the most frequent allele exceeds `cut`.
pub open spec fn spec_is_near_invariant(stat: DnaBaseStat, cut: Cutoff) -> bool {
    stat.total() > 0 && stat.count_of(stat.top_allele()) * cut.den > cut.num * stat.total()
}

proof fn lemma_total_bound(stat: DnaBaseStat)
    ensures
        0 <= stat.total() <= 4 * (u64::MAX as int),
        forall|x: Dna| stat.count_of(x) <= stat.total(),
{
}

/// True iff the share of the most frequent allele among all counts of
/// `stat` exceeds `cut`.
pub fn major_share_exceeds(stat: &DnaBaseStat, cut: Cutoff) -> (r: bool)
    ensures
        r == spec_is_near_invariant(*stat, cut),
{
    proof {
        lemma_total_bound(*stat);
    }
    let top = stat.most_frequent();
    let total: u128 = stat.get(Dna::A) as u128 + stat.get(Dna::T) as u128 + stat.get(Dna::G)
        as u128 + stat.get(Dna::C) as u128;
    if total == 0 {
        false
    } else {
        proof {
            assert(top.1 * cut.den <= u64::MAX * u32::MAX) by (nonlinear_arith)
                requires
                    top.1 <= u64::MAX,
                    cut.den <= u32::MAX,
            ;
            assert(cut.num * total <= u32::MAX * (4 * (u64::MAX as int))) by (nonlinear_arith)
                requires
                    total <= 4 * (u64::MAX as int),
                    cut.num <= u32::MAX,
            ;
        }
        top.1 as u128 * cut.den as u128 > cut.num as u128 * total
    }
}

impl BaseFilters {
    pub closed spec fn major_cutoff(self) -> Cutoff {
        self.max_major_allele_cutoff
    }

    pub closed spec fn minor_cutoff(self) -> Cutoff {
        self.min_minor_allele_cutoff
    }

    pub open spec fn wf(self) -> bool {
        self.major_cutoff().wf() && self.minor_cutoff().wf()
    }

    /// Default thresholds: a major allele cutoff of `1 - 1e-4` and a minor
    /// allele cutoff of `1e-4`.
    pub fn new() -> (r: Self)
        ensures
            r.wf(),
            r.major_cutoff() == (Cutoff { num: 9999, den: 10000 }),
            r.minor_cutoff() == (Cutoff { num: 1, den: 10000 }),
    {
        BaseFilters {
            max_major_allele_cutoff: Cutoff { num: 9999, den: 10000 },
            min_minor_allele_cutoff: Cutoff { num: 1, den: 10000 },
        }
    }

    /// Filters with the given thresholds.
    pub fn with_cutoffs(major: Cutoff, minor: Cutoff) -> (r: Self)
        requires
            major.wf(),
            minor.wf(),
        ensures
            r.wf(),
            r.major_cutoff() == major,
            r.minor_cutoff() == minor,
    {
        BaseFilters { max_major_allele_cutoff: major, min_minor_allele_cutoff: minor }
    }

    pub fn major_allele_cutoff(&self) -> (r: Cutoff)
        ensures
            r == self.major_cutoff(),
    {
        self.max_major_allele_cutoff
    }

    pub fn minor_allele_cutoff(&self) -> (r: Cutoff)
        ensures
            r == self.minor_cutoff(),
    {
        self.min_minor_allele_cutoff
    }

    /// The share of the leading allele among the two leading alleles,
    /// `n1 / max(n1 + n2, 1)`.
    pub fn b_allele_frequency(&self, stat: &DnaBaseStat) -> (r: Fraction)
        ensures
            r.num == stat.count_of(stat.top_allele()),
            r.den == if stat.count_of(stat.top_allele()) + stat.count_of(stat.second_allele())
                == 0 {
                1
            } else {
                stat.count_of(stat.top_allele()) + stat.count_of(stat.second_allele())
            },
    {
        let s: BiAllele = stat.bi_allelic_stat();
        let sum: u128 = s.n1 as u128 + s.n2 as u128;
        Fraction { num: s.n1 as u128, den: if sum == 0 { 1 } else { sum } }
    }

    /// True iff at least two distinct nucleotides were observed.
    pub fn is_variable(&self, stat: &DnaBaseStat) -> (r: bool)
        ensures
            r == spec_is_variable(*stat),
    {
        let s: BiAllele = stat.bi_allelic_stat();
        s.n1 > 0 && s.n2 > 0
    }

    /// True iff the share of the most frequent allele among all counts
    /// exceeds the major allele cutoff.
    pub fn is_near_zero_variance(&self, stat: &DnaBaseStat) -> (r: bool)
        requires
            self.wf(),
        ensures
            r == spec_is_near_invariant(*stat, self.major_cutoff()),
    {
        major_share_exceeds(stat, self.max_major_allele_cutoff)
    }

    /// The most frequent allele with its share of all counts, or `None`
    /// when nothing was counted.
    pub fn major_allele_frequency(&self, stat: &DnaBaseStat) -> (r: Option<(Dna, Fraction)>)
        ensures
            stat.total() == 0 <==> r is None,
            r matches Some(p) ==> p.0 == stat.top_allele() && p.1.num == stat.count_of(
                stat.top_allele(),
            ) && p.1.den == stat.total(),
    {
        proof {
            lemma_total_bound(*stat);
        }
        let top = stat.most_frequent();
        let total: u128 = stat.get(Dna::A) as u128 + stat.get(Dna::T) as u128 + stat.get(Dna::G)
            as u128 + stat.get(Dna::C) as u128;
        if total == 0 {
            None
        } else {
            Some((top.0, Fraction { num: top.1 as u128, den: total }))
        }
    }
}

} // verus!
