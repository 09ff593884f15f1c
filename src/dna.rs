use vstd::prelude::*;

verus! {

/// A nucleotide.
#[derive(Debug, PartialEq, Eq, Clone, Copy, Structural)]
pub enum Dna {
    A,
    T,
    G,
    C,
}

/// The tally of one genomic position: one count per nucleotide.
/// The position is fixed at construction; the counts only grow through `add`.
#[derive(Debug, PartialEq, Eq, Clone, Copy, Structural)]
pub struct DnaBaseStat {
    a: u64,
    t: u64,
    g: u64,
    c: u64,
    gpos: i64,
}

/// The two most frequent alleles of a position with their counts.
#[derive(Debug, PartialEq, Eq, Clone, Copy, Structural)]
pub struct BiAllele {
    pub a1: Dna,
    pub a2: Dna,
    pub n1: u64,
    pub n2: u64,
}

impl DnaBaseStat {
    /// The count held for nucleotide `b`.
    pub closed spec fn count_of(self, b: Dna) -> u64 {
        match b {
            Dna::A => self.a,
            Dna::T => self.t,
            Dna::G => self.g,
            Dna::C => self.c,
        }
    }

    pub closed spec fn spec_position(self) -> i64 {
        self.gpos
    }

    /// Number of reads counted at this position.
    pub open spec fn total(self) -> int {
        self.count_of(Dna::A) + self.count_of(Dna::T) + self.count_of(Dna::G) + self.count_of(
            Dna::C,
        )
    }

    /// The count of `b`, or zero when `b` is the excluded allele.
    pub open spec fn count_unless(self, b: Dna, skip: Option<Dna>) -> u64 {
        if skip == Some(b) {
            0
        } else {
            self.count_of(b)
        }
    }

    /// The largest count among the alleles other than `skip`.
    pub open spec fn max_count(self, skip: Option<Dna>) -> u64 {
        let a = self.count_unless(Dna::A, skip);
        let t = self.count_unless(Dna::T, skip);
        let g = self.count_unless(Dna::G, skip);
        let c = self.count_unless(Dna::C, skip);
        let at = if a >= t { a } else { t };
        let gc = if g >= c { g } else { c };
        if at >= gc { at } else { gc }
    }

    /// The allele with the largest count among those other than `skip`;
    /// on a tie, the last in the order A, T, G, C.
    pub open spec fn last_max(self, skip: Option<Dna>) -> Dna {
        let m = self.max_count(skip);
        if skip != Some(Dna::C) && self.count_of(Dna::C) == m {
            Dna::C
        } else if skip != Some(Dna::G) && self.count_of(Dna::G) == m {
            Dna::G
        } else if skip != Some(Dna::T) && self.count_of(Dna::T) == m {
            Dna::T
        } else {
            Dna::A
        }
    }

    pub open spec fn top_allele(self) -> Dna {
        self.last_max(None)
    }

    pub open spec fn second_allele(self) -> Dna {
        self.last_max(Some(self.top_allele()))
    }

    /// Number of nucleotides observed at least once.
    pub open spec fn num_observed(self) -> int {
        (if self.count_of(Dna::A) > 0 { 1int } else { 0 }) + (if self.count_of(Dna::T) > 0 {
            1int
        } else {
            0
        }) + (if self.count_of(Dna::G) > 0 { 1int } else { 0 }) + (if self.count_of(Dna::C) > 0 {
            1int
        } else {
            0
        })
    }

    /// Two tallies of the same position with the same counts are equal.
    pub proof fn lemma_ext(self, other: Self)
        requires
            self.spec_position() == other.spec_position(),
            forall|b: Dna| #[trigger] self.count_of(b) == other.count_of(b),
        ensures
            self == other,
    {
        assert(self.count_of(Dna::A) == other.count_of(Dna::A));
        assert(self.count_of(Dna::T) == other.count_of(Dna::T));
        assert(self.count_of(Dna::G) == other.count_of(Dna::G));
        assert(self.count_of(Dna::C) == other.count_of(Dna::C));
    }

    /// A tally with all counts zero at genomic position `gpos`.
    pub fn new(gpos: i64) -> (r: Self)
        ensures
            r.spec_position() == gpos,
            r.total() == 0,
            forall|b: Dna| r.count_of(b) == 0,
    {
        DnaBaseStat { a: 0, t: 0, g: 0, c: 0, gpos }
    }

    pub fn position(&self) -> (r: i64)
        ensures
            r == self.spec_position(),
    {
        self.gpos
    }

    /// Replaces the count of `b` by `val`.
    pub fn set(&mut self, b: Dna, val: u64)
        ensures
            final(self).spec_position() == old(self).spec_position(),
            final(self).count_of(b) == val,
            forall|x: Dna| x != b ==> final(self).count_of(x) == old(self).count_of(x),
    {
        match b {
            Dna::A => self.a = val,
            Dna::T => self.t = val,
            Dna::G => self.g = val,
            Dna::C => self.c = val,
        }
    }

    /// Adds `val` to the count of `b`.
    pub fn add(&mut self, b: Dna, val: u64)
        requires
            old(self).count_of(b) + val <= u64::MAX,
        ensures
            final(self).spec_position() == old(self).spec_position(),
            final(self).count_of(b) == old(self).count_of(b) + val,
            forall|x: Dna| x != b ==> final(self).count_of(x) == old(self).count_of(x),
    {
        match b {
            Dna::A => self.a = self.a + val,
            Dna::T => self.t = self.t + val,
            Dna::G => self.g = self.g + val,
            Dna::C => self.c = self.c + val,
        }
    }

    pub fn get(&self, b: Dna) -> (r: u64)
        ensures
            r == self.count_of(b),
    {
        match b {
            Dna::A => self.a,
            Dna::T => self.t,
            Dna::G => self.g,
            Dna::C => self.c,
        }
    }

    fn count_unless_exec(&self, b: Dna, skip: Option<Dna>) -> (r: u64)
        ensures
            r == self.count_unless(b, skip),
    {
        if skip == Some(b) {
            0
        } else {
            self.get(b)
        }
    }

    /// The allele with the largest count other than `skip`, ties going to
    /// the last in the order A, T, G, C, with that count.
    fn last_max_exec(&self, skip: Option<Dna>) -> (r: (Dna, u64))
        ensures
            r.0 == self.last_max(skip),
            r.1 == self.max_count(skip),
    {
        let a = self.count_unless_exec(Dna::A, skip);
        let t = self.count_unless_exec(Dna::T, skip);
        let g = self.count_unless_exec(Dna::G, skip);
        let c = self.count_unless_exec(Dna::C, skip);
        let at = if a >= t { a } else { t };
        let gc = if g >= c { g } else { c };
        let m = if at >= gc { at } else { gc };
        if skip != Some(Dna::C) && self.c == m {
            (Dna::C, m)
        } else if skip != Some(Dna::G) && self.g == m {
            (Dna::G, m)
        } else if skip != Some(Dna::T) && self.t == m {
            (Dna::T, m)
        } else {
            (Dna::A, m)
        }
    }

    /// The most frequent allele and its count.
    pub fn most_frequent(&self) -> (r: (Dna, u64))
        ensures
            r.0 == self.top_allele(),
            r.1 == self.count_of(r.0),
            forall|x: Dna| self.count_of(x) <= r.1,
    {
        self.last_max_exec(None)
    }

    /// The most frequent allele other than the most frequent one, and its
    /// count.
    pub fn second_most_frequent(&self) -> (r: (Dna, u64))
        ensures
            r.0 == self.second_allele(),
            r.0 != self.top_allele(),
            r.1 == self.count_of(r.0),
            forall|x: Dna| x != self.top_allele() ==> self.count_of(x) <= r.1,
    {
        let top = self.most_frequent();
        self.last_max_exec(Some(top.0))
    }

    /// The two leading alleles and their counts.
    pub fn bi_allelic_stat(&self) -> (r: BiAllele)
        ensures
            r.a1 == self.top_allele(),
            r.a2 == self.second_allele(),
            r.a1 != r.a2,
            r.n1 == self.count_of(r.a1),
            r.n2 == self.count_of(r.a2),
            forall|x: Dna| self.count_of(x) <= r.n1,
            forall|x: Dna| x != r.a1 ==> self.count_of(x) <= r.n2,
    {
        let fst = self.most_frequent();
        let snd = self.last_max_exec(Some(fst.0));
        BiAllele { a1: fst.0, a2: snd.0, n1: fst.1, n2: snd.1 }
    }
}

} // verus!
