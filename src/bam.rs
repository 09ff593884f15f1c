use crate::dna::Dna;
use vstd::prelude::*;

verus! {

/// The sample a read belongs to: reads without a demultiplexing tag go to
/// `Combined`, the others to the barcode they carry.
#[derive(Debug, Eq, Hash)]
pub enum BamSample {
    Combined,
    Barcode(String),
}

impl BamSample {
    /// The identity of a sample: `None` for `Combined`, the barcode's
    /// characters otherwise.
    pub open spec fn key(self) -> Option<Seq<char>> {
        match self {
            BamSample::Combined => None,
            BamSample::Barcode(s) => Some(s@),
        }
    }

    /// The name of the sample: `.` for `Combined`, else the barcode.
    pub fn name(&self) -> (r: String)
        ensures
            r@ == match self.key() {
                Some(s) => s,
                None => seq!['.'],
            },
    {
        match self {
            BamSample::Combined => {
                let mut s = String::new();
                s.append(".");
                proof {
                    reveal_strlit(".");
                }
                s
            },
            BamSample::Barcode(s) => s.clone(),
        }
    }
}

impl Clone for BamSample {
    fn clone(&self) -> (r: Self)
        ensures
            r == *self,
    {
        match self {
            BamSample::Combined => BamSample::Combined,
            BamSample::Barcode(s) => BamSample::Barcode(s.clone()),
        }
    }
}

impl PartialEq for BamSample {
    fn eq(&self, other: &BamSample) -> (r: bool) {
        match (self, other) {
            (BamSample::Combined, BamSample::Combined) => true,
            (BamSample::Barcode(a), BamSample::Barcode(b)) => a.eq(b),
            _ => false,
        }
    }
}

impl vstd::std_specs::cmp::PartialEqSpecImpl for BamSample {
    open spec fn obeys_eq_spec() -> bool {
        true
    }

    open spec fn eq_spec(&self, other: &BamSample) -> bool {
        self.key() == other.key()
    }
}

/// One aligned read, as the aggregation reads it.
#[derive(Debug)]
pub struct AlignedRead {
    /// Marked as a duplicate; such reads are never counted.
    pub is_duplicate: bool,
    /// Aligned on the reverse strand.
    pub is_reverse: bool,
    /// The demultiplexing tag, if the read carries one.
    pub barcode: Option<String>,
    /// The base calls of the read.
    pub seq: Vec<u8>,
    /// The aligned pairs `(read offset, genomic offset)`.
    pub pairs: Vec<(i64, i64)>,
}

/// The nucleotide of a base-call letter (`A`, `T`, `G`, `C` in ASCII), in
/// either case; `None` for any other symbol.
pub open spec fn base_of(c: u8) -> Option<Dna> {
    if c == 65 || c == 97 {
        Some(Dna::A)
    } else if c == 84 || c == 116 {
        Some(Dna::T)
    } else if c == 71 || c == 103 {
        Some(Dna::G)
    } else if c == 67 || c == 99 {
        Some(Dna::C)
    } else {
        None
    }
}

/// The nucleotide of a base-call letter.
pub fn dna_of_base(c: u8) -> (r: Option<Dna>)
    ensures
        r == base_of(c),
{
    if c == 65 || c == 97 {
        Some(Dna::A)
    } else if c == 84 || c == 116 {
        Some(Dna::T)
    } else if c == 71 || c == 103 {
        Some(Dna::G)
    } else if c == 67 || c == 99 {
        Some(Dna::C)
    } else {
        None
    }
}

impl AlignedRead {
    /// The identity of the sample the read belongs to.
    pub open spec fn sample_key(self) -> Option<Seq<char>> {
        match self.barcode {
            Some(s) => Some(s@),
            None => None,
        }
    }

    /// Whether the `k`-th aligned pair puts nucleotide `b` at genomic
    /// position `pos`.
    pub open spec fn pair_hits(self, k: int, pos: int, b: Dna) -> bool {
        let rp = self.pairs@[k].0 as int;
        &&& self.pairs@[k].1 as int == pos
        &&& 0 <= rp < self.seq@.len()
        &&& base_of(self.seq@[rp]) == Some(b)
    }

    /// Among the first `j` aligned pairs, the number that put `b` at `pos`.
    pub open spec fn hits_upto(self, pos: int, b: Dna, j: int) -> nat
        decreases j,
    {
        if j <= 0 {
            0
        } else {
            self.hits_upto(pos, b, j - 1) + if self.pair_hits(j - 1, pos, b) {
                1nat
            } else {
                0nat
            }
        }
    }

    /// The number of times the read puts `b` at `pos`.
    pub open spec fn hits(self, pos: int, b: Dna) -> nat {
        self.hits_upto(pos, b, self.pairs@.len() as int)
    }

    /// Whether the read is counted for the sample `key` on the given strand.
    pub open spec fn counts_for(self, key: Option<Seq<char>>, reverse: bool) -> bool {
        !self.is_duplicate && self.sample_key() == key && self.is_reverse == reverse
    }

    /// The sample the read belongs to.
    pub fn sample(&self) -> (r: BamSample)
        ensures
            r.key() == self.sample_key(),
    {
        match &self.barcode {
            Some(cb) => BamSample::Barcode(cb.clone()),
            None => BamSample::Combined,
        }
    }
}

/// The count of `b` at `pos` for sample `key` on one strand, over the first
/// `n` reads.
pub open spec fn region_count(
    reads: Seq<AlignedRead>,
    n: int,
    key: Option<Seq<char>>,
    reverse: bool,
    pos: int,
    b: Dna,
) -> nat
    decreases n,
{
    if n <= 0 {
        0
    } else {
        region_count(reads, n - 1, key, reverse, pos, b) + if reads[n - 1].counts_for(
            key,
            reverse,
        ) {
            reads[n - 1].hits(pos, b)
        } else {
            0
        }
    }
}

/// The samples met in the first `n` reads, in order of first appearance:
/// `Combined` first, then each barcode of a read that is not a duplicate.
pub open spec fn sample_keys(reads: Seq<AlignedRead>, n: int) -> Seq<Option<Seq<char>>>
    decreases n,
{
    if n <= 0 {
        seq![None]
    } else {
        let prev = sample_keys(reads, n - 1);
        let r = reads[n - 1];
        if !r.is_duplicate && r.barcode is Some && !prev.contains(r.sample_key()) {
            prev.push(r.sample_key())
        } else {
            prev
        }
    }
}

} // verus!
