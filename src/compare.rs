use crate::bam::BamSample;
use crate::dna::{Dna, DnaBaseStat};
use crate::rules::{major_share_exceeds, spec_is_near_invariant, Cutoff};
use crate::sifter::BamSifter;
use crate::stat_table::{StatKey, StatTable};
use crate::tally_list::{lemma_pos_map_at, pos_map, sorted_by_pos};
use vstd::prelude::*;

verus! {

/// A position whose tallies differ between the foreground and the
/// background dataset.
#[derive(Debug)]
pub struct Candidate {
    pub sample: BamSample,
    pub tid: usize,
    pub position: i64,
    pub reverse: bool,
}

impl Candidate {
    pub open spec fn view_key(self) -> (Option<Seq<char>>, int, i64, bool) {
        (self.sample.key(), self.tid as int, self.position, self.reverse)
    }
}

/// Both positions were observed, and they do not agree on a major allele
/// whose share exceeds `cut` on both sides.
pub open spec fn spec_differs(fg: DnaBaseStat, bg: DnaBaseStat, cut: Cutoff) -> bool {
    &&& fg.total() > 0
    &&& bg.total() > 0
    &&& !(fg.top_allele() == bg.top_allele() && spec_is_near_invariant(fg, cut)
        && spec_is_near_invariant(bg, cut))
}

/// Both lists hold a tally of position `p`, and the two differ.
pub open spec fn flagged(f: Seq<DnaBaseStat>, b: Seq<DnaBaseStat>, cut: Cutoff, p: i64) -> bool {
    &&& pos_map(f).contains_key(p)
    &&& pos_map(b).contains_key(p)
    &&& spec_differs(pos_map(f)[p], pos_map(b)[p], cut)
}

/// Among the first `i` tallies of `f` and the first `j` of `b`, two stand
/// for position `p` and differ.
pub open spec fn flagged_within(
    f: Seq<DnaBaseStat>,
    b: Seq<DnaBaseStat>,
    cut: Cutoff,
    p: i64,
    i: int,
    j: int,
) -> bool {
    exists|k: int, l: int|
        0 <= k < i && 0 <= l < j && #[trigger] f[k].spec_position() == p && #[trigger] b[l].spec_position()
            == p && spec_differs(f[k], b[l], cut)
}

/// The tallies of key `k` on one strand.
pub open spec fn strand_of(t: StatTable, k: StatKey, rev: bool) -> Seq<DnaBaseStat> {
    if rev {
        t.reverse_of(k)
    } else {
        t.forward_of(k)
    }
}

/// Whether a position differs between the two datasets.
pub fn differs(fg: &DnaBaseStat, bg: &DnaBaseStat, cut: Cutoff) -> (r: bool)
    ensures
        r == spec_differs(*fg, *bg, cut),
{
    let ft = fg.most_frequent();
    let bt = bg.most_frequent();
    let fe = major_share_exceeds(fg, cut);
    let be = major_share_exceeds(bg, cut);
    let fz = fg.get(Dna::A) == 0 && fg.get(Dna::T) == 0 && fg.get(Dna::G) == 0 && fg.get(Dna::C)
        == 0;
    let bz = bg.get(Dna::A) == 0 && bg.get(Dna::T) == 0 && bg.get(Dna::G) == 0 && bg.get(Dna::C)
        == 0;
    !fz && !bz && !(ft.0 == bt.0 && fe && be)
}

/// The positions at which two lists sorted by position both hold a tally,
/// and the two differ; found by walking both lists together.
pub fn flagged_positions(f: &Vec<DnaBaseStat>, b: &Vec<DnaBaseStat>, cut: Cutoff) -> (r: Vec<i64>)
    requires
        sorted_by_pos(f@),
        sorted_by_pos(b@),
    ensures
        forall|p: i64| r@.contains(p) <==> flagged(f@, b@, cut, p),
{
    let mut out: Vec<i64> = Vec::new();
    let mut i: usize = 0;
    let mut j: usize = 0;
    while i < f.len() && j < b.len()
        invariant
            sorted_by_pos(f@),
            sorted_by_pos(b@),
            0 <= i <= f@.len(),
            0 <= j <= b@.len(),
            i < f@.len() ==> forall|l: int| 0 <= l < j ==> #[trigger] b@[l].spec_position() < f@[i as int].spec_position(),
            j < b@.len() ==> forall|k: int| 0 <= k < i ==> #[trigger] f@[k].spec_position() < b@[j as int].spec_position(),
            forall|p: i64| out@.contains(p) <==> flagged_within(f@, b@, cut, p, i as int, j as int),
        decreases f@.len() + b@.len() - i - j,
    {
        let x = f[i];
        let y = b[j];
        let px = x.position();
        let py = y.position();
        let ghost out0 = out@;
        let ghost i0 = i as int;
        let ghost j0 = j as int;
        if px < py {
            i = i + 1;
            proof {
                assert forall|p: i64| out@.contains(p) <==> flagged_within(f@, b@, cut, p, i as int, j as int) by {
                    if flagged_within(f@, b@, cut, p, i as int, j as int) {
                        let (k, l) = choose|k: int, l: int|
                            0 <= k < i && 0 <= l < j && #[trigger] f@[k].spec_position() == p && #[trigger] b@[l].spec_position()
                                == p && spec_differs(f@[k], b@[l], cut);
                        if k == i0 {
                            assert(b@[l].spec_position() < f@[i0].spec_position());
                        }
                        assert(flagged_within(f@, b@, cut, p, i0, j0));
                    }
                }
                if i < f@.len() {
                    assert forall|l: int| 0 <= l < j implies #[trigger] b@[l].spec_position() < f@[i as int].spec_position() by {
                        assert(f@[i0].spec_position() < f@[i as int].spec_position());
                    }
                }
            }
        } else if py < px {
            j = j + 1;
            proof {
                assert forall|p: i64| out@.contains(p) <==> flagged_within(f@, b@, cut, p, i as int, j as int) by {
                    if flagged_within(f@, b@, cut, p, i as int, j as int) {
                        let (k, l) = choose|k: int, l: int|
                            0 <= k < i && 0 <= l < j && #[trigger] f@[k].spec_position() == p && #[trigger] b@[l].spec_position()
                                == p && spec_differs(f@[k], b@[l], cut);
                        if l == j0 {
                            assert(f@[k].spec_position() < b@[j0].spec_position());
                        }
                        assert(flagged_within(f@, b@, cut, p, i0, j0));
                    }
                }
                if j < b@.len() {
                    assert forall|k: int| 0 <= k < i implies #[trigger] f@[k].spec_position() < b@[j as int].spec_position() by {
                        assert(b@[j0].spec_position() < b@[j as int].spec_position());
                    }
                }
            }
        } else {
            let hit = differs(&x, &y, cut);
            if hit {
                out.push(px);
            }
            i = i + 1;
            j = j + 1;
            proof {
                assert forall|p: i64| out@.contains(p) <==> flagged_within(f@, b@, cut, p, i as int, j as int) by {
                    if flagged_within(f@, b@, cut, p, i as int, j as int) {
                        let (k, l) = choose|k: int, l: int|
                            0 <= k < i && 0 <= l < j && #[trigger] f@[k].spec_position() == p && #[trigger] b@[l].spec_position()
                                == p && spec_differs(f@[k], b@[l], cut);
                        if k == i0 && l < j0 {
                            assert(b@[l].spec_position() < f@[i0].spec_position());
                        } else if l == j0 && k < i0 {
                            assert(f@[k].spec_position() < b@[j0].spec_position());
                        } else if k == i0 && l == j0 {
                            assert(out@[out@.len() - 1] == p);
                        } else {
                            assert(flagged_within(f@, b@, cut, p, i0, j0));
                            assert(out0.contains(p));
                            let q = choose|q: int| 0 <= q < out0.len() && out0[q] == p;
                            assert(out@[q] == p);
                        }
                    }
                    if out@.contains(p) {
                        let q = choose|q: int| 0 <= q < out@.len() && out@[q] == p;
                        if q < out0.len() {
                            assert(out0.contains(p));
                            let (k, l) = choose|k: int, l: int|
                                0 <= k < i0 && 0 <= l < j0 && #[trigger] f@[k].spec_position() == p && #[trigger] b@[l].spec_position()
                                    == p && spec_differs(f@[k], b@[l], cut);
                            assert(flagged_within(f@, b@, cut, p, i as int, j as int));
                        } else {
                            assert(f@[i0].spec_position() == p && b@[j0].spec_position() == p);
                            assert(flagged_within(f@, b@, cut, p, i as int, j as int));
                        }
                    }
                }
                if i < f@.len() {
                    assert forall|l: int| 0 <= l < j implies #[trigger] b@[l].spec_position() < f@[i as int].spec_position() by {
                        assert(f@[i0].spec_position() < f@[i as int].spec_position());
                    }
                }
                if j < b@.len() {
                    assert forall|k: int| 0 <= k < i implies #[trigger] f@[k].spec_position() < b@[j as int].spec_position() by {
                        assert(b@[j0].spec_position() < b@[j as int].spec_position());
                    }
                }
            }
        }
    }
    proof {
        assert forall|p: i64| out@.contains(p) <==> flagged(f@, b@, cut, p) by {
            if flagged_within(f@, b@, cut, p, i as int, j as int) {
                let (k, l) = choose|k: int, l: int|
                    0 <= k < i && 0 <= l < j && #[trigger] f@[k].spec_position() == p && #[trigger] b@[l].spec_position()
                        == p && spec_differs(f@[k], b@[l], cut);
                lemma_pos_map_at(f@, k);
                lemma_pos_map_at(b@, l);
            }
            if flagged(f@, b@, cut, p) {
                let k = choose|k: int| 0 <= k < f@.len() && #[trigger] f@[k].spec_position() == p;
                let l = choose|l: int| 0 <= l < b@.len() && #[trigger] b@[l].spec_position() == p;
                lemma_pos_map_at(f@, k);
                lemma_pos_map_at(b@, l);
                if i == f@.len() && l >= j {
                    assert(f@[k].spec_position() < b@[j as int].spec_position());
                    if l > j {
                        assert(b@[j as int].spec_position() < b@[l].spec_position());
                    }
                } else if j == b@.len() && k >= i {
                    assert(b@[l].spec_position() < f@[i as int].spec_position());
                    if k > i {
                        assert(f@[i as int].spec_position() < f@[k].spec_position());
                    }
                }
                assert(flagged_within(f@, b@, cut, p, i as int, j as int));
            }
        }
    }
    out
}

/// Appends one candidate per position of `positions`.
fn push_candidates(
    out: &mut Vec<Candidate>,
    sample: &BamSample,
    tid: usize,
    positions: &Vec<i64>,
    reverse: bool,
)
    ensures
        final(out)@.len() == old(out)@.len() + positions@.len(),
        forall|j: int| 0 <= j < old(out)@.len() ==> final(out)@[j] == old(out)@[j],
        forall|j: int|
            old(out)@.len() <= j < final(out)@.len() ==> #[trigger] final(out)@[j].view_key() == (
                sample.key(),
                tid as int,
                positions@[j - old(out)@.len()],
                reverse,
            ),
{
    let ghost start = out@;
    let mut q: usize = 0;
    while q < positions.len()
        invariant
            0 <= q <= positions@.len(),
            out@.len() == start.len() + q,
            forall|j: int| 0 <= j < start.len() ==> out@[j] == start[j],
            forall|j: int|
                start.len() <= j < out@.len() ==> #[trigger] out@[j].view_key() == (
                    sample.key(),
                    tid as int,
                    positions@[j - start.len()],
                    reverse,
                ),
        decreases positions@.len() - q,
    {
        out.push(Candidate { sample: sample.clone(), tid, position: positions[q], reverse });
        q = q + 1;
    }
}

/// The key of a candidate: sample identity, sequence, position, strand.
pub type CandidateKey = (Option<Seq<char>>, int, i64, bool);

/// Some candidate of `r` has key `x`.
pub open spec fn listed(r: Seq<Candidate>, x: CandidateKey) -> bool {
    exists|j: int| 0 <= j < r.len() && #[trigger] r[j].view_key() == x
}

/// Sample `x.0` has statistics on sequence `x.1` of `fg` and on the
/// sequence of the same name in `bg`, and position `x.2` differs between
/// them on strand `x.3`.
pub open spec fn expected(fg: BamSifter, bg: BamSifter, cut: Cutoff, x: CandidateKey) -> bool {
    &&& 0 <= x.1 < fg.num_seqs()
    &&& fg.stats_view().has((x.0, x.1))
    &&& matched(fg, bg, cut, x)
}

/// Some sequence of `bg` named as sequence `x.1` of `fg` holds statistics
/// of sample `x.0` that differ from those of `fg` at `x.2` on strand `x.3`.
pub open spec fn matched(fg: BamSifter, bg: BamSifter, cut: Cutoff, x: CandidateKey) -> bool {
    exists|u: int|
        0 <= u < bg.num_seqs() && bg.name(u) == fg.name(x.1) && #[trigger] bg.stats_view().has(
            (x.0, u),
        ) && flagged(
            strand_of(fg.stats_view(), (x.0, x.1), x.3),
            strand_of(bg.stats_view(), (x.0, u), x.3),
            cut,
            x.2,
        )
}

/// As `expected`, counting only the first `e` entries of the foreground
/// statistics.
pub open spec fn expected_upto(fg: BamSifter, bg: BamSifter, cut: Cutoff, e: int, x: CandidateKey) -> bool {
    &&& 0 <= x.1 < fg.num_seqs()
    &&& exists|d: int| 0 <= d < e && #[trigger] fg.stats_view().entries_view()[d].key() == (x.0, x.1)
    &&& matched(fg, bg, cut, x)
}

/// The candidates of a foreground dataset against a background dataset:
/// for every sample and sequence with statistics in both, sequences being
/// matched by name, on each strand, each position held on both sides at
/// which the two differ.
pub fn compare(fg: &BamSifter, bg: &BamSifter, cut: Cutoff) -> (r: Vec<Candidate>)
    requires
        fg.wf(),
        bg.wf(),
    ensures
        forall|x: CandidateKey| #[trigger] listed(r@, x) == expected(*fg, *bg, cut, x),
{
    let fs = fg.statistics();
    let bs = bg.statistics();
    let entries = fs.entries();
    proof {
        bg.lemma_names_distinct();
    }
    let mut out: Vec<Candidate> = Vec::new();
    let mut e: usize = 0;
    while e < entries.len()
        invariant
            fg.wf(),
            bg.wf(),
            *fs == fg.stats_view(),
            *bs == bg.stats_view(),
            fs.wf(),
            bs.wf(),
            entries@ == fs.entries_view(),
            0 <= e <= entries@.len(),
            forall|u: int, v: int|
                0 <= u < bg.num_seqs() && 0 <= v < bg.num_seqs() && bg.name(u) == bg.name(v) ==> u == v,
            forall|x: CandidateKey|
                #![trigger listed(out@, x)]
                #![trigger expected_upto(*fg, *bg, cut, e as int, x)]
                listed(out@, x) == expected_upto(*fg, *bg, cut, e as int, x),
        decreases entries@.len() - e,
    {
        let entry = &entries[e];
        let sample = entry.sample();
        let tid = entry.tid();
        let ghost k = entries@[e as int].key();
        let ghost out_e = out@;
        proof {
            assert(fs.has(k));
            assert(fs.find(k) == e as int);
        }
        let mut found = false;
        if tid < fg.num_sequences() {
            match bg.sequence_index(fg.sequence_name(tid)) {
                Some(u) => match bs.get(sample, u) {
                    Some(other) => {
                        found = true;
                        let pf = flagged_positions(entry.forward(), other.forward(), cut);
                        let pr = flagged_positions(entry.reverse(), other.reverse(), cut);
                        push_candidates(&mut out, sample, tid, &pf, false);
                        let ghost out_f = out@;
                        push_candidates(&mut out, sample, tid, &pr, true);
                        proof {
                            assert(sample.key() == k.0);
                            assert(entry.forward_view() == fs.forward_of(k));
                            assert(entry.reverse_view() == fs.reverse_of(k));
                            let ku = (k.0, u as int);
                            assert forall|x: CandidateKey| #[trigger] listed(out@, x) == expected_upto(*fg, *bg, cut, e + 1, x) by {
                                let kx = (x.0, x.1);
                                assert(listed(out_e, x) == expected_upto(*fg, *bg, cut, e as int, x));
                                if listed(out@, x) {
                                    let j = choose|j: int| 0 <= j < out@.len() && #[trigger] out@[j].view_key() == x;
                                    if j < out_e.len() {
                                        assert(out_e[j].view_key() == x);
                                        assert(listed(out_e, x));
                                        let d = choose|d: int| 0 <= d < e && #[trigger] fs.entries_view()[d].key() == kx;
                                        assert(fs.entries_view()[d].key() == kx);
                                    } else {
                                        if j < out_f.len() {
                                            assert(pf@[j - out_e.len()] == x.2);
                                            assert(pf@.contains(x.2));
                                        } else {
                                            assert(pr@[j - out_f.len()] == x.2);
                                            assert(pr@.contains(x.2));
                                        }
                                        assert(kx == k);
                                        assert(fs.entries_view()[e as int].key() == kx);
                                        assert(bs.has(ku));
                                        assert(matched(*fg, *bg, cut, x));
                                    }
                                }
                                if expected_upto(*fg, *bg, cut, e + 1, x) {
                                    let d = choose|d: int| 0 <= d < e + 1 && #[trigger] fs.entries_view()[d].key() == kx;
                                    if d < e {
                                        assert(expected_upto(*fg, *bg, cut, e as int, x));
                                        let j = choose|j: int| 0 <= j < out_e.len() && #[trigger] out_e[j].view_key() == x;
                                        assert(out@[j].view_key() == x);
                                    } else {
                                        assert(kx == k);
                                        let v = choose|v: int|
                                            0 <= v < bg.num_seqs() && bg.name(v) == fg.name(x.1) && #[trigger] bg.stats_view().has(
                                                (x.0, v),
                                            ) && flagged(
                                                strand_of(fg.stats_view(), (x.0, x.1), x.3),
                                                strand_of(bg.stats_view(), (x.0, v), x.3),
                                                cut,
                                                x.2,
                                            );
                                        assert(v == u as int);
                                        if !x.3 {
                                            assert(pf@.contains(x.2));
                                            let q = choose|q: int| 0 <= q < pf@.len() && pf@[q] == x.2;
                                            assert(out@[out_e.len() + q].view_key() == x);
                                        } else {
                                            assert(pr@.contains(x.2));
                                            let q = choose|q: int| 0 <= q < pr@.len() && pr@[q] == x.2;
                                            assert(out@[out_f.len() + q].view_key() == x);
                                        }
                                    }
                                }
                            }
                        }
                    },
                    None => {},
                },
                None => {},
            }
        }
        if !found {
            proof {
                assert forall|x: CandidateKey| #[trigger] listed(out@, x) == expected_upto(*fg, *bg, cut, e + 1, x) by {
                    let kx = (x.0, x.1);
                    assert(listed(out_e, x) == expected_upto(*fg, *bg, cut, e as int, x));
                    if expected_upto(*fg, *bg, cut, e + 1, x) {
                        let d = choose|d: int| 0 <= d < e + 1 && #[trigger] fs.entries_view()[d].key() == kx;
                        if d == e {
                            assert(kx == k);
                            let v = choose|v: int|
                                0 <= v < bg.num_seqs() && bg.name(v) == fg.name(x.1) && #[trigger] bg.stats_view().has(
                                    (x.0, v),
                                ) && flagged(
                                    strand_of(fg.stats_view(), (x.0, x.1), x.3),
                                    strand_of(bg.stats_view(), (x.0, v), x.3),
                                    cut,
                                    x.2,
                                );
                            assert(false);
                        }
                        assert(expected_upto(*fg, *bg, cut, e as int, x));
                    }
                    if listed(out@, x) {
                        assert(expected_upto(*fg, *bg, cut, e as int, x));
                        let d = choose|d: int| 0 <= d < e && #[trigger] fs.entries_view()[d].key() == kx;
                        assert(fs.entries_view()[d].key() == kx);
                    }
                }
            }
        }
        e = e + 1;
    }
    proof {
        assert forall|x: CandidateKey| #[trigger] listed(out@, x) == expected(*fg, *bg, cut, x) by {
            assert(listed(out@, x) == expected_upto(*fg, *bg, cut, e as int, x));
            if fs.has((x.0, x.1)) {
                let d = fs.find((x.0, x.1));
                assert(fs.entries_view()[d].key() == (x.0, x.1));
            }
        }
    }
    out
}

} // verus!
