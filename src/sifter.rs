use crate::aggregate::{get_dna_base_freq, reads_fit};
use crate::bam::{region_count, sample_keys, AlignedRead};
use crate::dna::{Dna, DnaBaseStat};
use crate::error::SiftError;
use crate::misc::{blocks_of, num_intervals, spec_interval};
use crate::positions::{strictly_sorted, union_sorted};
use crate::rules::BaseFilters;
use crate::scan::{counts_fit, scan_block, variable_sites};
use crate::stat_table::{StatKey, StatTable};
use crate::tally_list::pos_map;
use vstd::prelude::*;

verus! {

/// Block size used when none is given.
pub const DEFAULT_BLOCK_SIZE: usize = 10000;

/// The stages of a sifter, in the only order they can be passed.
#[derive(Debug, PartialEq, Eq, Clone, Copy, Structural)]
pub enum SifterStage {
    Initialized,
    Swept,
    Reconciled,
    StatisticsPopulated,
}

/// A block or position that could not be scanned.
#[derive(Debug)]
pub struct BlockFailure {
    pub tid: usize,
    pub lb: i64,
    pub ub: i64,
    pub error: SiftError,
}

/// The sifting state of one alignment dataset: the blocks of each
/// reference sequence, the variable positions found per sequence and
/// strand, the final statistics, and the blocks that failed.
pub struct BamSifter {
    jobs: Vec<(String, Vec<(i64, i64)>)>,
    forward_variable_map: Vec<Vec<i64>>,
    reverse_variable_map: Vec<Vec<i64>>,
    stats: StatTable,
    failures: Vec<BlockFailure>,
    filters: BaseFilters,
    stage: SifterStage,
}

/// Every listed position can start a one-base region.
pub open spec fn positions_in_range(s: Seq<i64>) -> bool {
    forall|i: int| 0 <= i < s.len() ==> 0 <= #[trigger] s[i] < i64::MAX
}

proof fn lemma_union_in_range(a: Seq<i64>, b: Seq<i64>, r: Seq<i64>)
    requires
        positions_in_range(a),
        positions_in_range(b),
        r.to_set() == a.to_set() + b.to_set(),
    ensures
        positions_in_range(r),
{
    assert forall|i: int| 0 <= i < r.len() implies 0 <= #[trigger] r[i] < i64::MAX by {
        assert(r.to_set().contains(r[i]));
        if a.to_set().contains(r[i]) {
            let k = choose|k: int| 0 <= k < a.len() && a[k] == r[i];
        } else {
            let k = choose|k: int| 0 <= k < b.len() && b[k] == r[i];
        }
    }
}

/// Only the failures, the statistics or the stage differ.
proof fn lemma_frame(a: BamSifter, b: BamSifter)
    requires
        a.jobs == b.jobs,
        a.forward_variable_map == b.forward_variable_map,
        a.reverse_variable_map == b.reverse_variable_map,
        a.filters == b.filters,
        a.stats.wf() ==> b.stats.wf(),
    ensures
        a.wf() ==> b.wf(),
        b.same_layout(a),
        forall|u: int, rev: bool| #[trigger] b.positions(u, rev) == a.positions(u, rev),
{
    assert forall|u: int, rev: bool| #[trigger] b.list(u, rev) == a.list(u, rev) by {}
    if a.wf() {
        assert forall|t: int, u: int|
            0 <= t < u < b.jobs@.len() implies #[trigger] b.name(t) != #[trigger] b.name(u) by {
            assert(a.name(t) != a.name(u));
        }
    }
}

/// `st` is the tally of `reads` at `pos` for sample `key` on one strand.
pub open spec fn tally_is(
    st: DnaBaseStat,
    reads: Seq<AlignedRead>,
    key: Option<Seq<char>>,
    rev: bool,
    pos: int,
) -> bool {
    &&& st.spec_position() == pos
    &&& forall|b: Dna| #[trigger] st.count_of(b) == region_count(reads, reads.len() as int, key, rev, pos, b)
}

/// `after` is `before` with the tallies of `reads` at `pos` recorded, on
/// sequence `t`, for every sample met in the reads; nothing else changed.
pub open spec fn collected(
    before: StatTable,
    after: StatTable,
    t: int,
    pos: i64,
    reads: Seq<AlignedRead>,
) -> bool {
    let keys = sample_keys(reads, reads.len() as int);
    &&& after.wf()
    &&& forall|k: StatKey| #[trigger] after.has(k) <==> before.has(k) || (k.1 == t && keys.contains(k.0))
    &&& forall|k: StatKey| k.1 == t && keys.contains(k.0) ==> {
        let fm = pos_map(#[trigger] after.forward_of(k));
        let rm = pos_map(after.reverse_of(k));
        &&& fm == pos_map(before.forward_of(k)).insert(pos, fm[pos])
        &&& tally_is(fm[pos], reads, k.0, false, pos as int)
        &&& rm == pos_map(before.reverse_of(k)).insert(pos, rm[pos])
        &&& tally_is(rm[pos], reads, k.0, true, pos as int)
    }
    &&& forall|k: StatKey| !(k.1 == t && keys.contains(k.0)) ==> #[trigger] after.forward_of(k)
        == before.forward_of(k) && after.reverse_of(k) == before.reverse_of(k)
}

impl BamSifter {
    pub closed spec fn num_seqs(self) -> int {
        self.jobs@.len() as int
    }

    pub closed spec fn name(self, t: int) -> Seq<char> {
        self.jobs@[t].0@
    }

    pub closed spec fn blocks(self, t: int) -> Seq<(i64, i64)> {
        self.jobs@[t].1@
    }

    pub closed spec fn list(self, t: int, rev: bool) -> Seq<i64> {
        if rev {
            self.reverse_variable_map@[t]@
        } else {
            self.forward_variable_map@[t]@
        }
    }

    /// The variable positions of sequence `t` on one strand.
    pub open spec fn positions(self, t: int, rev: bool) -> Set<i64> {
        self.list(t, rev).to_set()
    }

    pub closed spec fn stage_view(self) -> SifterStage {
        self.stage
    }

    pub closed spec fn stats_view(self) -> StatTable {
        self.stats
    }

    pub closed spec fn failures_view(self) -> Seq<BlockFailure> {
        self.failures@
    }

    pub closed spec fn filters_view(self) -> BaseFilters {
        self.filters
    }

    pub closed spec fn wf(self) -> bool {
        &&& self.forward_variable_map@.len() == self.jobs@.len()
        &&& self.reverse_variable_map@.len() == self.jobs@.len()
        &&& forall|t: int, rev: bool|
            0 <= t < self.jobs@.len() ==> strictly_sorted(#[trigger] self.list(t, rev))
                && positions_in_range(self.list(t, rev))
        &&& forall|t: int, k: int|
            0 <= t < self.jobs@.len() && 0 <= k < self.jobs@[t].1@.len() ==> 0
                <= #[trigger] self.jobs@[t].1@[k].0 < self.jobs@[t].1@[k].1
        &&& forall|t: int, u: int|
            0 <= t < u < self.jobs@.len() ==> #[trigger] self.name(t) != #[trigger] self.name(u)
        &&& self.filters.wf()
        &&& self.stats.wf()
    }

    /// The same sequences, names and blocks.
    pub open spec fn same_layout(self, other: BamSifter) -> bool {
        &&& self.num_seqs() == other.num_seqs()
        &&& forall|t: int| 0 <= t < self.num_seqs() ==> #[trigger] self.name(t) == other.name(t)
        &&& forall|t: int| 0 <= t < self.num_seqs() ==> #[trigger] self.blocks(t) == other.blocks(t)
        &&& self.filters_view() == other.filters_view()
    }

    /// The positions that sequences named `name` among the first `u`
    /// sequences hold, on one strand.
    pub open spec fn positions_named_upto(self, name: Seq<char>, rev: bool, u: int) -> Set<i64> {
        Set::new(
            |p: i64|
                exists|v: int|
                    0 <= v < u && self.name(v) == name && #[trigger] self.positions(v, rev).contains(p),
        )
    }

    /// The positions of sequences named `name` in `self`, on one strand.
    pub open spec fn positions_named(self, name: Seq<char>, rev: bool) -> Set<i64> {
        Set::new(
            |p: i64|
                exists|u: int|
                    0 <= u < self.num_seqs() && self.name(u) == name && #[trigger] self.positions(
                        u,
                        rev,
                    ).contains(p),
        )
    }

    /// A sifter over the reference sequences `targets` (name and length),
    /// each cut into blocks of `block_size` bases (10,000 when `None`).
    pub fn new(targets: &Vec<(String, i64)>, block_size: Option<usize>) -> (r: Self)
        requires
            forall|t: int| 0 <= t < targets@.len() ==> #[trigger] targets@[t].1 >= 0,
            forall|t: int, u: int|
                0 <= t < u < targets@.len() ==> #[trigger] targets@[t].0@ != #[trigger] targets@[u].0@,
            block_size matches Some(b) ==> 0 < b <= i64::MAX,
        ensures
            r.wf(),
            r.num_seqs() == targets@.len(),
            r.stage_view() == SifterStage::Initialized,
            r.failures_view().len() == 0,
            r.stats_view().entries_view().len() == 0,
            forall|t: int| 0 <= t < r.num_seqs() ==> #[trigger] r.name(t) == targets@[t].0@,
            forall|t: int, rev: bool| 0 <= t < r.num_seqs() ==> #[trigger] r.positions(t, rev) == Set::<i64>::empty(),
            forall|t: int|
                0 <= t < r.num_seqs() ==> {
                    let bs = match block_size {
                        Some(b) => b as int,
                        None => DEFAULT_BLOCK_SIZE as int,
                    };
                    let len = targets@[t].1 as int;
                    &&& (#[trigger] r.blocks(t)).len() == num_intervals(len, bs)
                    &&& forall|k: int|
                        0 <= k < r.blocks(t).len() ==> (#[trigger] r.blocks(t)[k].0 as int, r.blocks(t)[k].1 as int)
                            == spec_interval(len, bs, k)
                },
    {
        let bs: i64 = match block_size {
            Some(b) => b as i64,
            None => DEFAULT_BLOCK_SIZE as i64,
        };
        let mut jobs: Vec<(String, Vec<(i64, i64)>)> = Vec::new();
        let mut fwd: Vec<Vec<i64>> = Vec::new();
        let mut rev: Vec<Vec<i64>> = Vec::new();
        let mut t: usize = 0;
        while t < targets.len()
            invariant
                forall|t: int| 0 <= t < targets@.len() ==> #[trigger] targets@[t].1 >= 0,
                0 < bs,
                bs == match block_size {
                    Some(b) => b as int,
                    None => DEFAULT_BLOCK_SIZE as int,
                },
                0 <= t <= targets@.len(),
                jobs@.len() == t,
                fwd@.len() == t,
                rev@.len() == t,
                forall|u: int| 0 <= u < t ==> (#[trigger] fwd@[u])@.len() == 0,
                forall|u: int| 0 <= u < t ==> (#[trigger] rev@[u])@.len() == 0,
                forall|u: int| 0 <= u < t ==> #[trigger] jobs@[u].0@ == targets@[u].0@,
                forall|u: int|
                    0 <= u < t ==> {
                        let len = targets@[u].1 as int;
                        &&& (#[trigger] jobs@[u]).1@.len() == num_intervals(len, bs as int)
                        &&& forall|k: int|
                            0 <= k < jobs@[u].1@.len() ==> (#[trigger] jobs@[u].1@[k].0 as int, jobs@[u].1@[k].1 as int)
                                == spec_interval(len, bs as int, k)
                    },
            decreases targets@.len() - t,
        {
            let name = targets[t].0.clone();
            let blocks = blocks_of(targets[t].1, bs);
            let ghost jobs0 = jobs@;
            jobs.push((name, blocks));
            proof {
                assert(jobs@[t as int].0@ == targets@[t as int].0@);
                assert forall|u: int| 0 <= u < t + 1 implies #[trigger] jobs@[u].0@ == targets@[u].0@ by {
                    if u < t {
                        assert(jobs@[u] == jobs0[u]);
                    }
                }
            }
            fwd.push(Vec::new());
            rev.push(Vec::new());
            t = t + 1;
        }
        let r = BamSifter {
            jobs,
            forward_variable_map: fwd,
            reverse_variable_map: rev,
            stats: StatTable::new(),
            failures: Vec::new(),
            filters: BaseFilters::new(),
            stage: SifterStage::Initialized,
        };
        proof {
            assert forall|t: int, k: int|
                0 <= t < r.jobs@.len() && 0 <= k < r.jobs@[t].1@.len() implies 0
                    <= #[trigger] r.jobs@[t].1@[k].0 < r.jobs@[t].1@[k].1 by {
                let len = targets@[t].1 as int;
                crate::misc::lemma_intervals_tile(len, bs as int);
                assert(spec_interval(len, bs as int, k).0 < spec_interval(len, bs as int, k).1);
                assert(0 <= k * bs) by (nonlinear_arith)
                    requires
                        0 <= k,
                        0 < bs,
                ;
            }
            assert forall|t: int, rev: bool| 0 <= t < r.num_seqs() implies #[trigger] r.positions(t, rev) == Set::<i64>::empty() by {
                assert(r.list(t, rev).len() == 0);
                assert(r.list(t, rev).to_set() =~= Set::<i64>::empty());
            }
            assert forall|t: int, rev: bool|
                0 <= t < r.jobs@.len() implies strictly_sorted(#[trigger] r.list(t, rev))
                    && positions_in_range(r.list(t, rev)) by {
                assert(r.list(t, rev).len() == 0);
            }
            assert forall|t: int, u: int|
                0 <= t < u < r.jobs@.len() implies #[trigger] r.name(t) != #[trigger] r.name(u) by {
                assert(targets@[t].0@ != targets@[u].0@);
            }
        }
        r
    }

    pub fn stage(&self) -> (r: SifterStage)
        ensures
            r == self.stage_view(),
    {
        self.stage
    }

    pub fn num_sequences(&self) -> (r: usize)
        ensures
            r == self.num_seqs(),
    {
        self.jobs.len()
    }

    /// The name of sequence `t`.
    pub fn sequence_name(&self, t: usize) -> (r: &String)
        requires
            t < self.num_seqs(),
        ensures
            r@ == self.name(t as int),
    {
        &self.jobs[t].0
    }

    /// The blocks of sequence `t`.
    pub fn sequence_blocks(&self, t: usize) -> (r: &Vec<(i64, i64)>)
        requires
            t < self.num_seqs(),
        ensures
            r@ == self.blocks(t as int),
    {
        &self.jobs[t].1
    }

    /// The blocks and positions that could not be scanned so far.
    pub fn failures(&self) -> (r: &Vec<BlockFailure>)
        ensures
            r@ == self.failures_view(),
    {
        &self.failures
    }

    /// The statistics collected so far.
    pub fn statistics(&self) -> (r: &StatTable)
        requires
            self.wf(),
        ensures
            *r == self.stats_view(),
            r.wf(),
    {
        &self.stats
    }

    /// The forward-strand variable positions of every sequence, each in
    /// increasing order.
    pub fn get_forward_variable_positions(&self) -> (r: &Vec<Vec<i64>>)
        requires
            self.wf(),
        ensures
            r@.len() == self.num_seqs(),
            forall|t: int|
                0 <= t < self.num_seqs() ==> strictly_sorted(#[trigger] r@[t]@) && r@[t]@.to_set()
                    == self.positions(t, false),
    {
        proof {
            assert forall|t: int| 0 <= t < self.num_seqs() implies strictly_sorted(#[trigger] self.forward_variable_map@[t]@) by {
                assert(strictly_sorted(self.list(t, false)));
            }
        }
        &self.forward_variable_map
    }

    /// The reverse-strand variable positions of every sequence, each in
    /// increasing order.
    pub fn get_reverse_variable_positions(&self) -> (r: &Vec<Vec<i64>>)
        requires
            self.wf(),
        ensures
            r@.len() == self.num_seqs(),
            forall|t: int|
                0 <= t < self.num_seqs() ==> strictly_sorted(#[trigger] r@[t]@) && r@[t]@.to_set()
                    == self.positions(t, true),
    {
        proof {
            assert forall|t: int| 0 <= t < self.num_seqs() implies strictly_sorted(#[trigger] self.reverse_variable_map@[t]@) by {
                assert(strictly_sorted(self.list(t, true)));
            }
        }
        &self.reverse_variable_map
    }

    /// Adds the positions `f` (forward strand) and `r` (reverse strand) to
    /// the variable positions of sequence `t`.
    fn merge_positions(&mut self, t: usize, f: &Vec<i64>, r: &Vec<i64>)
        requires
            old(self).wf(),
            t < old(self).num_seqs(),
            strictly_sorted(f@),
            strictly_sorted(r@),
            positions_in_range(f@),
            positions_in_range(r@),
        ensures
            final(self).wf(),
            final(self).same_layout(*old(self)),
            final(self).stats_view() == old(self).stats_view(),
            final(self).failures_view() == old(self).failures_view(),
            final(self).stage_view() == old(self).stage_view(),
            final(self).positions(t as int, false) == old(self).positions(t as int, false) + f@.to_set(),
            final(self).positions(t as int, true) == old(self).positions(t as int, true) + r@.to_set(),
            forall|u: int, rev: bool|
                0 <= u < old(self).num_seqs() && u != t ==> #[trigger] final(self).positions(u, rev)
                    == old(self).positions(u, rev),
    {
        let ghost prev = *self;
        proof {
            assert(strictly_sorted(self.list(t as int, false)));
            assert(strictly_sorted(self.list(t as int, true)));
            assert(positions_in_range(self.list(t as int, false)));
            assert(positions_in_range(self.list(t as int, true)));
        }
        let nf = union_sorted(&self.forward_variable_map[t], f);
        let nr = union_sorted(&self.reverse_variable_map[t], r);
        proof {
            lemma_union_in_range(self.list(t as int, false), f@, nf@);
            lemma_union_in_range(self.list(t as int, true), r@, nr@);
        }
        self.forward_variable_map.set(t, nf);
        self.reverse_variable_map.set(t, nr);
        proof {
            assert forall|u: int, rev: bool| 0 <= u < self.jobs@.len() && u != t implies #[trigger] self.list(u, rev) == prev.list(u, rev) by {}
            assert forall|u: int, rev: bool|
                0 <= u < self.jobs@.len() implies strictly_sorted(#[trigger] self.list(u, rev))
                    && positions_in_range(self.list(u, rev)) by {
                if u != t {
                    assert(self.list(u, rev) == prev.list(u, rev));
                }
            }
            assert forall|v: int, u: int|
                0 <= v < u < self.jobs@.len() implies #[trigger] self.name(v) != #[trigger] self.name(u) by {
                assert(prev.name(v) != prev.name(u));
            }
        }
    }

    /// Adds the positions `f` (forward strand) and `r` (reverse strand),
    /// found by scanning a block of sequence `t`, to the variable positions
    /// of `t` during the sweep.
    pub fn add_block_positions(&mut self, t: usize, f: &Vec<i64>, r: &Vec<i64>)
        requires
            old(self).wf(),
            old(self).stage_view() == SifterStage::Initialized,
            t < old(self).num_seqs(),
            strictly_sorted(f@),
            strictly_sorted(r@),
            positions_in_range(f@),
            positions_in_range(r@),
        ensures
            final(self).wf(),
            final(self).same_layout(*old(self)),
            final(self).stats_view() == old(self).stats_view(),
            final(self).failures_view() == old(self).failures_view(),
            final(self).stage_view() == old(self).stage_view(),
            final(self).positions(t as int, false) == old(self).positions(t as int, false) + f@.to_set(),
            final(self).positions(t as int, true) == old(self).positions(t as int, true) + r@.to_set(),
            forall|u: int, rev: bool|
                0 <= u < old(self).num_seqs() && u != t ==> #[trigger] final(self).positions(u, rev)
                    == old(self).positions(u, rev),
    {
        self.merge_positions(t, f, r);
    }

    /// Scans block `k` of sequence `t` from the reads fetched for it, and
    /// adds its variable positions to those of the sequence. A failed fetch,
    /// or more reads than the counters take, is recorded as a failure and
    /// adds nothing.
    pub fn sweep_block(
        &mut self,
        t: usize,
        k: usize,
        fetched: Result<Vec<AlignedRead>, SiftError>,
    )
        requires
            old(self).wf(),
            old(self).stage_view() == SifterStage::Initialized,
            t < old(self).num_seqs(),
            k < old(self).blocks(t as int).len(),
        ensures
            final(self).wf(),
            final(self).same_layout(*old(self)),
            final(self).stats_view() == old(self).stats_view(),
            final(self).stage_view() == old(self).stage_view(),
            forall|u: int, rev: bool|
                0 <= u < old(self).num_seqs() && u != t ==> #[trigger] final(self).positions(u, rev)
                    == old(self).positions(u, rev),
            ({
                let lb = old(self).blocks(t as int)[k as int].0;
                let ub = old(self).blocks(t as int)[k as int].1;
                match fetched {
                    Ok(reads) => if reads_fit(reads@) {
                        &&& final(self).failures_view() == old(self).failures_view()
                        &&& forall|rev: bool|
                            #[trigger] final(self).positions(t as int, rev) == old(self).positions(t as int, rev)
                                + variable_sites(lb as int, ub as int, reads@, rev)
                    } else {
                        &&& final(self).failures_view() == old(self).failures_view().push(
                            BlockFailure { tid: t, lb, ub, error: SiftError::Overflow },
                        )
                        &&& forall|rev: bool|
                            #[trigger] final(self).positions(t as int, rev) == old(self).positions(t as int, rev)
                    },
                    Err(e) => {
                        &&& final(self).failures_view() == old(self).failures_view().push(
                            BlockFailure { tid: t, lb, ub, error: e },
                        )
                        &&& forall|rev: bool|
                            #[trigger] final(self).positions(t as int, rev) == old(self).positions(t as int, rev)
                    },
                }
            }),
    {
        let (lb, ub) = self.jobs[t].1[k];
        proof {
            assert(0 <= self.jobs@[t as int].1@[k as int].0 < self.jobs@[t as int].1@[k as int].1);
        }
        match fetched {
            Ok(reads) => match scan_block(lb, ub, &reads, &self.filters) {
                Ok(found) => {
                    proof {
                        assert forall|i: int| 0 <= i < found.0@.len() implies 0 <= #[trigger] found.0@[i] < i64::MAX by {
                            assert(found.0@.to_set().contains(found.0@[i]));
                        }
                        assert forall|i: int| 0 <= i < found.1@.len() implies 0 <= #[trigger] found.1@[i] < i64::MAX by {
                            assert(found.1@.to_set().contains(found.1@[i]));
                        }
                    }
                    self.merge_positions(t, &found.0, &found.1);
                },
                Err(e) => {
                    let ghost prev = *self;
                    self.failures.push(BlockFailure { tid: t, lb, ub, error: e });
                    proof {
                        lemma_frame(prev, *self);
                    }
                },
            },
            Err(e) => {
                let ghost prev = *self;
                self.failures.push(BlockFailure { tid: t, lb, ub, error: e });
                proof {
                    lemma_frame(prev, *self);
                }
            },
        }
    }

    /// Ends the sweep.
    pub fn finish_sweep(&mut self)
        requires
            old(self).stage_view() == SifterStage::Initialized,
        ensures
            final(self).stage_view() == SifterStage::Swept,
            final(self).wf() == old(self).wf(),
            final(self).same_layout(*old(self)),
            final(self).stats_view() == old(self).stats_view(),
            final(self).failures_view() == old(self).failures_view(),
            forall|u: int, rev: bool| #[trigger] final(self).positions(u, rev) == old(self).positions(u, rev),
    {
        let ghost prev = *self;
        self.stage = SifterStage::Swept;
        proof {
            lemma_frame(prev, *self);
            lemma_frame(*self, prev);
        }
    }

    /// Reconciles with `other`: each sequence ends up with the union of the
    /// variable positions both sifters hold for its name, strand by strand.
    /// Sequences that only `other` has are added, with no blocks. Both
    /// datasets are then scored at the same positions once each has been
    /// reconciled with the other.
    pub fn add_missed_positions(&mut self, other: &BamSifter)
        requires
            old(self).wf(),
            other.wf(),
            old(self).stage_view() == SifterStage::Swept,
            other.stage_view() == SifterStage::Swept || other.stage_view() == SifterStage::Reconciled,
        ensures
            final(self).wf(),
            final(self).stage_view() == SifterStage::Reconciled,
            final(self).stats_view() == old(self).stats_view(),
            final(self).failures_view() == old(self).failures_view(),
            final(self).filters_view() == old(self).filters_view(),
            final(self).num_seqs() >= old(self).num_seqs(),
            forall|t: int|
                0 <= t < old(self).num_seqs() ==> #[trigger] final(self).name(t) == old(self).name(t)
                    && final(self).blocks(t) == old(self).blocks(t),
            forall|t: int|
                old(self).num_seqs() <= t < final(self).num_seqs() ==> (#[trigger] final(self).blocks(
                    t,
                )).len() == 0 && !old(self).has_name(final(self).name(t)) && other.has_name(
                    final(self).name(t),
                ),
            forall|u: int| 0 <= u < other.num_seqs() ==> final(self).has_name(#[trigger] other.name(u)),
            forall|t: int|
                0 <= t < final(self).num_seqs() ==> old(self).has_name(#[trigger] final(self).name(t))
                    || other.has_name(final(self).name(t)),
            forall|t: int, rev: bool|
                0 <= t < final(self).num_seqs() ==> #[trigger] final(self).positions(t, rev)
                    == old(self).positions_named(final(self).name(t), rev) + other.positions_named(
                    final(self).name(t),
                    rev,
                ),
    {
        let ghost prev = *self;
        let n = self.jobs.len();
        let m = other.jobs.len();
        let mut t: usize = 0;
        while t < n
            invariant
                self.wf(),
                other.wf(),
                n == prev.num_seqs(),
                m == other.num_seqs(),
                0 <= t <= n,
                self.same_layout(prev),
                self.stats_view() == prev.stats_view(),
                self.failures_view() == prev.failures_view(),
                self.stage_view() == prev.stage_view(),
                forall|v: int, rev: bool|
                    0 <= v < t ==> #[trigger] self.positions(v, rev) == prev.positions(v, rev)
                        + other.positions_named(prev.name(v), rev),
                forall|v: int, rev: bool|
                    t <= v < n ==> #[trigger] self.positions(v, rev) == prev.positions(v, rev),
            decreases n - t,
        {
            let mut u: usize = 0;
            while u < m
                invariant
                    self.wf(),
                    other.wf(),
                    n == prev.num_seqs(),
                    m == other.num_seqs(),
                    0 <= t < n,
                    0 <= u <= m,
                    self.same_layout(prev),
                    self.stats_view() == prev.stats_view(),
                    self.failures_view() == prev.failures_view(),
                    self.stage_view() == prev.stage_view(),
                    forall|v: int, rev: bool|
                        0 <= v < t ==> #[trigger] self.positions(v, rev) == prev.positions(v, rev)
                            + other.positions_named(prev.name(v), rev),
                    forall|v: int, rev: bool|
                        t < v < n ==> #[trigger] self.positions(v, rev) == prev.positions(v, rev),
                    forall|rev: bool|
                        #[trigger] self.positions(t as int, rev) == prev.positions(t as int, rev)
                            + other.positions_named_upto(prev.name(t as int), rev, u as int),
                decreases m - u,
            {
                let ghost before = *self;
                let same = self.jobs[t].0.eq(&other.jobs[u].0);
                if same {
                    proof {
                        assert(strictly_sorted(other.list(u as int, false)));
                        assert(strictly_sorted(other.list(u as int, true)));
                        assert(positions_in_range(other.list(u as int, false)));
                        assert(positions_in_range(other.list(u as int, true)));
                    }
                    self.merge_positions(t, &other.forward_variable_map[u], &other.reverse_variable_map[u]);
                }
                proof {
                    assert forall|rev: bool|
                        #[trigger] self.positions(t as int, rev) == prev.positions(t as int, rev)
                            + other.positions_named_upto(prev.name(t as int), rev, u + 1) by {
                        let name = prev.name(t as int);
                        assert(self.name(t as int) == name);
                        assert(other.list(u as int, rev).to_set() == other.positions(u as int, rev));
                        assert(same == (other.name(u as int) == name));
                        if same {
                            assert(other.positions_named_upto(name, rev, u + 1) =~= other.positions_named_upto(name, rev, u as int)
                                + other.positions(u as int, rev));
                        } else {
                            assert(other.positions_named_upto(name, rev, u + 1) =~= other.positions_named_upto(name, rev, u as int));
                        }
                        assert(self.positions(t as int, rev) =~= prev.positions(t as int, rev)
                            + other.positions_named_upto(prev.name(t as int), rev, u + 1));
                    }
                }
                u = u + 1;
            }
            proof {
                assert forall|rev: bool| #[trigger] other.positions_named_upto(prev.name(t as int), rev, m as int)
                    == other.positions_named(prev.name(t as int), rev) by {
                    assert(other.positions_named_upto(prev.name(t as int), rev, m as int)
                        =~= other.positions_named(prev.name(t as int), rev));
                }
            }
            t = t + 1;
        }
        proof {
            assert forall|v: int, rev: bool|
                0 <= v < n implies #[trigger] self.positions(v, rev) == prev.positions_named(
                self.name(v),
                rev,
            ) + other.positions_named(self.name(v), rev) by {
                prev.lemma_named_own(v);
                assert(self.name(v) == prev.name(v));
            }
        }
        let mut u: usize = 0;
        while u < m
            invariant
                self.wf(),
                other.wf(),
                prev.wf(),
                n == prev.num_seqs(),
                m == other.num_seqs(),
                0 <= u <= m,
                self.num_seqs() >= n,
                self.stats_view() == prev.stats_view(),
                self.failures_view() == prev.failures_view(),
                self.filters_view() == prev.filters_view(),
                self.stage_view() == prev.stage_view(),
                forall|t: int|
                    0 <= t < n ==> #[trigger] self.name(t) == prev.name(t) && self.blocks(t)
                        == prev.blocks(t),
                forall|t: int|
                    n <= t < self.num_seqs() ==> (#[trigger] self.blocks(t)).len() == 0
                        && !prev.has_name(self.name(t)) && other.has_name(self.name(t)),
                forall|v: int| 0 <= v < u ==> self.has_name(#[trigger] other.name(v)),
                forall|t: int, rev: bool|
                    0 <= t < self.num_seqs() ==> #[trigger] self.positions(t, rev)
                        == prev.positions_named(self.name(t), rev) + other.positions_named(
                        self.name(t),
                        rev,
                    ),
            decreases m - u,
        {
            match self.sequence_index(&other.jobs[u].0) {
                Some(_) => {},
                None => {
                    let ghost before = *self;
                    let name = other.jobs[u].0.clone();
                    let fwd = other.forward_variable_map[u].clone();
                    let rev = other.reverse_variable_map[u].clone();
                    proof {
                        assert(fwd@ =~= other.list(u as int, false));
                        assert(rev@ =~= other.list(u as int, true));
                        assert(strictly_sorted(other.list(u as int, false)));
                        assert(strictly_sorted(other.list(u as int, true)));
                        assert(positions_in_range(other.list(u as int, false)));
                        assert(positions_in_range(other.list(u as int, true)));
                    }
                    self.jobs.push((name, Vec::new()));
                    self.forward_variable_map.push(fwd);
                    self.reverse_variable_map.push(rev);
                    proof {
                        let nn = before.num_seqs();
                        let nm = other.name(u as int);
                        assert(self.name(nn) == nm);
                        assert forall|t: int| 0 <= t < nn implies #[trigger] self.name(t) == before.name(t)
                            && self.blocks(t) == before.blocks(t) && (forall|rv: bool| self.list(t, rv) == before.list(t, rv)) by {
                            assert(self.jobs@[t] == before.jobs@[t]);
                        }
                        assert forall|rv: bool| #[trigger] self.list(nn, rv) == other.list(u as int, rv) by {}
                        if prev.has_name(nm) {
                            let t = choose|t: int| 0 <= t < prev.num_seqs() && #[trigger] prev.name(t) == nm;
                            assert(before.name(t) == nm);
                        }
                        prev.lemma_named_absent(nm);
                        other.lemma_named_own(u as int);
                        assert forall|t: int, rv: bool|
                            0 <= t < self.num_seqs() implies #[trigger] self.positions(t, rv)
                                == prev.positions_named(self.name(t), rv) + other.positions_named(
                                self.name(t),
                                rv,
                            ) by {
                            if t < nn {
                                assert(self.positions(t, rv) == before.positions(t, rv));
                            } else {
                                assert(self.positions(t, rv) =~= prev.positions_named(nm, rv) + other.positions_named(nm, rv));
                            }
                        }
                        assert forall|t: int, rv: bool|
                            0 <= t < self.jobs@.len() implies strictly_sorted(#[trigger] self.list(t, rv))
                                && positions_in_range(self.list(t, rv)) by {
                            if t < nn {
                                assert(self.list(t, rv) == before.list(t, rv));
                            }
                        }
                        assert forall|t: int, k: int|
                            0 <= t < self.jobs@.len() && 0 <= k < self.jobs@[t].1@.len() implies 0
                                <= #[trigger] self.jobs@[t].1@[k].0 < self.jobs@[t].1@[k].1 by {
                            assert(self.jobs@[t] == before.jobs@[t]);
                        }
                        assert forall|t: int, w: int|
                            0 <= t < w < self.jobs@.len() implies #[trigger] self.name(t) != #[trigger] self.name(w) by {
                            if w < nn {
                                assert(before.name(t) != before.name(w));
                            } else {
                                assert(before.name(t) != nm);
                            }
                        }
                        assert forall|t: int|
                            n <= t < self.num_seqs() implies (#[trigger] self.blocks(t)).len() == 0
                                && !prev.has_name(self.name(t)) && other.has_name(self.name(t)) by {
                            if t == nn {
                                assert(other.name(u as int) == nm);
                                assert(self.blocks(t).len() == 0);
                            } else {
                                assert(self.jobs@[t] == before.jobs@[t]);
                                assert(before.blocks(t).len() == 0);
                            }
                        }
                        assert forall|v: int| 0 <= v < u + 1 implies self.has_name(#[trigger] other.name(v)) by {
                            if v < u {
                                let t = choose|t: int| 0 <= t < before.num_seqs() && #[trigger] before.name(t) == other.name(v);
                                assert(self.name(t) == other.name(v));
                            } else {
                                assert(self.name(nn) == other.name(v));
                            }
                        }
                    }
                },
            }
            proof {
                assert(self.has_name(other.name(u as int)));
            }
            u = u + 1;
        }
        let ghost last = *self;
        self.stage = SifterStage::Reconciled;
        proof {
            lemma_frame(last, *self);
            assert forall|t: int| 0 <= t < self.num_seqs() implies #[trigger] self.name(t) == last.name(t) by {}
            assert forall|u: int| 0 <= u < other.num_seqs() implies self.has_name(#[trigger] other.name(u)) by {
                let t = choose|t: int| 0 <= t < last.num_seqs() && #[trigger] last.name(t) == other.name(u);
                assert(self.name(t) == other.name(u));
            }
            assert forall|t: int|
                0 <= t < self.num_seqs() implies prev.has_name(#[trigger] self.name(t)) || other.has_name(self.name(t)) by {
                if t < n {
                    assert(prev.name(t) == self.name(t));
                } else {
                    assert(last.blocks(t).len() == 0);
                }
            }
        }
    }

    /// Some sequence is named `n`.
    pub open spec fn has_name(self, n: Seq<char>) -> bool {
        exists|t: int| 0 <= t < self.num_seqs() && #[trigger] self.name(t) == n
    }

    /// In a well-formed sifter, the positions named after sequence `t` are
    /// those of `t`.
    pub proof fn lemma_named_own(self, t: int)
        requires
            self.wf(),
            0 <= t < self.num_seqs(),
        ensures
            forall|rev: bool| #[trigger] self.positions_named(self.name(t), rev) == self.positions(t, rev),
    {
        self.lemma_names_distinct();
        assert forall|rev: bool| #[trigger] self.positions_named(self.name(t), rev) == self.positions(t, rev) by {
            assert forall|p: i64| self.positions_named(self.name(t), rev).contains(p) implies self.positions(t, rev).contains(p) by {
                let v = choose|v: int|
                    0 <= v < self.num_seqs() && self.name(v) == self.name(t) && #[trigger] self.positions(v, rev).contains(p);
                assert(v == t);
            }
            assert(self.positions_named(self.name(t), rev) =~= self.positions(t, rev));
        }
    }

    /// No sequence is named `n`: no positions are named after it.
    pub proof fn lemma_named_absent(self, n: Seq<char>)
        requires
            !self.has_name(n),
        ensures
            forall|rev: bool| #[trigger] self.positions_named(n, rev) == Set::<i64>::empty(),
    {
        assert forall|rev: bool| #[trigger] self.positions_named(n, rev) == Set::<i64>::empty() by {
            assert(self.positions_named(n, rev) =~= Set::<i64>::empty());
        }
    }

    /// The positions of sequence `t` flagged on either strand, in
    /// increasing order.
    pub fn candidate_positions(&self, t: usize) -> (r: Vec<i64>)
        requires
            self.wf(),
            t < self.num_seqs(),
        ensures
            strictly_sorted(r@),
            positions_in_range(r@),
            r@.to_set() == self.positions(t as int, false) + self.positions(t as int, true),
    {
        proof {
            assert(strictly_sorted(self.list(t as int, false)));
            assert(strictly_sorted(self.list(t as int, true)));
            assert(positions_in_range(self.list(t as int, false)));
            assert(positions_in_range(self.list(t as int, true)));
        }
        let r = union_sorted(&self.forward_variable_map[t], &self.reverse_variable_map[t]);
        proof {
            lemma_union_in_range(self.list(t as int, false), self.list(t as int, true), r@);
        }
        r
    }

    /// Collects the statistics of position `pos` of sequence `t` from the
    /// reads fetched for `[pos, pos + 1)`: each sample met in them gets the
    /// forward and the reverse tally of `pos` in its entry for `t`, in
    /// position order, replacing an earlier tally of `pos`. A
    /// failed fetch, or more reads than the counters take, is recorded as a
    /// failure and adds nothing.
    pub fn populate_position(
        &mut self,
        t: usize,
        pos: i64,
        fetched: Result<Vec<AlignedRead>, SiftError>,
    )
        requires
            old(self).wf(),
            old(self).stage_view() == SifterStage::Reconciled,
            t < old(self).num_seqs(),
            0 <= pos < i64::MAX,
        ensures
            final(self).wf(),
            final(self).same_layout(*old(self)),
            final(self).stage_view() == old(self).stage_view(),
            forall|u: int, rev: bool| #[trigger] final(self).positions(u, rev) == old(self).positions(u, rev),
            match fetched {
                Ok(reads) => if reads_fit(reads@) {
                    &&& final(self).failures_view() == old(self).failures_view()
                    &&& collected(old(self).stats_view(), final(self).stats_view(), t as int, pos, reads@)
                } else {
                    &&& final(self).failures_view() == old(self).failures_view().push(
                        BlockFailure { tid: t, lb: pos, ub: (pos + 1) as i64, error: SiftError::Overflow },
                    )
                    &&& final(self).stats_view() == old(self).stats_view()
                },
                Err(e) => {
                    &&& final(self).failures_view() == old(self).failures_view().push(
                        BlockFailure { tid: t, lb: pos, ub: (pos + 1) as i64, error: e },
                    )
                    &&& final(self).stats_view() == old(self).stats_view()
                },
            },
    {
        let ghost prev = *self;
        let reads = match fetched {
            Ok(reads) => reads,
            Err(e) => {
                self.failures.push(BlockFailure { tid: t, lb: pos, ub: pos + 1, error: e });
                proof {
                    lemma_frame(prev, *self);
                }
                return ;
            },
        };
        if !counts_fit(&reads) {
            self.failures.push(BlockFailure { tid: t, lb: pos, ub: pos + 1, error: SiftError::Overflow });
            proof {
                lemma_frame(prev, *self);
            }
            return ;
        }
        let m = match get_dna_base_freq(pos, pos + 1, &reads) {
            Ok(m) => m,
            Err(_) => {
                return ;
            },
        };
        let ghost keys = m.keys();
        let ghost old_stats = self.stats;
        let n = m.num_samples();
        let samples = m.samples();
        let mut s: usize = 0;
        while s < n
            invariant
                m.wf(),
                crate::aggregate::tallies(m, pos as int, pos + 1, reads@),
                keys == m.keys(),
                samples@.map_values(|x: crate::bam::BamSample| x.key()) == keys,
                n == keys.len(),
                0 <= s <= n,
                self.stats.wf(),
                self.jobs == prev.jobs,
                self.forward_variable_map == prev.forward_variable_map,
                self.reverse_variable_map == prev.reverse_variable_map,
                self.filters == prev.filters,
                self.failures == prev.failures,
                self.stage == prev.stage,
                old_stats == prev.stats,
                forall|k: StatKey| #[trigger] self.stats.has(k) <==> old_stats.has(k) || (k.1 == t
                    && exists|j: int| 0 <= j < s && keys[j] == k.0),
                forall|j: int| 0 <= j < s ==> pos_map(#[trigger] self.stats.forward_of((keys[j], t as int)))
                    == pos_map(old_stats.forward_of((keys[j], t as int))).insert(pos, m.stat(j, false, 0)),
                forall|j: int| 0 <= j < s ==> pos_map(#[trigger] self.stats.reverse_of((keys[j], t as int)))
                    == pos_map(old_stats.reverse_of((keys[j], t as int))).insert(pos, m.stat(j, true, 0)),
                forall|k: StatKey|
                    !(k.1 == t && exists|j: int| 0 <= j < s && keys[j] == k.0) ==> #[trigger] self.stats.forward_of(k)
                        == old_stats.forward_of(k),
                forall|k: StatKey|
                    !(k.1 == t && exists|j: int| 0 <= j < s && keys[j] == k.0) ==> #[trigger] self.stats.reverse_of(k)
                        == old_stats.reverse_of(k),
            decreases n - s,
        {
            let ghost before = self.stats;
            let fs = m.stat_at(s, false, 0);
            let rs = m.stat_at(s, true, 0);
            proof {
                assert(samples@[s as int].key() == keys[s as int]);
            }
            proof {
                assert(fs.spec_position() == pos);
                assert(rs.spec_position() == pos);
            }
            self.stats.record(&samples[s], t, fs, rs);
            proof {
                let ks = (keys[s as int], t as int);
                assert forall|k: StatKey| #[trigger] self.stats.has(k) <==> old_stats.has(k) || (k.1 == t
                    && exists|j: int| 0 <= j < s + 1 && keys[j] == k.0) by {
                    if k == ks {
                        assert(keys[s as int] == k.0);
                    }
                    if k.1 == t && exists|j: int| 0 <= j < s + 1 && keys[j] == k.0 {
                        let j = choose|j: int| 0 <= j < s + 1 && keys[j] == k.0;
                        if j < s {
                            assert(before.has(k));
                        }
                    }
                }
                assert forall|j: int| 0 <= j < s + 1 implies pos_map(self.stats.forward_of((keys[j], t as int)))
                    == pos_map(old_stats.forward_of((keys[j], t as int))).insert(pos, m.stat(j, false, 0)) && pos_map(self.stats.reverse_of((keys[j], t as int)))
                    == pos_map(old_stats.reverse_of((keys[j], t as int))).insert(pos, m.stat(j, true, 0)) by {
                    let kj = (keys[j], t as int);
                    if j < s {
                        assert(m.keys()[j] != m.keys()[s as int]);
                        assert(kj != ks);
                        assert(self.stats.forward_of(kj) == before.forward_of(kj));
                        assert(self.stats.reverse_of(kj) == before.reverse_of(kj));
                        assert(pos_map(before.forward_of(kj)) == pos_map(old_stats.forward_of(kj)).insert(pos, m.stat(j, false, 0)));
                        assert(pos_map(before.reverse_of(kj)) == pos_map(old_stats.reverse_of(kj)).insert(pos, m.stat(j, true, 0)));
                    } else {
                        assert forall|i: int| 0 <= i < s implies keys[i] != keys[s as int] by {
                            assert(m.keys()[i] != m.keys()[s as int]);
                        }
                        assert(!(kj.1 == t && exists|i: int| 0 <= i < s && keys[i] == kj.0));
                        assert(before.forward_of(ks) == old_stats.forward_of(ks));
                        assert(before.reverse_of(ks) == old_stats.reverse_of(ks));
                        assert(pos_map(self.stats.forward_of(ks)) == pos_map(before.forward_of(ks)).insert(pos, fs));
                        assert(pos_map(self.stats.reverse_of(ks)) == pos_map(before.reverse_of(ks)).insert(pos, rs));
                    }
                }
                assert forall|k: StatKey|
                    !(k.1 == t && exists|j: int| 0 <= j < s + 1 && keys[j] == k.0) implies self.stats.forward_of(k)
                        == old_stats.forward_of(k) && self.stats.reverse_of(k) == old_stats.reverse_of(k) by {
                    if k == ks {
                        assert(keys[s as int] == k.0);
                    }
                    assert(k != ks);
                    assert(!(k.1 == t && exists|j: int| 0 <= j < s && keys[j] == k.0));
                    assert(before.forward_of(k) == old_stats.forward_of(k));
                    assert(before.reverse_of(k) == old_stats.reverse_of(k));
                    assert(self.stats.forward_of(k) == before.forward_of(k));
                    assert(self.stats.reverse_of(k) == before.reverse_of(k));
                }
            }
            s = s + 1;
        }
        proof {
            lemma_frame(prev, *self);
            assert forall|k: StatKey| #[trigger] self.stats.has(k) <==> old_stats.has(k) || (k.1 == t
                && sample_keys(reads@, reads@.len() as int).contains(k.0)) by {
                if k.1 == t && sample_keys(reads@, reads@.len() as int).contains(k.0) {
                    let j = choose|j: int| 0 <= j < keys.len() && keys[j] == k.0;
                }
            }
            assert forall|k: StatKey| k.1 == t && sample_keys(reads@, reads@.len() as int).contains(k.0) implies {
                let fm = pos_map(#[trigger] self.stats.forward_of(k));
                let rm = pos_map(self.stats.reverse_of(k));
                &&& fm == pos_map(old_stats.forward_of(k)).insert(pos, fm[pos])
                &&& tally_is(fm[pos], reads@, k.0, false, pos as int)
                &&& rm == pos_map(old_stats.reverse_of(k)).insert(pos, rm[pos])
                &&& tally_is(rm[pos], reads@, k.0, true, pos as int)
            } by {
                let j = choose|j: int| 0 <= j < keys.len() && keys[j] == k.0;
                assert(pos_map(self.stats.forward_of((keys[j], t as int))) == pos_map(old_stats.forward_of((keys[j], t as int))).insert(pos, m.stat(j, false, 0)));
                assert(pos_map(self.stats.reverse_of((keys[j], t as int))) == pos_map(old_stats.reverse_of((keys[j], t as int))).insert(pos, m.stat(j, true, 0)));
                assert(m.stat(j, false, 0).spec_position() == pos);
                assert(m.stat(j, true, 0).spec_position() == pos);
                assert forall|b: Dna| #[trigger] m.stat(j, false, 0).count_of(b) == region_count(reads@, reads@.len() as int, k.0, false, pos as int, b) by {}
                assert forall|b: Dna| #[trigger] m.stat(j, true, 0).count_of(b) == region_count(reads@, reads@.len() as int, k.0, true, pos as int, b) by {}
            }
            assert forall|k: StatKey| !(k.1 == t && sample_keys(reads@, reads@.len() as int).contains(k.0)) implies
                #[trigger] self.stats.forward_of(k) == old_stats.forward_of(k) && self.stats.reverse_of(k)
                == old_stats.reverse_of(k) by {
                if k.1 == t && exists|j: int| 0 <= j < n && keys[j] == k.0 {
                    let j = choose|j: int| 0 <= j < n && keys[j] == k.0;
                    assert(keys.contains(k.0));
                }
            }
        }
    }

    /// Ends the statistics pass.
    pub fn finish_statistics(&mut self)
        requires
            old(self).stage_view() == SifterStage::Reconciled,
        ensures
            final(self).stage_view() == SifterStage::StatisticsPopulated,
            final(self).wf() == old(self).wf(),
            final(self).same_layout(*old(self)),
            final(self).stats_view() == old(self).stats_view(),
            final(self).failures_view() == old(self).failures_view(),
            forall|u: int, rev: bool| #[trigger] final(self).positions(u, rev) == old(self).positions(u, rev),
    {
        let ghost prev = *self;
        self.stage = SifterStage::StatisticsPopulated;
        proof {
            lemma_frame(prev, *self);
            lemma_frame(*self, prev);
        }
    }

    /// Sequence names of a well-formed sifter are distinct.
    pub proof fn lemma_names_distinct(self)
        requires
            self.wf(),
        ensures
            forall|t: int, u: int|
                0 <= t < self.num_seqs() && 0 <= u < self.num_seqs() && self.name(t) == self.name(u)
                    ==> t == u,
    {
        assert forall|t: int, u: int|
            0 <= t < self.num_seqs() && 0 <= u < self.num_seqs() && self.name(t) == self.name(u) implies t
            == u by {
            if t < u {
                assert(self.name(t) != self.name(u));
            } else if u < t {
                assert(self.name(u) != self.name(t));
            }
        }
    }

    /// The index of the sequence named `name`, if there is one.
    pub fn sequence_index(&self, name: &String) -> (r: Option<usize>)
        requires
            self.wf(),
        ensures
            r matches Some(u) ==> u < self.num_seqs() && self.name(u as int) == name@,
            r is None ==> forall|u: int| 0 <= u < self.num_seqs() ==> #[trigger] self.name(u) != name@,
    {
        let mut u: usize = 0;
        while u < self.jobs.len()
            invariant
                0 <= u <= self.jobs@.len(),
                forall|v: int| 0 <= v < u ==> #[trigger] self.name(v) != name@,
            decreases self.jobs@.len() - u,
        {
            if self.jobs[u].0.eq(name) {
                return Some(u);
            }
            u = u + 1;
        }
        None
    }
}

} // verus!
