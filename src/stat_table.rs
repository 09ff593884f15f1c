use crate::bam::BamSample;
use crate::dna::DnaBaseStat;
use crate::tally_list::{pos_map, sorted_by_pos, upsert_tally};
use vstd::prelude::*;

verus! {

/// The final statistics of one sample on one reference sequence: the
/// tallies of the candidate positions, in increasing order of position.
pub struct SampleStats {
    sample: BamSample,
    tid: usize,
    forward: Vec<DnaBaseStat>,
    reverse: Vec<DnaBaseStat>,
}

/// Statistics keyed by sample and reference sequence index.
pub struct StatTable {
    entries: Vec<SampleStats>,
}

/// The key of an entry: the sample's identity and the sequence index.
pub type StatKey = (Option<Seq<char>>, int);

impl SampleStats {
    pub closed spec fn key(self) -> StatKey {
        (self.sample.key(), self.tid as int)
    }

    pub closed spec fn forward_view(self) -> Seq<DnaBaseStat> {
        self.forward@
    }

    pub closed spec fn reverse_view(self) -> Seq<DnaBaseStat> {
        self.reverse@
    }

    pub fn sample(&self) -> (r: &BamSample)
        ensures
            (r.key(), self.key().1) == self.key(),
    {
        &self.sample
    }

    pub fn tid(&self) -> (r: usize)
        ensures
            r == self.key().1,
    {
        self.tid
    }

    pub fn forward(&self) -> (r: &Vec<DnaBaseStat>)
        ensures
            r@ == self.forward_view(),
    {
        &self.forward
    }

    pub fn reverse(&self) -> (r: &Vec<DnaBaseStat>)
        ensures
            r@ == self.reverse_view(),
    {
        &self.reverse
    }
}

impl StatTable {
    pub closed spec fn entries_view(self) -> Seq<SampleStats> {
        self.entries@
    }

    /// Keys are distinct, and each list is in increasing order of position.
    pub open spec fn wf(self) -> bool {
        &&& forall|e: int, f: int|
            0 <= e < f < self.entries_view().len() ==> #[trigger] self.entries_view()[e].key()
                != #[trigger] self.entries_view()[f].key()
        &&& forall|e: int|
            0 <= e < self.entries_view().len() ==> sorted_by_pos(
                #[trigger] self.entries_view()[e].forward_view(),
            ) && sorted_by_pos(self.entries_view()[e].reverse_view())
    }

    /// Every list of a well-formed table is sorted by position.
    pub proof fn lemma_sorted(self, k: StatKey)
        requires
            self.wf(),
        ensures
            sorted_by_pos(self.forward_of(k)),
            sorted_by_pos(self.reverse_of(k)),
    {
        if self.has(k) {
            let e = self.find(k);
            assert(sorted_by_pos(self.entries_view()[e].forward_view()));
        }
    }

    pub open spec fn has(self, k: StatKey) -> bool {
        exists|e: int| 0 <= e < self.entries_view().len() && #[trigger] self.entries_view()[e].key() == k
    }

    pub open spec fn find(self, k: StatKey) -> int {
        choose|e: int| 0 <= e < self.entries_view().len() && #[trigger] self.entries_view()[e].key() == k
    }

    /// The forward tallies held for key `k`, empty when there are none.
    pub open spec fn forward_of(self, k: StatKey) -> Seq<DnaBaseStat> {
        if self.has(k) {
            self.entries_view()[self.find(k)].forward_view()
        } else {
            Seq::empty()
        }
    }

    /// The reverse tallies held for key `k`, empty when there are none.
    pub open spec fn reverse_of(self, k: StatKey) -> Seq<DnaBaseStat> {
        if self.has(k) {
            self.entries_view()[self.find(k)].reverse_view()
        } else {
            Seq::empty()
        }
    }

    pub fn new() -> (r: Self)
        ensures
            r.wf(),
            r.entries_view().len() == 0,
            forall|k: StatKey| !r.has(k),
    {
        StatTable { entries: Vec::new() }
    }

    pub fn entries(&self) -> (r: &Vec<SampleStats>)
        ensures
            r@ == self.entries_view(),
    {
        &self.entries
    }

    fn find_exec(&self, sample: &BamSample, tid: usize) -> (r: Option<usize>)
        ensures
            r is None <==> !self.has((sample.key(), tid as int)),
            r matches Some(e) ==> e < self.entries_view().len() && self.entries_view()[e as int].key()
                == (sample.key(), tid as int),
    {
        let mut e: usize = 0;
        while e < self.entries.len()
            invariant
                0 <= e <= self.entries@.len(),
                forall|t: int| 0 <= t < e ==> #[trigger] self.entries@[t].key() != (sample.key(), tid as int),
            decreases self.entries@.len() - e,
        {
            if self.entries[e].tid == tid && self.entries[e].sample == *sample {
                proof {
                    assert(self.entries_view()[e as int].key() == (sample.key(), tid as int));
                }
                return Some(e);
            }
            e = e + 1;
        }
        None
    }

    /// The entry for `sample` on sequence `tid`, if any.
    pub fn get(&self, sample: &BamSample, tid: usize) -> (r: Option<&SampleStats>)
        requires
            self.wf(),
        ensures
            r is Some <==> self.has((sample.key(), tid as int)),
            r matches Some(s) ==> s.forward_view() == self.forward_of((sample.key(), tid as int))
                && s.reverse_view() == self.reverse_of((sample.key(), tid as int)),
    {
        match self.find_exec(sample, tid) {
            Some(e) => Some(&self.entries[e]),
            None => None,
        }
    }

    /// Records one forward and one reverse tally of the same position for
    /// `sample` on sequence `tid`: each goes to its place in position
    /// order, replacing an earlier tally of that position. The entry is
    /// created when there is none.
    pub fn record(&mut self, sample: &BamSample, tid: usize, fwd: DnaBaseStat, rev: DnaBaseStat)
        requires
            old(self).wf(),
        ensures
            final(self).wf(),
            forall|k: StatKey| #[trigger] final(self).has(k) <==> old(self).has(k) || k == (sample.key(), tid as int),
            pos_map(final(self).forward_of((sample.key(), tid as int))) == pos_map(
                old(self).forward_of((sample.key(), tid as int)),
            ).insert(fwd.spec_position(), fwd),
            pos_map(final(self).reverse_of((sample.key(), tid as int))) == pos_map(
                old(self).reverse_of((sample.key(), tid as int)),
            ).insert(rev.spec_position(), rev),
            forall|k: StatKey|
                k != (sample.key(), tid as int) ==> #[trigger] final(self).forward_of(k) == old(
                    self,
                ).forward_of(k) && final(self).reverse_of(k) == old(self).reverse_of(k),
    {
        let ghost prev = *self;
        let ghost key = (sample.key(), tid as int);
        match self.find_exec(sample, tid) {
            Some(e) => {
                proof {
                    assert(sorted_by_pos(self.entries_view()[e as int].forward_view()));
                    assert(sorted_by_pos(self.entries_view()[e as int].reverse_view()));
                }
                upsert_tally(&mut self.entries[e].forward, fwd);
                upsert_tally(&mut self.entries[e].reverse, rev);
                proof {
                    assert forall|f: int| 0 <= f < self.entries@.len() implies #[trigger] self.entries@[f].key() == prev.entries@[f].key() by {}
                    assert(self.entries_view()[e as int].key() == key);
                    assert(prev.entries_view()[e as int].key() == key);
                    assert(self.find(key) == e as int);
                    assert(prev.find(key) == e as int);
                    assert forall|f: int|
                        0 <= f < self.entries_view().len() implies sorted_by_pos(
                        #[trigger] self.entries_view()[f].forward_view(),
                    ) && sorted_by_pos(self.entries_view()[f].reverse_view()) by {
                        if f != e {
                            assert(self.entries_view()[f] == prev.entries_view()[f]);
                        }
                    }
                    assert forall|k: StatKey| #[trigger] self.has(k) <==> prev.has(k) || k == key by {
                        if self.has(k) {
                            let f = self.find(k);
                            assert(prev.entries_view()[f].key() == k);
                        }
                        if prev.has(k) {
                            let f = prev.find(k);
                            assert(self.entries_view()[f].key() == k);
                        }
                    }
                    assert forall|k: StatKey| k != key implies #[trigger] self.forward_of(k) == prev.forward_of(k) && self.reverse_of(k) == prev.reverse_of(k) by {
                        if prev.has(k) {
                            let f = prev.find(k);
                            assert(self.entries_view()[f].key() == k);
                            assert(self.find(k) == f);
                        }
                    }
                }
            },
            None => {
                let mut fv: Vec<DnaBaseStat> = Vec::new();
                let mut rv: Vec<DnaBaseStat> = Vec::new();
                upsert_tally(&mut fv, fwd);
                upsert_tally(&mut rv, rev);
                self.entries.push(SampleStats { sample: sample.clone(), tid, forward: fv, reverse: rv });
                proof {
                    let n = prev.entries@.len() as int;
                    assert(self.entries_view()[n].key() == key);
                    assert(self.find(key) == n);
                    assert(prev.forward_of(key) == Seq::<DnaBaseStat>::empty());
                    assert(prev.reverse_of(key) == Seq::<DnaBaseStat>::empty());
                    assert forall|f: int|
                        0 <= f < self.entries_view().len() implies sorted_by_pos(
                        #[trigger] self.entries_view()[f].forward_view(),
                    ) && sorted_by_pos(self.entries_view()[f].reverse_view()) by {
                        if f < n {
                            assert(self.entries_view()[f] == prev.entries_view()[f]);
                        }
                    }
                    assert forall|k: StatKey| #[trigger] self.has(k) <==> prev.has(k) || k == key by {
                        if self.has(k) && k != key {
                            let f = self.find(k);
                            assert(prev.entries_view()[f].key() == k);
                        }
                        if prev.has(k) {
                            let f = prev.find(k);
                            assert(self.entries_view()[f].key() == k);
                        }
                    }
                    assert forall|k: StatKey| k != key implies #[trigger] self.forward_of(k) == prev.forward_of(k) && self.reverse_of(k) == prev.reverse_of(k) by {
                        if prev.has(k) {
                            let f = prev.find(k);
                            assert(self.entries_view()[f].key() == k);
                            assert(self.find(k) == f);
                        }
                    }
                }
            },
        }
    }
}

} // verus!
