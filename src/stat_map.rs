use crate::bam::BamSample;
use crate::dna::{Dna, DnaBaseStat};
use vstd::prelude::*;

verus! {

/// Per-sample, per-strand tallies over one region `[lower, upper)`.
/// Element `i` of each table holds position `lower + i`.
pub struct DnaStatMap {
    lb: i64,
    ub: i64,
    id2samp: Vec<BamSample>,
    forward: Vec<Vec<DnaBaseStat>>,
    reverse: Vec<Vec<DnaBaseStat>>,
}

impl DnaStatMap {
    pub closed spec fn lower(self) -> int {
        self.lb as int
    }

    pub closed spec fn upper(self) -> int {
        self.ub as int
    }

    /// The identities of the samples, in order of insertion.
    pub closed spec fn keys(self) -> Seq<Option<Seq<char>>> {
        self.id2samp@.map_values(|s: BamSample| s.key())
    }

    /// The number of entries in the table of sample `s` on one strand.
    pub closed spec fn table_len(self, s: int, reverse: bool) -> int {
        if reverse {
            self.reverse@[s]@.len() as int
        } else {
            self.forward@[s]@.len() as int
        }
    }

    /// Entry `i` of the table of sample `s` on one strand.
    pub closed spec fn stat(self, s: int, reverse: bool, i: int) -> DnaBaseStat {
        if reverse {
            self.reverse@[s]@[i]
        } else {
            self.forward@[s]@[i]
        }
    }

    pub open spec fn width(self) -> int {
        self.upper() - self.lower()
    }

    pub closed spec fn shape(self) -> bool {
        &&& self.forward@.len() == self.id2samp@.len()
        &&& self.reverse@.len() == self.id2samp@.len()
    }

    /// Samples are distinct, `Combined` comes first, and every table covers
    /// the region with entry `i` at position `lower + i`.
    pub open spec fn wf(self) -> bool {
        &&& self.shape()
        &&& self.lower() < self.upper()
        &&& self.width() <= usize::MAX
        &&& self.keys().len() >= 1
        &&& self.keys()[0] == None::<Seq<char>>
        &&& forall|s: int, t: int|
            0 <= s < t < self.keys().len() ==> self.keys()[s] != self.keys()[t]
        &&& forall|s: int, rev: bool|
            0 <= s < self.keys().len() ==> #[trigger] self.table_len(s, rev) == self.width()
        &&& forall|s: int, rev: bool, i: int|
            0 <= s < self.keys().len() && 0 <= i < self.width() ==> (#[trigger] self.stat(
                s,
                rev,
                i,
            )).spec_position() == self.lower() + i
    }

    /// The index of the sample with identity `k`.
    pub open spec fn index_of(self, k: Option<Seq<char>>) -> int {
        choose|s: int| 0 <= s < self.keys().len() && self.keys()[s] == k
    }

    /// A map over `[lb, ub)` holding the `Combined` sample with all counts
    /// zero.
    pub fn new(lb: i64, ub: i64) -> (r: Self)
        requires
            lb < ub,
        ensures
            r.wf(),
            r.lower() == lb,
            r.upper() == ub,
            r.keys() == seq![None::<Seq<char>>],
            forall|rev: bool, i: int, b: Dna|
                0 <= i < r.width() ==> #[trigger] r.stat(0, rev, i).count_of(b) == 0,
    {
        let mut r = DnaStatMap {
            lb,
            ub,
            id2samp: Vec::new(),
            forward: Vec::new(),
            reverse: Vec::new(),
        };
        r.add_sample_slot(&BamSample::Combined);
        proof {
            assert(r.keys() =~= seq![None::<Seq<char>>]);
        }
        r
    }

    pub fn lower_bound(&self) -> (r: i64)
        ensures
            r == self.lower(),
    {
        self.lb
    }

    pub fn upper_bound(&self) -> (r: i64)
        ensures
            r == self.upper(),
    {
        self.ub
    }

    /// The position of sample `key`, if present.
    pub fn sample_index(&self, key: &BamSample) -> (r: Option<usize>)
        requires
            self.shape(),
        ensures
            r is None <==> !self.keys().contains(key.key()),
            r matches Some(s) ==> s < self.keys().len() && self.keys()[s as int] == key.key(),
    {
        let mut s: usize = 0;
        while s < self.id2samp.len()
            invariant
                0 <= s <= self.id2samp@.len(),
                self.keys().len() == self.id2samp@.len(),
                forall|t: int| 0 <= t < s ==> self.keys()[t] != key.key(),
            decreases self.id2samp@.len() - s,
        {
            if self.id2samp[s] == *key {
                proof {
                    assert(self.keys()[s as int] == key.key());
                }
                return Some(s);
            }
            s = s + 1;
        }
        None
    }

    pub fn has_sample(&self, key: &BamSample) -> (r: bool)
        requires
            self.shape(),
        ensures
            r == self.keys().contains(key.key()),
    {
        self.sample_index(key).is_some()
    }

    /// The samples, in order of insertion.
    pub fn samples(&self) -> (r: &Vec<BamSample>)
        ensures
            r@.map_values(|s: BamSample| s.key()) == self.keys(),
    {
        &self.id2samp
    }

    /// Adds sample `key` with zero counts over the whole region, unless it
    /// is already present.
    pub fn new_sample(&mut self, key: &BamSample)
        requires
            old(self).wf(),
        ensures
            final(self).wf(),
            final(self).lower() == old(self).lower(),
            final(self).upper() == old(self).upper(),
            old(self).keys().contains(key.key()) ==> final(self).keys() == old(self).keys(),
            !old(self).keys().contains(key.key()) ==> final(self).keys() == old(self).keys().push(
                key.key(),
            ),
            forall|s: int, rev: bool, i: int|
                0 <= s < old(self).keys().len() && 0 <= i < old(self).width() ==> #[trigger] final(self).stat(s, rev, i) == old(self).stat(s, rev, i),
            forall|rev: bool, i: int, b: Dna|
                0 <= i < old(self).width() && !old(self).keys().contains(key.key())
                    ==> #[trigger] final(self).stat(old(self).keys().len() as int, rev, i).count_of(b)
                    == 0,
    {
        self.add_sample_slot(key);
    }

    /// Adds sample `key` as `new_sample` does, also while the map is being
    /// built, and returns its index.
    pub(crate) fn add_sample_slot(&mut self, key: &BamSample) -> (r: usize)
        requires
            old(self).shape(),
            old(self).lower() < old(self).upper(),
            forall|s: int, t: int|
                0 <= s < t < old(self).keys().len() ==> old(self).keys()[s] != old(self).keys()[t],
            forall|s: int, rev: bool|
                0 <= s < old(self).keys().len() ==> #[trigger] old(self).table_len(s, rev)
                    == old(self).width(),
            forall|s: int, rev: bool, i: int|
                0 <= s < old(self).keys().len() && 0 <= i < old(self).width() ==> (
                #[trigger] old(self).stat(s, rev, i)).spec_position() == old(self).lower() + i,
            old(self).keys().len() >= 1 ==> old(self).keys()[0] == None::<Seq<char>>,
            old(self).keys().len() == 0 ==> key.key() == None::<Seq<char>>,
            old(self).keys().len() >= 1 ==> old(self).width() <= usize::MAX,
        ensures
            final(self).wf(),
            final(self).lower() == old(self).lower(),
            final(self).upper() == old(self).upper(),
            old(self).keys().contains(key.key()) ==> final(self).keys() == old(self).keys(),
            !old(self).keys().contains(key.key()) ==> final(self).keys() == old(self).keys().push(
                key.key(),
            ),
            forall|s: int, rev: bool, i: int|
                0 <= s < old(self).keys().len() && 0 <= i < old(self).width() ==> #[trigger] final(self).stat(s, rev, i) == old(self).stat(s, rev, i),
            forall|rev: bool, i: int, b: Dna|
                0 <= i < old(self).width() && !old(self).keys().contains(key.key())
                    ==> #[trigger] final(self).stat(old(self).keys().len() as int, rev, i).count_of(b)
                    == 0,
            r < final(self).keys().len(),
            final(self).keys()[r as int] == key.key(),
    {
        match self.sample_index(key) {
            Some(s) => {
                return s;
            },
            None => {},
        }
        let ghost prev = *self;
        let mut fwd: Vec<DnaBaseStat> = Vec::new();
        let mut rev: Vec<DnaBaseStat> = Vec::new();
        let mut g: i64 = self.lb;
        while g < self.ub
            invariant
                prev == *self,
                self.lb <= g <= self.ub,
                fwd@.len() == g - self.lb,
                rev@.len() == g - self.lb,
                forall|i: int|
                    0 <= i < fwd@.len() ==> #[trigger] fwd@[i].spec_position() == self.lb + i
                        && fwd@[i].total() == 0 && forall|b: Dna| fwd@[i].count_of(b) == 0,
                forall|i: int|
                    0 <= i < rev@.len() ==> #[trigger] rev@[i].spec_position() == self.lb + i
                        && rev@[i].total() == 0 && forall|b: Dna| rev@[i].count_of(b) == 0,
            decreases self.ub - g,
        {
            fwd.push(DnaBaseStat::new(g));
            rev.push(DnaBaseStat::new(g));
            g = g + 1;
        }
        proof {
            assert(fwd.len() == fwd@.len());
        }
        self.id2samp.push(key.clone());
        self.forward.push(fwd);
        self.reverse.push(rev);
        proof {
            assert(self.keys() =~= prev.keys().push(key.key()));
            let n = prev.keys().len() as int;
            assert forall|s: int, rev: bool, i: int|
                0 <= s < n && 0 <= i < prev.width() implies #[trigger] self.stat(s, rev, i)
                == prev.stat(s, rev, i) by {}
            assert forall|s: int, rev: bool| 0 <= s < self.keys().len() implies #[trigger] self.table_len(
                s,
                rev,
            ) == self.width() by {
                if s < n {
                    assert(prev.table_len(s, rev) == prev.width());
                }
            }
            assert forall|s: int, rev: bool, i: int|
                0 <= s < self.keys().len() && 0 <= i < self.width() implies (#[trigger] self.stat(
                s,
                rev,
                i,
            )).spec_position() == self.lower() + i by {
                if s < n {
                    assert(prev.stat(s, rev, i).spec_position() == prev.lower() + i);
                }
            }
            assert forall|s: int, t: int|
                0 <= s < t < self.keys().len() implies self.keys()[s] != self.keys()[t] by {
                if t == n {
                    assert(prev.keys()[s] == self.keys()[s]);
                }
            }
        }
        self.id2samp.len() - 1
    }

    /// The forward-strand table of sample `key`, if present.
    pub fn get_forward(&self, key: &BamSample) -> (r: Option<&Vec<DnaBaseStat>>)
        requires
            self.wf(),
        ensures
            r is Some <==> self.keys().contains(key.key()),
            r matches Some(v) ==> v@.len() == self.width() && forall|i: int|
                0 <= i < self.width() ==> v@[i] == self.stat(self.index_of(key.key()), false, i),
    {
        match self.sample_index(key) {
            Some(s) => {
                proof {
                    assert(self.table_len(s as int, false) == self.width());
                }
                Some(&self.forward[s])
            },
            None => None,
        }
    }

    /// The reverse-strand table of sample `key`, if present.
    pub fn get_reverse(&self, key: &BamSample) -> (r: Option<&Vec<DnaBaseStat>>)
        requires
            self.wf(),
        ensures
            r is Some <==> self.keys().contains(key.key()),
            r matches Some(v) ==> v@.len() == self.width() && forall|i: int|
                0 <= i < self.width() ==> v@[i] == self.stat(self.index_of(key.key()), true, i),
    {
        match self.sample_index(key) {
            Some(s) => {
                proof {
                    assert(self.table_len(s as int, true) == self.width());
                }
                Some(&self.reverse[s])
            },
            None => None,
        }
    }

    /// The number of samples.
    pub fn num_samples(&self) -> (r: usize)
        requires
            self.shape(),
        ensures
            r == self.keys().len(),
    {
        self.id2samp.len()
    }

    /// Entry `i` of the table of sample `s` on one strand.
    pub fn stat_at(&self, s: usize, reverse: bool, i: usize) -> (r: DnaBaseStat)
        requires
            self.wf(),
            s < self.keys().len(),
            i < self.width(),
        ensures
            r == self.stat(s as int, reverse, i as int),
    {
        proof {
            assert(self.table_len(s as int, reverse) == self.width());
        }
        if reverse {
            self.reverse[s][i]
        } else {
            self.forward[s][i]
        }
    }

    /// Adds one to the count of `b` at entry `i` of sample `s` on one strand.
    pub(crate) fn add_at(&mut self, s: usize, reverse: bool, i: usize, b: Dna)
        requires
            old(self).wf(),
            s < old(self).keys().len(),
            i < old(self).width(),
            old(self).stat(s as int, reverse, i as int).count_of(b) < u64::MAX,
        ensures
            final(self).wf(),
            final(self).lower() == old(self).lower(),
            final(self).upper() == old(self).upper(),
            final(self).keys() == old(self).keys(),
            final(self).stat(s as int, reverse, i as int).count_of(b) == old(self).stat(
                s as int,
                reverse,
                i as int,
            ).count_of(b) + 1,
            forall|x: Dna|
                x != b ==> final(self).stat(s as int, reverse, i as int).count_of(x) == old(self).stat(s as int, reverse, i as int).count_of(x),
            forall|t: int, rev: bool, k: int|
                0 <= t < old(self).keys().len() && 0 <= k < old(self).width() && (t != s || rev
                    != reverse || k != i) ==> #[trigger] final(self).stat(t, rev, k) == old(self).stat(t, rev, k),
    {
        proof {
            assert(self.table_len(s as int, reverse) == self.width());
        }
        let ghost prev = *self;
        if reverse {
            self.reverse[s][i].add(b, 1);
        } else {
            self.forward[s][i].add(b, 1);
        }
        proof {
            assert(self.keys() =~= prev.keys());
            assert forall|t: int, rev: bool|
                0 <= t < self.keys().len() implies #[trigger] self.table_len(t, rev)
                == self.width() by {
                assert(prev.table_len(t, rev) == prev.width());
            }
            assert forall|t: int, rev: bool, k: int|
                0 <= t < self.keys().len() && 0 <= k < self.width() implies (#[trigger] self.stat(
                t,
                rev,
                k,
            )).spec_position() == self.lower() + k by {
                assert(prev.stat(t, rev, k).spec_position() == prev.lower() + k);
            }
        }
    }
}

} // verus!
