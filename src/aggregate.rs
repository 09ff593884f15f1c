use crate::bam::{dna_of_base, region_count, sample_keys, AlignedRead};
use crate::dna::Dna;
use crate::error::SiftError;
use crate::stat_map::DnaStatMap;
use vstd::prelude::*;

verus! {

/// Reads and aligned pairs per read stay below this bound, which keeps
/// every count within `u64`.
pub open spec fn reads_fit(reads: Seq<AlignedRead>) -> bool {
    &&& reads.len() <= u32::MAX
    &&& forall|k: int| 0 <= k < reads.len() ==> #[trigger] reads[k].pairs@.len() <= u32::MAX
}

/// `m` is the tally of `reads` over `[lb, ub)`: one sample per identity met
/// in the reads, `Combined` first, and each count as `region_count` gives
/// it.
pub open spec fn tallies(m: DnaStatMap, lb: int, ub: int, reads: Seq<AlignedRead>) -> bool {
    &&& m.wf()
    &&& m.lower() == lb
    &&& m.upper() == ub
    &&& m.keys() == sample_keys(reads, reads.len() as int)
    &&& forall|s: int, rev: bool, i: int, b: Dna|
        0 <= s < m.keys().len() && 0 <= i < m.width() ==> #[trigger] m.stat(s, rev, i).count_of(b)
            == region_count(reads, reads.len() as int, m.keys()[s], rev, lb + i, b)
}

proof fn lemma_hits_bound(r: AlignedRead, pos: int, b: Dna, j: int)
    requires
        0 <= j,
    ensures
        r.hits_upto(pos, b, j) <= j,
    decreases j,
{
    if j > 0 {
        lemma_hits_bound(r, pos, b, j - 1);
    }
}

proof fn lemma_region_count_bound(
    reads: Seq<AlignedRead>,
    n: int,
    key: Option<Seq<char>>,
    rev: bool,
    pos: int,
    b: Dna,
)
    requires
        reads_fit(reads),
        0 <= n <= reads.len(),
    ensures
        region_count(reads, n, key, rev, pos, b) <= n * (u32::MAX as int),
    decreases n,
{
    if n > 0 {
        lemma_region_count_bound(reads, n - 1, key, rev, pos, b);
        lemma_hits_bound(reads[n - 1], pos, b, reads[n - 1].pairs@.len() as int);
        assert(reads[n - 1].pairs@.len() <= u32::MAX);
        assert((n - 1) * (u32::MAX as int) + (u32::MAX as int) == n * (u32::MAX as int))
            by (nonlinear_arith);
    }
}

/// A barcode not among the samples met so far has no counts.
proof fn lemma_unseen_key_zero(
    reads: Seq<AlignedRead>,
    n: int,
    key: Option<Seq<char>>,
    rev: bool,
    pos: int,
    b: Dna,
)
    requires
        key is Some,
        0 <= n <= reads.len(),
        !sample_keys(reads, n).contains(key),
    ensures
        region_count(reads, n, key, rev, pos, b) == 0,
    decreases n,
{
    if n > 0 {
        let prev = sample_keys(reads, n - 1);
        let r = reads[n - 1];
        if prev.contains(key) {
            let t = choose|t: int| 0 <= t < prev.len() && prev[t] == key;
            if !r.is_duplicate && r.barcode is Some && !prev.contains(r.sample_key()) {
                assert(prev.push(r.sample_key())[t] == key);
            }
            assert(sample_keys(reads, n)[t] == key);
        }
        lemma_unseen_key_zero(reads, n - 1, key, rev, pos, b);
        if r.counts_for(key, rev) {
            assert(prev.push(r.sample_key())[prev.len() as int] == key);
            assert(sample_keys(reads, n).contains(key));
        }
    }
}

/// Tallies the reads of region `[lb, ub)`: for every sample met and each
/// strand, one entry per position, counting each aligned base of each read
/// that is not a duplicate. Pairs outside the region or past the end of
/// the read, and letters other than A, T, G, C, are not counted.
pub fn get_dna_base_freq(lb: i64, ub: i64, reads: &Vec<AlignedRead>) -> (r: Result<
    DnaStatMap,
    SiftError,
>)
    requires
        reads_fit(reads@),
    ensures
        r is Err <==> lb >= ub,
        r matches Err(e) ==> e == SiftError::Region,
        r matches Ok(m) ==> tallies(m, lb as int, ub as int, reads@),
{
    if lb >= ub {
        return Err(SiftError::Region);
    }
    let mut ret = DnaStatMap::new(lb, ub);
    let n = reads.len();
    let ghost m32 = u32::MAX as int;
    let mut idx: usize = 0;
    while idx < n
        invariant
            n == reads@.len(),
            reads_fit(reads@),
            m32 == u32::MAX,
            0 <= idx <= n,
            ret.wf(),
            ret.lower() == lb,
            ret.upper() == ub,
            ret.keys() == sample_keys(reads@, idx as int),
            forall|s: int, rv: bool, i: int, b: Dna|
                0 <= s < ret.keys().len() && 0 <= i < ret.width() ==> #[trigger] ret.stat(
                    s,
                    rv,
                    i,
                ).count_of(b) == region_count(reads@, idx as int, ret.keys()[s], rv, lb + i, b),
        decreases n - idx,
    {
        let rec = &reads[idx];
        if !rec.is_duplicate {
            let sample = rec.sample();
            let ghost before = ret;
            let sid = ret.add_sample_slot(&sample);
            proof {
                if rec.barcode is None {
                    assert(before.keys()[0] == sample.key());
                }
                assert(ret.keys() == sample_keys(reads@, idx + 1));
                assert forall|s: int, rv: bool, i: int, b: Dna|
                    0 <= s < ret.keys().len() && 0 <= i < ret.width() implies #[trigger] ret.stat(
                    s,
                    rv,
                    i,
                ).count_of(b) == region_count(reads@, idx as int, ret.keys()[s], rv, lb + i, b) by {
                    if s == before.keys().len() {
                        lemma_unseen_key_zero(reads@, idx as int, ret.keys()[s], rv, lb + i, b);
                    }
                }
            }
            let rev = rec.is_reverse;
            let m = rec.pairs.len();
            let mut j: usize = 0;
            while j < m
                invariant
                    n == reads@.len(),
                    reads_fit(reads@),
                    m32 == u32::MAX,
                    0 <= idx < n,
                    *rec == reads@[idx as int],
                    !rec.is_duplicate,
                    rev == rec.is_reverse,
                    m == rec.pairs@.len(),
                    0 <= j <= m,
                    ret.wf(),
                    ret.lower() == lb,
                    ret.upper() == ub,
                    ret.keys() == sample_keys(reads@, idx + 1),
                    sid < ret.keys().len(),
                    ret.keys()[sid as int] == rec.sample_key(),
                    forall|s: int, rv: bool, i: int, b: Dna|
                        0 <= s < ret.keys().len() && 0 <= i < ret.width() ==> #[trigger] ret.stat(
                            s,
                            rv,
                            i,
                        ).count_of(b) == region_count(
                            reads@,
                            idx as int,
                            ret.keys()[s],
                            rv,
                            lb + i,
                            b,
                        ) + if rec.counts_for(ret.keys()[s], rv) {
                            rec.hits_upto(lb + i, b, j as int)
                        } else {
                            0
                        },
                decreases m - j,
            {
                let (rp, gp) = rec.pairs[j];
                let ghost pre = ret;
                if lb <= gp && gp < ub && 0 <= rp && (rp as u64) < (rec.seq.len() as u64) {
                    let code = rec.seq[rp as usize];
                    match dna_of_base(code) {
                        Some(b0) => {
                            let i0: usize = (gp as i128 - lb as i128) as usize;
                            proof {
                                lemma_region_count_bound(
                                    reads@,
                                    idx as int,
                                    rec.sample_key(),
                                    rev,
                                    gp as int,
                                    b0,
                                );
                                lemma_hits_bound(*rec, gp as int, b0, j as int);
                                assert(rec.counts_for(ret.keys()[sid as int], rev));
                                assert(ret.stat(sid as int, rev, i0 as int).count_of(b0)
                                    == region_count(
                                    reads@,
                                    idx as int,
                                    rec.sample_key(),
                                    rev,
                                    gp as int,
                                    b0,
                                ) + rec.hits_upto(gp as int, b0, j as int));
                                assert(idx * m32 + j < u64::MAX) by (nonlinear_arith)
                                    requires
                                        idx < m32,
                                        j < m32,
                                        m32 == u32::MAX,
                                ;
                            }
                            ret.add_at(sid, rev, i0, b0);
                            proof {
                                assert forall|s: int, rv: bool, i: int, b: Dna|
                                    0 <= s < ret.keys().len() && 0 <= i
                                        < ret.width() implies #[trigger] ret.stat(
                                    s,
                                    rv,
                                    i,
                                ).count_of(b) == region_count(
                                    reads@,
                                    idx as int,
                                    ret.keys()[s],
                                    rv,
                                    lb + i,
                                    b,
                                ) + if rec.counts_for(ret.keys()[s], rv) {
                                    rec.hits_upto(lb + i, b, j + 1)
                                } else {
                                    0
                                } by {
                                    assert(pre.stat(s, rv, i).count_of(b) == region_count(
                                        reads@,
                                        idx as int,
                                        pre.keys()[s],
                                        rv,
                                        lb + i,
                                        b,
                                    ) + if rec.counts_for(pre.keys()[s], rv) {
                                        rec.hits_upto(lb + i, b, j as int)
                                    } else {
                                        0
                                    });
                                    if rec.counts_for(ret.keys()[s], rv) {
                                        assert(s == sid);
                                    }
                                }
                            }
                        },
                        None => {
                            proof {
                                assert forall|s: int, rv: bool, i: int, b: Dna|
                                    0 <= s < ret.keys().len() && 0 <= i
                                        < ret.width() implies #[trigger] ret.stat(
                                    s,
                                    rv,
                                    i,
                                ).count_of(b) == region_count(
                                    reads@,
                                    idx as int,
                                    ret.keys()[s],
                                    rv,
                                    lb + i,
                                    b,
                                ) + if rec.counts_for(ret.keys()[s], rv) {
                                    rec.hits_upto(lb + i, b, j + 1)
                                } else {
                                    0
                                } by {
                                    assert(!rec.pair_hits(j as int, lb + i, b));
                                }
                            }
                        },
                    }
                } else {
                    proof {
                        assert forall|s: int, rv: bool, i: int, b: Dna|
                            0 <= s < ret.keys().len() && 0 <= i < ret.width() implies #[trigger] ret.stat(
                            s,
                            rv,
                            i,
                        ).count_of(b) == region_count(
                            reads@,
                            idx as int,
                            ret.keys()[s],
                            rv,
                            lb + i,
                            b,
                        ) + if rec.counts_for(ret.keys()[s], rv) {
                            rec.hits_upto(lb + i, b, j + 1)
                        } else {
                            0
                        } by {
                            assert(!rec.pair_hits(j as int, lb + i, b));
                        }
                    }
                }
                j = j + 1;
            }
        } else {
            proof {
                assert(sample_keys(reads@, idx + 1) == sample_keys(reads@, idx as int));
            }
        }
        idx = idx + 1;
    }
    Ok(ret)
}

} // verus!
