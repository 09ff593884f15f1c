use crate::aggregate::{get_dna_base_freq, reads_fit, tallies};
use crate::bam::{region_count, sample_keys, AlignedRead};
use crate::dna::Dna;
use crate::error::SiftError;
use crate::positions::strictly_sorted;
use crate::rules::{spec_is_variable, BaseFilters};
use crate::stat_map::DnaStatMap;
use vstd::prelude::*;

verus! {

/// How many of the four nucleotides the reads put at `p` for sample `key`
/// on one strand.
pub open spec fn observed(reads: Seq<AlignedRead>, key: Option<Seq<char>>, rev: bool, p: int) -> int {
    let n = reads.len() as int;
    (if region_count(reads, n, key, rev, p, Dna::A) > 0 { 1int } else { 0 }) + (if region_count(
        reads,
        n,
        key,
        rev,
        p,
        Dna::T,
    ) > 0 {
        1int
    } else {
        0
    }) + (if region_count(reads, n, key, rev, p, Dna::G) > 0 { 1int } else { 0 }) + (
    if region_count(reads, n, key, rev, p, Dna::C) > 0 {
        1int
    } else {
        0
    })
}

/// Some sample shows at least two nucleotides at `p` on the strand.
pub open spec fn variable_site(reads: Seq<AlignedRead>, rev: bool, p: int) -> bool {
    let keys = sample_keys(reads, reads.len() as int);
    exists|s: int| 0 <= s < keys.len() && observed(reads, #[trigger] keys[s], rev, p) >= 2
}

/// The variable positions of `[lb, ub)` on one strand.
pub open spec fn variable_sites(lb: int, ub: int, reads: Seq<AlignedRead>, rev: bool) -> Set<i64> {
    Set::new(|p: i64| lb <= p < ub && variable_site(reads, rev, p as int))
}

/// Whether the reads are few enough for exact counts.
pub fn counts_fit(reads: &Vec<AlignedRead>) -> (r: bool)
    ensures
        r == reads_fit(reads@),
{
    if reads.len() > 0xffff_ffff {
        return false;
    }
    let mut k: usize = 0;
    while k < reads.len()
        invariant
            0 <= k <= reads@.len(),
            forall|t: int| 0 <= t < k ==> #[trigger] reads@[t].pairs@.len() <= u32::MAX,
        decreases reads@.len() - k,
    {
        if reads[k].pairs.len() > 0xffff_ffff {
            return false;
        }
        k = k + 1;
    }
    true
}

/// Whether some sample of `m` is variable at entry `i` of one strand.
fn any_variable(m: &DnaStatMap, filters: &BaseFilters, rev: bool, i: usize) -> (r: bool)
    requires
        m.wf(),
        i < m.width(),
    ensures
        r == exists|s: int| 0 <= s < m.keys().len() && spec_is_variable(#[trigger] m.stat(s, rev, i as int)),
{
    let n = m.num_samples();
    let mut s: usize = 0;
    while s < n
        invariant
            m.wf(),
            i < m.width(),
            n == m.keys().len(),
            0 <= s <= n,
            forall|t: int| 0 <= t < s ==> !spec_is_variable(#[trigger] m.stat(t, rev, i as int)),
        decreases n - s,
    {
        if filters.is_variable(&m.stat_at(s, rev, i)) {
            return true;
        }
        s = s + 1;
    }
    false
}

/// The positions of the region of `m` where some sample is variable on
/// one strand, in increasing order.
fn variable_positions(m: &DnaStatMap, filters: &BaseFilters, rev: bool) -> (r: Vec<i64>)
    requires
        m.wf(),
    ensures
        strictly_sorted(r@),
        forall|p: i64|
            r@.contains(p) <==> (m.lower() <= p < m.upper() && exists|s: int|
                0 <= s < m.keys().len() && spec_is_variable(
                    #[trigger] m.stat(s, rev, p - m.lower()),
                )),
{
    let lb = m.lower_bound();
    let ub = m.upper_bound();
    let mut out: Vec<i64> = Vec::new();
    let mut g: i64 = lb;
    while g < ub
        invariant
            m.wf(),
            lb == m.lower(),
            ub == m.upper(),
            lb <= g <= ub,
            strictly_sorted(out@),
            out@.len() > 0 ==> out@.last() < g,
            forall|p: i64|
                out@.contains(p) <==> (lb <= p < g && exists|s: int|
                    0 <= s < m.keys().len() && spec_is_variable(
                        #[trigger] m.stat(s, rev, p - m.lower()),
                    )),
        decreases ub - g,
    {
        let i: usize = (g as i128 - lb as i128) as usize;
        let ghost out0 = out@;
        let hit = any_variable(m, filters, rev, i);
        if hit {
            out.push(g);
        }
        proof {
            assert forall|p: i64|
                out@.contains(p) <==> (lb <= p < g + 1 && exists|s: int|
                    0 <= s < m.keys().len() && spec_is_variable(
                        #[trigger] m.stat(s, rev, p - m.lower()),
                    )) by {
                if out@.contains(p) {
                    let k = choose|k: int| 0 <= k < out@.len() && out@[k] == p;
                    if k < out0.len() {
                        assert(out0.contains(p));
                    }
                }
                if p != g && out0.contains(p) {
                    let k = choose|k: int| 0 <= k < out0.len() && out0[k] == p;
                    assert(out@[k] == p);
                }
                if p == g && hit {
                    assert(out@[out@.len() - 1] == p);
                }
            }
        }
        g = g + 1;
    }
    out
}

/// The variable positions of region `[lb, ub)` on the forward and the
/// reverse strand, each in increasing order.
pub fn scan_block(lb: i64, ub: i64, reads: &Vec<AlignedRead>, filters: &BaseFilters) -> (r: Result<
    (Vec<i64>, Vec<i64>),
    SiftError,
>)
    ensures
        lb >= ub ==> r == Err::<(Vec<i64>, Vec<i64>), SiftError>(SiftError::Region),
        lb < ub && !reads_fit(reads@) ==> r == Err::<(Vec<i64>, Vec<i64>), SiftError>(
            SiftError::Overflow,
        ),
        lb < ub && reads_fit(reads@) ==> r is Ok,
        r matches Ok(p) ==> {
            &&& strictly_sorted(p.0@)
            &&& strictly_sorted(p.1@)
            &&& p.0@.to_set() == variable_sites(lb as int, ub as int, reads@, false)
            &&& p.1@.to_set() == variable_sites(lb as int, ub as int, reads@, true)
        },
{
    if lb >= ub {
        return Err(SiftError::Region);
    }
    if !counts_fit(reads) {
        return Err(SiftError::Overflow);
    }
    let m = match get_dna_base_freq(lb, ub, reads) {
        Ok(m) => m,
        Err(e) => return Err(e),
    };
    let fwd = variable_positions(&m, filters, false);
    let rev = variable_positions(&m, filters, true);
    proof {
        lemma_sites_of_tally(m, lb as int, ub as int, reads@, false);
        lemma_sites_of_tally(m, lb as int, ub as int, reads@, true);
        assert(fwd@.to_set() =~= variable_sites(lb as int, ub as int, reads@, false));
        assert(rev@.to_set() =~= variable_sites(lb as int, ub as int, reads@, true));
    }
    Ok((fwd, rev))
}

proof fn lemma_sites_of_tally(m: DnaStatMap, lb: int, ub: int, reads: Seq<AlignedRead>, rev: bool)
    requires
        tallies(m, lb, ub, reads),
    ensures
        forall|p: i64|
            lb <= p < ub ==> ((exists|s: int|
                0 <= s < m.keys().len() && spec_is_variable(#[trigger] m.stat(s, rev, p - lb)))
                <==> variable_site(reads, rev, p as int)),
{
    let keys = sample_keys(reads, reads.len() as int);
    assert forall|p: i64|
        lb <= p < ub implies ((exists|s: int|
            0 <= s < m.keys().len() && spec_is_variable(#[trigger] m.stat(s, rev, p - lb)))
            <==> variable_site(reads, rev, p as int)) by {
        let i = p - lb;
        assert forall|s: int| 0 <= s < m.keys().len() implies spec_is_variable(
            #[trigger] m.stat(s, rev, i),
        ) == (observed(reads, keys[s], rev, p as int) >= 2) by {
            let st = m.stat(s, rev, i);
            assert(st.count_of(Dna::A) == region_count(reads, reads.len() as int, keys[s], rev, p as int, Dna::A));
            assert(st.count_of(Dna::T) == region_count(reads, reads.len() as int, keys[s], rev, p as int, Dna::T));
            assert(st.count_of(Dna::G) == region_count(reads, reads.len() as int, keys[s], rev, p as int, Dna::G));
            assert(st.count_of(Dna::C) == region_count(reads, reads.len() as int, keys[s], rev, p as int, Dna::C));
        }
        if exists|s: int| 0 <= s < m.keys().len() && spec_is_variable(#[trigger] m.stat(s, rev, i)) {
            let s = choose|s: int| 0 <= s < m.keys().len() && spec_is_variable(#[trigger] m.stat(s, rev, i));
            assert(observed(reads, keys[s], rev, p as int) >= 2);
        }
        if variable_site(reads, rev, p as int) {
            let s = choose|s: int| 0 <= s < keys.len() && observed(reads, #[trigger] keys[s], rev, p as int) >= 2;
            assert(spec_is_variable(m.stat(s, rev, i)));
        }
    }
}

} // verus!
