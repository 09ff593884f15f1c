use crate::bam::{sample_keys, AlignedRead};
use crate::scan::variable_sites;
use crate::dna::DnaBaseStat;
use crate::sifter::{collected, tally_is, BamSifter};
use crate::stat_map::DnaStatMap;
use crate::stat_table::{StatKey, StatTable};
use crate::tally_list::{lemma_sorted_determined, pos_map, sorted_by_pos};
use vstd::prelude::*;

verus! {

/// Entry `i` of every table of a tally map stands for position
/// `lower + i`, on both strands, whatever has been counted.
pub proof fn lemma_index_aligned(m: DnaStatMap)
    requires
        m.wf(),
    ensures
        forall|s: int, rev: bool, i: int|
            0 <= s < m.keys().len() && 0 <= i < m.width() ==> (#[trigger] m.stat(s, rev, i)).spec_position()
                == m.lower() + i,
{
}

/// The positions held after sweeping blocks in the given order, from
/// `start`: each sweep of block `k` adds `sites[k]`.
pub open spec fn sweep_result(start: Set<i64>, sites: Seq<Set<i64>>, order: Seq<int>) -> Set<i64>
    decreases order.len(),
{
    if order.len() == 0 {
        start
    } else {
        sweep_result(start, sites, order.drop_last()) + sites[order.last()]
    }
}

proof fn lemma_sweep_result_members(start: Set<i64>, sites: Seq<Set<i64>>, order: Seq<int>)
    requires
        forall|i: int| 0 <= i < order.len() ==> 0 <= #[trigger] order[i] < sites.len(),
    ensures
        forall|p: i64|
            #[trigger] sweep_result(start, sites, order).contains(p) <==> (start.contains(p) || exists|i: int|
                0 <= i < order.len() && sites[order[i]].contains(p)),
    decreases order.len(),
{
    if order.len() > 0 {
        let prefix = order.drop_last();
        lemma_sweep_result_members(start, sites, prefix);
        assert(sweep_result(start, sites, order) == sweep_result(start, sites, prefix) + sites[order.last()]);
        assert forall|p: i64|
            #[trigger] sweep_result(start, sites, order).contains(p) <==> (start.contains(p) || exists|i: int|
                0 <= i < order.len() && sites[order[i]].contains(p)) by {
            if exists|i: int| 0 <= i < order.len() && sites[order[i]].contains(p) {
                let i = choose|i: int| 0 <= i < order.len() && sites[order[i]].contains(p);
                if i < order.len() - 1 {
                    assert(prefix[i] == order[i]);
                }
            }
            if exists|i: int| 0 <= i < prefix.len() && sites[prefix[i]].contains(p) {
                let i = choose|i: int| 0 <= i < prefix.len() && sites[prefix[i]].contains(p);
                assert(prefix[i] == order[i]);
            }
            if sites[order.last()].contains(p) {
                assert(sites[order[order.len() - 1]].contains(p));
            }
        }
    }
}

/// Sweeping is free of order and repetition: two sweeps that visit the
/// same blocks, in any order and any number of times each, leave the same
/// positions. In particular sweeping the same data twice gives the same
/// positions as sweeping it once.
pub proof fn lemma_sweep_order_free(start: Set<i64>, sites: Seq<Set<i64>>, o1: Seq<int>, o2: Seq<int>)
    requires
        forall|i: int| 0 <= i < o1.len() ==> 0 <= #[trigger] o1[i] < sites.len(),
        forall|i: int| 0 <= i < o2.len() ==> 0 <= #[trigger] o2[i] < sites.len(),
        o1.to_set() == o2.to_set(),
    ensures
        sweep_result(start, sites, o1) == sweep_result(start, sites, o2),
{
    lemma_sweep_result_members(start, sites, o1);
    lemma_sweep_result_members(start, sites, o2);
    assert forall|p: i64| #[trigger] sweep_result(start, sites, o1).contains(p) <==> sweep_result(start, sites, o2).contains(p) by {
        if exists|i: int| 0 <= i < o1.len() && sites[o1[i]].contains(p) {
            let i = choose|i: int| 0 <= i < o1.len() && sites[o1[i]].contains(p);
            assert(o1.to_set().contains(o1[i]));
            let j = choose|j: int| 0 <= j < o2.len() && o2[j] == o1[i];
            assert(sites[o2[j]].contains(p));
        }
        if exists|i: int| 0 <= i < o2.len() && sites[o2[i]].contains(p) {
            let i = choose|i: int| 0 <= i < o2.len() && sites[o2[i]].contains(p);
            assert(o2.to_set().contains(o2[i]));
            let j = choose|j: int| 0 <= j < o1.len() && o1[j] == o2[i];
            assert(sites[o1[j]].contains(p));
        }
    }
    assert(sweep_result(start, sites, o1) =~= sweep_result(start, sites, o2));
}

/// Sweeping a block a second time from the same reads leaves a sifter's
/// positions as the first sweep left them.
pub proof fn lemma_sweep_idempotent(
    s0: BamSifter,
    s1: BamSifter,
    s2: BamSifter,
    t: int,
    lb: i64,
    ub: i64,
    reads: Seq<AlignedRead>,
)
    requires
        forall|rev: bool|
            #[trigger] s1.positions(t, rev) == s0.positions(t, rev) + variable_sites(
                lb as int,
                ub as int,
                reads,
                rev,
            ),
        forall|rev: bool|
            #[trigger] s2.positions(t, rev) == s1.positions(t, rev) + variable_sites(
                lb as int,
                ub as int,
                reads,
                rev,
            ),
    ensures
        forall|rev: bool| #[trigger] s2.positions(t, rev) == s1.positions(t, rev),
{
    assert forall|rev: bool| #[trigger] s2.positions(t, rev) == s1.positions(t, rev) by {
        assert(s2.positions(t, rev) =~= s1.positions(t, rev));
    }
}

/// Reconciliation is symmetric: once `a0` has been reconciled with `b0`
/// (giving `a1`) and `b0` with `a1` (giving `b1`), the two hold the same
/// sequence names, and the same positions on every sequence, strand by
/// strand.
pub proof fn lemma_reconcile_symmetric(a0: BamSifter, b0: BamSifter, a1: BamSifter, b1: BamSifter)
    requires
        a1.wf(),
        forall|t: int, rev: bool|
            0 <= t < a1.num_seqs() ==> #[trigger] a1.positions(t, rev) == a0.positions_named(
                a1.name(t),
                rev,
            ) + b0.positions_named(a1.name(t), rev),
        forall|u: int, rev: bool|
            0 <= u < b1.num_seqs() ==> #[trigger] b1.positions(u, rev) == b0.positions_named(
                b1.name(u),
                rev,
            ) + a1.positions_named(b1.name(u), rev),
        forall|u: int| 0 <= u < b0.num_seqs() ==> a1.has_name(#[trigger] b0.name(u)),
        forall|t: int| 0 <= t < a1.num_seqs() ==> b1.has_name(#[trigger] a1.name(t)),
        forall|u: int|
            0 <= u < b1.num_seqs() ==> b0.has_name(#[trigger] b1.name(u)) || a1.has_name(b1.name(u)),
    ensures
        forall|t: int| 0 <= t < a1.num_seqs() ==> b1.has_name(#[trigger] a1.name(t)),
        forall|u: int| 0 <= u < b1.num_seqs() ==> a1.has_name(#[trigger] b1.name(u)),
        forall|t: int, u: int, rev: bool|
            0 <= t < a1.num_seqs() && 0 <= u < b1.num_seqs() && a1.name(t) == b1.name(u)
                ==> #[trigger] a1.positions(t, rev) == #[trigger] b1.positions(u, rev),
{
    assert forall|u: int| 0 <= u < b1.num_seqs() implies a1.has_name(#[trigger] b1.name(u)) by {
        if b0.has_name(b1.name(u)) {
            let v = choose|v: int| 0 <= v < b0.num_seqs() && #[trigger] b0.name(v) == b1.name(u);
            assert(a1.has_name(b0.name(v)));
        }
    }
    assert forall|t: int, u: int, rev: bool|
        0 <= t < a1.num_seqs() && 0 <= u < b1.num_seqs() && a1.name(t) == b1.name(u)
            implies #[trigger] a1.positions(t, rev) == #[trigger] b1.positions(u, rev) by {
        a1.lemma_named_own(t);
        assert(a1.positions(t, rev) =~= b1.positions(u, rev));
    }
}

proof fn lemma_tally_unique(
    x: DnaBaseStat,
    y: DnaBaseStat,
    reads: Seq<AlignedRead>,
    key: Option<Seq<char>>,
    rev: bool,
    pos: int,
)
    requires
        tally_is(x, reads, key, rev, pos),
        tally_is(y, reads, key, rev, pos),
    ensures
        x == y,
{
    x.lemma_ext(y);
}

/// One strand of one entry: recording `p` then `q` leaves the same list as
/// recording `q` then `p`, when the values recorded at each agree.
proof fn lemma_two_records_commute(
    l0: Seq<DnaBaseStat>,
    la1: Seq<DnaBaseStat>,
    la2: Seq<DnaBaseStat>,
    lb1: Seq<DnaBaseStat>,
    lb2: Seq<DnaBaseStat>,
    p: i64,
    q: i64,
    in_p: bool,
    in_q: bool,
)
    requires
        p != q,
        sorted_by_pos(la2),
        sorted_by_pos(lb2),
        in_p ==> pos_map(la1) == pos_map(l0).insert(p, pos_map(la1)[p]),
        !in_p ==> la1 == l0,
        in_q ==> pos_map(la2) == pos_map(la1).insert(q, pos_map(la2)[q]),
        !in_q ==> la2 == la1,
        in_q ==> pos_map(lb1) == pos_map(l0).insert(q, pos_map(lb1)[q]),
        !in_q ==> lb1 == l0,
        in_p ==> pos_map(lb2) == pos_map(lb1).insert(p, pos_map(lb2)[p]),
        !in_p ==> lb2 == lb1,
        in_p ==> pos_map(la1)[p] == pos_map(lb2)[p],
        in_q ==> pos_map(la2)[q] == pos_map(lb1)[q],
    ensures
        la2 == lb2,
{
    assert(pos_map(la2) =~= pos_map(lb2));
    lemma_sorted_determined(la2, lb2);
}

/// Collecting statistics is free of order: recording position `p` then
/// position `q` leaves the same table as recording `q` then `p`.
pub proof fn lemma_statistics_order_free(
    t0: StatTable,
    t1: StatTable,
    t2: StatTable,
    u1: StatTable,
    u2: StatTable,
    t: int,
    p: i64,
    rp: Seq<AlignedRead>,
    q: i64,
    rq: Seq<AlignedRead>,
)
    requires
        p != q,
        collected(t0, t1, t, p, rp),
        collected(t1, t2, t, q, rq),
        collected(t0, u1, t, q, rq),
        collected(u1, u2, t, p, rp),
    ensures
        forall|k: StatKey|
            #[trigger] t2.has(k) == u2.has(k) && t2.forward_of(k) == u2.forward_of(k) && t2.reverse_of(k)
                == u2.reverse_of(k),
{
    let kp = sample_keys(rp, rp.len() as int);
    let kq = sample_keys(rq, rq.len() as int);
    assert forall|k: StatKey|
        #[trigger] t2.has(k) == u2.has(k) && t2.forward_of(k) == u2.forward_of(k) && t2.reverse_of(k)
            == u2.reverse_of(k) by {
        let in_p = k.1 == t && kp.contains(k.0);
        let in_q = k.1 == t && kq.contains(k.0);
        t2.lemma_sorted(k);
        u2.lemma_sorted(k);
        if in_p {
            lemma_tally_unique(pos_map(t1.forward_of(k))[p], pos_map(u2.forward_of(k))[p], rp, k.0, false, p as int);
            lemma_tally_unique(pos_map(t1.reverse_of(k))[p], pos_map(u2.reverse_of(k))[p], rp, k.0, true, p as int);
        }
        if in_q {
            lemma_tally_unique(pos_map(t2.forward_of(k))[q], pos_map(u1.forward_of(k))[q], rq, k.0, false, q as int);
            lemma_tally_unique(pos_map(t2.reverse_of(k))[q], pos_map(u1.reverse_of(k))[q], rq, k.0, true, q as int);
        }
        lemma_two_records_commute(
            t0.forward_of(k), t1.forward_of(k), t2.forward_of(k), u1.forward_of(k), u2.forward_of(k),
            p, q, in_p, in_q,
        );
        lemma_two_records_commute(
            t0.reverse_of(k), t1.reverse_of(k), t2.reverse_of(k), u1.reverse_of(k), u2.reverse_of(k),
            p, q, in_p, in_q,
        );
    }
}

/// Collecting the statistics of a position a second time from the same
/// reads leaves the table as it was after the first time.
pub proof fn lemma_statistics_idempotent(
    t0: StatTable,
    t1: StatTable,
    t2: StatTable,
    t: int,
    p: i64,
    reads: Seq<AlignedRead>,
)
    requires
        collected(t0, t1, t, p, reads),
        collected(t1, t2, t, p, reads),
    ensures
        forall|k: StatKey|
            #[trigger] t2.has(k) == t1.has(k) && t2.forward_of(k) == t1.forward_of(k) && t2.reverse_of(k)
                == t1.reverse_of(k),
{
    let kp = sample_keys(reads, reads.len() as int);
    assert forall|k: StatKey|
        #[trigger] t2.has(k) == t1.has(k) && t2.forward_of(k) == t1.forward_of(k) && t2.reverse_of(k)
            == t1.reverse_of(k) by {
        if k.1 == t && kp.contains(k.0) {
            t1.lemma_sorted(k);
            t2.lemma_sorted(k);
            lemma_tally_unique(pos_map(t1.forward_of(k))[p], pos_map(t2.forward_of(k))[p], reads, k.0, false, p as int);
            lemma_tally_unique(pos_map(t1.reverse_of(k))[p], pos_map(t2.reverse_of(k))[p], reads, k.0, true, p as int);
            assert(pos_map(t2.forward_of(k)) =~= pos_map(t1.forward_of(k)));
            assert(pos_map(t2.reverse_of(k)) =~= pos_map(t1.reverse_of(k)));
            lemma_sorted_determined(t2.forward_of(k), t1.forward_of(k));
            lemma_sorted_determined(t2.reverse_of(k), t1.reverse_of(k));
        }
    }
}

} // verus!
