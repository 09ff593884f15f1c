use crate::dna::DnaBaseStat;
use vstd::prelude::*;

verus! {

/// Positions strictly increase along the list.
pub open spec fn sorted_by_pos(s: Seq<DnaBaseStat>) -> bool {
    forall|i: int, j: int| 0 <= i < j < s.len() ==> s[i].spec_position() < s[j].spec_position()
}

/// Some tally of the list stands for position `p`.
pub open spec fn has_pos(s: Seq<DnaBaseStat>, p: i64) -> bool {
    exists|i: int| 0 <= i < s.len() && #[trigger] s[i].spec_position() == p
}

/// The tallies of a list, by position.
pub open spec fn pos_map(s: Seq<DnaBaseStat>) -> Map<i64, DnaBaseStat> {
    Map::new(
        |p: i64| has_pos(s, p),
        |p: i64| s[choose|i: int| 0 <= i < s.len() && #[trigger] s[i].spec_position() == p],
    )
}

/// In a sorted list, entry `i` is the tally of its own position.
pub proof fn lemma_pos_map_at(s: Seq<DnaBaseStat>, i: int)
    requires
        sorted_by_pos(s),
        0 <= i < s.len(),
    ensures
        pos_map(s).contains_key(s[i].spec_position()),
        pos_map(s)[s[i].spec_position()] == s[i],
{
    let p = s[i].spec_position();
    assert(has_pos(s, p));
    let j = choose|j: int| 0 <= j < s.len() && #[trigger] s[j].spec_position() == p;
    if j < i {
        assert(s[j].spec_position() < s[i].spec_position());
    } else if i < j {
        assert(s[i].spec_position() < s[j].spec_position());
    }
}

/// A sorted list is determined by its tallies by position: two sorted
/// lists that hold the same tallies are equal, whatever order the tallies
/// were put in.
pub proof fn lemma_sorted_determined(a: Seq<DnaBaseStat>, b: Seq<DnaBaseStat>)
    requires
        sorted_by_pos(a),
        sorted_by_pos(b),
        pos_map(a) == pos_map(b),
    ensures
        a == b,
    decreases a.len(),
{
    if a.len() == 0 {
        if b.len() > 0 {
            lemma_pos_map_at(b, 0);
            let j = choose|j: int| 0 <= j < a.len() && #[trigger] a[j].spec_position() == b[0].spec_position();
        }
        assert(a =~= b);
    } else {
        if b.len() == 0 {
            lemma_pos_map_at(a, 0);
            let j = choose|j: int| 0 <= j < b.len() && #[trigger] b[j].spec_position() == a[0].spec_position();
        }
        lemma_pos_map_at(a, 0);
        lemma_pos_map_at(b, 0);
        let p = a[0].spec_position();
        let q = b[0].spec_position();
        let j = choose|j: int| 0 <= j < b.len() && #[trigger] b[j].spec_position() == p;
        if j > 0 {
            assert(q < b[j].spec_position());
        }
        let k = choose|k: int| 0 <= k < a.len() && #[trigger] a[k].spec_position() == q;
        if k > 0 {
            assert(p < a[k].spec_position());
        }
        assert(p == q);
        assert(a[0] == b[0]);
        let a1 = a.drop_first();
        let b1 = b.drop_first();
        lemma_map_drop_first(a);
        lemma_map_drop_first(b);
        assert(pos_map(a1) =~= pos_map(b1));
        lemma_sorted_determined(a1, b1);
        assert(a =~= seq![a[0]] + a1);
        assert(b =~= seq![b[0]] + b1);
    }
}

proof fn lemma_map_drop_first(s: Seq<DnaBaseStat>)
    requires
        sorted_by_pos(s),
        s.len() > 0,
    ensures
        sorted_by_pos(s.drop_first()),
        pos_map(s.drop_first()) == pos_map(s).remove(s[0].spec_position()),
{
    let t = s.drop_first();
    let p = s[0].spec_position();
    assert forall|q: i64| #[trigger] pos_map(t).contains_key(q) <==> pos_map(s).remove(p).contains_key(q) by {
        if has_pos(t, q) {
            let i = choose|i: int| 0 <= i < t.len() && #[trigger] t[i].spec_position() == q;
            assert(s[i + 1].spec_position() == q);
            assert(p < s[i + 1].spec_position());
        }
        if has_pos(s, q) && q != p {
            let i = choose|i: int| 0 <= i < s.len() && #[trigger] s[i].spec_position() == q;
            assert(i > 0);
            assert(t[i - 1].spec_position() == q);
        }
    }
    assert forall|q: i64| #[trigger] pos_map(t).contains_key(q) implies pos_map(t)[q] == pos_map(s).remove(p)[q] by {
        let i = choose|i: int| 0 <= i < t.len() && #[trigger] t[i].spec_position() == q;
        lemma_pos_map_at(t, i);
        lemma_pos_map_at(s, i + 1);
    }
    assert(pos_map(t) =~= pos_map(s).remove(p));
}

/// Puts tally `x` into a sorted list at its place, replacing the tally of
/// the same position if there is one.
pub fn upsert_tally(v: &mut Vec<DnaBaseStat>, x: DnaBaseStat)
    requires
        sorted_by_pos(old(v)@),
    ensures
        sorted_by_pos(final(v)@),
        pos_map(final(v)@) == pos_map(old(v)@).insert(x.spec_position(), x),
{
    let ghost s = v@;
    let p = x.position();
    let mut q: usize = 0;
    while q < v.len() && v[q].position() < p
        invariant
            v@ == s,
            sorted_by_pos(s),
            0 <= q <= s.len(),
            forall|i: int| 0 <= i < q ==> #[trigger] s[i].spec_position() < p,
        decreases s.len() - q,
    {
        q = q + 1;
    }
    let replace = q < v.len() && v[q].position() == p;
    if replace {
        v.set(q, x);
    } else {
        v.insert(q, x);
    }
    proof {
        let n = v@;
        let qi = q as int;
        if replace {
            assert(n =~= s.update(qi, x));
        } else {
            assert(n =~= s.insert(qi, x));
            assert forall|i: int| qi <= i < s.len() implies #[trigger] s[i].spec_position() > p by {
                if i > qi {
                    assert(s[qi].spec_position() < s[i].spec_position());
                }
            }
        }
        assert(sorted_by_pos(n)) by {
            assert forall|i: int, j: int| 0 <= i < j < n.len() implies n[i].spec_position() < n[j].spec_position() by {
                if !replace {
                    if j < qi {
                    } else if j == qi {
                    } else if i < qi {
                        assert(n[j] == s[j - 1]);
                    } else if i == qi {
                        assert(n[j] == s[j - 1]);
                    } else {
                        assert(n[i] == s[i - 1] && n[j] == s[j - 1]);
                    }
                } else {
                    if i == qi {
                        assert(s[qi].spec_position() < s[j].spec_position());
                    } else if j == qi {
                        assert(s[i].spec_position() < s[qi].spec_position());
                    }
                }
            }
        }
        let m = pos_map(s).insert(p, x);
        lemma_pos_map_at(n, qi);
        assert forall|k: i64| #[trigger] pos_map(n).contains_key(k) <==> m.contains_key(k) by {
            if has_pos(n, k) && k != p {
                let i = choose|i: int| 0 <= i < n.len() && #[trigger] n[i].spec_position() == k;
                if replace {
                    assert(i != qi);
                    assert(s[i].spec_position() == k);
                } else if i < qi {
                    assert(s[i].spec_position() == k);
                } else {
                    assert(i != qi);
                    assert(s[i - 1].spec_position() == k);
                }
            }
            if has_pos(s, k) {
                let i = choose|i: int| 0 <= i < s.len() && #[trigger] s[i].spec_position() == k;
                if replace || i < qi {
                    if replace && i == qi {
                    } else {
                        assert(n[i].spec_position() == k);
                    }
                } else {
                    assert(n[i + 1].spec_position() == k);
                }
            }
        }
        assert forall|k: i64| #[trigger] pos_map(n).contains_key(k) implies pos_map(n)[k] == m[k] by {
            if k != p {
                let i = choose|i: int| 0 <= i < s.len() && #[trigger] s[i].spec_position() == k;
                lemma_pos_map_at(s, i);
                if replace || i < qi {
                    assert(n[i] == s[i]);
                    lemma_pos_map_at(n, i);
                } else {
                    assert(n[i + 1] == s[i]);
                    lemma_pos_map_at(n, i + 1);
                }
            }
        }
        assert(pos_map(n) =~= m);
    }
}

} // verus!
