use vstd::prelude::*;

verus! {

/// Strictly increasing, hence free of repeats.
pub open spec fn strictly_sorted(s: Seq<i64>) -> bool {
    forall|i: int, j: int| 0 <= i < j < s.len() ==> s[i] < s[j]
}

/// The union of two sorted position lists, sorted.
pub fn union_sorted(a: &Vec<i64>, b: &Vec<i64>) -> (r: Vec<i64>)
    requires
        strictly_sorted(a@),
        strictly_sorted(b@),
    ensures
        strictly_sorted(r@),
        r@.to_set() == a@.to_set() + b@.to_set(),
{
    let mut r: Vec<i64> = Vec::new();
    let mut i: usize = 0;
    let mut j: usize = 0;
    while i < a.len() || j < b.len()
        invariant
            strictly_sorted(a@),
            strictly_sorted(b@),
            strictly_sorted(r@),
            0 <= i <= a@.len(),
            0 <= j <= b@.len(),
            forall|x: i64|
                r@.contains(x) <==> (a@.subrange(0, i as int).contains(x) || b@.subrange(
                    0,
                    j as int,
                ).contains(x)),
            r@.len() > 0 && i < a@.len() ==> r@.last() < a@[i as int],
            r@.len() > 0 && j < b@.len() ==> r@.last() < b@[j as int],
        decreases a@.len() + b@.len() - i - j,
    {
        let ghost r0 = r@;
        let ghost i0 = i as int;
        let ghost j0 = j as int;
        if j >= b.len() || (i < a.len() && a[i] < b[j]) {
            r.push(a[i]);
            i = i + 1;
        } else if i >= a.len() || b[j] < a[i] {
            r.push(b[j]);
            j = j + 1;
        } else {
            r.push(a[i]);
            i = i + 1;
            j = j + 1;
        }
        proof {
            assert forall|x: i64|
                r@.contains(x) <==> (a@.subrange(0, i as int).contains(x) || b@.subrange(
                    0,
                    j as int,
                ).contains(x)) by {
                if r@.contains(x) {
                    let k = choose|k: int| 0 <= k < r@.len() && r@[k] == x;
                    if k < r0.len() {
                        assert(r0.contains(x));
                        if a@.subrange(0, i0).contains(x) {
                            let t = choose|t: int| 0 <= t < i0 && a@.subrange(0, i0)[t] == x;
                            assert(a@.subrange(0, i as int)[t] == x);
                        } else {
                            let t = choose|t: int| 0 <= t < j0 && b@.subrange(0, j0)[t] == x;
                            assert(b@.subrange(0, j as int)[t] == x);
                        }
                    } else if i > i0 {
                        assert(a@.subrange(0, i as int)[i0] == x);
                    } else {
                        assert(b@.subrange(0, j as int)[j0] == x);
                    }
                }
                if a@.subrange(0, i as int).contains(x) {
                    let t = choose|t: int| 0 <= t < i && a@.subrange(0, i as int)[t] == x;
                    if t < i0 {
                        assert(a@.subrange(0, i0)[t] == x);
                        assert(r0.contains(x));
                        let k = choose|k: int| 0 <= k < r0.len() && r0[k] == x;
                        assert(r@[k] == x);
                    } else {
                        assert(r@[r@.len() - 1] == x);
                    }
                }
                if b@.subrange(0, j as int).contains(x) {
                    let t = choose|t: int| 0 <= t < j && b@.subrange(0, j as int)[t] == x;
                    if t < j0 {
                        assert(b@.subrange(0, j0)[t] == x);
                        assert(r0.contains(x));
                        let k = choose|k: int| 0 <= k < r0.len() && r0[k] == x;
                        assert(r@[k] == x);
                    } else {
                        assert(r@[r@.len() - 1] == x);
                    }
                }
            }
        }
    }
    proof {
        assert(a@.subrange(0, a@.len() as int) == a@);
        assert(b@.subrange(0, b@.len() as int) == b@);
        assert(r@.to_set() =~= a@.to_set() + b@.to_set());
    }
    r
}

} // verus!
