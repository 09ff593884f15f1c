use crate::error::SiftError;
use vstd::prelude::*;

verus! {

/// Number of blocks of size `bs` needed to cover `[0, len)`.
pub open spec fn num_intervals(len: int, bs: int) -> int {
    (len + bs - 1) / bs
}

/// The `k`-th block of `[0, len)`: `[k * bs, min(len, (k + 1) * bs))`.
pub open spec fn spec_interval(len: int, bs: int, k: int) -> (int, int) {
    (k * bs, if k * bs + bs <= len { k * bs + bs } else { len })
}

proof fn lemma_count_bounds(len: int, bs: int, k: int)
    requires
        0 < bs,
        0 <= len,
        0 <= k,
    ensures
        k < num_intervals(len, bs) <==> k * bs < len,
{
    let n = num_intervals(len, bs);
    assert(n * bs <= len + bs - 1 && len + bs - 1 < n * bs + bs) by (nonlinear_arith)
        requires
            n == (len + bs - 1) / bs,
            0 < bs,
    ;
    if k < n {
        assert(k * bs <= n * bs - bs) by (nonlinear_arith)
            requires
                k + 1 <= n,
                0 < bs,
        ;
    } else {
        assert(k * bs >= n * bs) by (nonlinear_arith)
            requires
                k >= n,
                0 < bs,
        ;
    }
}

/// The blocks of `[0, max_size)` of size `block_size`, the last one
/// possibly shorter, in increasing order; `Err(Region)` for a negative
/// length.
pub fn make_intervals(max_size: i64, block_size: i64) -> (r: Result<Vec<(i64, i64)>, SiftError>)
    requires
        block_size > 0,
    ensures
        r is Err <==> max_size < 0,
        r matches Err(e) ==> e == SiftError::Region,
        r matches Ok(v) ==> v@.len() == num_intervals(max_size as int, block_size as int),
        r matches Ok(v) ==> forall|k: int|
            0 <= k < v@.len() ==> (#[trigger] v@[k].0 as int, v@[k].1 as int) == spec_interval(
                max_size as int,
                block_size as int,
                k,
            ),
{
    if max_size < 0 {
        Err(SiftError::Region)
    } else {
        Ok(blocks_of(max_size, block_size))
    }
}

/// The blocks of `[0, max_size)` of size `block_size`.
pub(crate) fn blocks_of(max_size: i64, block_size: i64) -> (r: Vec<(i64, i64)>)
    requires
        block_size > 0,
        max_size >= 0,
    ensures
        r@.len() == num_intervals(max_size as int, block_size as int),
        forall|k: int|
            0 <= k < r@.len() ==> (#[trigger] r@[k].0 as int, r@[k].1 as int) == spec_interval(
                max_size as int,
                block_size as int,
                k,
            ),
{
    let ghost len = max_size as int;
    let ghost bs = block_size as int;
    let mut jobs: Vec<(i64, i64)> = Vec::new();
    let mut lb: i64 = 0;
    while lb < max_size
        invariant
            0 < bs,
            0 <= len,
            len == max_size,
            bs == block_size,
            0 <= lb <= max_size,
            lb < max_size ==> lb == jobs@.len() * bs,
            lb == max_size ==> jobs@.len() * bs >= len,
            jobs@.len() > 0 ==> (jobs@.len() - 1) * bs < len,
            forall|k: int|
                0 <= k < jobs@.len() ==> (jobs@[k].0 as int, jobs@[k].1 as int)
                    == #[trigger] spec_interval(len, bs, k),
        decreases max_size - lb,
    {
        let ub: i64 = if block_size >= max_size - lb {
            max_size
        } else {
            lb + block_size
        };
        proof {
            let k = jobs@.len() as int;
            assert((k + 1) * bs == k * bs + bs) by (nonlinear_arith);
        }
        jobs.push((lb, ub));
        lb = ub;
    }
    proof {
        let k = jobs@.len() as int;
        lemma_count_bounds(len, bs, k);
        if k > 0 {
            lemma_count_bounds(len, bs, k - 1);
            assert((k - 1) * bs == k * bs - bs) by (nonlinear_arith);
        } else {
            assert(0 * bs == 0);
        }
    }
    jobs
}

/// The index of the block of size `bs` that holds position `p`.
pub open spec fn block_of(bs: int, p: int) -> int {
    p / bs
}

/// Blocks of `[0, len)` cover it exactly: the first starts at zero, each
/// ends where the next starts, each is non-empty and at most `bs` long, the
/// last ends at `len`, and each position lies in exactly one block.
pub proof fn lemma_intervals_tile(len: int, bs: int)
    requires
        0 < bs,
        0 <= len,
    ensures
        len == 0 <==> num_intervals(len, bs) == 0,
        num_intervals(len, bs) > 0 ==> spec_interval(len, bs, 0).0 == 0,
        num_intervals(len, bs) > 0 ==> spec_interval(len, bs, num_intervals(len, bs) - 1).1
            == len,
        forall|k: int|
            0 <= k < num_intervals(len, bs) ==> #[trigger] spec_interval(len, bs, k).0
                < spec_interval(len, bs, k).1 <= spec_interval(len, bs, k).0 + bs,
        forall|k: int|
            0 <= k < num_intervals(len, bs) - 1 ==> #[trigger] spec_interval(len, bs, k).1
                == spec_interval(len, bs, k + 1).0,
        forall|p: int|
            0 <= p < len ==> {
                let k = #[trigger] block_of(bs, p);
                &&& 0 <= k < num_intervals(len, bs)
                &&& spec_interval(len, bs, k).0 <= p < spec_interval(len, bs, k).1
            },
        forall|p: int, k: int|
            0 <= k < num_intervals(len, bs) && #[trigger] spec_interval(len, bs, k).0 <= p
                < spec_interval(len, bs, k).1 ==> k == #[trigger] block_of(bs, p),
{
    let n = num_intervals(len, bs);
    lemma_count_bounds(len, bs, 0);
    if n > 0 {
        lemma_count_bounds(len, bs, n - 1);
        lemma_count_bounds(len, bs, n);
        assert((n - 1) * bs + bs == n * bs) by (nonlinear_arith);
    }
    assert forall|k: int| 0 <= k < n implies #[trigger] spec_interval(len, bs, k).0 < spec_interval(
        len,
        bs,
        k,
    ).1 <= spec_interval(len, bs, k).0 + bs by {
        lemma_count_bounds(len, bs, k);
    }
    assert forall|k: int| 0 <= k < n - 1 implies #[trigger] spec_interval(len, bs, k).1
        == spec_interval(len, bs, k + 1).0 by {
        lemma_count_bounds(len, bs, k + 1);
        assert((k + 1) * bs == k * bs + bs) by (nonlinear_arith);
    }
    assert forall|p: int| 0 <= p < len implies {
        let k = #[trigger] block_of(bs, p);
        &&& 0 <= k < n
        &&& spec_interval(len, bs, k).0 <= p < spec_interval(len, bs, k).1
    } by {
        let k = p / bs;
        assert(k * bs <= p < k * bs + bs && 0 <= k) by (nonlinear_arith)
            requires
                k == p / bs,
                0 < bs,
                0 <= p,
        ;
        lemma_count_bounds(len, bs, k);
    }
    assert forall|p: int, k: int|
        0 <= k < n && #[trigger] spec_interval(len, bs, k).0 <= p < spec_interval(len, bs, k).1 implies k
        == #[trigger] block_of(bs, p) by {
        assert(k * bs <= p < k * bs + bs);
        assert(k == p / bs) by (nonlinear_arith)
            requires
                k * bs <= p < k * bs + bs,
                0 < bs,
        ;
    }
}

/// One piece of a pasted string: the word at `idx[j]` (nothing when the
/// index is out of range) followed by the separator unless it is the last.
pub open spec fn paste_piece(words: Seq<Seq<char>>, idx: Seq<usize>, sep: Seq<char>, j: int) -> Seq<
    char,
> {
    (if (idx[j] as int) < words.len() {
        words[idx[j] as int]
    } else {
        Seq::empty()
    }) + (if j < idx.len() - 1 {
        sep
    } else {
        Seq::empty()
    })
}

/// The first `i` pieces of a pasted string, joined.
pub open spec fn paste_prefix(words: Seq<Seq<char>>, idx: Seq<usize>, sep: Seq<char>, i: int) -> Seq<
    char,
>
    decreases i,
{
    if i <= 0 {
        Seq::empty()
    } else {
        paste_prefix(words, idx, sep, i - 1) + paste_piece(words, idx, sep, i - 1)
    }
}

pub open spec fn words_view(words: Seq<String>) -> Seq<Seq<char>> {
    words.map_values(|w: String| w@)
}

/// The words at `indices`, in that order, joined by `sep`; an index out of
/// range contributes an empty word.
pub fn paste(words: &Vec<String>, indices: &Vec<usize>, sep: &str) -> (r: String)
    ensures
        r@ == paste_prefix(words_view(words@), indices@, sep@, indices@.len() as int),
{
    let mut ret = String::new();
    let n = indices.len();
    let mut i: usize = 0;
    while i < n
        invariant
            n == indices@.len(),
            0 <= i <= n,
            ret@ == paste_prefix(words_view(words@), indices@, sep@, i as int),
        decreases n - i,
    {
        let j = indices[i];
        if j < words.len() {
            ret.append(words[j].as_str());
        }
        if n > 1 && i < n - 1 {
            ret.append(sep);
        }
        proof {
            let ws = words_view(words@);
            assert(paste_prefix(ws, indices@, sep@, i + 1) == paste_prefix(ws, indices@, sep@, i as int)
                + paste_piece(ws, indices@, sep@, i as int));
            assert(ret@ =~= paste_prefix(ws, indices@, sep@, i + 1));
        }
        i = i + 1;
    }
    ret
}

} // verus!
