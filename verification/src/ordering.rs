//! Stable descending ordering of positions by a value attached to each
//! position, as produced by a stable sort with a "greater first" comparator.
use vstd::prelude::*;

verus! {

/// Sum of a sequence of counts.
pub open spec fn seq_sum(s: Seq<usize>) -> int
    decreases s.len(),
{
    if s.len() == 0 {
        0
    } else {
        seq_sum(s.drop_last()) + s.last()
    }
}

/// Counts of at most `bound` each add up to at most `bound` per count.
pub proof fn lemma_sum_bounded(s: Seq<usize>, bound: int)
    requires
        forall|i: int| 0 <= i < s.len() ==> #[trigger] s[i] <= bound,
    ensures
        seq_sum(s) <= bound * s.len(),
    decreases s.len(),
{
    if s.len() > 0 {
        lemma_sum_bounded(s.drop_last(), bound);
        assert(s.last() == s[s.len() - 1]);
        assert(bound * s.len() == bound * s.drop_last().len() + bound) by (nonlinear_arith)
            requires
                s.drop_last().len() + 1 == s.len(),
        ;
    }
}

/// The positions `0, 1, ..., n - 1` in increasing order.
pub open spec fn index_seq(n: nat) -> Seq<usize> {
    Seq::new(n, |i: int| i as usize)
}

/// Every entry of `order` is a valid position into a sequence of length `n`.
pub open spec fn indices_below(order: Seq<usize>, n: nat) -> bool {
    forall|j: int| 0 <= j < order.len() ==> (#[trigger] order[j]) < n
}

/// `order` lists every position below `n` exactly once.
pub open spec fn is_index_permutation(order: Seq<usize>, n: nat) -> bool {
    &&& order.len() == n
    &&& order.no_duplicates()
    &&& indices_below(order, n)
    &&& forall|i: usize| i < n ==> #[trigger] order.contains(i)
}

/// The positions in `order` carry non-increasing values.
pub open spec fn sorted_desc(order: Seq<usize>, vals: Seq<usize>) -> bool {
    forall|i: int, j: int|
        0 <= i < j < order.len() ==> vals[#[trigger] order[i] as int] >= vals[#[trigger] order[j]
            as int]
}

/// Where a stable insertion puts `x` into `sorted`: after every position whose
/// value is at least the value of `x`.
pub open spec fn insert_pos(sorted: Seq<usize>, x: usize, vals: Seq<usize>) -> nat
    decreases sorted.len(),
{
    if sorted.len() == 0 {
        0
    } else if vals[sorted[0] as int] < vals[x as int] {
        0
    } else {
        1 + insert_pos(sorted.drop_first(), x, vals)
    }
}

/// `order` stably sorted so that larger values come first; positions with
/// equal values keep their relative order.
pub open spec fn sort_desc(order: Seq<usize>, vals: Seq<usize>) -> Seq<usize>
    decreases order.len(),
{
    if order.len() == 0 {
        order
    } else {
        let s = sort_desc(order.drop_last(), vals);
        s.insert(insert_pos(s, order.last(), vals) as int, order.last())
    }
}

pub proof fn lemma_insert_pos(sorted: Seq<usize>, x: usize, vals: Seq<usize>)
    ensures
        insert_pos(sorted, x, vals) <= sorted.len(),
        forall|j: int|
            0 <= j < insert_pos(sorted, x, vals) ==> vals[#[trigger] sorted[j] as int] >= vals[x as int],
        insert_pos(sorted, x, vals) < sorted.len() ==> vals[sorted[insert_pos(sorted, x, vals) as int] as int]
            < vals[x as int],
    decreases sorted.len(),
{
    if sorted.len() > 0 && vals[sorted[0] as int] >= vals[x as int] {
        lemma_insert_pos(sorted.drop_first(), x, vals);
        assert forall|j: int|
            0 <= j < insert_pos(sorted, x, vals) implies vals[#[trigger] sorted[j] as int] >= vals[x as int] by {
            if j > 0 {
                assert(sorted[j] == sorted.drop_first()[j - 1]);
            }
        }
    }
}

/// The stable descending sort is a sorted rearrangement of its input.
pub proof fn lemma_sort_desc(order: Seq<usize>, vals: Seq<usize>)
    requires
        indices_below(order, vals.len()),
    ensures
        sort_desc(order, vals).len() == order.len(),
        indices_below(sort_desc(order, vals), vals.len()),
        sorted_desc(sort_desc(order, vals), vals),
        forall|y: usize| #[trigger] sort_desc(order, vals).contains(y) <==> order.contains(y),
        order.no_duplicates() ==> sort_desc(order, vals).no_duplicates(),
    decreases order.len(),
{
    if order.len() > 0 {
        let prefix = order.drop_last();
        let x = order.last();
        lemma_sort_desc(prefix, vals);
        let s = sort_desc(prefix, vals);
        lemma_insert_pos(s, x, vals);
        let p = insert_pos(s, x, vals) as int;
        let r = s.insert(p, x);
        assert(r == sort_desc(order, vals));
        assert forall|j: int| 0 <= j < r.len() implies (#[trigger] r[j]) < vals.len() by {
            if j < p {
                assert(r[j] == s[j]);
            } else if j > p {
                assert(r[j] == s[j - 1]);
            }
        }
        assert forall|i: int, j: int|
            0 <= i < j < r.len() implies vals[#[trigger] r[i] as int] >= vals[#[trigger] r[j] as int] by {
            if j < p {
                assert(r[i] == s[i] && r[j] == s[j]);
            } else if j == p {
                assert(r[i] == s[i]);
            } else if i < p {
                assert(r[i] == s[i] && r[j] == s[j - 1]);
                assert(vals[s[i] as int] >= vals[s[j - 1] as int]);
            } else if i == p {
                assert(r[j] == s[j - 1]);
                assert(vals[s[p] as int] < vals[x as int]);
                if j - 1 > p {
                    assert(vals[s[p] as int] >= vals[s[j - 1] as int]);
                }
            } else {
                assert(r[i] == s[i - 1] && r[j] == s[j - 1]);
            }
        }
        assert forall|y: usize| #[trigger] r.contains(y) <==> order.contains(y) by {
            if r.contains(y) {
                let j = choose|j: int| 0 <= j < r.len() && r[j] == y;
                if j < p {
                    assert(r[j] == s[j]);
                    assert(s.contains(y));
                    let k = choose|k: int| 0 <= k < prefix.len() && prefix[k] == y;
                    assert(order[k] == y);
                } else if j > p {
                    assert(r[j] == s[j - 1]);
                    assert(s.contains(y));
                    let k = choose|k: int| 0 <= k < prefix.len() && prefix[k] == y;
                    assert(order[k] == y);
                } else {
                    assert(order[order.len() - 1] == y);
                }
            }
            if order.contains(y) {
                let k = choose|k: int| 0 <= k < order.len() && order[k] == y;
                if k < order.len() - 1 {
                    assert(prefix[k] == y);
                    assert(prefix.contains(y));
                    assert(s.contains(y));
                    let j = choose|j: int| 0 <= j < s.len() && s[j] == y;
                    if j < p {
                        assert(r[j] == y);
                    } else {
                        assert(r[j + 1] == y);
                    }
                } else {
                    assert(r[p] == y);
                }
            }
        }
        if order.no_duplicates() {
            assert(prefix.no_duplicates());
            assert(!prefix.contains(x)) by {
                if prefix.contains(x) {
                    let k = choose|k: int| 0 <= k < prefix.len() && prefix[k] == x;
                    assert(order[k] == order[order.len() - 1]);
                }
            }
            assert(!s.contains(x));
            assert forall|i: int, j: int|
                0 <= i < r.len() && 0 <= j < r.len() && i != j implies r[i] != r[j] by {
                if i != p && j != p {
                    let si = if i < p { i } else { i - 1 };
                    let sj = if j < p { j } else { j - 1 };
                    assert(r[i] == s[si] && r[j] == s[sj]);
                } else if i == p {
                    let sj = if j < p { j } else { j - 1 };
                    assert(r[j] == s[sj]);
                } else {
                    let si = if i < p { i } else { i - 1 };
                    assert(r[i] == s[si]);
                }
            }
        }
    }
}

/// Sorting positions given in increasing order keeps positions with equal
/// values in increasing order.
pub proof fn lemma_sort_desc_stable(order: Seq<usize>, vals: Seq<usize>)
    requires
        indices_below(order, vals.len()),
        forall|a: int, b: int| 0 <= a < b < order.len() ==> order[a] < order[b],
    ensures
        forall|a: int, b: int|
            0 <= a < b < sort_desc(order, vals).len() && vals[#[trigger] sort_desc(order, vals)[a] as int]
                == vals[#[trigger] sort_desc(order, vals)[b] as int] ==> sort_desc(order, vals)[a] < sort_desc(
                order,
                vals,
            )[b],
    decreases order.len(),
{
    if order.len() > 0 {
        let prefix = order.drop_last();
        let x = order.last();
        assert(indices_below(prefix, vals.len()));
        lemma_sort_desc_stable(prefix, vals);
        lemma_sort_desc(prefix, vals);
        let s = sort_desc(prefix, vals);
        lemma_insert_pos(s, x, vals);
        let p = insert_pos(s, x, vals) as int;
        let r = s.insert(p, x);
        assert(r == sort_desc(order, vals));
        assert forall|j: int| 0 <= j < s.len() implies #[trigger] s[j] < x by {
            assert(s.contains(s[j]));
            assert(prefix.contains(s[j]));
            let k = choose|k: int| 0 <= k < prefix.len() && prefix[k] == s[j];
            assert(order[k] < order[order.len() - 1]);
        }
        assert forall|j: int| p <= j < s.len() implies vals[#[trigger] s[j] as int] < vals[x as int] by {
            if j > p {
                assert(vals[s[p] as int] >= vals[s[j] as int]);
            }
        }
        assert forall|a: int, b: int|
            0 <= a < b < r.len() && vals[#[trigger] r[a] as int] == vals[#[trigger] r[b] as int] implies r[a] < r[b] by {
            if b < p {
                assert(r[a] == s[a] && r[b] == s[b]);
            } else if b == p {
                assert(r[a] == s[a]);
            } else if a < p {
                assert(r[a] == s[a] && r[b] == s[b - 1]);
                assert(vals[s[a] as int] >= vals[x as int]);
            } else if a == p {
                assert(r[b] == s[b - 1]);
            } else {
                assert(r[a] == s[a - 1] && r[b] == s[b - 1]);
            }
        }
    }
}

/// Stable descending sort of the positions in `order` by `vals`.
pub fn sort_indices_desc(order: &Vec<usize>, vals: &Vec<usize>) -> (res: Vec<usize>)
    requires
        indices_below(order@, vals@.len()),
    ensures
        res@ == sort_desc(order@, vals@),
{
    let mut res: Vec<usize> = Vec::new();
    let mut i: usize = 0;
    while i < order.len()
        invariant
            0 <= i <= order.len(),
            indices_below(order@, vals@.len()),
            res@ == sort_desc(order@.take(i as int), vals@),
        decreases order.len() - i,
    {
        let x = order[i];
        proof {
            assert(order@.take(i as int + 1).drop_last() =~= order@.take(i as int));
            lemma_sort_desc(order@.take(i as int), vals@);
            assert(indices_below(order@.take(i as int), vals@.len()));
        }
        let ghost s = res@;
        assert(s.skip(0) =~= s);
        let mut p: usize = 0;
        while p < res.len() && vals[res[p]] >= vals[x]
            invariant
                res@ == s,
                0 <= p <= res.len(),
                indices_below(res@, vals@.len()),
                x < vals@.len(),
                insert_pos(s, x, vals@) == p + insert_pos(s.skip(p as int), x, vals@),
            decreases res.len() - p,
        {
            assert(s.skip(p as int).drop_first() =~= s.skip(p as int + 1));
            p = p + 1;
        }
        proof {
            if p == res.len() {
                assert(s.skip(p as int).len() == 0);
            } else {
                assert(s.skip(p as int)[0] == s[p as int]);
            }
        }
        res.insert(p, x);
        proof {
            assert(order@.take(i as int + 1).last() == x);
        }
        i = i + 1;
    }
    assert(order@.take(order.len() as int) =~= order@);
    res
}

} // verus!
