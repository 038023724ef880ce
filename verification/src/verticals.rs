//! The vertical bars (`|`) of the visual overview: how many each language
//! gets, and how the counts are brought to exactly [`NUM_OF_VERTICALS`].
use vstd::prelude::*;

use crate::ordering::{sort_indices_desc, lemma_sort_desc, lemma_sort_desc_stable, index_seq, indices_below, is_index_permutation, seq_sum, sort_desc, sorted_desc};

verus! {

/// The number of vertical bars drawn inside `[-...-]` in the overview.
pub const NUM_OF_VERTICALS: usize = 50;

/// How far a total of `sum` bars is from [`NUM_OF_VERTICALS`].
pub open spec fn distance(sum: int) -> nat {
    (if sum > NUM_OF_VERTICALS { sum - NUM_OF_VERTICALS } else { NUM_OF_VERTICALS - sum }) as nat
}

/// Length of the leading run of `order` whose positions carry the value `v`.
pub open spec fn run_len(order: Seq<usize>, vals: Seq<usize>, v: usize) -> nat
    decreases order.len(),
{
    if order.len() == 0 || vals[order[0] as int] != v {
        0
    } else {
        1 + run_len(order.drop_first(), vals, v)
    }
}

/// `vals` with one more (`up`) or one less bar at position `i`.
pub open spec fn bump(vals: Seq<usize>, i: usize, up: bool) -> Seq<usize> {
    vals.update(
        i as int,
        (if up {
            vals[i as int] + 1
        } else {
            vals[i as int] - 1
        }) as usize,
    )
}

/// `vals` with the positions `order[0..m]` each moved by one bar.
pub open spec fn bump_prefix(order: Seq<usize>, vals: Seq<usize>, m: nat, up: bool) -> Seq<usize>
    decreases m,
{
    if m == 0 {
        vals
    } else {
        bump(bump_prefix(order, vals, (m - 1) as nat, up), order[m - 1], up)
    }
}

/// One correction step once the leading positions have been handled: with
/// too many bars, the first position loses one unless it is within three
/// of the second, in which case the second loses one; with too few, the
/// second gains one when the first leads it by more than five, else the
/// first gains one. The order is sorted again after a change to the second
/// position when there are more than two positions.
pub open spec fn step(order: Seq<usize>, vals: Seq<usize>, over: bool) -> (Seq<usize>, Seq<usize>) {
    let a = order[0];
    let b = order[1];
    if over {
        if vals[a as int] > vals[b as int] + 3 {
            (order, bump(vals, a, false))
        } else {
            let v2 = bump(vals, b, false);
            (if order.len() > 2 { sort_desc(order, v2) } else { order }, v2)
        }
    } else {
        if vals[a as int] > vals[b as int] + 5 {
            let v2 = bump(vals, b, true);
            (if order.len() > 2 { sort_desc(order, v2) } else { order }, v2)
        } else {
            (order, bump(vals, a, true))
        }
    }
}

/// `n` correction steps.
pub open spec fn steps(order: Seq<usize>, vals: Seq<usize>, n: nat, over: bool) -> Seq<usize>
    decreases n,
{
    if n == 0 {
        vals
    } else {
        let (o2, v2) = step(order, vals, over);
        steps(o2, v2, (n - 1) as nat, over)
    }
}

/// The positions ordered by count, largest first; positions with equal
/// counts keep their order.
pub open spec fn largest_first(vals: Seq<usize>) -> Seq<usize> {
    sort_desc(index_seq(vals.len()), vals)
}

/// How many positions move first: when several share the largest count,
/// each of them, as long as bars remain to be moved; otherwise none.
pub open spec fn leading_moves(vals: Seq<usize>) -> nat {
    let order = largest_first(vals);
    let k = run_len(order, vals, vals[order[0] as int]);
    let d = distance(seq_sum(vals));
    if k > 1 {
        if k < d {
            k
        } else {
            d
        }
    } else {
        0
    }
}

/// The bar counts after normalization. Positions are ordered by count,
/// largest first (ties keep their order). When several positions share the
/// largest count, each of them first moves one bar towards the target, as
/// long as bars remain to be moved. Any remaining difference is then
/// corrected on the first position once and by [`step`] for the rest.
pub open spec fn normalized(vals: Seq<usize>) -> Seq<usize> {
    let sum = seq_sum(vals);
    let over = sum > NUM_OF_VERTICALS;
    let d = distance(sum);
    let order = largest_first(vals);
    let m = leading_moves(vals);
    let v1 = bump_prefix(order, vals, m, !over);
    let d1 = (d - m) as nat;
    if d1 == 0 {
        v1
    } else if over {
        let v2 = bump(v1, order[0], false);
        steps(sort_desc(order, v2), v2, (d1 - 1) as nat, true)
    } else {
        steps(order, bump(v1, order[0], true), (d1 - 1) as nat, false)
    }
}

pub proof fn lemma_sum_update(s: Seq<usize>, i: int, v: usize)
    requires
        0 <= i < s.len(),
    ensures
        seq_sum(s.update(i, v)) == seq_sum(s) - s[i] + v,
    decreases s.len(),
{
    let u = s.update(i, v);
    if i < s.len() - 1 {
        assert(u.drop_last() =~= s.drop_last().update(i, v));
        lemma_sum_update(s.drop_last(), i, v);
    } else {
        assert(u.drop_last() =~= s.drop_last());
    }
}

pub proof fn lemma_elem_le_sum(s: Seq<usize>, i: int)
    requires
        0 <= i < s.len(),
    ensures
        s[i] <= seq_sum(s),
        0 <= seq_sum(s),
    decreases s.len(),
{
    lemma_sum_nonneg(s.drop_last());
    if i < s.len() - 1 {
        assert(s.drop_last()[i] == s[i]);
        lemma_elem_le_sum(s.drop_last(), i);
    }
}

pub proof fn lemma_two_le_sum(s: Seq<usize>, a: int, b: int)
    requires
        0 <= a < s.len(),
        0 <= b < s.len(),
        a != b,
    ensures
        s[a] + s[b] <= seq_sum(s),
    decreases s.len(),
{
    lemma_sum_nonneg(s.drop_last());
    if a == s.len() - 1 {
        lemma_elem_le_sum(s.drop_last(), b);
    } else if b == s.len() - 1 {
        lemma_elem_le_sum(s.drop_last(), a);
    } else {
        lemma_two_le_sum(s.drop_last(), a, b);
    }
}

pub proof fn lemma_sum_nonneg(s: Seq<usize>)
    ensures
        0 <= seq_sum(s),
    decreases s.len(),
{
    if s.len() > 0 {
        lemma_sum_nonneg(s.drop_last());
    }
}

/// A sequence that is zero everywhere but at `a` sums to its value at `a`.
pub proof fn lemma_sum_single(s: Seq<usize>, a: int)
    requires
        0 <= a < s.len(),
        forall|i: int| 0 <= i < s.len() && i != a ==> s[i] == 0,
    ensures
        seq_sum(s) == s[a],
    decreases s.len(),
{
    if a < s.len() - 1 {
        lemma_sum_single(s.drop_last(), a);
    } else {
        lemma_sum_zero(s.drop_last());
    }
}

pub proof fn lemma_sum_zero(s: Seq<usize>)
    requires
        forall|i: int| 0 <= i < s.len() ==> s[i] == 0,
    ensures
        seq_sum(s) == 0,
    decreases s.len(),
{
    if s.len() > 0 {
        lemma_sum_zero(s.drop_last());
    }
}

/// In a sorted permutation the first position carries the largest value and
/// the second one the largest of all others.
pub proof fn lemma_top_dominates(order: Seq<usize>, vals: Seq<usize>)
    requires
        is_index_permutation(order, vals.len()),
        sorted_desc(order, vals),
        order.len() >= 1,
        vals.len() <= usize::MAX,
    ensures
        forall|i: int| 0 <= i < vals.len() ==> #[trigger] vals[i] <= vals[order[0] as int],
        order.len() >= 2 ==> forall|i: int|
            0 <= i < vals.len() && i != order[0] ==> #[trigger] vals[i] <= vals[order[1] as int],
{
    assert forall|i: int| 0 <= i < vals.len() implies #[trigger] vals[i] <= vals[order[0] as int] by {
        assert(order.contains(i as usize));
        let j = choose|j: int| 0 <= j < order.len() && order[j] == i as usize;
        if j > 0 {
            assert(vals[order[0] as int] >= vals[order[j] as int]);
        }
    }
    if order.len() >= 2 {
        assert forall|i: int| 0 <= i < vals.len() && i != order[0] implies #[trigger] vals[i] <= vals[order[1]
            as int] by {
            assert(order.contains(i as usize));
            let j = choose|j: int| 0 <= j < order.len() && order[j] == i as usize;
            if j > 1 {
                assert(vals[order[1] as int] >= vals[order[j] as int]);
            }
        }
    }
}

pub proof fn lemma_run_len(order: Seq<usize>, vals: Seq<usize>, v: usize)
    ensures
        run_len(order, vals, v) <= order.len(),
        forall|t: int| 0 <= t < run_len(order, vals, v) ==> vals[#[trigger] order[t] as int] == v,
        run_len(order, vals, v) < order.len() ==> vals[order[run_len(order, vals, v) as int] as int]
            != v,
    decreases order.len(),
{
    if order.len() > 0 && vals[order[0] as int] == v {
        lemma_run_len(order.drop_first(), vals, v);
        assert forall|t: int| 0 <= t < run_len(order, vals, v) implies vals[#[trigger] order[t] as int]
            == v by {
            if t > 0 {
                assert(order[t] == order.drop_first()[t - 1]);
            }
        }
    }
}

/// Moving the first `m` positions of a duplicate-free order: each of them
/// moves by one, every other position keeps its value.
pub proof fn lemma_bump_prefix(order: Seq<usize>, vals: Seq<usize>, m: nat, up: bool)
    requires
        m <= order.len(),
        order.no_duplicates(),
        indices_below(order, vals.len()),
        up ==> forall|t: int| 0 <= t < m ==> (#[trigger] vals[order[t] as int]) < usize::MAX,
        !up ==> forall|t: int| 0 <= t < m ==> (#[trigger] vals[order[t] as int]) >= 1,
    ensures
        bump_prefix(order, vals, m, up).len() == vals.len(),
        forall|t: int|
            0 <= t < m ==> #[trigger] bump_prefix(order, vals, m, up)[order[t] as int] == (if up {
                vals[order[t] as int] + 1
            } else {
                vals[order[t] as int] - 1
            }),
        forall|i: int|
            0 <= i < vals.len() && !order.take(m as int).contains(i as usize) ==> #[trigger] bump_prefix(
                order,
                vals,
                m,
                up,
            )[i] == vals[i],
        seq_sum(bump_prefix(order, vals, m, up)) == if up {
            seq_sum(vals) + m
        } else {
            seq_sum(vals) - m
        },
    decreases m,
{
    if m > 0 {
        let pm = (m - 1) as nat;
        lemma_bump_prefix(order, vals, pm, up);
        let prev = bump_prefix(order, vals, pm, up);
        let i = order[pm as int];
        assert(!order.take(pm as int).contains(i)) by {
            if order.take(pm as int).contains(i) {
                let t = choose|t: int| 0 <= t < pm && order.take(pm as int)[t] == i;
                assert(order[t] == order[pm as int]);
            }
        }
        assert(prev[i as int] == vals[i as int]);
        lemma_sum_update(prev, i as int, bump(prev, i, up)[i as int]);
        assert forall|i2: int|
            0 <= i2 < vals.len() && !order.take(m as int).contains(i2 as usize) implies #[trigger] bump_prefix(
            order,
            vals,
            m,
            up,
        )[i2] == vals[i2] by {
            assert(i2 != i as int) by {
                assert(order.take(m as int)[pm as int] == i);
            }
            if order.take(pm as int).contains(i2 as usize) {
                let t = choose|t: int| 0 <= t < pm && order.take(pm as int)[t] == i2 as usize;
                assert(order.take(m as int)[t] == i2 as usize);
            }
        }
    }
}

/// The positions of `verticals`, largest count first.
fn index_order(verticals: &Vec<usize>) -> (order: Vec<usize>)
    ensures
        order@ == sort_desc(index_seq(verticals@.len()), verticals@),
        is_index_permutation(order@, verticals@.len()),
        sorted_desc(order@, verticals@),
{
    let n = verticals.len();
    let mut ids: Vec<usize> = Vec::new();
    let mut i: usize = 0;
    while i < n
        invariant
            0 <= i <= n,
            ids@ == index_seq(i as nat),
        decreases n - i,
    {
        ids.push(i);
        i = i + 1;
        assert(ids@ =~= index_seq(i as nat));
    }
    assert(indices_below(ids@, n as nat));
    let order = sort_indices_desc(&ids, verticals);
    proof {
        lemma_sort_desc(ids@, verticals@);
        assert(ids@.no_duplicates());
        assert forall|x: usize| x < n implies #[trigger] order@.contains(x) by {
            assert(ids@[x as int] == x);
            assert(ids@.contains(x));
        }
    }
    order
}

/// Length of the leading run of `order` whose counts equal `v`.
fn leading_run(order: &Vec<usize>, verticals: &Vec<usize>, v: usize) -> (k: usize)
    requires
        indices_below(order@, verticals@.len()),
    ensures
        k == run_len(order@, verticals@, v),
{
    let ghost s0 = order@;
    assert(s0.skip(0) =~= s0);
    let mut counter: usize = 0;
    while counter < order.len() && verticals[order[counter]] == v
        invariant
            order@ == s0,
            0 <= counter <= order.len(),
            indices_below(order@, verticals@.len()),
            run_len(s0, verticals@, v) == counter + run_len(s0.skip(counter as int), verticals@, v),
        decreases order.len() - counter,
    {
        assert(s0.skip(counter as int).drop_first() =~= s0.skip(counter as int + 1));
        counter = counter + 1;
    }
    if counter == order.len() {
        assert(s0.skip(counter as int).len() == 0);
    } else {
        assert(s0.skip(counter as int)[0] == s0[counter as int]);
    }
    counter
}

/// Moves each of the first `m` positions of `order` by one bar.
fn move_prefix(verticals: &mut Vec<usize>, order: &Vec<usize>, m: usize, up: bool)
    requires
        m <= order.len(),
        order@.no_duplicates(),
        indices_below(order@, old(verticals)@.len()),
        up ==> forall|t: int| 0 <= t < m ==> (#[trigger] old(verticals)@[order@[t] as int]) < usize::MAX,
        !up ==> forall|t: int| 0 <= t < m ==> (#[trigger] old(verticals)@[order@[t] as int]) >= 1,
    ensures
        final(verticals)@ == bump_prefix(order@, old(verticals)@, m as nat, up),
        final(verticals)@.len() == old(verticals)@.len(),
{
    let ghost v0 = verticals@;
    let mut j: usize = 0;
    while j < m
        invariant
            m <= order.len(),
            order@.no_duplicates(),
            indices_below(order@, v0.len()),
            up ==> forall|t: int| 0 <= t < m ==> (#[trigger] v0[order@[t] as int]) < usize::MAX,
            !up ==> forall|t: int| 0 <= t < m ==> (#[trigger] v0[order@[t] as int]) >= 1,
            0 <= j <= m,
            verticals@ == bump_prefix(order@, v0, j as nat, up),
            verticals@.len() == v0.len(),
        decreases m - j,
    {
        proof {
            lemma_bump_prefix(order@, v0, j as nat, up);
            assert(!order@.take(j as int).contains(order@[j as int])) by {
                if order@.take(j as int).contains(order@[j as int]) {
                    let t = choose|t: int| 0 <= t < j && order@.take(j as int)[t] == order@[j as int];
                    assert(order@[t] == order@[j as int]);
                }
            }
        }
        let p = order[j];
        if up {
            let x = verticals[p] + 1;
            verticals.set(p, x);
        } else {
            let x = verticals[p] - 1;
            verticals.set(p, x);
        }
        j = j + 1;
    }
}

/// After the leading run of largest counts has been moved as a whole, the
/// order is still sorted.
proof fn lemma_prefix_moved_sorted(order: Seq<usize>, vals: Seq<usize>, k: nat, up: bool)
    requires
        is_index_permutation(order, vals.len()),
        sorted_desc(order, vals),
        order.len() >= 1,
        k == 0 || k == run_len(order, vals, vals[order[0] as int]),
        up ==> vals[order[0] as int] < usize::MAX,
        !up ==> vals[order[0] as int] >= 1,
    ensures
        sorted_desc(order, bump_prefix(order, vals, k, up)),
{
    let max_value = vals[order[0] as int];
    if k == 0 {
        return;
    }
    lemma_run_len(order, vals, max_value);
    lemma_bump_prefix(order, vals, k, up);
    let v1 = bump_prefix(order, vals, k, up);
    assert forall|a: int, b: int|
        0 <= a < b < order.len() implies v1[#[trigger] order[a] as int] >= v1[#[trigger] order[b] as int] by {
        assert(vals[order[a] as int] >= vals[order[b] as int]);
        if b >= k {
            assert(!order.take(k as int).contains(order[b])) by {
                if order.take(k as int).contains(order[b]) {
                    let t = choose|t: int| 0 <= t < k && order.take(k as int)[t] == order[b];
                    assert(order[t] == order[b]);
                }
            }
            assert(vals[order[k as int] as int] != max_value);
            assert(vals[order[k as int] as int] <= max_value);
            assert(vals[order[b] as int] <= vals[order[k as int] as int]);
            if a >= k {
                assert(!order.take(k as int).contains(order[a])) by {
                    if order.take(k as int).contains(order[a]) {
                        let t = choose|t: int| 0 <= t < k && order.take(k as int)[t] == order[a];
                        assert(order[t] == order[a]);
                    }
                }
            }
        }
    }
}

/// The positions that move first in a normalization all hold the largest
/// count, and they come in the order of their positions: when several
/// positions share the largest count, the leftmost move first.
pub proof fn lemma_leading_positions(vals: Seq<usize>)
    requires
        vals.len() >= 1,
        vals.len() <= usize::MAX,
    ensures
        forall|t: int|
            0 <= t < leading_moves(vals) ==> vals[#[trigger] largest_first(vals)[t] as int] == vals[largest_first(
                vals,
            )[0] as int],
        forall|a: int, b: int|
            0 <= a < b < leading_moves(vals) ==> #[trigger] largest_first(vals)[a] < #[trigger] largest_first(vals)[b],
{
    let ids = index_seq(vals.len());
    assert(indices_below(ids, vals.len()));
    assert forall|a: int, b: int| 0 <= a < b < ids.len() implies ids[a] < ids[b] by {}
    lemma_sort_desc(ids, vals);
    lemma_sort_desc_stable(ids, vals);
    let order = largest_first(vals);
    lemma_run_len(order, vals, vals[order[0] as int]);
}

/// The correction steps, `rem` of them.
fn correction_steps(verticals: &mut Vec<usize>, order: Vec<usize>, rem: usize, over: bool)
    requires
        is_index_permutation(order@, old(verticals)@.len()),
        sorted_desc(order@, old(verticals)@),
        over ==> seq_sum(old(verticals)@) == NUM_OF_VERTICALS + rem,
        !over ==> seq_sum(old(verticals)@) + rem == NUM_OF_VERTICALS,
        old(verticals)@.len() >= 2 || rem == 0,
    ensures
        final(verticals)@ == steps(order@, old(verticals)@, rem as nat, over),
        final(verticals)@.len() == old(verticals)@.len(),
        seq_sum(final(verticals)@) == NUM_OF_VERTICALS,
        over ==> forall|i: int| 0 <= i < old(verticals)@.len() ==> #[trigger] final(verticals)@[i] <= old(verticals)@[i],
        !over ==> forall|i: int| 0 <= i < old(verticals)@.len() ==> #[trigger] final(verticals)@[i] >= old(verticals)@[i],
{
    let ghost v0 = verticals@;
    let ghost o0 = order@;
    let n = verticals.len();
    let mut order = order;
    let ghost rem0 = rem;
    let mut rem = rem;
    while rem > 0
        invariant
            n == verticals.len(),
            is_index_permutation(order@, n as nat),
            sorted_desc(order@, verticals@),
            over ==> seq_sum(verticals@) == NUM_OF_VERTICALS + rem,
            !over ==> seq_sum(verticals@) + rem == NUM_OF_VERTICALS,
            n >= 2 || rem == 0,
            steps(o0, v0, rem0 as nat, over) == steps(order@, verticals@, rem as nat, over),
            rem <= rem0,
            v0.len() == n,
            over ==> forall|i: int| 0 <= i < n ==> #[trigger] verticals@[i] <= v0[i],
            !over ==> forall|i: int| 0 <= i < n ==> #[trigger] verticals@[i] >= v0[i],
        decreases rem,
    {
        let ghost o1 = order@;
        let ghost w1 = verticals@;
        proof {
            lemma_top_dominates(o1, w1);
            lemma_elem_le_sum(w1, o1[0] as int);
            lemma_two_le_sum(w1, o1[0] as int, o1[1] as int);
        }
        let a = order[0];
        let b = order[1];
        if over {
            if verticals[a] > verticals[b] + 3 {
                let x = verticals[a] - 1;
                verticals.set(a, x);
                proof { lemma_sum_update(w1, a as int, x); }
            } else {
                proof {
                    if w1[b as int] == 0 {
                        lemma_sum_single(w1, a as int);
                    }
                }
                let x = verticals[b] - 1;
                verticals.set(b, x);
                proof { lemma_sum_update(w1, b as int, x); }
                if n > 2 {
                    order = sort_indices_desc(&order, verticals);
                    proof { lemma_sort_desc(o1, verticals@); }
                }
            }
        } else {
            if verticals[a] > verticals[b] + 5 {
                let x = verticals[b] + 1;
                verticals.set(b, x);
                proof { lemma_sum_update(w1, b as int, x); }
                if n > 2 {
                    order = sort_indices_desc(&order, verticals);
                    proof { lemma_sort_desc(o1, verticals@); }
                }
            } else {
                let x = verticals[a] + 1;
                verticals.set(a, x);
                proof { lemma_sum_update(w1, a as int, x); }
            }
        }
        assert(step(o1, w1, over) == (order@, verticals@));
        rem = rem - 1;
    }
}

/// Brings the bar counts to a total of exactly [`NUM_OF_VERTICALS`], where
/// `sum` is their current total; see [`normalized`] for which counts change.
/// When several positions share the largest count they all move first.
#[allow(non_snake_case)]
#[verifier::rlimit(40)]
pub fn normalize_to_NUM_OF_VERTICALS(verticals: &mut Vec<usize>, sum: usize)
    requires
        old(verticals).len() >= 1,
        sum == seq_sum(old(verticals)@),
        old(verticals).len() == 1 ==> distance(sum as int) <= 1,
    ensures
        final(verticals)@ == normalized(old(verticals)@),
        final(verticals)@.len() == old(verticals)@.len(),
        seq_sum(final(verticals)@) == NUM_OF_VERTICALS,
        // every count moves towards the target, never away from it
        sum > NUM_OF_VERTICALS ==> forall|i: int|
            0 <= i < old(verticals)@.len() ==> #[trigger] final(verticals)@[i] <= old(verticals)@[i],
        sum < NUM_OF_VERTICALS ==> forall|i: int|
            0 <= i < old(verticals)@.len() ==> #[trigger] final(verticals)@[i] >= old(verticals)@[i],
        // the positions that move first hold the largest count, and all of them move
        forall|t: int|
            0 <= t < leading_moves(old(verticals)@) ==> old(verticals)@[#[trigger] largest_first(old(verticals)@)[t] as int]
                == old(verticals)@[largest_first(old(verticals)@)[0] as int] && final(verticals)@[largest_first(
                old(verticals)@,
            )[t] as int] != old(verticals)@[largest_first(old(verticals)@)[t] as int],
        forall|i: int|
            0 <= i < old(verticals)@.len() ==> #[trigger] old(verticals)@[i] <= old(verticals)@[largest_first(
                old(verticals)@,
            )[0] as int],
{
    let ghost v0 = verticals@;
    let order = index_order(verticals);
    let is_over = sum > NUM_OF_VERTICALS;
    let difference: usize = if is_over { sum - NUM_OF_VERTICALS } else { NUM_OF_VERTICALS - sum };
    let max_value = verticals[order[0]];
    let k = leading_run(&order, verticals, max_value);
    proof {
        lemma_run_len(order@, v0, max_value);
        lemma_top_dominates(order@, v0);
        lemma_elem_le_sum(v0, order@[0] as int);
        if max_value == 0 {
            lemma_sum_zero(v0);
        }
    }
    // positions sharing the largest count move first
    let m: usize = if k > 1 {
        if k < difference { k } else { difference }
    } else {
        0
    };
    move_prefix(verticals, &order, m, !is_over);
    let ghost v1 = verticals@;
    proof {
        lemma_bump_prefix(order@, v0, m as nat, !is_over);
        assert(m == leading_moves(v0));
        assert forall|i: int| 0 <= i < v0.len() implies (is_over ==> #[trigger] v1[i] <= v0[i]) && (!is_over ==> v1[i]
            >= v0[i]) by {
            if order@.take(m as int).contains(i as usize) {
                let t = choose|t: int| 0 <= t < m && order@.take(m as int)[t] == i as usize;
                assert(order@[t] == i as usize);
                assert(v1[order@[t] as int] == if !is_over { v0[order@[t] as int] + 1 } else { v0[order@[t] as int] - 1 });
            }
        }
        assert forall|t: int| 0 <= t < m implies #[trigger] v1[order@[t] as int] != v0[order@[t] as int] by {
            assert(v1[order@[t] as int] == if !is_over { v0[order@[t] as int] + 1 } else { v0[order@[t] as int] - 1 });
        }
    }
    let difference = difference - m;
    if difference == 0 {
        return;
    }
    proof {
        lemma_prefix_moved_sorted(order@, v0, m as nat, !is_over);
        lemma_top_dominates(order@, verticals@);
        if verticals@[order@[0] as int] == 0 {
            lemma_sum_zero(verticals@);
        }
        lemma_elem_le_sum(verticals@, order@[0] as int);
    }
    let a = order[0];
    if is_over {
        let x = verticals[a] - 1;
        verticals.set(a, x);
        let order2 = sort_indices_desc(&order, verticals);
        proof {
            lemma_sum_update(v1, a as int, x);
            lemma_sort_desc(order@, verticals@);
        }
        correction_steps(verticals, order2, difference - 1, true);
        proof {
            assert forall|t: int| 0 <= t < m implies #[trigger] verticals@[order@[t] as int] != v0[order@[t] as int] by {
                assert(v1[order@[t] as int] != v0[order@[t] as int]);
                assert(order@[t] < v0.len());
            }
        }
    } else {
        let x = verticals[a] + 1;
        verticals.set(a, x);
        proof {
            lemma_sum_update(v1, a as int, x);
            assert forall|i: int, j: int| 0 <= i < j < order@.len() implies verticals@[#[trigger] order@[i] as int] >= verticals@[#[trigger] order@[j] as int] by {
                assert(v1[order@[i] as int] >= v1[order@[j] as int]);
            }
        }
        correction_steps(verticals, order, difference - 1, false);
        proof {
            assert forall|t: int| 0 <= t < m implies #[trigger] verticals@[order@[t] as int] != v0[order@[t] as int] by {
                assert(v1[order@[t] as int] != v0[order@[t] as int]);
                assert(order@[t] < v0.len());
            }
        }
    }
}

/// Bars for one percentage given in hundredths of a percent: none for
/// zero, otherwise half the percentage rounded half away from zero, but at
/// least one. An undefined percentage (`None`) gets one bar.
pub open spec fn raw_verticals(hundredths: Option<usize>) -> usize {
    match hundredths {
        None => 1,
        Some(h) => if h == 0 {
            0
        } else if (h + 100) / 200 == 0 {
            1
        } else {
            ((h + 100) / 200) as usize
        },
    }
}

/// The bars of every percentage before normalization.
pub open spec fn raw_verticals_seq(percentages: Seq<Option<usize>>) -> Seq<usize> {
    Seq::new(percentages.len(), |i: int| raw_verticals(percentages[i]))
}

/// The bars drawn for `percentages` (hundredths of a percent).
pub open spec fn num_of_verticals(percentages: Seq<Option<usize>>) -> Seq<usize> {
    let raw = raw_verticals_seq(percentages);
    if seq_sum(raw) == NUM_OF_VERTICALS {
        raw
    } else {
        normalized(raw)
    }
}

pub(crate) fn raw_verticals_exec(p: Option<usize>) -> (r: usize)
    ensures
        r == raw_verticals(p),
{
    match p {
        None => 1,
        Some(h) => {
            if h == 0 {
                0
            } else {
                let q = h / 200 + (h % 200 + 100) / 200;
                assert(q == (h + 100) / 200) by (nonlinear_arith)
                    requires
                        q == h / 200 + (h % 200 + 100) / 200,
                ;
                if q == 0 {
                    1
                } else {
                    q
                }
            }
        },
    }
}

/// The number of bars that each percentage (in hundredths of a percent;
/// `None` where it is undefined) gets in the overview; together they make
/// exactly [`NUM_OF_VERTICALS`].
pub fn get_num_of_verticals(percentages: &[Option<usize>]) -> (verticals: Vec<usize>)
    requires
        percentages@.len() >= 1,
        seq_sum(raw_verticals_seq(percentages@)) <= usize::MAX,
        percentages@.len() == 1 ==> distance(seq_sum(raw_verticals_seq(percentages@))) <= 1,
    ensures
        verticals@ == num_of_verticals(percentages@),
        verticals@.len() == percentages@.len(),
        seq_sum(verticals@) == NUM_OF_VERTICALS,
{
    let mut verticals: Vec<usize> = Vec::new();
    let mut sum: usize = 0;
    let mut i: usize = 0;
    while i < percentages.len()
        invariant
            0 <= i <= percentages.len(),
            verticals@ == raw_verticals_seq(percentages@).take(i as int),
            sum == seq_sum(verticals@),
            seq_sum(raw_verticals_seq(percentages@)) <= usize::MAX,
        decreases percentages.len() - i,
    {
        let r = raw_verticals_exec(percentages[i]);
        proof {
            let raw = raw_verticals_seq(percentages@);
            assert(raw.take(i as int + 1).drop_last() =~= raw.take(i as int));
            lemma_prefix_sum_le(raw, i as int + 1);
        }
        verticals.push(r);
        assert(verticals@ =~= raw_verticals_seq(percentages@).take(i as int + 1));
        sum = sum + r;
        i = i + 1;
    }
    assert(raw_verticals_seq(percentages@).take(i as int) =~= raw_verticals_seq(percentages@));
    if sum != NUM_OF_VERTICALS {
        normalize_to_NUM_OF_VERTICALS(&mut verticals, sum);
    }
    verticals
}

/// A prefix of a sequence of counts sums to no more than the whole.
pub proof fn lemma_prefix_sum_le(s: Seq<usize>, k: int)
    requires
        0 <= k <= s.len(),
    ensures
        seq_sum(s.take(k)) <= seq_sum(s),
    decreases s.len() - k,
{
    if k < s.len() {
        lemma_prefix_sum_le(s, k + 1);
        assert(s.take(k + 1).drop_last() =~= s.take(k));
    } else {
        assert(s.take(k) =~= s);
    }
}

} // verus!
