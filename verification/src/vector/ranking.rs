//! Ranking: the order in which measured values come out of a search.
//!
//! Values are ranked ascending and stably. Two values are exchanged only
//! where the later one is strictly less than the earlier one, so a value
//! that is not a number is never moved past anything, nor anything past it:
//! comparing with it counts as a tie.

use crate::scalar::{
    is_nan, lemma_less_than_orders_numbers, less_than, order_key, word_is_nan, word_less_than,
};
use vstd::prelude::*;

verus! {

/// Whether `order` lists each of the positions `0..n` exactly once.
pub open spec fn is_permutation(order: Seq<usize>, n: nat) -> bool {
    &&& order.len() == n
    &&& forall|i: int| 0 <= i < n ==> (#[trigger] order[i]) < n
    &&& forall|i: int, j: int| 0 <= i < j < n ==> order[i] != order[j]
    &&& forall|x: usize| x < n ==> #[trigger] order.contains(x)
}

/// Whether `order` ranks the first `n` positions of `values`: it lists each
/// of them once; no value is followed directly by a smaller one; and a
/// position stands before an earlier one only where its value is strictly
/// less.
pub open spec fn ranks_first(values: Seq<u32>, order: Seq<usize>, n: nat) -> bool {
    &&& is_permutation(order, n)
    &&& forall|i: int|
        0 <= i && i + 1 < order.len() ==> !less_than(
            values[order[i + 1] as int],
            values[#[trigger] order[i] as int],
        )
    &&& forall|i: int, j: int|
        0 <= i < j < order.len() && order[i] > order[j] ==> less_than(
            values[#[trigger] order[i] as int],
            values[#[trigger] order[j] as int],
        )
}

/// Whether `order` ranks all positions of `values`.
pub open spec fn is_ranking(values: Seq<u32>, order: Seq<usize>) -> bool {
    ranks_first(values, order, values.len())
}

/// Whether every value is a number.
pub open spec fn all_numbers(values: Seq<u32>) -> bool {
    forall|i: int| 0 <= i < values.len() ==> !is_nan(#[trigger] values[i])
}

/// Whether position `x` belongs before position `y`: its value is smaller,
/// or the two values are the same number and `x` is the earlier position.
pub open spec fn belongs_before(values: Seq<u32>, x: usize, y: usize) -> bool {
    order_key(values[x as int]) < order_key(values[y as int]) || (order_key(values[x as int])
        == order_key(values[y as int]) && x < y)
}

/// Whether `run` lists each of the positions `lo..hi` once, every one of
/// them before all that belong behind it.
spec fn is_sorted_run(values: Seq<u32>, run: Seq<usize>, lo: int, hi: int) -> bool {
    &&& run.len() == hi - lo
    &&& forall|i: int| 0 <= i < run.len() ==> lo <= (#[trigger] run[i]) < hi
    &&& forall|i: int, j: int|
        0 <= i < j < run.len() ==> belongs_before(values, #[trigger] run[i], #[trigger] run[j])
    &&& forall|x: usize| lo <= x < hi ==> #[trigger] run.contains(x)
}

/// Ranks the positions of `values` ascending by value, ties in the order in
/// which they were given. Where every value is a number this is a merge
/// sort; otherwise the values are inserted one by one, which takes time
/// quadratic in their number where they come in descending order.
pub fn rank(values: &[u32]) -> (order: Vec<usize>)
    ensures
        is_ranking(values@, order@),
{
    if all_are_numbers(values) {
        let order = sorted_run(values, 0, values.len());
        proof {
            lemma_sorted_run_is_ranking(values@, order@);
        }
        order
    } else {
        rank_by_insertion(values)
    }
}

/// Tests whether every value is a number.
pub fn all_are_numbers(values: &[u32]) -> (all: bool)
    ensures
        all == all_numbers(values@),
{
    let mut i: usize = 0;
    while i < values.len()
        invariant
            0 <= i <= values@.len(),
            forall|j: int| 0 <= j < i ==> !is_nan(#[trigger] values@[j]),
        decreases values@.len() - i,
    {
        if word_is_nan(values[i]) {
            return false;
        }
        i += 1;
    }
    true
}

/// The positions `lo..hi` of numbers, sorted by merging the two sorted
/// halves.
fn sorted_run(values: &[u32], lo: usize, hi: usize) -> (run: Vec<usize>)
    requires
        lo <= hi <= values@.len(),
        all_numbers(values@),
    ensures
        is_sorted_run(values@, run@, lo as int, hi as int),
    decreases hi - lo,
{
    let mut run: Vec<usize> = Vec::new();
    if hi - lo == 0 {
        run
    } else if hi - lo == 1 {
        run.push(lo);
        assert(run@[0] == lo);
        run
    } else {
        let mid = lo + (hi - lo) / 2;
        let left = sorted_run(values, lo, mid);
        let right = sorted_run(values, mid, hi);
        merge(values, &left, &right, Ghost(lo as int), Ghost(mid as int), Ghost(hi as int))
    }
}

/// Merges two adjoining sorted runs into one. A position of the right run
/// goes first only where its value is strictly less, so ties stay in
/// their order.
fn merge(
    values: &[u32],
    left: &Vec<usize>,
    right: &Vec<usize>,
    Ghost(lo): Ghost<int>,
    Ghost(mid): Ghost<int>,
    Ghost(hi): Ghost<int>,
) -> (run: Vec<usize>)
    requires
        0 <= lo <= mid <= hi <= values@.len(),
        all_numbers(values@),
        is_sorted_run(values@, left@, lo, mid),
        is_sorted_run(values@, right@, mid, hi),
    ensures
        is_sorted_run(values@, run@, lo, hi),
{
    let n = values.len();
    assert(left@.len() + right@.len() == hi - lo <= n);
    let mut run: Vec<usize> = Vec::with_capacity(left.len() + right.len());
    let mut i: usize = 0;
    let mut j: usize = 0;
    while i < left.len() || j < right.len()
        invariant
            0 <= lo <= mid <= hi <= values@.len(),
            all_numbers(values@),
            is_sorted_run(values@, left@, lo, mid),
            is_sorted_run(values@, right@, mid, hi),
            0 <= i <= left@.len(),
            0 <= j <= right@.len(),
            run@.len() == i + j,
            forall|a: int| 0 <= a < run@.len() ==> lo <= (#[trigger] run@[a]) < hi,
            forall|a: int, b: int|
                0 <= a < b < run@.len() ==> belongs_before(
                    values@,
                    #[trigger] run@[a],
                    #[trigger] run@[b],
                ),
            forall|a: int, t: int|
                0 <= a < run@.len() && i <= t < left@.len() ==> belongs_before(
                    values@,
                    #[trigger] run@[a],
                    #[trigger] left@[t],
                ),
            forall|a: int, t: int|
                0 <= a < run@.len() && j <= t < right@.len() ==> belongs_before(
                    values@,
                    #[trigger] run@[a],
                    #[trigger] right@[t],
                ),
            forall|t: int| 0 <= t < i ==> run@.contains(#[trigger] left@[t]),
            forall|t: int| 0 <= t < j ==> run@.contains(#[trigger] right@[t]),
        decreases left@.len() - i + right@.len() - j,
    {
        let take_left = if j == right.len() {
            true
        } else if i == left.len() {
            false
        } else {
            !word_less_than(values[right[j]], values[left[i]])
        };
        let ghost before = run@;
        if take_left {
            let x = left[i];
            proof {
                lemma_next_of_left(values@, left@, right@, lo, mid, hi, i as int, j as int);
            }
            run.push(x);
            i += 1;
        } else {
            let x = right[j];
            proof {
                lemma_next_of_right(values@, left@, right@, lo, mid, hi, i as int, j as int);
            }
            run.push(x);
            j += 1;
        }
        proof {
            assert forall|t: int| 0 <= t < i implies run@.contains(#[trigger] left@[t]) by {
                if before.contains(left@[t]) {
                    let a = choose|a: int| 0 <= a < before.len() && before[a] == left@[t];
                    assert(run@[a] == left@[t]);
                } else {
                    assert(run@[before.len() as int] == left@[t]);
                }
            }
            assert forall|t: int| 0 <= t < j implies run@.contains(#[trigger] right@[t]) by {
                if before.contains(right@[t]) {
                    let a = choose|a: int| 0 <= a < before.len() && before[a] == right@[t];
                    assert(run@[a] == right@[t]);
                } else {
                    assert(run@[before.len() as int] == right@[t]);
                }
            }
        }
    }
    proof {
        assert forall|x: usize| lo <= x < hi implies #[trigger] run@.contains(x) by {
            if x < mid {
                assert(left@.contains(x));
                let t = choose|t: int| 0 <= t < left@.len() && left@[t] == x;
                assert(run@.contains(left@[t]));
            } else {
                assert(right@.contains(x));
                let t = choose|t: int| 0 <= t < right@.len() && right@[t] == x;
                assert(run@.contains(right@[t]));
            }
        }
    }
    run
}

/// The head of the left run belongs before whatever is left of both runs,
/// where the head of the right run is not strictly less than it.
proof fn lemma_next_of_left(
    values: Seq<u32>,
    left: Seq<usize>,
    right: Seq<usize>,
    lo: int,
    mid: int,
    hi: int,
    i: int,
    j: int,
)
    requires
        0 <= lo <= mid <= hi <= values.len(),
        all_numbers(values),
        is_sorted_run(values, left, lo, mid),
        is_sorted_run(values, right, mid, hi),
        0 <= i < left.len(),
        0 <= j <= right.len(),
        j < right.len() ==> !less_than(values[right[j] as int], values[left[i] as int]),
    ensures
        forall|t: int| i < t < left.len() ==> belongs_before(values, left[i], #[trigger] left[t]),
        forall|t: int|
            j <= t < right.len() ==> belongs_before(values, left[i], #[trigger] right[t]),
{
    assert forall|t: int| j <= t < right.len() implies belongs_before(
        values,
        left[i],
        #[trigger] right[t],
    ) by {
        assert(left[i] < mid <= right[j]);
        if t > j {
            assert(belongs_before(values, right[j], right[t]));
        }
    }
}

/// The head of the right run belongs before whatever is left of both runs,
/// where it is strictly less than the head of the left run.
proof fn lemma_next_of_right(
    values: Seq<u32>,
    left: Seq<usize>,
    right: Seq<usize>,
    lo: int,
    mid: int,
    hi: int,
    i: int,
    j: int,
)
    requires
        0 <= lo <= mid <= hi <= values.len(),
        all_numbers(values),
        is_sorted_run(values, left, lo, mid),
        is_sorted_run(values, right, mid, hi),
        0 <= i <= left.len(),
        0 <= j < right.len(),
        i < left.len() ==> less_than(values[right[j] as int], values[left[i] as int]),
    ensures
        forall|t: int|
            i <= t < left.len() ==> belongs_before(values, right[j], #[trigger] left[t]),
        forall|t: int|
            j < t < right.len() ==> belongs_before(values, right[j], #[trigger] right[t]),
{
    assert forall|t: int| i <= t < left.len() implies belongs_before(
        values,
        right[j],
        #[trigger] left[t],
    ) by {
        if t > i {
            assert(belongs_before(values, left[i], left[t]));
        }
    }
}

/// A sorted run over all positions of numbers is a ranking.
proof fn lemma_sorted_run_is_ranking(values: Seq<u32>, order: Seq<usize>)
    requires
        all_numbers(values),
        is_sorted_run(values, order, 0, values.len() as int),
    ensures
        is_ranking(values, order),
{
    assert forall|i: int, j: int| 0 <= i < j < order.len() implies order[i] != order[j] by {
        assert(belongs_before(values, order[i], order[j]));
    }
    assert forall|i: int| 0 <= i && i + 1 < order.len() implies !less_than(
        values[order[i + 1] as int],
        values[#[trigger] order[i] as int],
    ) by {
        assert(belongs_before(values, order[i], order[i + 1]));
    }
    assert forall|i: int, j: int|
        0 <= i < j < order.len() && order[i] > order[j] implies less_than(
        values[#[trigger] order[i] as int],
        values[#[trigger] order[j] as int],
    ) by {
        assert(belongs_before(values, order[i], order[j]));
    }
}

/// Ranks by insertion: each position goes behind everything that is not
/// strictly greater.
fn rank_by_insertion(values: &[u32]) -> (order: Vec<usize>)
    ensures
        is_ranking(values@, order@),
{
    let n = values.len();
    let mut order: Vec<usize> = Vec::with_capacity(n);
    let mut next: usize = 0;
    while next < n
        invariant
            0 <= next <= n,
            n == values@.len(),
            ranks_first(values@, order@, next as nat),
        decreases n - next,
    {
        let value = values[next];
        // walk left past every value that is strictly greater
        let mut p: usize = next;
        while p > 0 && word_less_than(value, values[order[p - 1]])
            invariant
                0 <= p <= next < n,
                n == values@.len(),
                value == values@[next as int],
                ranks_first(values@, order@, next as nat),
                forall|q: int|
                    p <= q < next ==> less_than(value, values@[#[trigger] order@[q] as int]),
            decreases p,
        {
            p -= 1;
        }
        let ghost before = order@;
        order.insert(p, next);
        proof {
            lemma_insert_keeps_permutation(before, next, p);
            lemma_insert_keeps_ascent(values@, before, next, p);
            lemma_insert_keeps_inversions_strict(values@, before, next, p);
        }
        next += 1;
    }
    order
}

/// Where each entry of a sequence stands once `next` has been put in at `p`.
proof fn lemma_inserted_entries(before: Seq<usize>, next: usize, p: usize)
    requires
        0 <= p <= before.len(),
    ensures
        before.insert(p as int, next).len() == before.len() + 1,
        before.insert(p as int, next)[p as int] == next,
        forall|i: int| 0 <= i < p ==> #[trigger] before.insert(p as int, next)[i] == before[i],
        forall|i: int|
            p < i <= before.len() ==> #[trigger] before.insert(p as int, next)[i] == before[i
                - 1],
{
}

/// Putting the newest position into a list of all earlier ones gives a list
/// of all positions up to it.
proof fn lemma_insert_keeps_permutation(before: Seq<usize>, next: usize, p: usize)
    requires
        0 <= p <= next,
        is_permutation(before, next as nat),
    ensures
        is_permutation(before.insert(p as int, next), (next + 1) as nat),
{
    let after = before.insert(p as int, next);
    lemma_inserted_entries(before, next, p);
    assert forall|i: int| 0 <= i < next + 1 implies (#[trigger] after[i]) < next + 1 by {
        if i < p {
            assert(after[i] == before[i]);
        } else if i > p {
            assert(after[i] == before[i - 1]);
        }
    }
    assert forall|i: int, j: int| 0 <= i < j < next + 1 implies after[i] != after[j] by {
        let i0 = if i < p { i } else { i - 1 };
        let j0 = if j < p { j } else { j - 1 };
        if i != p {
            assert(after[i] == before[i0]);
        }
        if j != p {
            assert(after[j] == before[j0]);
        }
    }
    assert forall|x: usize| x < next + 1 implies #[trigger] after.contains(x) by {
        if x == next {
            assert(after[p as int] == x);
        } else {
            assert(before.contains(x));
            let i = choose|i: int| 0 <= i < before.len() && before[i] == x;
            if i < p {
                assert(after[i] == x);
            } else {
                assert(after[i + 1] == x);
            }
        }
    }
}

/// Put in behind a value that is not greater and before the values that
/// are, the newest position is not followed directly by a smaller value, nor
/// does it follow one directly.
proof fn lemma_insert_keeps_ascent(values: Seq<u32>, before: Seq<usize>, next: usize, p: usize)
    requires
        next < values.len(),
        0 <= p <= next,
        ranks_first(values, before, next as nat),
        p < next ==> less_than(values[next as int], values[before[p as int] as int]),
        p > 0 ==> !less_than(values[next as int], values[before[p - 1] as int]),
    ensures
        forall|i: int|
            0 <= i && i + 1 < next + 1 ==> !less_than(
                values[before.insert(p as int, next)[i + 1] as int],
                values[#[trigger] before.insert(p as int, next)[i] as int],
            ),
{
    let after = before.insert(p as int, next);
    lemma_inserted_entries(before, next, p);
    assert forall|i: int| 0 <= i && i + 1 < next + 1 implies !less_than(
        values[after[i + 1] as int],
        values[#[trigger] after[i] as int],
    ) by {
        if i + 1 < p {
            assert(after[i] == before[i] && after[i + 1] == before[i + 1]);
        } else if i + 1 == p {
            assert(after[i] == before[p - 1] && after[i + 1] == next);
        } else if i == p {
            assert(after[i] == next && after[i + 1] == before[p as int]);
            lemma_less_than_orders_numbers(
                values[next as int],
                values[before[p as int] as int],
                0,
            );
        } else {
            assert(after[i] == before[i - 1] && after[i + 1] == before[i]);
        }
    }
}

/// Put in before values that are all strictly greater, the newest position
/// stands before earlier ones only where its value is strictly less.
proof fn lemma_insert_keeps_inversions_strict(
    values: Seq<u32>,
    before: Seq<usize>,
    next: usize,
    p: usize,
)
    requires
        next < values.len(),
        0 <= p <= next,
        ranks_first(values, before, next as nat),
        forall|q: int|
            p <= q < next ==> less_than(values[next as int], values[#[trigger] before[q] as int]),
    ensures
        forall|i: int, j: int|
            0 <= i < j < next + 1 && before.insert(p as int, next)[i] > before.insert(
                p as int,
                next,
            )[j] ==> less_than(
                values[#[trigger] before.insert(p as int, next)[i] as int],
                values[#[trigger] before.insert(p as int, next)[j] as int],
            ),
{
    let after = before.insert(p as int, next);
    lemma_inserted_entries(before, next, p);
    assert forall|i: int, j: int| 0 <= i < j < next + 1 && after[i] > after[j] implies less_than(
        values[#[trigger] after[i] as int],
        values[#[trigger] after[j] as int],
    ) by {
        if i == p {
            assert(after[j] == before[j - 1]);
        } else if j == p {
            assert(after[i] == before[i]);
            assert(before[i] < next);
        } else {
            let i0 = if i < p { i } else { i - 1 };
            let j0 = if j < p { j } else { j - 1 };
            assert(after[i] == before[i0] && after[j] == before[j0]);
        }
    }
}

/// Where every value is a number, a ranking is ascending throughout: no
/// value is followed, at any distance, by a smaller one.
pub proof fn lemma_ranking_ascends(values: Seq<u32>, order: Seq<usize>, i: int, j: int)
    requires
        is_ranking(values, order),
        all_numbers(values),
        0 <= i <= j < order.len(),
    ensures
        order_key(values[order[i] as int]) <= order_key(values[order[j] as int]),
    decreases j - i,
{
    if i < j {
        lemma_ranking_ascends(values, order, i, j - 1);
        assert(!less_than(values[order[j - 1 + 1] as int], values[order[j - 1] as int]));
    }
}

/// Where every value is a number, each position of a ranking belongs before
/// all that follow it: a ranking is the stable ascending order.
pub proof fn lemma_ranking_is_stable(values: Seq<u32>, order: Seq<usize>, i: int, j: int)
    requires
        is_ranking(values, order),
        all_numbers(values),
        0 <= i < j < order.len(),
    ensures
        belongs_before(values, order[i], order[j]),
{
    lemma_ranking_ascends(values, order, i, j);
}

/// Where every value is a number, there is only one ranking.
pub proof fn lemma_ranking_unique(values: Seq<u32>, a: Seq<usize>, b: Seq<usize>)
    requires
        is_ranking(values, a),
        is_ranking(values, b),
        all_numbers(values),
    ensures
        a == b,
{
    assert forall|k: int| 0 <= k < a.len() implies a[k] == b[k] by {
        lemma_rankings_agree(values, a, b, k);
    }
    assert(a =~= b);
}

/// Two rankings of numbers agree at position `k`, as they do before it.
proof fn lemma_rankings_agree(values: Seq<u32>, a: Seq<usize>, b: Seq<usize>, k: int)
    requires
        is_ranking(values, a),
        is_ranking(values, b),
        all_numbers(values),
        0 <= k < a.len(),
    ensures
        forall|i: int| 0 <= i <= k ==> a[i] == b[i],
    decreases k,
{
    if k > 0 {
        lemma_rankings_agree(values, a, b, k - 1);
    }
    let x = a[k];
    let y = b[k];
    if x != y {
        // each of the two stands further back in the other ranking
        assert(b.contains(x));
        let p = choose|p: int| 0 <= p < b.len() && b[p] == x;
        assert(a.contains(y));
        let q = choose|q: int| 0 <= q < a.len() && a[q] == y;
        assert(p > k) by {
            if p < k {
                assert(a[p] == b[p]);
            }
        }
        assert(q > k) by {
            if q < k {
                assert(b[q] == a[q]);
            }
        }
        lemma_ranking_is_stable(values, b, k, p);
        lemma_ranking_is_stable(values, a, k, q);
    }
}

} // verus!
