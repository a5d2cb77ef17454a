//! A stable ordering of the retry queue by retry count.
use vstd::prelude::*;
use vstd::set_lib::{lemma_int_range, lemma_subset_equality, set_int_range};

verus! {

/// Position `i` comes before position `j`: it has the smaller count, or the same count and stands
/// earlier.
pub open spec fn precedes(counts: Seq<usize>, i: int, j: int) -> bool {
    counts[i] < counts[j] || (counts[i] == counts[j] && i < j)
}

/// `order` lists every position of `counts` once, in ascending order of count, positions with
/// equal counts in their original order.
pub open spec fn is_stable_order(order: Seq<usize>, counts: Seq<usize>) -> bool {
    &&& order.len() == counts.len()
    &&& forall|a: int| 0 <= a < order.len() ==> (#[trigger] order[a]) < counts.len()
    &&& ascending(order, counts)
}

/// Every entry of `order` precedes every later one.
pub open spec fn ascending(order: Seq<usize>, counts: Seq<usize>) -> bool {
    forall|a: int, b: int|
        0 <= a < b < order.len() ==> precedes(
            counts,
            #[trigger] order[a] as int,
            #[trigger] order[b] as int,
        )
}

/// All entries of `s` lie in `lo..hi`.
spec fn within(s: Seq<usize>, lo: int, hi: int) -> bool {
    forall|a: int| 0 <= a < s.len() ==> lo <= (#[trigger] s[a]) < hi
}

/// Every entry of `a` precedes every entry of `b` from `from` on.
spec fn all_precede(counts: Seq<usize>, a: Seq<usize>, b: Seq<usize>, from: int) -> bool {
    forall|x: int, y: int|
        0 <= x < a.len() && from <= y < b.len() ==> precedes(
            counts,
            #[trigger] a[x] as int,
            #[trigger] b[y] as int,
        )
}

/// Merges two ascending runs; every position in `left` is smaller than every position in `right`.
fn merge(counts: &Vec<usize>, left: &Vec<usize>, right: &Vec<usize>, Ghost(mid): Ghost<int>) -> (out:
    Vec<usize>)
    requires
        ascending(left@, counts@),
        ascending(right@, counts@),
        0 <= mid <= counts@.len(),
        within(left@, 0, mid),
        within(right@, mid, counts@.len() as int),
        left@.len() + right@.len() <= usize::MAX,
    ensures
        ascending(out@, counts@),
        out@.len() == left@.len() + right@.len(),
        forall|lo: int, hi: int|
            #![trigger within(out@, lo, hi)]
            within(left@, lo, hi) && within(right@, lo, hi) ==> within(out@, lo, hi),
{
    let mut out: Vec<usize> = Vec::new();
    let mut i: usize = 0;
    let mut j: usize = 0;
    while i < left.len() || j < right.len()
        invariant
            ascending(left@, counts@),
            ascending(right@, counts@),
            0 <= mid <= counts@.len(),
            within(left@, 0, mid),
            within(right@, mid, counts@.len() as int),
            left@.len() + right@.len() <= usize::MAX,
            i <= left@.len(),
            j <= right@.len(),
            out@.len() == i + j,
            ascending(out@, counts@),
            all_precede(counts@, out@, left@, i as int),
            all_precede(counts@, out@, right@, j as int),
            forall|lo: int, hi: int|
                #![trigger within(out@, lo, hi)]
                within(left@, lo, hi) && within(right@, lo, hi) ==> within(out@, lo, hi),
        decreases left@.len() + right@.len() - i - j,
    {
        let take_left: bool = j == right.len() || (i < left.len() && counts[left[i]]
            <= counts[right[j]]);
        let ghost before = out@;
        if take_left {
            out.push(left[i]);
            assert forall|y: int| j <= y < right@.len() implies precedes(
                counts@,
                left@[i as int] as int,
                #[trigger] right@[y] as int,
            ) by {
                if y > j {
                    assert(precedes(counts@, right@[j as int] as int, right@[y] as int));
                }
            }
            i = i + 1;
        } else {
            out.push(right[j]);
            assert forall|x: int| i <= x < left@.len() implies precedes(
                counts@,
                right@[j as int] as int,
                #[trigger] left@[x] as int,
            ) by {
                if x > i {
                    assert(precedes(counts@, left@[i as int] as int, left@[x] as int));
                }
            }
            j = j + 1;
        }
        proof {
            assert(out@ == before.push(out@.last()));
            assert forall|lo: int, hi: int| within(left@, lo, hi) && within(right@, lo, hi) implies
                #[trigger] within(out@, lo, hi) by {
                assert(within(before, lo, hi));
            }
        }
    }
    out
}

/// Sorts the positions `lo..hi`.
fn order_range(counts: &Vec<usize>, lo: usize, hi: usize) -> (order: Vec<usize>)
    requires
        lo <= hi <= counts@.len(),
    ensures
        order@.len() == hi - lo,
        within(order@, lo as int, hi as int),
        ascending(order@, counts@),
    decreases hi - lo,
{
    if hi - lo <= 1 {
        let mut order: Vec<usize> = Vec::new();
        if lo < hi {
            order.push(lo);
        }
        order
    } else {
        let mid: usize = lo + (hi - lo) / 2;
        let left = order_range(counts, lo, mid);
        let right = order_range(counts, mid, hi);
        let order = merge(counts, &left, &right, Ghost(mid as int));
        assert(within(left@, lo as int, hi as int));
        assert(within(right@, lo as int, hi as int));
        assert(within(order@, lo as int, hi as int));
        order
    }
}

/// The positions of `counts` in ascending order of count; positions with equal counts keep their
/// order.
pub fn stable_order(counts: &Vec<usize>) -> (order: Vec<usize>)
    ensures
        is_stable_order(order@, counts@),
        order@.len() == counts@.len(),
        forall|a: int| 0 <= a < order@.len() ==> (#[trigger] order@[a]) < counts@.len(),
        forall|a: int, b: int|
            0 <= a < b < order@.len() ==> {
                let first = #[trigger] order@[a];
                let second = #[trigger] order@[b];
                &&& counts@[first as int] <= counts@[second as int]
                &&& counts@[first as int] == counts@[second as int] ==> first < second
            },
{
    let order = order_range(counts, 0, counts.len());
    assert forall|a: int| 0 <= a < order@.len() implies (#[trigger] order@[a]) < counts@.len() by {
        assert(within(order@, 0, counts@.len() as int));
    }
    order
}

/// A stable order lists every position: each one occurs in it.
pub proof fn lemma_stable_order_complete(
    order: Seq<usize>,
    counts: Seq<usize>,
    position: int,
) -> (place: int)
    requires
        is_stable_order(order, counts),
        0 <= position < counts.len(),
    ensures
        0 <= place < order.len(),
        order[place] == position,
{
    let ints = order.map_values(|p: usize| p as int);
    let all = set_int_range(0, counts.len() as int);
    assert(ints.no_duplicates()) by {
        assert forall|a: int, b: int| 0 <= a < b < ints.len() implies ints[a] != ints[b] by {
            assert(precedes(counts, order[a] as int, order[b] as int));
        }
    }
    lemma_int_range(0, counts.len() as int);
    ints.unique_seq_to_set();
    assert(ints.to_set().subset_of(all)) by {
        assert forall|x: int| ints.to_set().contains(x) implies all.contains(x) by {
            let a = ints.index_of(x);
            assert(order[a] < counts.len());
        }
    }
    lemma_subset_equality(ints.to_set(), all);
    assert(ints.to_set().contains(position));
    ints.index_of(position)
}

/// There is only one stable order.
pub proof fn lemma_stable_order_unique(first: Seq<usize>, second: Seq<usize>, counts: Seq<usize>)
    requires
        is_stable_order(first, counts),
        is_stable_order(second, counts),
    ensures
        first == second,
{
    assert forall|a: int| 0 <= a < first.len() implies first[a] == second[a] by {
        lemma_same_at(first, second, counts, a);
    }
    assert(first =~= second);
}

proof fn lemma_same_at(first: Seq<usize>, second: Seq<usize>, counts: Seq<usize>, a: int)
    requires
        is_stable_order(first, counts),
        is_stable_order(second, counts),
        0 <= a < first.len(),
    ensures
        first[a] == second[a],
    decreases a,
{
    assert forall|b: int| 0 <= b < a implies first[b] == second[b] by {
        lemma_same_at(first, second, counts, b);
    }
    let x = lemma_stable_order_complete(second, counts, first[a] as int);
    let y = lemma_stable_order_complete(first, counts, second[a] as int);
    if x < a {
        assert(first[x] == second[x]);
        assert(precedes(counts, first[x] as int, first[a] as int));
    } else if y < a {
        assert(first[y] == second[y]);
        assert(precedes(counts, second[y] as int, second[a] as int));
    } else if x > a && y > a {
        assert(precedes(counts, second[a] as int, second[x] as int));
        assert(precedes(counts, first[a] as int, first[y] as int));
    }
}

/// In a stable order, a position stands as many places from the front as there are positions with a
/// smaller count, and positions in front of it with the same count.
pub proof fn lemma_stable_order_place(order: Seq<usize>, counts: Seq<usize>, place: int)
    requires
        is_stable_order(order, counts),
        0 <= place < order.len(),
    ensures
        ({
            let position = order[place] as int;
            let ahead = Set::new(
                |other: int|
                    0 <= other < counts.len() && (counts[other] < counts[position] || (
                    counts[other] == counts[position] && other < position)),
            );
            &&& position < counts.len()
            &&& ahead.finite()
            &&& ahead.len() == place
        }),
{
    let position = order[place] as int;
    let ahead = Set::new(
        |other: int|
            0 <= other < counts.len() && (counts[other] < counts[position] || (counts[other]
                == counts[position] && other < position)),
    );
    let front = order.take(place).map_values(|p: usize| p as int);
    assert forall|a: int, b: int| 0 <= a < b < front.len() implies front[a] != front[b] by {
        assert(precedes(counts, order[a] as int, order[b] as int));
    }
    front.unique_seq_to_set();
    assert forall|other: int| front.to_set().contains(other) <==> ahead.contains(other) by {
        if front.to_set().contains(other) {
            let a = front.index_of(other);
            assert(order[a] == other);
            assert(precedes(counts, order[a] as int, order[place] as int));
        }
        if ahead.contains(other) {
            let a = lemma_stable_order_complete(order, counts, other);
            if a > place {
                assert(precedes(counts, order[place] as int, order[a] as int));
            }
            assert(front[a] == other);
        }
    }
    assert(front.to_set() =~= ahead);
}

} // verus!
