//! Rankings: the positions of a list in the order a comparison puts them.

use vstd::prelude::*;

verus! {

/// A ranking with one more position in it: in front of the first one it goes
/// before, and behind all of them where it goes before none.
pub open spec fn placed(order: Seq<int>, i: int, before: spec_fn(int, int) -> bool) -> Seq<int>
    decreases order.len(),
{
    if order.len() == 0 {
        seq![i]
    } else if before(i, order[0]) {
        seq![i] + order
    } else {
        seq![order[0]] + placed(order.skip(1), i, before)
    }
}

/// The first `n` positions, ranked; those that go before neither of each other
/// stay in the order of the list.
pub open spec fn ranking(n: nat, before: spec_fn(int, int) -> bool) -> Seq<int>
    decreases n,
{
    if n == 0 {
        Seq::empty()
    } else {
        placed(ranking((n - 1) as nat, before), n - 1, before)
    }
}

/// Whether a comparison orders the first `n` positions: no two go before each
/// other, and "does not go before" carries over.
pub open spec fn orders(n: nat, before: spec_fn(int, int) -> bool) -> bool {
    &&& forall|i: int, j: int|
        0 <= i < n && 0 <= j < n && #[trigger] before(i, j) ==> !before(j, i)
    &&& forall|i: int, j: int, k: int|
        0 <= i < n && 0 <= j < n && 0 <= k < n && !#[trigger] before(i, j) && !#[trigger] before(
            j,
            k,
        ) ==> !before(i, k)
}

/// Whether a ranking is in order: none goes before one that stands in front of
/// it, and of two that go before neither, the earlier in the list comes first.
pub open spec fn in_order(order: Seq<int>, before: spec_fn(int, int) -> bool) -> bool {
    forall|a: int, b: int|
        0 <= a < b < order.len() ==> {
            &&& !before(#[trigger] order[b], #[trigger] order[a])
            &&& before(order[a], order[b]) || order[a] < order[b]
        }
}

/// Where a position is placed: the ranking up to there, itself, and the rest.
pub proof fn lemma_placed(order: Seq<int>, i: int, before: spec_fn(int, int) -> bool) -> (at: int)
    ensures
        0 <= at <= order.len(),
        placed(order, i, before) == order.take(at) + seq![i] + order.skip(at),
        forall|k: int| 0 <= k < at ==> !before(i, #[trigger] order[k]),
        at < order.len() ==> before(i, order[at]),
    decreases order.len(),
{
    if order.len() == 0 {
        assert(placed(order, i, before) =~= order.take(0) + seq![i] + order.skip(0));
        0
    } else if before(i, order[0]) {
        assert(placed(order, i, before) =~= order.take(0) + seq![i] + order.skip(0));
        0
    } else {
        let rest = order.skip(1);
        let at = lemma_placed(rest, i, before);
        assert(placed(order, i, before) =~= order.take(at + 1) + seq![i] + order.skip(at + 1));
        assert forall|k: int| 0 <= k < at + 1 implies !before(i, #[trigger] order[k]) by {
            if k > 0 {
                assert(order[k] == rest[k - 1]);
            }
        }
        if at < rest.len() {
            assert(rest[at] == order[at + 1]);
        }
        at + 1
    }
}

/// A ranking holds every position once, and in order.
pub proof fn law_a_ranking_is_in_order(n: nat, before: spec_fn(int, int) -> bool)
    requires
        orders(n, before),
    ensures
        ranking(n, before).len() == n,
        forall|k: int| 0 <= k < n ==> 0 <= #[trigger] ranking(n, before)[k] < n,
        forall|i: int| 0 <= i < n ==> #[trigger] ranking(n, before).contains(i),
        in_order(ranking(n, before), before),
    decreases n,
{
    if n > 0 {
        let last = n - 1;
        law_a_ranking_is_in_order(last as nat, before);
        let order = ranking(last as nat, before);
        let at = lemma_placed(order, last, before);
        let new = ranking(n, before);
        assert forall|i: int| 0 <= i < n implies #[trigger] new.contains(i) by {
            if i == last {
                assert(new[at] == i);
            } else {
                assert(order.contains(i));
                let k = choose|k: int| 0 <= k < order.len() && order[k] == i;
                if k < at {
                    assert(new[k] == i);
                } else {
                    assert(new[k + 1] == i);
                }
            }
        }
        assert forall|a: int, b: int| 0 <= a < b < new.len() implies {
            &&& !before(#[trigger] new[b], #[trigger] new[a])
            &&& before(new[a], new[b]) || new[a] < new[b]
        } by {
            if a < at && b < at {
                assert(new[a] == order[a] && new[b] == order[b]);
            } else if a > at {
                assert(new[a] == order[a - 1] && new[b] == order[b - 1]);
            } else if a < at && b > at {
                assert(new[a] == order[a] && new[b] == order[b - 1]);
            } else if b == at {
                assert(new[a] == order[a] && new[b] == last);
                assert(!before(last, order[a]));
            } else {
                assert(a == at && new[a] == last && new[b] == order[b - 1]);
                assert(before(last, order[at]));
                let x = order[b - 1];
                if b - 1 > at {
                    assert(!before(x, order[at]));
                    if before(x, last) {
                        assert(!before(last, x));
                    }
                }
            }
        }
    }
}

/// Positions as the contracts speak of them.
pub open spec fn positions(order: Seq<usize>) -> Seq<int> {
    Seq::new(order.len(), |i: int| order[i] as int)
}

/// Whether one key is greater than another: what a descending ranking goes by.
pub open spec fn greater(keys: Seq<u64>) -> spec_fn(int, int) -> bool {
    |i: int, j: int| keys[i] > keys[j]
}

/// Ranks keys, the greatest first.
pub fn rank_descending(keys: &Vec<u64>) -> (order: Vec<usize>)
    ensures
        positions(order@) == ranking(keys@.len(), greater(keys@)),
        order@.len() == keys@.len(),
        forall|k: int| 0 <= k < order@.len() ==> #[trigger] order@[k] < keys@.len(),
{
    let ghost before = greater(keys@);
    let mut order: Vec<usize> = Vec::new();
    let mut i: usize = 0;
    assert(positions(order@) =~= ranking(0, before));
    while i < keys.len()
        invariant
            i <= keys@.len(),
            before == greater(keys@),
            positions(order@) == ranking(i as nat, before),
            order@.len() == i,
            forall|k: int| 0 <= k < order@.len() ==> #[trigger] order@[k] < i,
        decreases keys.len() - i,
    {
        let ghost was = positions(order@);
        let mut at: usize = 0;
        while at < order.len() && !(keys[i] > keys[order[at]])
            invariant
                at <= order@.len(),
                i < keys@.len(),
                order@.len() == i,
                before == greater(keys@),
                was == positions(order@),
                forall|k: int| 0 <= k < order@.len() ==> #[trigger] order@[k] < i,
                forall|k: int| 0 <= k < at ==> !before(i as int, #[trigger] was[k]),
            decreases order.len() - at,
        {
            assert(was[at as int] == order@[at as int]);
            at += 1;
        }
        proof {
            let found = lemma_placed(was, i as int, before);
            if at < order@.len() {
                assert(was[at as int] == order@[at as int]);
            }
            if found < at {
                assert(!before(i as int, was[found]));
            }
            if at < found {
                assert(!before(i as int, was[at as int]));
            }
        }
        order.insert(at, i);
        assert(positions(order@) =~= was.take(at as int) + seq![i as int] + was.skip(at as int));
        i += 1;
    }
    order
}

} // verus!
