//! Ordering rows by up to three numbers.

use vstd::prelude::*;

verus! {

/// What a row is ordered by: first by `a`, among equals by `b`, then by `c`.
#[derive(Clone, Copy, Debug, PartialEq, Eq, Structural)]
pub struct Rank {
    pub a: i128,
    pub b: i128,
    pub c: i128,
}

/// `x` does not come behind `y`.
pub open spec fn rank_le(x: Rank, y: Rank) -> bool {
    x.a < y.a || (x.a == y.a && (x.b < y.b || (x.b == y.b && x.c <= y.c)))
}

/// Whether `x` does not come behind `y`.
pub fn rank_not_behind(x: &Rank, y: &Rank) -> (r: bool)
    ensures
        r == rank_le(*x, *y),
{
    x.a < y.a || (x.a == y.a && (x.b < y.b || (x.b == y.b && x.c <= y.c)))
}

/// `order` holds the position `p`.
pub open spec fn lists(order: Seq<usize>, p: int) -> bool {
    exists|i: int| 0 <= i < order.len() && #[trigger] order[i] == p
}

/// `order` lists every position of `ranks` once, lowest rank first, and positions of
/// equal rank in their own order.
pub open spec fn is_sorted_order(ranks: Seq<Rank>, order: Seq<usize>) -> bool {
    &&& order.len() == ranks.len()
    &&& forall|i: int| 0 <= i < order.len() ==> (#[trigger] order[i]) < ranks.len()
    &&& forall|i: int, j: int| 0 <= i < j < order.len() ==> order[i] != order[j]
    &&& forall|p: int| 0 <= p < ranks.len() ==> #[trigger] lists(order, p)
    &&& forall|i: int, j: int|
        0 <= i < j < order.len() ==> rank_le(ranks[order[i] as int], ranks[order[j] as int])
    &&& forall|i: int, j: int|
        0 <= i < j < order.len() && ranks[order[i] as int] == ranks[order[j] as int] ==>
            order[i] < order[j]
}

/// The positions of `ranks`, lowest rank first.
pub fn sorted_order(ranks: &Vec<Rank>) -> (order: Vec<usize>)
    ensures
        is_sorted_order(ranks@, order@),
{
    let mut order: Vec<usize> = Vec::new();
    let mut k: usize = 0;
    while k < ranks.len()
        invariant
            k <= ranks@.len(),
            order@.len() == k,
            forall|i: int| 0 <= i < order@.len() ==> (#[trigger] order@[i]) < k,
            forall|i: int, j: int| 0 <= i < j < order@.len() ==> order@[i] != order@[j],
            forall|p: int| 0 <= p < k ==> #[trigger] lists(order@, p),
            forall|i: int, j: int|
                0 <= i < j < order@.len() ==>
                    rank_le(ranks@[order@[i] as int], ranks@[order@[j] as int]),
            forall|i: int, j: int|
                0 <= i < j < order@.len()
                    && ranks@[order@[i] as int] == ranks@[order@[j] as int] ==>
                        order@[i] < order@[j],
        decreases ranks@.len() - k,
    {
        // the new position goes behind all that do not come behind it
        let mut pos: usize = order.len();
        while pos > 0 && !rank_not_behind(&ranks[order[pos - 1]], &ranks[k])
            invariant
                pos <= order@.len(),
                order@.len() == k,
                k < ranks@.len(),
                forall|i: int| 0 <= i < order@.len() ==> (#[trigger] order@[i]) < k,
                forall|i: int| pos <= i < order@.len() ==>
                    !rank_le(ranks@[#[trigger] order@[i] as int], ranks@[k as int]),
            decreases pos,
        {
            pos -= 1;
        }
        let ghost before = order@;
        order.insert(pos, k);
        proof {
            let now = order@;
            before.insert_ensures(pos as int, k);
            assert forall|i: int| 0 <= i < now.len() implies (#[trigger] now[i]) < k + 1 by {
                if i < pos {
                    assert(now[i] == before[i]);
                } else if i > pos {
                    assert(now[i] == before[i - 1]);
                }
            }
            assert forall|i: int, j: int| 0 <= i < j < now.len() implies now[i] != now[j] by {
                if i < pos {
                    assert(now[i] == before[i]);
                } else if i > pos {
                    assert(now[i] == before[i - 1]);
                }
                if j < pos {
                    assert(now[j] == before[j]);
                } else if j > pos {
                    assert(now[j] == before[j - 1]);
                }
            }
            assert forall|p: int| 0 <= p < k + 1 implies #[trigger] lists(now, p) by {
                if p == k {
                    assert(now[pos as int] == p);
                } else {
                    assert(lists(before, p));
                    let i = choose|i: int| 0 <= i < before.len() && #[trigger] before[i] == p;
                    if i < pos {
                        assert(now[i] == p);
                    } else {
                        assert(now[i + 1] == p);
                    }
                }
            }
            assert forall|i: int, j: int| 0 <= i < j < now.len() implies rank_le(
                ranks@[now[i] as int],
                ranks@[now[j] as int],
            ) && (ranks@[now[i] as int] == ranks@[now[j] as int] ==> now[i] < now[j]) by {
                if i < pos {
                    assert(now[i] == before[i]);
                } else if i > pos {
                    assert(now[i] == before[i - 1]);
                }
                if j < pos {
                    assert(now[j] == before[j]);
                } else if j > pos {
                    assert(now[j] == before[j - 1]);
                }
                if j == pos {
                    // all before `pos` do not come behind the new one
                    if pos > 0 {
                        assert(rank_le(ranks@[before[pos - 1] as int], ranks@[k as int]));
                        if i < pos - 1 {
                            assert(rank_le(ranks@[before[i] as int],
                                ranks@[before[pos - 1] as int]));
                        }
                    }
                }
                if i == pos {
                    assert(!rank_le(ranks@[before[j - 1] as int], ranks@[k as int]));
                }
            }
        }
        k += 1;
    }
    order
}

} // verus!
