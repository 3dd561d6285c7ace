//! The stones of a position in an order of their own.

use crate::baduk::{Color, Placement};
use vstd::prelude::*;
use vstd::relations::{sorted_by, total_ordering};

verus! {

/// Stones go by column, then by row, and black before white.
pub open spec fn stone_le(a: Placement, b: Placement) -> bool {
    a.point.x < b.point.x || (a.point.x == b.point.x && (a.point.y < b.point.y || (a.point.y
        == b.point.y && (a.color == Color::Black || b.color == Color::White))))
}

/// The order of stones, as a value.
pub open spec fn stone_order() -> spec_fn(Placement, Placement) -> bool {
    |a: Placement, b: Placement| stone_le(a, b)
}

/// The stones of a position in their order, whatever the order in which they are given.
pub open spec fn in_order(position: Seq<Placement>) -> Seq<Placement> {
    position.sort_by(stone_order())
}

proof fn lemma_stone_order()
    ensures
        total_ordering(stone_order()),
{
}

/// Positions with the same stones are the same in order.
pub proof fn same_stones_have_one_order(a: Seq<Placement>, b: Seq<Placement>)
    requires
        a.to_multiset() == b.to_multiset(),
    ensures
        in_order(a) == in_order(b),
{
    lemma_stone_order();
    a.lemma_sort_by_ensures(stone_order());
    b.lemma_sort_by_ensures(stone_order());
    vstd::seq_lib::lemma_sorted_unique(in_order(a), in_order(b), stone_order());
}

/// A position in order has the stones that it has in any order.
pub proof fn in_order_keeps_the_stones(position: Seq<Placement>)
    ensures
        in_order(position).to_multiset() == position.to_multiset(),
        in_order(position).len() == position.len(),
        sorted_by(in_order(position), stone_order()),
{
    lemma_stone_order();
    position.lemma_sort_by_ensures(stone_order());
    position.to_multiset_ensures();
    in_order(position).to_multiset_ensures();
}

/// A position that is given in order stays as it is.
pub proof fn stones_in_order_stay(position: Seq<Placement>)
    requires
        sorted_by(position, stone_order()),
    ensures
        in_order(position) == position,
{
    lemma_stone_order();
    in_order_keeps_the_stones(position);
    vstd::seq_lib::lemma_sorted_unique(in_order(position), position, stone_order());
}

/// Whether the first stone stands before the second one, or is the same.
fn comes_first(a: Placement, b: Placement) -> (first: bool)
    ensures
        first == stone_le(a, b),
{
    if a.point.x != b.point.x {
        a.point.x < b.point.x
    } else if a.point.y != b.point.y {
        a.point.y < b.point.y
    } else {
        a.color == Color::Black || b.color == Color::White
    }
}

proof fn lemma_insert(stones: Seq<Placement>, place: int, stone: Placement)
    requires
        0 <= place <= stones.len(),
    ensures
        stones.insert(place, stone).to_multiset() == stones.to_multiset().insert(stone),
{
    broadcast use vstd::multiset::group_multiset_axioms;

    let more = stones.insert(place, stone);
    more.to_multiset_ensures();
    assert(more[place] == stone);
    assert(more.contains(stone));
    assert(more.remove(place) =~= stones);
    assert(more.to_multiset().count(stone) > 0);
    assert(more.to_multiset() =~= stones.to_multiset().insert(stone));
}

/// The stones of a position in their order.
pub fn put_in_order(position: &[Placement]) -> (stones: Vec<Placement>)
    ensures
        stones@ == in_order(position@),
{
    let n: usize = position.len();
    let mut stones: Vec<Placement> = Vec::new();
    assert(stones@ =~= position@.take(0));
    for i in 0..n
        invariant
            n == position@.len(),
            sorted_by(stones@, stone_order()),
            stones@.to_multiset() == position@.take(i as int).to_multiset(),
    {
        let stone = position[i];
        let ghost before = stones@;
        let mut place: usize = stones.len();
        while place > 0 && !comes_first(stones[place - 1], stone)
            invariant
                place <= stones@.len(),
                stones@ == before,
                forall|j: int|
                    place <= j < before.len() ==> stone_le(stone, #[trigger] before[j]),
            decreases place,
        {
            place = place - 1;
        }
        stones.insert(place, stone);
        proof {
            assert forall|j: int, k: int| 0 <= j < k < stones@.len() implies #[trigger] (
            stone_order())(stones@[j], stones@[k]) by {
                let a = if j < place {
                    before[j]
                } else {
                    before[j - 1]
                };
                let b = if k < place {
                    before[k]
                } else {
                    before[k - 1]
                };
                if j != place && k != place {
                    assert((stone_order())(a, b));
                } else if j == place {
                    assert(stone_le(stone, b));
                } else {
                    assert(stone_le(before[place - 1], stone));
                    if j < place - 1 {
                        assert((stone_order())(before[j], before[place - 1]));
                    }
                }
            }
            lemma_insert(before, place as int, stone);
            let more = position@.take(i + 1);
            assert(more =~= position@.take(i as int).push(stone));
            position@.take(i as int).to_multiset_ensures();
        }
    }
    assert(position@.take(n as int) =~= position@);
    proof {
        in_order_keeps_the_stones(position@);
        lemma_stone_order();
        vstd::seq_lib::lemma_sorted_unique(stones@, in_order(position@), stone_order());
    }
    stones
}

} // verus!
