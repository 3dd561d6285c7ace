//! Stable sorting by a pair of numbers.

use vstd::prelude::*;
use vstd::relations::{sorted_by, total_ordering};

verus! {

/// The lexicographic order of triples.
pub open spec fn triple_le(a: (u64, u64, usize), b: (u64, u64, usize)) -> bool {
    a.0 < b.0 || (a.0 == b.0 && (a.1 < b.1 || (a.1 == b.1 && a.2 <= b.2)))
}

/// The lexicographic order of triples, as a value.
pub open spec fn triple_order() -> spec_fn((u64, u64, usize), (u64, u64, usize)) -> bool {
    |a: (u64, u64, usize), b: (u64, u64, usize)| triple_le(a, b)
}

/// The keys, each with the place where it stands.
pub open spec fn placed(keys: Seq<(u64, u64)>) -> Seq<(u64, u64, usize)> {
    Seq::new(keys.len(), |i: int| (keys[i].0, keys[i].1, i as usize))
}

/// The places of the keys in the order of a stable sort: the smallest key first, and of two equal
/// keys the one that stands first.
pub open spec fn stable_order(keys: Seq<(u64, u64)>) -> Seq<int> {
    placed(keys).sort_by(triple_order()).map_values(|t: (u64, u64, usize)| t.2 as int)
}

/// The items that stand at the given places, in the order of the places.
pub open spec fn arranged<A>(items: Seq<A>, places: Seq<int>) -> Seq<A> {
    places.map_values(|place: int| items[place])
}

/// Sorts with `slice::sort` of the standard library. Integers compare by their value and tuples
/// lexicographically, so the triples end up in lexicographic order, none lost and none added.
#[verifier::external_body]
fn sort_triples(triples: &mut Vec<(u64, u64, usize)>)
    ensures
        sorted_by(final(triples)@, triple_order()),
        final(triples)@.to_multiset() == old(triples)@.to_multiset(),
{
    triples.sort();
}

proof fn lemma_triple_order()
    ensures
        total_ordering(triple_order()),
{
}

/// A stable order names every place once, puts the keys in ascending order, and leaves equal keys
/// in the order in which they stand.
pub proof fn stable_order_sorts(keys: Seq<(u64, u64)>)
    requires
        keys.len() <= usize::MAX,
    ensures
        stable_order(keys).len() == keys.len(),
        forall|i: int|
            0 <= i < keys.len() ==> 0 <= #[trigger] stable_order(keys)[i] < keys.len(),
        forall|place: int|
            0 <= place < keys.len() ==> #[trigger] stable_order(keys).contains(place),
        stable_order(keys).no_duplicates(),
        forall|i: int, j: int|
            #![trigger stable_order(keys)[i], stable_order(keys)[j]]
            0 <= i < j < keys.len() ==> {
                let a = stable_order(keys)[i];
                let b = stable_order(keys)[j];
                ||| keys[a].0 < keys[b].0
                ||| keys[a].0 == keys[b].0 && keys[a].1 < keys[b].1
                ||| keys[a] == keys[b] && a < b
            },
{
    let triples = placed(keys);
    let sorted = triples.sort_by(triple_order());
    lemma_triple_order();
    triples.lemma_sort_by_ensures(triple_order());
    triples.to_multiset_ensures();
    sorted.to_multiset_ensures();
    assert(sorted.len() == keys.len());
    assert forall|i: int| 0 <= i < sorted.len() implies {
        let t = #[trigger] sorted[i];
        0 <= t.2 < keys.len() && t == triples[t.2 as int]
    } by {
        assert(sorted.to_multiset().count(sorted[i]) > 0);
        assert(triples.contains(sorted[i]));
        let place = choose|place: int| 0 <= place < triples.len() && triples[place] == sorted[i];
        assert(triples[place].2 == place);
    }
    assert forall|i: int, j: int| 0 <= i < j < sorted.len() implies sorted[i].2 != sorted[j].2 by {
        if sorted[i].2 == sorted[j].2 {
            assert(sorted[i] == sorted[j]);
            assert(triples.no_duplicates()) by {
                assert forall|a: int, b: int|
                    0 <= a < triples.len() && 0 <= b < triples.len() && a != b implies triples[a]
                    != triples[b] by {
                    assert(triples[a].2 == a && triples[b].2 == b);
                }
            }
            triples.lemma_multiset_has_no_duplicates();
            sorted.lemma_multiset_has_no_duplicates_conv();
        }
    }
    assert forall|place: int| 0 <= place < keys.len() implies #[trigger] stable_order(
        keys,
    ).contains(place) by {
        assert(triples.contains(triples[place]));
        assert(triples.to_multiset().count(triples[place]) > 0);
        assert(sorted.contains(triples[place]));
        let i = choose|i: int| 0 <= i < sorted.len() && sorted[i] == triples[place];
        assert(stable_order(keys)[i] == place);
    }
    assert forall|i: int, j: int| 0 <= i < j < keys.len() implies {
        let a = #[trigger] stable_order(keys)[i];
        let b = #[trigger] stable_order(keys)[j];
        ||| keys[a].0 < keys[b].0
        ||| keys[a].0 == keys[b].0 && keys[a].1 < keys[b].1
        ||| keys[a] == keys[b] && a < b
    } by {
        let order = triple_order();
        assert(order(sorted[i], sorted[j]));
        assert(sorted[i].2 != sorted[j].2);
    }
}

/// The places of the keys in the order of a stable sort.
pub fn order_of(keys: &Vec<(u64, u64)>) -> (order: Vec<usize>)
    ensures
        order@.map_values(|place: usize| place as int) == stable_order(keys@),
        order@.len() == keys@.len(),
        forall|i: int| 0 <= i < order@.len() ==> #[trigger] order@[i] < keys@.len(),
{
    let n: usize = keys.len();
    let mut triples: Vec<(u64, u64, usize)> = Vec::new();
    for i in 0..n
        invariant
            n == keys@.len(),
            triples@ == placed(keys@).take(i as int),
    {
        triples.push((keys[i].0, keys[i].1, i));
        assert(placed(keys@).take(i + 1) =~= placed(keys@).take(i as int).push(
            placed(keys@)[i as int],
        ));
    }
    assert(triples@ =~= placed(keys@));
    sort_triples(&mut triples);
    proof {
        lemma_triple_order();
        placed(keys@).lemma_sort_by_ensures(triple_order());
        vstd::seq_lib::lemma_sorted_unique(
            triples@,
            placed(keys@).sort_by(triple_order()),
            triple_order(),
        );
        stable_order_sorts(keys@);
        triples@.to_multiset_ensures();
        placed(keys@).to_multiset_ensures();
    }
    let mut order: Vec<usize> = Vec::new();
    for i in 0..n
        invariant
            n == keys@.len() == triples@.len(),
            triples@ == placed(keys@).sort_by(triple_order()),
            order@.len() == i,
            forall|j: int| 0 <= j < i ==> order@[j] == triples@[j].2,
    {
        order.push(triples[i].2);
    }
    assert(order@.map_values(|place: usize| place as int) =~= stable_order(keys@));
    assert forall|i: int| 0 <= i < order@.len() implies #[trigger] order@[i] < keys@.len() by {
        assert(stable_order(keys@)[i] == order@[i]);
    }
    order
}

} // verus!
