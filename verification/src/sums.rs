//! Sums over lists, which do not depend on the order of the list.

use vstd::prelude::*;

verus! {

/// The sum of the values of some items.
pub open spec fn total<A>(items: Seq<A>, value: spec_fn(A) -> nat) -> nat
    decreases items.len(),
{
    if items.len() == 0 {
        0
    } else {
        total(items.drop_last(), value) + value(items.last())
    }
}

proof fn lemma_total_remove<A>(items: Seq<A>, value: spec_fn(A) -> nat, i: int)
    requires
        0 <= i < items.len(),
    ensures
        total(items, value) == total(items.remove(i), value) + value(items[i]),
    decreases items.len(),
{
    if i == items.len() - 1 {
        assert(items.remove(i) =~= items.drop_last());
    } else {
        lemma_total_remove(items.drop_last(), value, i);
        assert(items.remove(i).drop_last() =~= items.drop_last().remove(i));
        assert(items.remove(i).last() == items.last());
    }
}

/// Items in another order have the same sum.
pub proof fn totals_ignore_order<A>(a: Seq<A>, b: Seq<A>, value: spec_fn(A) -> nat)
    requires
        a.to_multiset() == b.to_multiset(),
    ensures
        total(a, value) == total(b, value),
        a.len() == b.len(),
    decreases a.len(),
{
    broadcast use vstd::multiset::group_multiset_axioms;

    a.to_multiset_ensures();
    b.to_multiset_ensures();
    if a.len() > 0 {
        let item = a.last();
        let rest = a.drop_last();
        assert(a.contains(item));
        assert(a.to_multiset().count(item) > 0);
        assert(b.contains(item));
        let i = choose|i: int| 0 <= i < b.len() && b[i] == item;
        let others = b.remove(i);
        rest.to_multiset_ensures();
        assert(rest.push(item) =~= a);
        assert(rest.to_multiset() =~= others.to_multiset());
        totals_ignore_order(rest, others, value);
        lemma_total_remove(b, value, i);
    }
}

proof fn lemma_filter_count<A>(items: Seq<A>, pred: spec_fn(A) -> bool, item: A)
    ensures
        items.filter(pred).to_multiset().count(item) == (if pred(item) {
            items.to_multiset().count(item)
        } else {
            0
        }),
    decreases items.len(),
{
    broadcast use vstd::multiset::group_multiset_axioms;

    reveal(Seq::filter);
    items.to_multiset_ensures();
    items.filter(pred).to_multiset_ensures();
    if items.len() > 0 {
        let rest = items.drop_last();
        rest.to_multiset_ensures();
        rest.filter(pred).to_multiset_ensures();
        assert(rest.push(items.last()) =~= items);
        lemma_filter_count(rest, pred, item);
    }
}

/// The items with a property, taken out of lists that differ in order only, differ in order only.
pub proof fn filtered_lists_ignore_order<A>(a: Seq<A>, b: Seq<A>, pred: spec_fn(A) -> bool)
    requires
        a.to_multiset() == b.to_multiset(),
    ensures
        a.filter(pred).to_multiset() == b.filter(pred).to_multiset(),
{
    let first = a.filter(pred).to_multiset();
    let second = b.filter(pred).to_multiset();
    assert forall|item: A| #[trigger] first.count(item) == second.count(item) by {
        lemma_filter_count(a, pred, item);
        lemma_filter_count(b, pred, item);
    }
    assert(first =~= second);
}

/// Items without value can be left out of a sum.
pub proof fn worthless_items_can_be_left_out<A>(
    items: Seq<A>,
    pred: spec_fn(A) -> bool,
    value: spec_fn(A) -> nat,
)
    requires
        forall|item: A| !pred(item) ==> #[trigger] value(item) == 0,
    ensures
        total(items.filter(pred), value) == total(items, value),
    decreases items.len(),
{
    reveal(Seq::filter);
    if items.len() > 0 {
        let rest = items.drop_last();
        worthless_items_can_be_left_out(rest, pred, value);
        if pred(items.last()) {
            assert(items.filter(pred).drop_last() =~= rest.filter(pred));
        }
    }
}

} // verus!
