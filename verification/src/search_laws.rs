//! What holds of searches as a whole.

use crate::answers::{
    answers, color_of_number, counts_players, filtered_for, filtered_results, move_keys, page_count,
    page_results, passes, passes_all, player_count, selected, shown_page, sorted_results,
    PlayerFilter, SortBy, WasmSearchReturn, MAX_NEXT_MOVES,
};
use crate::baduk::{occupied, Color, GameView, Placement, Point, Rotation};
use crate::board::BoardModel;
use crate::cache::{has_key, place_of, position_key};
use crate::games::distinct_paths;
use crate::matching::{
    attempts, captured_set, empty_within, family, game_result, lemma_attempt_scores,
    lemma_sweep_within, located, moves_rotation, results_view, rotation_index, searchable,
    surroundings, sweeps, transformed_moves, worth, AttemptView, SearchResultView, MAX_POSITION,
};
use crate::next_moves::{
    are_next_moves, next_count, next_placement, next_score, result_weight, step_count, step_score,
    NextMove, MIN_GAME_COUNT,
};
use crate::sorting::{arranged, stable_order, stable_order_sorts};
use crate::stones::{in_order, in_order_keeps_the_stones, same_stones_have_one_order};
use crate::sums::{
    filtered_lists_ignore_order, total, totals_ignore_order, worthless_items_can_be_left_out,
};
use crate::wasm_search::{
    cache_after_search, found_in, lemma_search_keeps_memory, position_matches, remembers,
    result_by_path, rotation_of_number, score_keys, searchable_in, whole_game, within_limits,
    CACHE_CAPACITY,
};
use vstd::prelude::*;
use vstd::relations::{sorted_by, total_ordering};

verus! {

/// Without filters every result is shown, in the order of the scores unless asked otherwise.
pub proof fn no_filter_keeps_all(results: Seq<SearchResultView>)
    ensures
        filtered_results(results, Seq::empty()) == results,
        selected(results, Seq::empty(), SortBy::BestMatch) == results,
    decreases results.len(),
{
    reveal(Seq::filter);
    if results.len() > 0 {
        no_filter_keeps_all(results.drop_last());
        assert(results =~= results.drop_last().push(results.last()));
    }
}

/// A result is shown if and only if it was found and passes all filters.
pub proof fn filters_demand_all(
    results: Seq<SearchResultView>,
    filters: Seq<PlayerFilter>,
    result: SearchResultView,
)
    ensures
        filtered_results(results, filters).contains(result) <==> results.contains(result)
            && passes_all(filters, result),
{
    let pred = |result: SearchResultView| passes_all(filters, result);
    if results.filter(pred).contains(result) {
        results.lemma_filter_contains_rev(pred, result);
        let kept = results.filter(pred);
        let i = choose|i: int| 0 <= i < kept.len() && kept[i] == result;
        results.lemma_filter_pred(pred, i);
    }
    if results.contains(result) && passes_all(filters, result) {
        let i = choose|i: int| 0 <= i < results.len() && results[i] == result;
        results.lemma_filter_contains(pred, i);
    }
}

/// Filtering by one list of filters and then by another is filtering by both lists at once.
pub proof fn filters_add_up(
    results: Seq<SearchResultView>,
    first: Seq<PlayerFilter>,
    second: Seq<PlayerFilter>,
)
    ensures
        filtered_results(filtered_results(results, first), second) == filtered_results(
            results,
            first + second,
        ),
    decreases results.len(),
{
    reveal(Seq::filter);
    if results.len() > 0 {
        let last = results.last();
        let rest = results.drop_last();
        filters_add_up(rest, first, second);
        lemma_passes_both(first, second, last);
        if passes_all(first, last) {
            assert(filtered_results(rest, first).push(last).drop_last() =~= filtered_results(
                rest,
                first,
            ));
        }
    }
}

/// Filters that are all among other filters keep at least as much: what the others keep is taken,
/// in order, from what they keep.
pub proof fn more_filters_keep_less(
    results: Seq<SearchResultView>,
    fewer: Seq<PlayerFilter>,
    more: Seq<PlayerFilter>,
    sort_by: SortBy,
)
    requires
        forall|i: int| 0 <= i < fewer.len() ==> more.contains(#[trigger] fewer[i]),
    ensures
        selected(results, more, sort_by) == filtered_results(
            selected(results, fewer, sort_by),
            more,
        ),
        selected(results, more, sort_by).len() <= selected(results, fewer, sort_by).len(),
{
    let sorted = sorted_results(results, sort_by);
    let both = |result: SearchResultView| passes_all(fewer + more, result);
    let alone = |result: SearchResultView| passes_all(more, result);
    assert forall|result: SearchResultView| #[trigger] both(result) == alone(result) by {
        lemma_passes_both(fewer, more, result);
        lemma_passes_fewer(fewer, more, result);
    }
    assert(both =~= alone);
    filters_add_up(sorted, fewer, more);
    selected(results, fewer, sort_by).lemma_filter_len(alone);
}

/// The same filters in another order, or repeated, keep the same results and count the same
/// players.
pub proof fn order_of_filters_is_unimportant(
    results: Seq<SearchResultView>,
    first: Seq<PlayerFilter>,
    second: Seq<PlayerFilter>,
    sort_by: SortBy,
    counts: Map<i16, usize>,
)
    requires
        forall|i: int| 0 <= i < first.len() ==> second.contains(#[trigger] first[i]),
        forall|i: int| 0 <= i < second.len() ==> first.contains(#[trigger] second[i]),
    ensures
        selected(results, first, sort_by) == selected(results, second, sort_by),
        counts_players(counts, selected(results, first, sort_by), first) == counts_players(
            counts,
            selected(results, second, sort_by),
            second,
        ),
{
    let by_first = |result: SearchResultView| passes_all(first, result);
    let by_second = |result: SearchResultView| passes_all(second, result);
    assert forall|result: SearchResultView| #[trigger] by_first(result) == by_second(result) by {
        lemma_passes_fewer(first, second, result);
        lemma_passes_fewer(second, first, result);
    }
    assert(by_first =~= by_second);
    let shown = selected(results, first, sort_by);
    assert forall|id: i16| #[trigger] filtered_for(first, id) == filtered_for(second, id) by {
        lemma_filtered_for_fewer(first, second, id);
        lemma_filtered_for_fewer(second, first, id);
    }
    if counts_players(counts, shown, first) {
        assert forall|id: i16|
            #![trigger counts.contains_key(id)]
            #![trigger player_count(shown, id)]
            {
                &&& counts.contains_key(id) <==> player_count(shown, id) > 0 && !filtered_for(
                    second,
                    id,
                )
                &&& counts.contains_key(id) ==> counts[id] == player_count(shown, id)
            } by {
            assert(filtered_for(first, id) == filtered_for(second, id));
        }
    }
    if counts_players(counts, shown, second) {
        assert forall|id: i16|
            #![trigger counts.contains_key(id)]
            #![trigger player_count(shown, id)]
            {
                &&& counts.contains_key(id) <==> player_count(shown, id) > 0 && !filtered_for(
                    first,
                    id,
                )
                &&& counts.contains_key(id) ==> counts[id] == player_count(shown, id)
            } by {
            assert(filtered_for(first, id) == filtered_for(second, id));
        }
    }
}

proof fn lemma_passes_fewer(
    fewer: Seq<PlayerFilter>,
    more: Seq<PlayerFilter>,
    result: SearchResultView,
)
    requires
        forall|i: int| 0 <= i < fewer.len() ==> more.contains(#[trigger] fewer[i]),
    ensures
        passes_all(more, result) ==> passes_all(fewer, result),
{
    if passes_all(more, result) {
        assert forall|i: int| 0 <= i < fewer.len() implies passes(#[trigger] fewer[i], result) by {
            assert(more.contains(fewer[i]));
            let j = choose|j: int| 0 <= j < more.len() && more[j] == fewer[i];
            assert(passes(more[j], result));
        }
    }
}

proof fn lemma_filtered_for_fewer(fewer: Seq<PlayerFilter>, more: Seq<PlayerFilter>, id: i16)
    requires
        forall|i: int| 0 <= i < fewer.len() ==> more.contains(#[trigger] fewer[i]),
    ensures
        filtered_for(fewer, id) ==> filtered_for(more, id),
{
    if filtered_for(fewer, id) {
        let i = choose|i: int| 0 <= i < fewer.len() && (#[trigger] fewer[i]).player_id == id;
        assert(more.contains(fewer[i]));
        let j = choose|j: int| 0 <= j < more.len() && more[j] == fewer[i];
        assert(more[j].player_id == id);
    }
}

proof fn lemma_passes_both(
    first: Seq<PlayerFilter>,
    second: Seq<PlayerFilter>,
    result: SearchResultView,
)
    ensures
        passes_all(first + second, result) <==> passes_all(first, result) && passes_all(
            second,
            result,
        ),
{
    let both = first + second;
    if passes_all(both, result) {
        assert forall|i: int| 0 <= i < first.len() implies passes(#[trigger] first[i], result) by {
            assert(both[i] == first[i]);
        }
        assert forall|i: int| 0 <= i < second.len() implies passes(
            #[trigger] second[i],
            result,
        ) by {
            assert(both[first.len() + i] == second[i]);
        }
    }
}

/// The first pages, one after the other.
pub open spec fn joined_pages(
    results: Seq<SearchResultView>,
    page_size: nat,
    pages: nat,
) -> Seq<SearchResultView>
    decreases pages,
{
    if pages == 0 {
        Seq::empty()
    } else {
        joined_pages(results, page_size, (pages - 1) as nat) + page_results(
            results,
            (pages - 1) as nat,
            page_size,
        )
    }
}

/// The number of pages is the smallest with enough room for all results.
proof fn lemma_page_count(num_results: nat, page_size: nat)
    requires
        page_size > 0,
    ensures
        page_count(num_results, page_size) * page_size >= num_results,
        page_count(num_results, page_size) > 0 ==> (page_count(num_results, page_size) - 1)
            * page_size < num_results,
        num_results == 0 ==> page_count(num_results, page_size) == 0,
{
    let total = num_results + page_size - 1;
    let size = page_size as int;
    let pages = total / size;
    vstd::arithmetic::div_mod::lemma_fundamental_div_mod(total, size);
    vstd::arithmetic::div_mod::lemma_mod_bound(total, size);
    vstd::arithmetic::div_mod::lemma_div_pos_is_pos(total, size);
    if num_results == 0 {
        vstd::arithmetic::div_mod::lemma_basic_div(total, size);
    }
    assert(pages * size >= num_results && (pages - 1) * size < num_results) by (nonlinear_arith)
        requires
            total == size * pages + total % size,
            0 <= total % size < size,
            total == num_results + size - 1,
    ;
}

/// The pages hold every result, in order, and no result twice.
pub proof fn pages_join_to_all_results(results: Seq<SearchResultView>, page_size: nat)
    requires
        page_size > 0,
    ensures
        joined_pages(results, page_size, page_count(results.len(), page_size)) == results,
{
    let pages = page_count(results.len(), page_size);
    lemma_page_count(results.len(), page_size);
    lemma_joined_pages(results, page_size, pages);
    assert(results.take(results.len() as int) =~= results);
}

proof fn lemma_joined_pages(results: Seq<SearchResultView>, page_size: nat, pages: nat)
    requires
        page_size > 0,
        pages <= page_count(results.len(), page_size),
    ensures
        joined_pages(results, page_size, pages) == results.take(
            if pages * page_size < results.len() {
                (pages * page_size) as int
            } else {
                results.len() as int
            },
        ),
    decreases pages,
{
    if pages == 0 {
        assert(pages * page_size == 0) by (nonlinear_arith)
            requires
                pages == 0,
        ;
        assert(results.take(0) =~= Seq::empty());
    } else {
        let before = (pages - 1) as nat;
        lemma_joined_pages(results, page_size, before);
        lemma_page_count(results.len(), page_size);
        let count = page_count(results.len(), page_size);
        assert(before * page_size < results.len()) by (nonlinear_arith)
            requires
                (count - 1) * page_size < results.len(),
                before <= count - 1,
        ;
        assert(pages * page_size == before * page_size + page_size) by (nonlinear_arith)
            requires
                pages == before + 1,
        ;
        let end = if pages * page_size < results.len() {
            (pages * page_size) as int
        } else {
            results.len() as int
        };
        let start = (before * page_size) as int;
        let page = page_results(results, before, page_size);
        assert(page == results.subrange(start, end));
        assert(joined_pages(results, page_size, before) == results.take(start));
        assert(results.take(start) + results.subrange(start, end) =~= results.take(end));
    }
}

/// The results of some answers, one after the other.
pub open spec fn joined_answers(list: Seq<WasmSearchReturn>) -> Seq<SearchResultView>
    decreases list.len(),
{
    if list.len() == 0 {
        Seq::empty()
    } else {
        joined_answers(list.drop_last()) + results_view(list.last().results@)
    }
}

/// The answers for all pages, one after the other, hold every result, in order and once. Every page
/// but the last one is full, and all answers tell the same numbers and count the same players.
pub proof fn answers_join_to_all_results(
    list: Seq<WasmSearchReturn>,
    results: Seq<SearchResultView>,
    position: Seq<Placement>,
    next_color: u8,
    page_size: usize,
    filters: Seq<PlayerFilter>,
)
    requires
        page_size > 0,
        list.len() == page_count(results.len(), page_size as nat) <= usize::MAX,
        forall|k: int|
            0 <= k < list.len() ==> answers(
                #[trigger] list[k],
                results,
                position,
                next_color,
                k as usize,
                page_size,
                filters,
            ),
    ensures
        joined_answers(list) == results,
        forall|k: int|
            0 <= k < list.len() ==> {
                &&& (#[trigger] list[k]).num_results == results.len()
                &&& list[k].total_pages == list.len()
                &&& list[k].current_page == k
                &&& k < list.len() - 1 ==> list[k].results@.len() == page_size
            },
        forall|k: int, l: int|
            #![trigger list[k], list[l]]
            0 <= k < list.len() && 0 <= l < list.len() ==> list[k].player_counts@
                == list[l].player_counts@,
{
    let size = page_size as nat;
    let pages = page_count(results.len(), size);
    lemma_page_count(results.len(), size);
    pages_join_to_all_results(results, size);
    lemma_joined_answers(list, results, position, next_color, page_size, filters, pages);
    assert(list.take(pages as int) =~= list);
    assert forall|k: int| 0 <= k < list.len() implies {
        &&& (#[trigger] list[k]).num_results == results.len()
        &&& list[k].total_pages == list.len()
        &&& list[k].current_page == k
        &&& k < list.len() - 1 ==> list[k].results@.len() == page_size
    } by {
        assert(answers(list[k], results, position, next_color, k as usize, page_size, filters));
        assert(results_view(list[k].results@).len() == list[k].results@.len());
        if k < list.len() - 1 {
            assert((k + 1) * size < results.len()) by (nonlinear_arith)
                requires
                    (pages - 1) * size < results.len(),
                    k + 1 <= pages - 1,
            ;
            assert(k * size + size == (k + 1) * size) by (nonlinear_arith);
        }
    }
    assert forall|k: int, l: int|
        #![trigger list[k], list[l]]
        0 <= k < list.len() && 0 <= l < list.len() implies list[k].player_counts@
        == list[l].player_counts@ by {
        let first = list[k].player_counts@;
        let second = list[l].player_counts@;
        assert(counts_players(first, results, filters));
        assert(counts_players(second, results, filters));
        assert forall|id: i16| #[trigger] first.contains_key(id) == second.contains_key(id) by {
            assert(player_count(results, id) >= 0);
        }
        assert forall|id: i16| #[trigger] first.contains_key(id) implies first[id]
            == second[id] by {
            assert(player_count(results, id) >= 0);
        }
        assert(first =~= second);
    }
}

proof fn lemma_joined_answers(
    list: Seq<WasmSearchReturn>,
    results: Seq<SearchResultView>,
    position: Seq<Placement>,
    next_color: u8,
    page_size: usize,
    filters: Seq<PlayerFilter>,
    pages: nat,
)
    requires
        page_size > 0,
        list.len() == page_count(results.len(), page_size as nat) <= usize::MAX,
        pages <= list.len(),
        forall|k: int|
            0 <= k < list.len() ==> answers(
                #[trigger] list[k],
                results,
                position,
                next_color,
                k as usize,
                page_size,
                filters,
            ),
    ensures
        joined_answers(list.take(pages as int)) == joined_pages(results, page_size as nat, pages),
    decreases pages,
{
    if pages > 0 {
        let k = pages - 1;
        lemma_joined_answers(
            list,
            results,
            position,
            next_color,
            page_size,
            filters,
            (pages - 1) as nat,
        );
        assert(list.take(pages as int).drop_last() =~= list.take(k));
        assert(list.take(pages as int).last() == list[k]);
        assert(answers(list[k], results, position, next_color, k as usize, page_size, filters));
    }
}

/// If there are results at all, the page that is shown exists and is not empty, whichever page is
/// asked for; it is the one that is asked for if there are that many, and the last one if not.
pub proof fn shown_page_has_results(results: Seq<SearchResultView>, page: nat, page_size: nat)
    requires
        page_size > 0,
        results.len() > 0,
    ensures
        ({
            let pages = page_count(results.len(), page_size);
            let shown = shown_page(page, results.len(), page_size);
            &&& shown < pages
            &&& page < pages ==> shown == page
            &&& page >= pages ==> shown == pages - 1
            &&& 0 < page_results(results, shown, page_size).len() <= page_size
        }),
{
    let pages = page_count(results.len(), page_size);
    let shown = shown_page(page, results.len(), page_size);
    lemma_page_count(results.len(), page_size);
    assert(pages > 0) by (nonlinear_arith)
        requires
            pages * page_size >= results.len(),
            results.len() > 0,
    ;
    assert(shown * page_size < results.len()) by (nonlinear_arith)
        requires
            (pages - 1) * page_size < results.len(),
            shown <= pages - 1,
    ;
}

/// Sorting by the number of moves keeps every result, puts those with fewer moves first, and leaves
/// those with equally many moves in the order of their scores.
pub proof fn least_moves_come_first(results: Seq<SearchResultView>)
    requires
        results.len() <= usize::MAX,
    ensures
        ({
            let sorted = sorted_results(results, SortBy::LeastMoves);
            let places = stable_order(move_keys(results));
            &&& sorted.len() == results.len() == places.len()
            &&& places.no_duplicates()
            &&& forall|i: int|
                0 <= i < sorted.len() ==> 0 <= places[i] < results.len() && #[trigger] sorted[i]
                    == results[places[i]]
            &&& forall|i: int, j: int|
                #![trigger sorted[i], sorted[j]]
                0 <= i < j < sorted.len() ==> sorted[i].last_move_matched
                    < sorted[j].last_move_matched || (sorted[i].last_move_matched
                    == sorted[j].last_move_matched && places[i] < places[j])
        }),
{
    let sorted = sorted_results(results, SortBy::LeastMoves);
    let keys = move_keys(results);
    let places = stable_order(keys);
    stable_order_sorts(keys);
    assert forall|i: int, j: int|
        #![trigger sorted[i], sorted[j]]
        0 <= i < j < sorted.len() implies sorted[i].last_move_matched < sorted[j].last_move_matched
        || (sorted[i].last_move_matched == sorted[j].last_move_matched && places[i]
        < places[j]) by {
        assert(keys[places[i]].0 == sorted[i].last_move_matched);
        assert(keys[places[j]].0 == sorted[j].last_move_matched);
    }
}

/// The order in which places come when they are sorted by key.
spec fn place_order(keys: Seq<(u64, u64)>) -> spec_fn(int, int) -> bool {
    |a: int, b: int|
        keys[a].0 < keys[b].0 || (keys[a].0 == keys[b].0 && (keys[a].1 < keys[b].1 || (keys[a].1
            == keys[b].1 && a <= b)))
}

/// Taking out items of a list that is put in some order takes out their places.
proof fn lemma_filter_arranged<A>(items: Seq<A>, places: Seq<int>, pred: spec_fn(A) -> bool)
    ensures
        arranged(items, places).filter(pred) == arranged(
            items,
            places.filter(|place: int| pred(items[place])),
        ),
    decreases places.len(),
{
    reveal(Seq::filter);
    let by_place = |place: int| pred(items[place]);
    if places.len() > 0 {
        let rest = places.drop_last();
        lemma_filter_arranged(items, rest, pred);
        assert(arranged(items, places).drop_last() =~= arranged(items, rest));
        assert(arranged(items, places).last() == items[places.last()]);
        assert(arranged(items, places.filter(by_place)) =~= arranged(items, places).filter(pred));
    } else {
        assert(arranged(items, places.filter(by_place)) =~= arranged(items, places).filter(pred));
    }
}

/// Taking places out of a list keeps what is left in order.
proof fn lemma_filter_ascending(places: Seq<int>, pred: spec_fn(int) -> bool)
    requires
        forall|i: int, j: int| 0 <= i < j < places.len() ==> places[i] < places[j],
    ensures
        ({
            let kept = places.filter(pred);
            &&& forall|i: int, j: int| 0 <= i < j < kept.len() ==> kept[i] < kept[j]
            &&& forall|i: int| 0 <= i < kept.len() ==> places.contains(#[trigger] kept[i])
        }),
    decreases places.len(),
{
    reveal(Seq::filter);
    let kept = places.filter(pred);
    assert forall|i: int| 0 <= i < kept.len() implies places.contains(#[trigger] kept[i]) by {
        assert(kept.contains(kept[i]));
        places.lemma_filter_contains_rev(pred, kept[i]);
    }
    if places.len() > 0 {
        let rest = places.drop_last();
        lemma_filter_ascending(rest, pred);
        let before = rest.filter(pred);
        assert forall|i: int| 0 <= i < before.len() implies #[trigger] before[i]
            < places.last() by {
            assert(rest.contains(before[i]));
            let k = choose|k: int| 0 <= k < rest.len() && rest[k] == before[i];
            assert(places[k] < places[places.len() - 1]);
        }
    }
}

/// Sorting by the number of moves and then filtering is filtering and then sorting.
proof fn lemma_filter_sorted(
    results: Seq<SearchResultView>,
    pred: spec_fn(SearchResultView) -> bool,
)
    requires
        results.len() <= usize::MAX,
    ensures
        sorted_results(results, SortBy::LeastMoves).filter(pred) == sorted_results(
            results.filter(pred),
            SortBy::LeastMoves,
        ),
{
    let keys = move_keys(results);
    let order = stable_order(keys);
    let by_place = |place: int| pred(results[place]);
    let left = order.filter(by_place);
    let all = Seq::new(results.len(), |place: int| place);
    let kept_places = all.filter(by_place);
    let kept = results.filter(pred);
    let kept_keys = move_keys(kept);
    let kept_order = stable_order(kept_keys);
    let right = arranged(kept_places, kept_order);
    let le = place_order(keys);
    stable_order_sorts(keys);
    lemma_filter_arranged(results, order, pred);
    assert(arranged(results, all) =~= results);
    lemma_filter_arranged(results, all, pred);
    assert(kept == arranged(results, kept_places));
    results.lemma_filter_len(pred);
    stable_order_sorts(kept_keys);
    lemma_filter_ascending(all, by_place);
    // Both lists hold the same places.
    assert forall|i: int| 0 <= i < left.len() implies 0 <= #[trigger] left[i] < results.len()
        && by_place(left[i]) && order.contains(left[i]) by {
        order.lemma_filter_pred(by_place, i);
        assert(left.contains(left[i]));
        order.lemma_filter_contains_rev(by_place, left[i]);
        let k = choose|k: int| 0 <= k < order.len() && order[k] == left[i];
        assert(0 <= order[k] < keys.len());
    }
    assert forall|i: int| 0 <= i < kept_places.len() implies 0 <= #[trigger] kept_places[i]
        < results.len() && by_place(kept_places[i]) by {
        all.lemma_filter_pred(by_place, i);
        assert(all.contains(kept_places[i]));
    }
    lemma_filter_no_duplicates(order, by_place);
    assert forall|i: int, j: int| 0 <= i < right.len() && 0 <= j < right.len() && i != j implies
        right[i] != right[j] by {
        assert(kept_order[i] != kept_order[j]);
        if kept_order[i] < kept_order[j] {
            assert(kept_places[kept_order[i]] < kept_places[kept_order[j]]);
        } else {
            assert(kept_places[kept_order[j]] < kept_places[kept_order[i]]);
        }
    }
    assert forall|place: int| #[trigger] left.contains(place) <==> right.contains(place) by {
        if left.contains(place) {
            let i = choose|i: int| 0 <= i < left.len() && left[i] == place;
            assert(all[place] == place);
            all.lemma_filter_contains(by_place, place);
            let k = choose|k: int| 0 <= k < kept_places.len() && kept_places[k] == place;
            assert(kept_order.contains(k));
            let l = choose|l: int| 0 <= l < kept_order.len() && kept_order[l] == k;
            assert(right[l] == place);
        }
        if right.contains(place) {
            let l = choose|l: int| 0 <= l < right.len() && right[l] == place;
            assert(place == kept_places[kept_order[l]]);
            assert(order.contains(place));
            let k = choose|k: int| 0 <= k < order.len() && order[k] == place;
            order.lemma_filter_contains(by_place, k);
        }
    }
    // Both lists are in the order of the keys.
    assert(sorted_by(left, le)) by {
        lemma_filter_sorted_places(order, by_place, keys);
    }
    assert(sorted_by(right, le)) by {
        assert forall|i: int, j: int| 0 <= i < j < right.len() implies #[trigger] le(
            right[i],
            right[j],
        ) by {
            let a = kept_order[i];
            let b = kept_order[j];
            assert(kept_keys[a] == keys[kept_places[a]]);
            assert(kept_keys[b] == keys[kept_places[b]]);
            if a < b {
                assert(kept_places[a] < kept_places[b]);
            }
        }
    }
    lemma_same_order(left, right, keys);
    assert(arranged(results, right) =~= arranged(kept, kept_order)) by {
        assert forall|i: int| 0 <= i < right.len() implies results[#[trigger] right[i]]
            == kept[kept_order[i]] by {
            assert(right[i] == kept_places[kept_order[i]]);
        }
    }
}

proof fn lemma_filter_no_duplicates(places: Seq<int>, pred: spec_fn(int) -> bool)
    requires
        places.no_duplicates(),
    ensures
        places.filter(pred).no_duplicates(),
    decreases places.len(),
{
    reveal(Seq::filter);
    if places.len() > 0 {
        let rest = places.drop_last();
        let kept = rest.filter(pred);
        lemma_filter_no_duplicates(rest, pred);
        assert forall|i: int| 0 <= i < kept.len() implies #[trigger] kept[i] != places.last() by {
            assert(kept.contains(kept[i]));
            rest.lemma_filter_contains_rev(pred, kept[i]);
            let k = choose|k: int| 0 <= k < rest.len() && rest[k] == kept[i];
            assert(places[k] != places[places.len() - 1]);
        }
    }
}

proof fn lemma_filter_sorted_places(
    places: Seq<int>,
    pred: spec_fn(int) -> bool,
    keys: Seq<(u64, u64)>,
)
    requires
        forall|i: int, j: int|
            #![trigger places[i], places[j]]
            0 <= i < j < places.len() ==> {
                let a = places[i];
                let b = places[j];
                ||| keys[a].0 < keys[b].0
                ||| keys[a].0 == keys[b].0 && keys[a].1 < keys[b].1
                ||| keys[a] == keys[b] && a < b
            },
    ensures
        sorted_by(places.filter(pred), place_order(keys)),
    decreases places.len(),
{
    reveal(Seq::filter);
    let le = place_order(keys);
    if places.len() > 0 {
        let rest = places.drop_last();
        let kept = rest.filter(pred);
        lemma_filter_sorted_places(rest, pred, keys);
        assert forall|i: int| 0 <= i < kept.len() implies #[trigger] le(
            kept[i],
            places.last(),
        ) by {
            assert(kept.contains(kept[i]));
            rest.lemma_filter_contains_rev(pred, kept[i]);
            let k = choose|k: int| 0 <= k < rest.len() && rest[k] == kept[i];
            assert(places[k] == kept[i]);
            assert(places[places.len() - 1] == places.last());
        }
        let after = places.filter(pred);
        assert forall|i: int, j: int| 0 <= i < j < after.len() implies #[trigger] le(
            after[i],
            after[j],
        ) by {
            if j < kept.len() {
                assert(le(kept[i], kept[j]));
            } else {
                assert(le(kept[i], places.last()));
            }
        }
    }
}

/// Two lists of the same places in the same order are the same.
proof fn lemma_same_order(a: Seq<int>, b: Seq<int>, keys: Seq<(u64, u64)>)
    requires
        a.no_duplicates(),
        b.no_duplicates(),
        forall|place: int| #[trigger] a.contains(place) <==> b.contains(place),
        sorted_by(a, place_order(keys)),
        sorted_by(b, place_order(keys)),
    ensures
        a == b,
{
    let le = place_order(keys);
    assert(total_ordering(le));
    a.lemma_multiset_has_no_duplicates();
    b.lemma_multiset_has_no_duplicates();
    a.to_multiset_ensures();
    b.to_multiset_ensures();
    let first = a.to_multiset();
    let second = b.to_multiset();
    assert forall|place: int| #[trigger] first.count(place) == second.count(place) by {
        assert(a.contains(place) <==> b.contains(place));
        assert(first.contains(place) <==> a.contains(place));
        assert(second.contains(place) <==> b.contains(place));
    }
    assert(first =~= second);
    vstd::seq_lib::lemma_sorted_unique(a, b, le);
}

/// What is shown sorted by the number of moves is what is shown by score, sorted by the number of
/// moves: the same results, those with fewer moves first, and those with equally many moves in the
/// order of their scores. There are as many of them, on as many pages, and players are counted
/// alike.
pub proof fn least_moves_come_first_after_filters(
    results: Seq<SearchResultView>,
    filters: Seq<PlayerFilter>,
    counts: Map<i16, usize>,
)
    requires
        results.len() <= usize::MAX,
    ensures
        ({
            let best = selected(results, filters, SortBy::BestMatch);
            let least = selected(results, filters, SortBy::LeastMoves);
            &&& least == sorted_results(best, SortBy::LeastMoves)
            &&& least.len() == best.len()
            &&& least.to_multiset() == best.to_multiset()
            &&& counts_players(counts, least, filters) == counts_players(counts, best, filters)
        }),
{
    let best = selected(results, filters, SortBy::BestMatch);
    let least = selected(results, filters, SortBy::LeastMoves);
    let pred = |result: SearchResultView| passes_all(filters, result);
    lemma_filter_sorted(results, pred);
    results.lemma_filter_len(pred);
    lemma_arranged_multiset(best, stable_order(move_keys(best)), move_keys(best));
    assert forall|id: i16| #[trigger] player_count(least, id) == player_count(best, id) by {
        lemma_player_total(least, id);
        lemma_player_total(best, id);
        totals_ignore_order(least, best, games_played(id));
    }
    totals_ignore_order(least, best, games_played(0));
}

/// In how many seats of a result a player is.
spec fn games_played(id: i16) -> spec_fn(SearchResultView) -> nat {
    |result: SearchResultView|
        (if result.player_black.has_id(id) {
            1nat
        } else {
            0
        }) + (if result.player_white.has_id(id) {
            1nat
        } else {
            0
        })
}

proof fn lemma_player_total(results: Seq<SearchResultView>, id: i16)
    ensures
        player_count(results, id) == total(results, games_played(id)),
    decreases results.len(),
{
    if results.len() > 0 {
        lemma_player_total(results.drop_last(), id);
    }
}

/// Putting a list in a stable order keeps its items.
proof fn lemma_arranged_multiset(
    items: Seq<SearchResultView>,
    places: Seq<int>,
    keys: Seq<(u64, u64)>,
)
    requires
        keys.len() == items.len() <= usize::MAX,
        places == stable_order(keys),
    ensures
        arranged(items, places).to_multiset() == items.to_multiset(),
{
    stable_order_sorts(keys);
    let all = Seq::new(items.len(), |place: int| place);
    assert(arranged(items, all) =~= items);
    assert(all.no_duplicates());
    places.lemma_multiset_has_no_duplicates();
    all.lemma_multiset_has_no_duplicates();
    places.to_multiset_ensures();
    all.to_multiset_ensures();
    let first = places.to_multiset();
    let second = all.to_multiset();
    assert forall|place: int| #[trigger] first.count(place) == second.count(place) by {
        assert(first.contains(place) <==> places.contains(place));
        assert(second.contains(place) <==> all.contains(place));
        if 0 <= place < all.len() {
            assert(all[place] == place);
            assert(places.contains(place));
        }
        if places.contains(place) {
            let k = choose|k: int| 0 <= k < places.len() && places[k] == place;
            assert(0 <= places[k] < keys.len());
        }
    }
    assert(first =~= second);
    let shown = arranged(items, places).to_multiset();
    let given = arranged(items, all).to_multiset();
    assert forall|item: SearchResultView| #[trigger] shown.count(item) == given.count(item) by {
        lemma_arranged_count(items, places, item);
        lemma_arranged_count(items, all, item);
        totals_ignore_order(places, all, is_at(items, item));
    }
    assert(shown =~= given);
}

/// Tells whether an item stands at a place, as a number.
spec fn is_at(items: Seq<SearchResultView>, item: SearchResultView) -> spec_fn(int) -> nat {
    |place: int|
        if items[place] == item {
            1nat
        } else {
            0
        }
}

proof fn lemma_arranged_count(
    items: Seq<SearchResultView>,
    places: Seq<int>,
    item: SearchResultView,
)
    ensures
        arranged(items, places).to_multiset().count(item) == total(places, is_at(items, item)),
    decreases places.len(),
{
    broadcast use vstd::multiset::group_multiset_axioms;

    let list = arranged(items, places);
    list.to_multiset_ensures();
    if places.len() > 0 {
        let rest = arranged(items, places.drop_last());
        lemma_arranged_count(items, places.drop_last(), item);
        rest.to_multiset_ensures();
        assert(rest.push(items[places.last()]) =~= list);
    }
}

/// The places of the games that have the position, in order, one for each result that is found.
proof fn lemma_found_places(
    model: BoardModel,
    position: Seq<Placement>,
    games: Seq<(Seq<char>, GameView)>,
) -> (places: Seq<int>)
    ensures
        ({
            let found = found_in(model, position, games);
            &&& places.len() == found.len() <= games.len()
            &&& forall|k: int|
                0 <= k < places.len() ==> 0 <= #[trigger] places[k] < games.len() && game_result(
                    model,
                    position,
                    games[places[k]].0,
                    games[places[k]].1,
                ) == Some(found[k])
            &&& forall|k: int, l: int| 0 <= k < l < places.len() ==> places[k] < places[l]
        }),
    decreases games.len(),
{
    if games.len() == 0 {
        Seq::empty()
    } else {
        let rest = games.drop_last();
        let before = lemma_found_places(model, position, rest);
        let last = games.last();
        assert(forall|k: int|
            0 <= k < before.len() ==> rest[#[trigger] before[k]] == games[before[k]]);
        match game_result(model, position, last.0, last.1) {
            Some(result) => {
                assert(found_in(model, position, games) =~= found_in(model, position, rest)
                    + seq![result]);
                before.push(games.len() - 1)
            },
            None => before,
        }
    }
}

/// The results for a position come with the highest score first, and those with equal scores in the
/// order of the games. The places tell which game each result is of.
pub proof fn best_matches_come_first(
    model: BoardModel,
    position: Seq<Placement>,
    games: Seq<(Seq<char>, GameView)>,
) -> (places: Seq<int>)
    requires
        games.len() <= usize::MAX,
        position.len() > 0,
    ensures
        ({
            let matches = position_matches(model, position, games);
            &&& places.len() == matches.len()
            &&& places.no_duplicates()
            &&& forall|k: int|
                0 <= k < places.len() ==> 0 <= #[trigger] places[k] < games.len() && game_result(
                    model,
                    position,
                    games[places[k]].0,
                    games[places[k]].1,
                ) == Some(matches[k])
            &&& forall|i: int, j: int|
                #![trigger matches[i], matches[j]]
                0 <= i < j < matches.len() ==> matches[i].score > matches[j].score || (
                matches[i].score == matches[j].score && places[i] < places[j])
        }),
{
    let found = found_in(model, position, games);
    let origins = lemma_found_places(model, position, games);
    let keys = score_keys(found);
    stable_order_sorts(keys);
    let order = stable_order(keys);
    let matches = position_matches(model, position, games);
    let places = Seq::new(order.len(), |k: int| origins[order[k]]);
    assert forall|k: int| 0 <= k < places.len() implies 0 <= #[trigger] places[k] < games.len()
        && game_result(model, position, games[places[k]].0, games[places[k]].1) == Some(
        matches[k],
    ) by {
        assert(matches[k] == found[order[k]]);
        assert(places[k] == origins[order[k]]);
    }
    assert forall|i: int, j: int|
        #![trigger matches[i], matches[j]]
        0 <= i < j < matches.len() implies matches[i].score > matches[j].score || (matches[i].score
        == matches[j].score && places[i] < places[j]) by {
        assert(keys[order[i]].0 == i16::MAX - matches[i].score);
        assert(keys[order[j]].0 == i16::MAX - matches[j].score);
        if matches[i].score == matches[j].score {
            assert(order[i] < order[j]);
            assert(origins[order[i]] < origins[order[j]]);
        }
    }
    assert forall|i: int, j: int|
        0 <= i < places.len() && 0 <= j < places.len() && i != j implies places[i] != places[j] by {
        assert(order[i] != order[j]);
        if order[i] < order[j] {
            assert(origins[order[i]] < origins[order[j]]);
        } else {
            assert(origins[order[j]] < origins[order[i]]);
        }
    }
    places
}

/// What a search finds, before it is sorted.
proof fn lemma_found_in(
    model: BoardModel,
    position: Seq<Placement>,
    games: Seq<(Seq<char>, GameView)>,
)
    ensures
        ({
            let found = found_in(model, position, games);
            &&& found.len() <= games.len()
            &&& forall|k: int|
                0 <= k < found.len() ==> exists|i: int|
                    0 <= i < games.len() && game_result(
                        model,
                        position,
                        (#[trigger] games[i]).0,
                        games[i].1,
                    ) == Some(#[trigger] found[k])
            &&& forall|i: int|
                0 <= i < games.len() ==> (game_result(
                    model,
                    position,
                    (#[trigger] games[i]).0,
                    games[i].1,
                ) matches Some(result) ==> found.contains(result))
            &&& distinct_paths(games) ==> forall|k: int, l: int|
                0 <= k < l < found.len() ==> (#[trigger] found[k]).path != (
                #[trigger] found[l]).path
        }),
    decreases games.len(),
{
    let found = found_in(model, position, games);
    if games.len() > 0 {
        let rest = games.drop_last();
        let last = games.last();
        let before = found_in(model, position, rest);
        lemma_found_in(model, position, rest);
        assert(forall|i: int| 0 <= i < rest.len() ==> rest[i] == #[trigger] games[i]);
        assert(games[games.len() - 1] == last);
        assert forall|k: int| 0 <= k < before.len() implies #[trigger] found[k] == before[k] by {}
        match game_result(model, position, last.0, last.1) {
            Some(result) => {
                assert(found =~= before + seq![result]);
                assert(found[before.len() as int] == result);
                assert forall|k: int| 0 <= k < found.len() implies exists|i: int|
                    0 <= i < games.len() && game_result(
                        model,
                        position,
                        (#[trigger] games[i]).0,
                        games[i].1,
                    ) == Some(#[trigger] found[k]) by {
                    if k < before.len() {
                        let i = choose|i: int|
                            0 <= i < rest.len() && game_result(
                                model,
                                position,
                                (#[trigger] rest[i]).0,
                                rest[i].1,
                            ) == Some(before[k]);
                        assert(games[i] == rest[i]);
                    }
                }
                if distinct_paths(games) {
                    assert(distinct_paths(rest));
                    assert forall|k: int| 0 <= k < before.len() implies (#[trigger] before[k]).path
                        != result.path by {
                        let i = choose|i: int|
                            0 <= i < rest.len() && game_result(
                                model,
                                position,
                                (#[trigger] rest[i]).0,
                                rest[i].1,
                            ) == Some(before[k]);
                        assert(games[i].0 != games[games.len() - 1].0);
                    }
                    assert forall|k: int, l: int| 0 <= k < l < found.len() implies (
                    #[trigger] found[k]).path != (#[trigger] found[l]).path by {
                        assert(found[k] == before[k]);
                        if l < before.len() {
                            assert(found[l] == before[l]);
                        }
                    }
                }
                assert forall|i: int| 0 <= i < games.len() implies (game_result(
                    model,
                    position,
                    (#[trigger] games[i]).0,
                    games[i].1,
                ) matches Some(own) ==> found.contains(own)) by {
                    if i < rest.len() {
                        assert(games[i] == rest[i]);
                        if let Some(own) = game_result(model, position, games[i].0, games[i].1) {
                            let k = choose|k: int| 0 <= k < before.len() && before[k] == own;
                            assert(found[k] == own);
                        }
                    }
                }
            },
            None => {
                assert(found =~= before);
                if distinct_paths(games) {
                    assert(distinct_paths(rest));
                }
                assert forall|k: int| 0 <= k < found.len() implies exists|i: int|
                    0 <= i < games.len() && game_result(
                        model,
                        position,
                        (#[trigger] games[i]).0,
                        games[i].1,
                    ) == Some(#[trigger] found[k]) by {
                    let i = choose|i: int|
                        0 <= i < rest.len() && game_result(
                            model,
                            position,
                            (#[trigger] rest[i]).0,
                            rest[i].1,
                        ) == Some(before[k]);
                    assert(games[i] == rest[i]);
                }
            },
        }
    }
}

/// A search for a position with stones gives a game if and only if the game has the position.
pub proof fn games_are_given_if_they_match(
    model: BoardModel,
    position: Seq<Placement>,
    games: Seq<(Seq<char>, GameView)>,
)
    requires
        games.len() <= usize::MAX,
        position.len() > 0,
    ensures
        ({
            let matches = position_matches(model, position, games);
            &&& forall|k: int|
                0 <= k < matches.len() ==> exists|i: int|
                    0 <= i < games.len() && game_result(
                        model,
                        position,
                        (#[trigger] games[i]).0,
                        games[i].1,
                    ) == Some(#[trigger] matches[k])
            &&& forall|i: int|
                0 <= i < games.len() ==> (game_result(
                    model,
                    position,
                    (#[trigger] games[i]).0,
                    games[i].1,
                ) matches Some(result) ==> matches.contains(result))
        }),
{
    let found = found_in(model, position, games);
    let matches = position_matches(model, position, games);
    let places = stable_order(score_keys(found));
    lemma_found_in(model, position, games);
    stable_order_sorts(score_keys(found));
    assert forall|k: int| 0 <= k < matches.len() implies exists|i: int|
        0 <= i < games.len() && game_result(
            model,
            position,
            (#[trigger] games[i]).0,
            games[i].1,
        ) == Some(#[trigger] matches[k]) by {
        assert(matches[k] == found[places[k]]);
    }
    assert forall|i: int| 0 <= i < games.len() implies (game_result(
        model,
        position,
        (#[trigger] games[i]).0,
        games[i].1,
    ) matches Some(result) ==> matches.contains(result)) by {
        if let Some(result) = game_result(model, position, games[i].0, games[i].1) {
            let place = choose|place: int| 0 <= place < found.len() && found[place] == result;
            assert(places.contains(place));
            let k = choose|k: int| 0 <= k < places.len() && places[k] == place;
            assert(matches[k] == result);
        }
    }
}

/// A search for a position with stones gives no game twice.
pub proof fn each_matching_game_is_given_once(
    model: BoardModel,
    position: Seq<Placement>,
    games: Seq<(Seq<char>, GameView)>,
)
    requires
        games.len() <= usize::MAX,
        position.len() > 0,
        distinct_paths(games),
    ensures
        ({
            let matches = position_matches(model, position, games);
            forall|k: int, l: int|
                0 <= k < l < matches.len() ==> (#[trigger] matches[k]).path != (
                #[trigger] matches[l]).path
        }),
{
    let found = found_in(model, position, games);
    let matches = position_matches(model, position, games);
    let places = stable_order(score_keys(found));
    lemma_found_in(model, position, games);
    stable_order_sorts(score_keys(found));
    assert forall|k: int, l: int| 0 <= k < l < matches.len() implies (#[trigger] matches[k]).path
        != (#[trigger] matches[l]).path by {
        assert(matches[k] == found[places[k]]);
        assert(matches[l] == found[places[l]]);
        assert(places[k] != places[l]);
        if places[k] < places[l] {
            assert(found[places[k]].path != found[places[l]].path);
        } else {
            assert(found[places[l]].path != found[places[k]].path);
        }
    }
}

/// A search without any stones gives every game once, in the order of the collection.
pub proof fn no_stones_match_every_game(model: BoardModel, games: Seq<(Seq<char>, GameView)>)
    ensures
        ({
            let matches = position_matches(model, Seq::empty(), games);
            &&& matches.len() == games.len()
            &&& forall|i: int|
                0 <= i < games.len() ==> #[trigger] matches[i] == whole_game(
                    games[i].0,
                    games[i].1,
                )
        }),
{
}

/// The form of the position that is found in a game is the first one that is there at all.
pub proof fn located_is_the_first_success(
    model: BoardModel,
    list: Seq<AttemptView>,
    moves: Seq<Placement>,
)
    ensures
        match located(model, list, moves) {
            Some((attempt, last)) => exists|i: int|
                0 <= i < list.len() && #[trigger] list[i] == attempt && (model.matched)(
                    attempt.form,
                    moves,
                ) == Some(last) && forall|j: int|
                    0 <= j < i ==> (model.matched)((#[trigger] list[j]).form, moves) is None,
            None => forall|i: int|
                0 <= i < list.len() ==> (model.matched)((#[trigger] list[i]).form, moves) is None,
        },
    decreases list.len(),
{
    if list.len() > 0 {
        let rest = list.drop_first();
        located_is_the_first_success(model, rest, moves);
        assert(forall|i: int| 1 <= i < list.len() ==> rest[i - 1] == #[trigger] list[i]);
        if (model.matched)(list[0].form, moves) is None {
            match located(model, list, moves) {
                Some((attempt, last)) => {
                    let i = choose|i: int|
                        0 <= i < rest.len() && #[trigger] rest[i] == attempt && (model.matched)(
                            attempt.form,
                            moves,
                        ) == Some(last) && forall|j: int|
                            0 <= j < i ==> (model.matched)((#[trigger] rest[j]).form, moves)
                                is None;
                    assert(list[i + 1] == attempt);
                    assert forall|j: int| 0 <= j < i + 1 implies (model.matched)(
                        (#[trigger] list[j]).form,
                        moves,
                    ) is None by {
                        if j > 0 {
                            assert(rest[j - 1] == list[j]);
                        }
                    }
                },
                None => {
                    assert forall|i: int| 0 <= i < list.len() implies (model.matched)(
                        (#[trigger] list[i]).form,
                        moves,
                    ) is None by {
                        if i > 0 {
                            assert(rest[i - 1] == list[i]);
                        }
                    }
                },
            }
        } else {
            assert(list[0] == list[0]);
        }
    }
}

/// Whether the operations of a board keep the number of stones, and find a position with a move
/// that the game has.
pub open spec fn keeps_to_the_moves(model: BoardModel) -> bool {
    &&& forall|moves: Seq<Placement>| (#[trigger] (model.mirrored)(moves)).len() == moves.len()
    &&& forall|moves: Seq<Placement>, rotation: Rotation|
        (#[trigger] (model.rotated)(moves, rotation)).len() == moves.len()
    &&& forall|position: Seq<Placement>, moves: Seq<Placement>|
        (#[trigger] (model.matched)(position, moves)) matches Some(last) ==> last <= moves.len()
}

proof fn lemma_worth_within(
    model: BoardModel,
    position: Seq<Placement>,
    game: GameView,
    attempt: AttemptView,
    last: usize,
)
    requires
        position.len() <= MAX_POSITION,
        0 <= attempt.score <= 100,
    ensures
        worth(attempt.score, surroundings(model, position, game, attempt, last)) <= i16::MAX,
{
    let stones = in_order(position);
    let removed = captured_set(model, game.captures, last, attempt);
    let moves = transformed_moves(model, game.moves, attempt).take(last as int);
    let looks = sweeps(model, stones, removed, moves);
    in_order_keeps_the_stones(position);
    lemma_sweep_within(model, stones, removed, moves, 1, 0, Seq::empty());
    lemma_sweep_within(model, stones, removed, moves, 2, 0, looks.0.checked);
    lemma_sweep_within(model, stones, removed, moves, 3, 0, looks.1.checked);
    let sum = attempt.score + 3 * looks.0.clear + 6 * looks.1.clear + 9 * looks.2.clear;
    let multiplier = 1 + empty_within(looks);
    assert(sum * multiplier <= 4 * sum) by (nonlinear_arith)
        requires
            0 <= sum,
            multiplier <= 4,
    ;
}

/// On a board that keeps to the moves, every position of a size that can be searched can be looked
/// for in all of the games.
pub proof fn positions_can_be_searched(
    model: BoardModel,
    position: Seq<Placement>,
    games: Seq<(Seq<char>, GameView)>,
)
    requires
        keeps_to_the_moves(model),
        within_limits(position, games),
    ensures
        searchable_in(model, position, games),
{
    let list = attempts(model, position);
    assert forall|i: int| 0 <= i < games.len() implies searchable(
        model,
        position,
        (#[trigger] games[i]).1,
    ) by {
        let game = games[i].1;
        located_is_the_first_success(model, list, game.moves);
        lemma_attempt_scores(model, position);
        if let Some((attempt, last)) = located(model, list, game.moves) {
            lemma_worth_within(model, position, game, attempt, last);
        }
    }
}

/// A game that has the position as it is asked for is given unrotated, unmirrored and with its own
/// colours.
pub proof fn plain_matches_win(
    model: BoardModel,
    position: Seq<Placement>,
    path: Seq<char>,
    game: GameView,
)
    requires
        (model.matched)(position, game.moves) is Some,
    ensures
        game_result(model, position, path, game) matches Some(result) && result.rotation == 0
            && !result.is_mirrored && !result.is_inverted && result.moves_transformed == game.moves
            && Some(result.last_move_matched) == (model.matched)(position, game.moves),
{
    assert(attempts(model, position)[0].form == position);
}

/// Whether two positions have the same stones, in whatever order.
pub open spec fn same_stones(a: Seq<Placement>, b: Seq<Placement>) -> bool {
    a.to_multiset() == b.to_multiset()
}

/// Whether the operations of a board treat two positions alike: what they make of them has the same
/// stones, and what they tell of them is the same.
pub open spec fn treats_alike(model: BoardModel, a: Seq<Placement>, b: Seq<Placement>) -> bool {
    &&& same_stones((model.switched)(a), (model.switched)(b))
    &&& same_stones((model.mirrored)(a), (model.mirrored)(b))
    &&& (model.within_one_quadrant)(a) == (model.within_one_quadrant)(b)
    &&& forall|moves: Seq<Placement>| #[trigger]
        (model.matched)(a, moves) == (model.matched)(b, moves)
    &&& (model.rotations)(a).len() == (model.rotations)(b).len()
    &&& forall|i: int|
        0 <= i < (model.rotations)(a).len() ==> (#[trigger] (model.rotations)(a)[i]).0
            == (model.rotations)(b)[i].0 && same_stones(
            (model.rotations)(a)[i].1,
            (model.rotations)(b)[i].1,
        )
}

/// Whether the operations of a board treat positions with the same stones alike.
pub open spec fn blind_to_order(model: BoardModel) -> bool {
    forall|a: Seq<Placement>, b: Seq<Placement>|
        same_stones(a, b) ==> #[trigger] treats_alike(model, a, b)
}

/// Whether two lists of attempts differ at most in the order of the stones.
spec fn alike(a: Seq<AttemptView>, b: Seq<AttemptView>) -> bool {
    &&& a.len() == b.len()
    &&& forall|i: int|
        #![trigger a[i]]
        #![trigger b[i]]
        0 <= i < a.len() ==> same_stones(a[i].form, b[i].form) && b[i] == (AttemptView {
            form: b[i].form,
            ..a[i]
        })
}

proof fn lemma_families_alike(
    model: BoardModel,
    a: Seq<Placement>,
    b: Seq<Placement>,
    is_mirrored: bool,
    is_inverted: bool,
    score: i16,
)
    requires
        blind_to_order(model),
        same_stones(a, b),
    ensures
        alike(
            family(model, a, is_mirrored, is_inverted, score),
            family(model, b, is_mirrored, is_inverted, score),
        ),
{
    let first = family(model, a, is_mirrored, is_inverted, score);
    let second = family(model, b, is_mirrored, is_inverted, score);
    assert(treats_alike(model, a, b));
    assert forall|i: int|
        #![trigger first[i]]
        #![trigger second[i]]
        0 <= i < first.len() implies same_stones(first[i].form, second[i].form) && second[i] == (
    AttemptView { form: second[i].form, ..first[i] }) by {
        if i > 0 {
            assert((model.rotations)(a)[i - 1].0 == (model.rotations)(b)[i - 1].0);
        }
    }
}

proof fn lemma_located_alike(
    model: BoardModel,
    a: Seq<AttemptView>,
    b: Seq<AttemptView>,
    moves: Seq<Placement>,
)
    requires
        blind_to_order(model),
        alike(a, b),
    ensures
        match (located(model, a, moves), located(model, b, moves)) {
            (Some((first, first_last)), Some((second, second_last))) => first_last == second_last
                && second == (AttemptView { form: second.form, ..first }),
            (None, None) => true,
            _ => false,
        },
    decreases a.len(),
{
    if a.len() > 0 {
        assert(same_stones(a[0].form, b[0].form));
        assert(treats_alike(model, a[0].form, b[0].form));
        assert((model.matched)(a[0].form, moves) == (model.matched)(b[0].form, moves));
        assert forall|i: int|
            #![trigger a.drop_first()[i]]
            #![trigger b.drop_first()[i]]
            0 <= i < a.drop_first().len() implies same_stones(
            a.drop_first()[i].form,
            b.drop_first()[i].form,
        ) && b.drop_first()[i] == (AttemptView {
            form: b.drop_first()[i].form,
            ..a.drop_first()[i]
        }) by {
            assert(same_stones(a[i + 1].form, b[i + 1].form));
        }
        lemma_located_alike(model, a.drop_first(), b.drop_first(), moves);
    }
}

proof fn lemma_same_points(a: Seq<Placement>, b: Seq<Placement>, point: Point)
    requires
        same_stones(a, b),
    ensures
        occupied(a, point) ==> occupied(b, point),
{
    a.to_multiset_ensures();
    b.to_multiset_ensures();
    if occupied(a, point) {
        let i = choose|i: int| 0 <= i < a.len() && (#[trigger] a[i]).point == point;
        assert(a.contains(a[i]));
        assert(a.to_multiset().count(a[i]) > 0);
        assert(b.contains(a[i]));
        let j = choose|j: int| 0 <= j < b.len() && b[j] == a[i];
        assert(b[j].point == point);
    }
}

/// On a board that is blind to the order of stones, the order of the stones of a position is not
/// important at all for what a game gives: neither for whether it has the position, nor for the
/// move, the form, the distance and the score.
pub proof fn order_of_stones_is_unimportant(
    model: BoardModel,
    a: Seq<Placement>,
    b: Seq<Placement>,
    path: Seq<char>,
    game: GameView,
)
    requires
        blind_to_order(model),
        same_stones(a, b),
    ensures
        game_result(model, a, path, game) == game_result(model, b, path, game),
{
    let inverse_a = (model.switched)(a);
    let inverse_b = (model.switched)(b);
    let local = (model.within_one_quadrant)(a);
    assert(treats_alike(model, a, b));
    assert(treats_alike(model, inverse_a, inverse_b));
    let high: i16 = if local {
        100
    } else {
        10
    };
    let low: i16 = if local {
        90
    } else {
        9
    };
    lemma_families_alike(model, a, b, false, false, 100);
    lemma_families_alike(model, (model.mirrored)(a), (model.mirrored)(b), true, false, high);
    lemma_families_alike(model, inverse_a, inverse_b, false, true, 90);
    lemma_families_alike(
        model,
        (model.mirrored)(inverse_a),
        (model.mirrored)(inverse_b),
        true,
        true,
        low,
    );
    assert(alike(attempts(model, a), attempts(model, b)));
    lemma_located_alike(model, attempts(model, a), attempts(model, b), game.moves);
    if let Some((first, last)) = located(model, attempts(model, a), game.moves) {
        let second = located(model, attempts(model, b), game.moves).unwrap().0;
        assert forall|moves: Seq<Placement>| #[trigger]
            transformed_moves(model, moves, first) == transformed_moves(model, moves, second) by {}
        let removed = captured_set(model, game.captures, last, first);
        assert(removed =~= captured_set(model, game.captures, last, second));
        same_stones_have_one_order(a, b);
        assert(surroundings(model, a, game, first, last) == surroundings(
            model,
            b,
            game,
            second,
            last,
        ));
    }
}

/// On a board that is blind to the order of stones, a search gives the same results in the same
/// order, with the same scores, whatever the order of the stones of the position, and the same
/// answers answer it.
pub proof fn order_of_stones_does_not_change_a_search(
    model: BoardModel,
    a: Seq<Placement>,
    b: Seq<Placement>,
    games: Seq<(Seq<char>, GameView)>,
)
    requires
        blind_to_order(model),
        same_stones(a, b),
    ensures
        position_matches(model, a, games) == position_matches(model, b, games),
        forall|
            answer: WasmSearchReturn,
            results: Seq<SearchResultView>,
            next_color: u8,
            page: usize,
            page_size: usize,
            filters: Seq<PlayerFilter>,
        |
            #![trigger answers(answer, results, a, next_color, page, page_size, filters)]
            #![trigger answers(answer, results, b, next_color, page, page_size, filters)]
            answers(answer, results, a, next_color, page, page_size, filters) == answers(
                answer,
                results,
                b,
                next_color,
                page,
                page_size,
                filters,
            ),
{
    a.to_multiset_ensures();
    b.to_multiset_ensures();
    let give_a = |entry: (Seq<char>, GameView)| game_result(model, a, entry.0, entry.1);
    let give_b = |entry: (Seq<char>, GameView)| game_result(model, b, entry.0, entry.1);
    assert forall|entry: (Seq<char>, GameView)| #[trigger] give_a(entry) == give_b(entry) by {
        order_of_stones_is_unimportant(model, a, b, entry.0, entry.1);
    }
    assert(give_a =~= give_b);
    assert(found_in(model, a, games) == found_in(model, b, games));
    assert forall|
        answer: WasmSearchReturn,
        results: Seq<SearchResultView>,
        next_color: u8,
        page: usize,
        page_size: usize,
        filters: Seq<PlayerFilter>,
    |
        #![trigger answers(answer, results, a, next_color, page, page_size, filters)]
        #![trigger answers(answer, results, b, next_color, page, page_size, filters)]
        answers(answer, results, a, next_color, page, page_size, filters) == answers(
            answer,
            results,
            b,
            next_color,
            page,
            page_size,
            filters,
        ) by {
        lemma_answers_same_position(
            answer,
            results,
            a,
            b,
            next_color,
            page,
            page_size,
            filters,
        );
        lemma_answers_same_position(
            answer,
            results,
            b,
            a,
            next_color,
            page,
            page_size,
            filters,
        );
    }
}

proof fn lemma_next_same_position(
    results: Seq<SearchResultView>,
    a: Seq<Placement>,
    b: Seq<Placement>,
    placement: Placement,
)
    requires
        same_stones(a, b),
    ensures
        next_count(results, a, placement) == next_count(results, b, placement),
        next_score(results, a, placement) == next_score(results, b, placement),
    decreases results.len(),
{
    if results.len() > 0 {
        let result = results.last();
        lemma_next_same_position(results.drop_last(), a, b, placement);
        a.to_multiset_ensures();
        b.to_multiset_ensures();
        assert forall|step: int| #[trigger] next_placement(result, a, step) == next_placement(
            result,
            b,
            step,
        ) by {
            let played = result.moves_transformed[result.last_move_matched + step];
            lemma_same_points(a, b, played.point);
            lemma_same_points(b, a, played.point);
        }
        assert(next_placement(result, a, 1) == next_placement(result, b, 1));
        assert(next_placement(result, a, 2) == next_placement(result, b, 2));
    }
}

proof fn lemma_next_moves_same_position(
    next: Seq<NextMove>,
    results: Seq<SearchResultView>,
    a: Seq<Placement>,
    b: Seq<Placement>,
    color: Color,
)
    requires
        same_stones(a, b),
    ensures
        are_next_moves(next, results, a, color) ==> are_next_moves(next, results, b, color),
{
    if are_next_moves(next, results, a, color) {
        lemma_next_moves_by_tallies(next, results, a, results, b, color);
    }
}

/// Next moves depend on nothing but how often and how high each placement scores.
proof fn lemma_next_moves_by_tallies(
    next: Seq<NextMove>,
    results: Seq<SearchResultView>,
    a: Seq<Placement>,
    others: Seq<SearchResultView>,
    b: Seq<Placement>,
    color: Color,
)
    requires
        are_next_moves(next, results, a, color),
        (same_stones(a, b) && results == others) || (a == b && lively(results).to_multiset()
            == lively(others).to_multiset()),
    ensures
        are_next_moves(next, others, b, color),
{
    assert forall|placement: Placement| #![trigger next_count(others, b, placement)]
        #![trigger next_score(others, b, placement)] {
        &&& next_count(results, a, placement) == next_count(others, b, placement)
        &&& next_score(results, a, placement) == next_score(others, b, placement)
    } by {
        if a == b {
            lemma_next_same_lively(results, others, a, placement);
        } else {
            lemma_next_same_position(results, a, b, placement);
        }
    }
    assert forall|i: int, j: int|
        #![trigger next[i], next[j]]
        0 <= i < j < next.len() implies {
        let first = next_score(others, b, Placement { color, point: next[i].point });
        let second = next_score(others, b, Placement { color, point: next[j].point });
        first > second || (first == second && next[i].game_count >= next[j].game_count)
    } by {
        assert(next_score(others, b, Placement { color, point: next[i].point }) == next_score(
            results,
            a,
            Placement { color, point: next[i].point },
        ));
        assert(next_score(others, b, Placement { color, point: next[j].point }) == next_score(
            results,
            a,
            Placement { color, point: next[j].point },
        ));
    }
    assert forall|point: Point|
        #![trigger next_count(others, b, Placement { color, point })]
        next_count(others, b, Placement { color, point }) >= MIN_GAME_COUNT implies exists|i: int|
        0 <= i < next.len() && (#[trigger] next[i]).point == point by {
        assert(next_count(results, a, Placement { color, point }) >= MIN_GAME_COUNT);
    }
    assert forall|i: int| 0 <= i < next.len() implies {
        let placement = Placement { color, point: (#[trigger] next[i]).point };
        &&& next[i].game_count == next_count(others, b, placement)
        &&& next[i].game_count >= MIN_GAME_COUNT
    } by {
        assert(next_count(others, b, Placement { color, point: next[i].point }) == next_count(
            results,
            a,
            Placement { color, point: next[i].point },
        ));
    }
}

proof fn lemma_answers_same_position(
    answer: WasmSearchReturn,
    results: Seq<SearchResultView>,
    a: Seq<Placement>,
    b: Seq<Placement>,
    next_color: u8,
    page: usize,
    page_size: usize,
    filters: Seq<PlayerFilter>,
)
    requires
        same_stones(a, b),
    ensures
        answers(answer, results, a, next_color, page, page_size, filters) ==> answers(
            answer,
            results,
            b,
            next_color,
            page,
            page_size,
            filters,
        ),
{
    if answers(answer, results, a, next_color, page, page_size, filters) {
        let color = color_of_number(next_color);
        let next = choose|next: Seq<NextMove>|
            {
                &&& #[trigger] are_next_moves(next, results, a, color)
                &&& answer.next_moves@ == next.take(
                    if next.len() < MAX_NEXT_MOVES {
                        next.len() as int
                    } else {
                        MAX_NEXT_MOVES as int
                    },
                )
            };
        lemma_next_moves_same_position(next, results, a, b, color);
        assert(are_next_moves(next, results, b, color));
    }
}

/// Tells whether the surroundings of the position are undisturbed in a result, so that it has a say
/// in the next moves.
pub open spec fn is_lively() -> spec_fn(SearchResultView) -> bool {
    |result: SearchResultView| result.all_empty_correctly_within > 0
}

/// The results that have a say in the next moves.
pub open spec fn lively(results: Seq<SearchResultView>) -> Seq<SearchResultView> {
    results.filter(is_lively())
}

/// What a result adds to the score of a placement.
spec fn added_score(position: Seq<Placement>, placement: Placement) -> spec_fn(
    SearchResultView,
) -> nat {
    |result: SearchResultView|
        step_score(result, position, placement, 1) + step_score(result, position, placement, 2)
}

/// What a result adds to the count of a placement.
spec fn added_count(position: Seq<Placement>, placement: Placement) -> spec_fn(
    SearchResultView,
) -> nat {
    |result: SearchResultView|
        step_count(result, position, placement, 1) + step_count(result, position, placement, 2)
}

proof fn lemma_next_totals(
    results: Seq<SearchResultView>,
    position: Seq<Placement>,
    placement: Placement,
)
    ensures
        next_score(results, position, placement) == total(
            results,
            added_score(position, placement),
        ),
        next_count(results, position, placement) == total(
            results,
            added_count(position, placement),
        ),
    decreases results.len(),
{
    if results.len() > 0 {
        lemma_next_totals(results.drop_last(), position, placement);
    }
}

proof fn lemma_next_same_lively(
    results: Seq<SearchResultView>,
    others: Seq<SearchResultView>,
    position: Seq<Placement>,
    placement: Placement,
)
    requires
        lively(results).to_multiset() == lively(others).to_multiset(),
    ensures
        next_score(results, position, placement) == next_score(others, position, placement),
        next_count(results, position, placement) == next_count(others, position, placement),
{
    let score = added_score(position, placement);
    let count = added_count(position, placement);
    lemma_next_totals(results, position, placement);
    lemma_next_totals(others, position, placement);
    assert forall|result: SearchResultView| !is_lively()(result) implies #[trigger] score(result)
        == 0 by {
        assert(result_weight(result, position) == 0);
    }
    assert forall|result: SearchResultView| !is_lively()(result) implies #[trigger] count(result)
        == 0 by {
        assert(result_weight(result, position) == 0);
    }
    worthless_items_can_be_left_out(results, is_lively(), score);
    worthless_items_can_be_left_out(others, is_lively(), score);
    worthless_items_can_be_left_out(results, is_lively(), count);
    worthless_items_can_be_left_out(others, is_lively(), count);
    totals_ignore_order(lively(results), lively(others), score);
    totals_ignore_order(lively(results), lively(others), count);
}

/// Next moves depend neither on the order of the results nor on results whose surroundings are
/// disturbed: those can be left out or put in.
pub proof fn next_moves_depend_on_lively_results_alone(
    results: Seq<SearchResultView>,
    others: Seq<SearchResultView>,
    position: Seq<Placement>,
    placement: Placement,
    next: Seq<NextMove>,
    color: Color,
)
    requires
        lively(results).to_multiset() == lively(others).to_multiset(),
    ensures
        next_score(results, position, placement) == next_score(others, position, placement),
        next_count(results, position, placement) == next_count(others, position, placement),
        are_next_moves(next, results, position, color) <==> are_next_moves(
            next,
            others,
            position,
            color,
        ),
{
    lemma_next_same_lively(results, others, position, placement);
    if are_next_moves(next, results, position, color) {
        lemma_next_moves_by_tallies(next, results, position, others, position, color);
    }
    if are_next_moves(next, others, position, color) {
        lemma_next_moves_by_tallies(next, others, position, results, position, color);
    }
}

/// Results in another order, or without results whose surroundings are disturbed, have the same say
/// in the next moves.
pub proof fn permuted_results_are_equally_lively(
    results: Seq<SearchResultView>,
    others: Seq<SearchResultView>,
)
    ensures
        results.to_multiset() == others.to_multiset() ==> lively(results).to_multiset() == lively(
            others,
        ).to_multiset(),
        lively(lively(results)) == lively(results),
{
    if results.to_multiset() == others.to_multiset() {
        filtered_lists_ignore_order(results, others, is_lively());
    }
    lemma_filter_twice(results);
}

proof fn lemma_filter_twice(results: Seq<SearchResultView>)
    ensures
        lively(lively(results)) == lively(results),
    decreases results.len(),
{
    reveal(Seq::filter);
    if results.len() > 0 {
        let rest = results.drop_last();
        lemma_filter_twice(rest);
        if is_lively()(results.last()) {
            assert(lively(results).drop_last() =~= lively(rest));
        }
    }
}

/// Opposite rotations undo each other, and the number of a rotation gives it back.
pub proof fn rotations_can_be_told_apart(rotation: Rotation)
    ensures
        moves_rotation(moves_rotation(rotation)) == rotation,
        rotation_of_number(rotation_index(rotation)) == Some(rotation),
        (rotation_index(rotation) + rotation_index(moves_rotation(rotation))) % 4 == 0,
{
}

/// The rotation with which a result is asked for by its path. The rotation of a result is that of
/// the position; the moves of a game that is not mirrored are turned the opposite way.
pub open spec fn rotation_to_ask_for(result: SearchResultView) -> u8 {
    if !result.is_mirrored && (result.rotation == 1 || result.rotation == 3) {
        (4 - result.rotation) as u8
    } else {
        result.rotation
    }
}

/// A game that a search gives can be asked for again by its path: it has the same moves, seen the
/// same way, and the same details and players.
pub proof fn results_can_be_asked_for_again(
    model: BoardModel,
    position: Seq<Placement>,
    path: Seq<char>,
    game: GameView,
)
    requires
        game_result(model, position, path, game) is Some,
    ensures
        ({
            let result = game_result(model, position, path, game).unwrap();
            let again = result_by_path(
                model,
                path,
                game,
                rotation_to_ask_for(result),
                result.is_mirrored,
            );
            &&& again.moves_transformed == result.moves_transformed
            &&& again.moves == result.moves
            &&& again.path == result.path
            &&& again.is_mirrored == result.is_mirrored
            &&& again.details == result.details
            &&& again.player_black == result.player_black
            &&& again.player_white == result.player_white
        }),
{
}

/// The results that a search for a position gives, from what is remembered or from the games.
pub open spec fn given_for(
    model: BoardModel,
    games: Seq<(Seq<char>, GameView)>,
    entries: Seq<(Seq<u32>, Seq<SearchResultView>)>,
    position: Seq<Placement>,
) -> Seq<SearchResultView> {
    if has_key(entries, position_key(position)) {
        entries[place_of(entries, position_key(position))].1
    } else {
        position_matches(model, position, games)
    }
}

/// The entries of the cache after some searches, one after the other.
pub open spec fn cache_after_searches(
    model: BoardModel,
    games: Seq<(Seq<char>, GameView)>,
    entries: Seq<(Seq<u32>, Seq<SearchResultView>)>,
    positions: Seq<Seq<Placement>>,
) -> Seq<(Seq<u32>, Seq<SearchResultView>)>
    decreases positions.len(),
{
    if positions.len() == 0 {
        entries
    } else {
        let before = cache_after_searches(model, games, entries, positions.drop_last());
        cache_after_search(
            before,
            positions.last(),
            given_for(model, games, before, positions.last()),
        )
    }
}

/// However many searches there are in between, and for whatever positions, a position gives the
/// same results again, whether they are remembered or not; the cache stays right and within its
/// room.
pub proof fn searches_in_between_change_nothing(
    model: BoardModel,
    games: Seq<(Seq<char>, GameView)>,
    entries: Seq<(Seq<u32>, Seq<SearchResultView>)>,
    positions: Seq<Seq<Placement>>,
    position: Seq<Placement>,
)
    requires
        remembers(entries, model, games),
        entries.len() <= CACHE_CAPACITY,
    ensures
        ({
            let after = cache_after_searches(model, games, entries, positions);
            &&& remembers(after, model, games)
            &&& after.len() <= CACHE_CAPACITY
            &&& given_for(model, games, after, position) == given_for(
                model,
                games,
                entries,
                position,
            )
            &&& given_for(model, games, after, position) == position_matches(
                model,
                position,
                games,
            )
        }),
    decreases positions.len(),
{
    let after = cache_after_searches(model, games, entries, positions);
    if positions.len() > 0 {
        let last = positions.last();
        let before = cache_after_searches(model, games, entries, positions.drop_last());
        searches_in_between_change_nothing(model, games, entries, positions.drop_last(), last);
        lemma_search_keeps_memory(model, games, before, last);
    }
    let key = position_key(position);
    if has_key(after, key) {
        assert(after[place_of(after, key)].0 == key);
    }
    if has_key(entries, key) {
        assert(entries[place_of(entries, key)].0 == key);
    }
}

/// After a search the position is the one that the cache forgets last, and the cache has not
/// outgrown its room.
pub proof fn searches_are_remembered(
    entries: Seq<(Seq<u32>, Seq<SearchResultView>)>,
    position: Seq<Placement>,
    results: Seq<SearchResultView>,
)
    requires
        entries.len() <= CACHE_CAPACITY,
    ensures
        ({
            let after = cache_after_search(entries, position, results);
            &&& 0 < after.len() <= CACHE_CAPACITY
            &&& after[0].0 == position_key(position)
            &&& has_key(after, position_key(position))
        }),
{
    let after = cache_after_search(entries, position, results);
    assert(after[0].0 == position_key(position));
}

/// A next move is never on a point of the position.
pub proof fn next_moves_avoid_the_position(
    next: Seq<NextMove>,
    results: Seq<SearchResultView>,
    position: Seq<Placement>,
    color: Color,
)
    requires
        are_next_moves(next, results, position, color),
    ensures
        forall|i: int|
            0 <= i < next.len() ==> !occupied(position, (#[trigger] next[i]).point),
{
    assert forall|i: int| 0 <= i < next.len() implies !occupied(
        position,
        (#[trigger] next[i]).point,
    ) by {
        lemma_counted_placements_are_free(
            results,
            position,
            Placement { color, point: next[i].point },
        );
    }
}

proof fn lemma_counted_placements_are_free(
    results: Seq<SearchResultView>,
    position: Seq<Placement>,
    placement: Placement,
)
    ensures
        next_count(results, position, placement) > 0 ==> !occupied(position, placement.point),
    decreases results.len(),
{
    if results.len() > 0 {
        lemma_counted_placements_are_free(results.drop_last(), position, placement);
    }
}

/// How often a player plays in two lists of results together is how often it plays in each of them.
pub proof fn player_counts_add_up(
    first: Seq<SearchResultView>,
    second: Seq<SearchResultView>,
    id: i16,
)
    ensures
        player_count(first + second, id) == player_count(first, id) + player_count(second, id),
    decreases second.len(),
{
    let both = first + second;
    if second.len() == 0 {
        assert(both =~= first);
    } else {
        player_counts_add_up(first, second.drop_last(), id);
        assert(both.drop_last() =~= first + second.drop_last());
        assert(both.last() == second.last());
    }
}

} // verus!
