//! What a search answers: the page of results that is asked for, the next moves, and who played.

use crate::baduk::{Color, Placement, Player};
use crate::matching::{results_view, SearchResult, SearchResultView};
use crate::next_moves::{are_next_moves, get_next_moves, next_score, NextMove};
use crate::sorting::{arranged, order_of, stable_order, stable_order_sorts};
use std::collections::HashMap;
use vstd::prelude::*;

verus! {

/// Filter for matching players by id and optionally by colour.
///
/// Without a colour the player may play either side; with a colour only that side.
#[derive(Clone, Copy, PartialEq, Eq, Structural, Debug)]
pub struct PlayerFilter {
    pub player_id: i16,
    pub color: Option<Color>,
}

/// How results are sorted.
#[derive(Clone, Copy, PartialEq, Eq, Structural, Debug)]
pub enum SortBy {
    BestMatch,
    LeastMoves,
}

/// The answer to a search.
pub struct WasmSearchReturn {
    pub num_results: usize,
    pub next_moves: Vec<NextMove>,
    pub results: Vec<SearchResult>,
    pub total_pages: usize,
    pub current_page: usize,
    /// How many games each player has, by id.
    pub player_counts: HashMap<i16, usize>,
}

/// How many next moves an answer holds at most.
pub const MAX_NEXT_MOVES: usize = 9;

/// The largest score that a result can add to a next move, both steps taken together, if the points
/// around a position are looked at up to the distance 3.
pub const MAX_RESULT_SCORE: usize = 601;

/// Whether a result passes a filter.
pub open spec fn passes(filter: PlayerFilter, result: SearchResultView) -> bool {
    match filter.color {
        None => result.player_black.has_id(filter.player_id) || result.player_white.has_id(
            filter.player_id,
        ),
        Some(Color::Black) => result.player_black.has_id(filter.player_id),
        Some(Color::White) => result.player_white.has_id(filter.player_id),
    }
}

/// Whether a result passes all filters.
pub open spec fn passes_all(filters: Seq<PlayerFilter>, result: SearchResultView) -> bool {
    forall|i: int| 0 <= i < filters.len() ==> passes(#[trigger] filters[i], result)
}

/// The keys that sort results by the number of moves that the game takes to the position.
pub open spec fn move_keys(results: Seq<SearchResultView>) -> Seq<(u64, u64)> {
    results.map_values(|result: SearchResultView| (result.last_move_matched as u64, 0u64))
}

/// The results in the order that is asked for.
pub open spec fn sorted_results(results: Seq<SearchResultView>, sort_by: SortBy) -> Seq<
    SearchResultView,
> {
    match sort_by {
        SortBy::BestMatch => results,
        SortBy::LeastMoves => arranged(results, stable_order(move_keys(results))),
    }
}

/// The results that pass all filters.
pub open spec fn filtered_results(
    results: Seq<SearchResultView>,
    filters: Seq<PlayerFilter>,
) -> Seq<SearchResultView> {
    results.filter(|result: SearchResultView| passes_all(filters, result))
}

/// The results that are shown, over all pages.
pub open spec fn selected(
    results: Seq<SearchResultView>,
    filters: Seq<PlayerFilter>,
    sort_by: SortBy,
) -> Seq<SearchResultView> {
    filtered_results(sorted_results(results, sort_by), filters)
}

/// The number of pages that a number of results fills.
pub open spec fn page_count(num_results: nat, page_size: nat) -> nat {
    ((num_results + page_size - 1) / page_size as int) as nat
}

/// The page that is shown when a page is asked for: the last one if there are fewer.
pub open spec fn shown_page(page: nat, num_results: nat, page_size: nat) -> nat {
    let pages = page_count(num_results, page_size);
    if pages == 0 {
        0
    } else if page < pages {
        page
    } else {
        (pages - 1) as nat
    }
}

/// The results on a page.
pub open spec fn page_results(
    results: Seq<SearchResultView>,
    page: nat,
    page_size: nat,
) -> Seq<SearchResultView> {
    let start = page * page_size;
    let end = if start + page_size < results.len() {
        start + page_size
    } else {
        results.len()
    };
    results.subrange(start as int, end as int)
}

/// How often a player plays in the results.
pub open spec fn player_count(results: Seq<SearchResultView>, id: i16) -> nat
    decreases results.len(),
{
    if results.len() == 0 {
        0
    } else {
        player_count(results.drop_last(), id) + (if results.last().player_black.has_id(id) {
            1nat
        } else {
            0
        }) + (if results.last().player_white.has_id(id) {
            1nat
        } else {
            0
        })
    }
}

/// Whether one of the filters asks for the player.
pub open spec fn filtered_for(filters: Seq<PlayerFilter>, id: i16) -> bool {
    exists|i: int| 0 <= i < filters.len() && (#[trigger] filters[i]).player_id == id
}

/// Whether a table holds the counts of the players that no filter asks for, as far as they occur.
pub open spec fn counts_players(
    counts: Map<i16, usize>,
    results: Seq<SearchResultView>,
    filters: Seq<PlayerFilter>,
) -> bool {
    forall|id: i16|
        #![trigger counts.contains_key(id)]
        #![trigger player_count(results, id)]
        {
            &&& counts.contains_key(id) <==> player_count(results, id) > 0 && !filtered_for(
                filters,
                id,
            )
            &&& counts.contains_key(id) ==> counts[id] == player_count(results, id)
        }
}

/// The colour that a number asks for.
pub open spec fn color_of_number(number: u8) -> Color {
    if number == 0 {
        Color::Black
    } else {
        Color::White
    }
}

/// Whether this is the answer to a search that found these results, after sorting and filtering.
pub open spec fn answers(
    answer: WasmSearchReturn,
    results: Seq<SearchResultView>,
    position: Seq<Placement>,
    next_color: u8,
    page: usize,
    page_size: usize,
    filters: Seq<PlayerFilter>,
) -> bool {
    &&& answer.num_results == results.len()
    &&& answer.total_pages == page_count(results.len(), page_size as nat)
    &&& answer.current_page == shown_page(page as nat, results.len(), page_size as nat)
    &&& results_view(answer.results@) == page_results(
        results,
        answer.current_page as nat,
        page_size as nat,
    )
    &&& counts_players(answer.player_counts@, results, filters)
    &&& exists|next: Seq<NextMove>|
        {
            &&& #[trigger] are_next_moves(next, results, position, color_of_number(next_color))
            &&& answer.next_moves@ == next.take(
                if next.len() < MAX_NEXT_MOVES {
                    next.len() as int
                } else {
                    MAX_NEXT_MOVES as int
                },
            )
        }
}

/// Whether the results stay within the distance up to which points are looked at.
pub open spec fn within_reach(results: Seq<SearchResultView>) -> bool {
    forall|i: int|
        0 <= i < results.len() ==> (#[trigger] results[i]).all_empty_correctly_within <= 3
}

proof fn lemma_score_bound(
    results: Seq<SearchResultView>,
    position: Seq<Placement>,
    placement: Placement,
)
    requires
        within_reach(results),
    ensures
        next_score(results, position, placement) <= results.len() * MAX_RESULT_SCORE,
    decreases results.len(),
{
    if results.len() > 0 {
        assert(results.last() == results[results.len() - 1]);
        lemma_score_bound(results.drop_last(), position, placement);
    }
}

proof fn lemma_player_count_bound(results: Seq<SearchResultView>, id: i16)
    ensures
        player_count(results, id) <= 2 * results.len(),
    decreases results.len(),
{
    if results.len() > 0 {
        lemma_player_count_bound(results.drop_last(), id);
    }
}

/// Filtering keeps what holds of every result.
proof fn lemma_filter_within_reach(results: Seq<SearchResultView>, filters: Seq<PlayerFilter>)
    requires
        within_reach(results),
    ensures
        within_reach(filtered_results(results, filters)),
        filtered_results(results, filters).len() <= results.len(),
{
    let pred = |result: SearchResultView| passes_all(filters, result);
    results.lemma_filter_len(pred);
    assert forall|i: int| 0 <= i < results.filter(pred).len() implies (#[trigger] results.filter(
        pred,
    )[i]).all_empty_correctly_within <= 3 by {
        results.lemma_filter_contains_rev(pred, results.filter(pred)[i]);
    }
}

/// Sorting keeps what holds of every result.
proof fn lemma_sorting_keeps_reach(results: Seq<SearchResultView>)
    requires
        within_reach(results),
        results.len() <= usize::MAX,
    ensures
        within_reach(sorted_results(results, SortBy::LeastMoves)),
        sorted_results(results, SortBy::LeastMoves).len() == results.len(),
{
    stable_order_sorts(move_keys(results));
}

/// Whether a result passes a filter.
pub fn passes_filter(filter: &PlayerFilter, result: &SearchResult) -> (kept: bool)
    ensures
        kept == passes(*filter, result@),
{
    match filter.color {
        None => result.player_black.has_id(filter.player_id) || result.player_white.has_id(
            filter.player_id,
        ),
        Some(Color::Black) => result.player_black.has_id(filter.player_id),
        Some(Color::White) => result.player_white.has_id(filter.player_id),
    }
}

fn passes_filters(filters: &Vec<PlayerFilter>, result: &SearchResult) -> (kept: bool)
    ensures
        kept == passes_all(filters@, result@),
{
    let n: usize = filters.len();
    for i in 0..n
        invariant
            n == filters@.len(),
            forall|j: int| 0 <= j < i ==> passes(#[trigger] filters@[j], result@),
    {
        if !passes_filter(&filters[i], result) {
            assert(!passes(filters@[i as int], result@));
            return false;
        }
    }
    true
}

/// The results that pass all filters.
pub fn filter_results(
    results: &Vec<SearchResult>,
    filters: &Vec<PlayerFilter>,
) -> (kept: Vec<SearchResult>)
    ensures
        results_view(kept@) == filtered_results(results_view(results@), filters@),
{
    let n: usize = results.len();
    let mut kept: Vec<SearchResult> = Vec::new();
    let ghost all = results_view(results@);
    let ghost pred = |result: SearchResultView| passes_all(filters@, result);
    reveal(Seq::filter);
    assert(results_view(kept@) =~= all.take(0).filter(pred));
    for i in 0..n
        invariant
            n == results@.len(),
            all == results_view(results@),
            pred == (|result: SearchResultView| passes_all(filters@, result)),
            results_view(kept@) == all.take(i as int).filter(pred),
    {
        reveal(Seq::filter);
        let ghost before = kept@;
        assert(all.take(i + 1).drop_last() =~= all.take(i as int));
        assert(all.take(i + 1).last() == results@[i as int]@);
        if passes_filters(filters, &results[i]) {
            kept.push(results[i].clone());
            assert(results_view(kept@) =~= results_view(before).push(results@[i as int]@));
        }
    }
    assert(all.take(n as int) =~= all);
    kept
}

/// The results in the given order.
pub(crate) fn arrange(results: &Vec<SearchResult>, order: &Vec<usize>) -> (out: Vec<SearchResult>)
    requires
        forall|i: int| 0 <= i < order@.len() ==> #[trigger] order@[i] < results@.len(),
    ensures
        results_view(out@) == arranged(
            results_view(results@),
            order@.map_values(|place: usize| place as int),
        ),
{
    let n: usize = order.len();
    let mut out: Vec<SearchResult> = Vec::new();
    for i in 0..n
        invariant
            n == order@.len(),
            forall|i: int| 0 <= i < order@.len() ==> #[trigger] order@[i] < results@.len(),
            out@.len() == i,
            forall|j: int| 0 <= j < i ==> (#[trigger] out@[j])@ == results@[order@[j] as int]@,
    {
        out.push(results[order[i]].clone());
    }
    assert(results_view(out@) =~= arranged(
        results_view(results@),
        order@.map_values(|place: usize| place as int),
    ));
    out
}

/// The results sorted by the number of moves that the game takes to the position, and otherwise in
/// their order.
fn sort_by_moves(results: &Vec<SearchResult>) -> (out: Vec<SearchResult>)
    ensures
        results_view(out@) == sorted_results(results_view(results@), SortBy::LeastMoves),
{
    let n: usize = results.len();
    let mut keys: Vec<(u64, u64)> = Vec::new();
    for i in 0..n
        invariant
            n == results@.len(),
            keys@.len() == i,
            forall|j: int|
                0 <= j < i ==> #[trigger] keys@[j] == (results@[j].last_move_matched as u64, 0u64),
    {
        keys.push((results[i].last_move_matched as u64, 0));
    }
    assert(keys@ =~= move_keys(results_view(results@)));
    let order = order_of(&keys);
    arrange(results, &order)
}

/// Whether one of the filters asks for the player.
fn is_filtered_for(filters: &Vec<PlayerFilter>, id: i16) -> (found: bool)
    ensures
        found == filtered_for(filters@, id),
{
    let n: usize = filters.len();
    for i in 0..n
        invariant
            n == filters@.len(),
            forall|j: int| 0 <= j < i ==> (#[trigger] filters@[j]).player_id != id,
    {
        if filters[i].player_id == id {
            assert(filters@[i as int].player_id == id);
            return true;
        }
    }
    false
}

/// Counts one more game of a player, unless a filter asks for it.
pub(crate) fn count_player(
    counts: &mut HashMap<i16, usize>,
    filters: &Vec<PlayerFilter>,
    player: &Player,
    Ghost(tallies): Ghost<spec_fn(i16) -> nat>,
)
    requires
        forall|id: i16| #[trigger] tallies(id) < usize::MAX,
        forall|id: i16|
            #![trigger old(counts)@.contains_key(id)]
            {
                &&& old(counts)@.contains_key(id) <==> tallies(id) > 0 && !filtered_for(
                    filters@,
                    id,
                )
                &&& old(counts)@.contains_key(id) ==> old(counts)@[id] == tallies(id)
            },
    ensures
        forall|id: i16|
            #![trigger final(counts)@.contains_key(id)]
            {
                let tally = tallies(id) + (if player@.has_id(id) {
                    1nat
                } else {
                    0
                });
                &&& final(counts)@.contains_key(id) <==> tally > 0 && !filtered_for(filters@, id)
                &&& final(counts)@.contains_key(id) ==> final(counts)@[id] == tally
            },
{
    broadcast use vstd::std_specs::hash::group_hash_axioms;

    if let Player::Id(id, _) = player {
        if !is_filtered_for(filters, *id) {
            let count: usize = match counts.get(id) {
                Some(count) => *count,
                None => 0,
            };
            assert(old(counts)@.contains_key(*id) ==> count == tallies(*id));
            assert(tallies(*id) < usize::MAX);
            counts.insert(*id, count + 1);
        }
    }
}

/// How many games each player has in the results, except for the players that a filter asks for.
pub fn count_players(
    results: &Vec<SearchResult>,
    filters: &Vec<PlayerFilter>,
) -> (counts: HashMap<i16, usize>)
    requires
        2 * results@.len() <= usize::MAX,
    ensures
        counts_players(counts@, results_view(results@), filters@),
{
    broadcast use vstd::std_specs::hash::group_hash_axioms;

    let n: usize = results.len();
    let ghost all = results_view(results@);
    let mut counts: HashMap<i16, usize> = HashMap::new();
    for i in 0..n
        invariant
            n == results@.len(),
            2 * results@.len() <= usize::MAX,
            all == results_view(results@),
            counts_players(counts@, all.take(i as int), filters@),
    {
        let ghost head = all.take(i as int);
        let ghost more = all.take(i + 1);
        let ghost tallies = |id: i16| player_count(head, id);
        let ghost black_tallies = |id: i16|
            player_count(head, id) + (if results@[i as int]@.player_black.has_id(id) {
                1nat
            } else {
                0
            });
        proof {
            assert(more.drop_last() =~= head);
            assert(more.last() == results@[i as int]@);
            assert forall|id: i16| #[trigger] tallies(id) < usize::MAX by {
                lemma_player_count_bound(head, id);
            }
            assert forall|id: i16| #[trigger] black_tallies(id) < usize::MAX by {
                lemma_player_count_bound(head, id);
            }
        }
        count_player(&mut counts, filters, &results[i].player_black, Ghost(tallies));
        count_player(&mut counts, filters, &results[i].player_white, Ghost(black_tallies));
        assert(counts_players(counts@, more, filters@));
    }
    assert(all.take(n as int) =~= all);
    counts
}

/// The number of pages that a number of results fills.
fn count_pages(num_results: usize, page_size: usize) -> (pages: usize)
    requires
        page_size > 0,
    ensures
        pages == page_count(num_results as nat, page_size as nat),
        num_results == 0 <==> pages == 0,
        pages > 0 ==> (pages - 1) * page_size < num_results,
{
    let whole: usize = num_results / page_size;
    let rest: usize = num_results % page_size;
    proof {
        let n = num_results as int;
        let size = page_size as int;
        let q = whole as int;
        let r = rest as int;
        assert(n == size * q + r && 0 <= r < size) by {
            vstd::arithmetic::div_mod::lemma_fundamental_div_mod(n, size);
            vstd::arithmetic::div_mod::lemma_mod_bound(n, size);
        }
        if r == 0 {
            assert(n + size - 1 == q * size + (size - 1)) by (nonlinear_arith)
                requires
                    n == size * q + r,
                    r == 0,
            ;
            vstd::arithmetic::div_mod::lemma_fundamental_div_mod_converse(
                n + size - 1,
                size,
                q,
                size - 1,
            );
            assert(q > 0 ==> (q - 1) * size < n) by (nonlinear_arith)
                requires
                    n == size * q + r,
                    r == 0,
                    size > 0,
            ;
            assert(n == 0 <==> q == 0) by (nonlinear_arith)
                requires
                    n == size * q + r,
                    r == 0,
                    size > 0,
            ;
        } else {
            assert(n + size - 1 == (q + 1) * size + (r - 1)) by (nonlinear_arith)
                requires
                    n == size * q + r,
            ;
            vstd::arithmetic::div_mod::lemma_fundamental_div_mod_converse(
                n + size - 1,
                size,
                q + 1,
                r - 1,
            );
            assert(q * size < n) by (nonlinear_arith)
                requires
                    n == size * q + r,
                    r > 0,
            ;
            assert(q < n) by (nonlinear_arith)
                requires
                    q * size < n,
                    size >= 1,
                    q >= 0,
            ;
        }
    }
    if rest == 0 {
        whole
    } else {
        whole + 1
    }
}

/// A copy of the results from one place up to another.
fn copy_range(results: &Vec<SearchResult>, start: usize, end: usize) -> (copy: Vec<SearchResult>)
    requires
        start <= end <= results@.len(),
    ensures
        results_view(copy@) == results_view(results@).subrange(start as int, end as int),
{
    let mut copy: Vec<SearchResult> = Vec::new();
    for i in start..end
        invariant
            start <= end <= results@.len(),
            copy@.len() == i - start,
            forall|j: int| 0 <= j < i - start ==> (#[trigger] copy@[j])@ == results@[start + j]@,
    {
        copy.push(results[i].clone());
    }
    assert(results_view(copy@) =~= results_view(results@).subrange(start as int, end as int));
    copy
}

/// The colour that a number asks for: 0 is black, everything else white.
pub fn color_from_number(number: u8) -> (color: Color)
    ensures
        color == color_of_number(number),
{
    if number == 0 {
        Color::Black
    } else {
        Color::White
    }
}

/// Answers a search that found these results, given in the order of their scores: sorts and filters
/// them, and gives the page that is asked for, the next moves and how many games each player has.
pub fn answer_search(
    results: &Vec<SearchResult>,
    position: &[Placement],
    next_color: u8,
    page: usize,
    page_size: usize,
    player_filters: &Vec<PlayerFilter>,
    sort_by: SortBy,
) -> (answer: WasmSearchReturn)
    requires
        page_size > 0,
        within_reach(results_view(results@)),
        results@.len() * MAX_RESULT_SCORE <= usize::MAX,
    ensures
        answers(
            answer,
            selected(results_view(results@), player_filters@, sort_by),
            position@,
            next_color,
            page,
            page_size,
            player_filters@,
        ),
{
    let ghost found = results_view(results@);
    let sorted;
    let sorted_ref = match sort_by {
        SortBy::BestMatch => results,
        SortBy::LeastMoves => {
            sorted = sort_by_moves(results);
            proof {
                lemma_sorting_keeps_reach(found);
            }
            &sorted
        },
    };
    let kept = filter_results(sorted_ref, player_filters);
    let ghost all = results_view(kept@);
    proof {
        lemma_filter_within_reach(results_view(sorted_ref@), player_filters@);
        assert(all.len() * MAX_RESULT_SCORE <= usize::MAX) by (nonlinear_arith)
            requires
                all.len() <= found.len(),
                found.len() * MAX_RESULT_SCORE <= usize::MAX,
        ;
        assert forall|placement: Placement|
            #![trigger next_score(all, position@, placement)]
            next_score(all, position@, placement) <= usize::MAX by {
            lemma_score_bound(all, position@, placement);
        }
    }
    let next = get_next_moves(&kept, position, color_from_number(next_color));
    let shown_moves: usize = if next.len() < MAX_NEXT_MOVES {
        next.len()
    } else {
        MAX_NEXT_MOVES
    };
    let next_moves = vstd::slice::slice_to_vec(
        vstd::slice::slice_subrange(next.as_slice(), 0, shown_moves),
    );
    assert(next_moves@ =~= next@.take(shown_moves as int));
    let num_results: usize = kept.len();
    let total_pages: usize = count_pages(num_results, page_size);
    let current_page: usize = if total_pages == 0 {
        0
    } else if page < total_pages {
        page
    } else {
        total_pages - 1
    };
    let player_counts = count_players(&kept, player_filters);
    assert(current_page * page_size <= num_results) by (nonlinear_arith)
        requires
            total_pages > 0 ==> (total_pages - 1) * page_size < num_results,
            total_pages == 0 ==> current_page == 0,
            total_pages > 0 ==> current_page <= total_pages - 1,
    ;
    let start: usize = current_page * page_size;
    let end: usize = if page_size < num_results - start {
        start + page_size
    } else {
        num_results
    };
    let shown = copy_range(&kept, start, end);
    WasmSearchReturn {
        num_results,
        next_moves,
        results: shown,
        total_pages,
        current_page,
        player_counts,
    }
}

} // verus!
