//! What an answer tells: next moves, pages, filters and players.

use crate::answers::{
    answers, counts_players, filtered_for, filtered_results, page_count, page_results, passes,
    passes_all, player_count, selected, shown_page, PlayerFilter, SortBy, WasmSearchReturn,
};
use crate::baduk::{Color, GameView, Placement, PlayerView, Point, Rotation};
use crate::board::BoardModel;
use crate::cache::{has_key, place_of, position_key};
use crate::matching::{results_view, SearchResultView};
use crate::next_moves::{are_next_moves, next_count, next_score, step_count, step_score, NextMove};
use crate::wasm_search::{cache_after_search, position_matches, result_by_path, within_limits};
use vstd::prelude::*;

verus! {

/// Whether a game that was found plays a placement with the given step after the position, for
/// someone who drew the position: its stones have the opposite colour if the position was found
/// that way. Games in which the position is disturbed have no say, and points of the position
/// cannot be played.
pub open spec fn plays_next(
    result: SearchResultView,
    position: Seq<Placement>,
    placement: Placement,
    step: int,
) -> bool {
    let played = result.moves_transformed[result.last_move_matched + step];
    &&& result.all_empty_correctly_within > 0
    &&& result.last_move_matched + step < result.moves_transformed.len()
    &&& played.point == placement.point
    &&& played.color == placement.color <==> !result.is_inverted
    &&& forall|k: int|
        0 <= k < position.len() ==> (#[trigger] position[k]).point != placement.point
}

/// What the say of a game in the next moves weighs: as much as the distance up to which the
/// position is undisturbed, and a hundred times that if the game has come to the position with as
/// many moves as the position has stones.
pub open spec fn say(result: SearchResultView, position: Seq<Placement>) -> nat {
    if result.last_move_matched + 1 == position.len() {
        (100 * result.all_empty_correctly_within) as nat
    } else {
        result.all_empty_correctly_within as nat
    }
}

/// Each game adds its say to the score of what it plays after the position, first or second, and
/// one point more to what it plays first; it counts once for each of the two. Games in which the
/// position is disturbed add nothing.
pub proof fn games_have_their_say_in_the_next_moves(
    results: Seq<SearchResultView>,
    result: SearchResultView,
    position: Seq<Placement>,
    placement: Placement,
)
    ensures
        next_score(Seq::empty(), position, placement) == 0,
        next_count(Seq::empty(), position, placement) == 0,
        next_score(results.push(result), position, placement) == next_score(
            results,
            position,
            placement,
        ) + (if plays_next(result, position, placement, 1) {
            say(result, position) + 1
        } else {
            0
        }) + (if plays_next(result, position, placement, 2) {
            say(result, position)
        } else {
            0
        }),
        next_count(results.push(result), position, placement) == next_count(
            results,
            position,
            placement,
        ) + (if plays_next(result, position, placement, 1) {
            1nat
        } else {
            0
        }) + (if plays_next(result, position, placement, 2) {
            1nat
        } else {
            0
        }),
{
    assert(results.push(result).drop_last() =~= results);
    assert(results.push(result).last() == result);
    lemma_step(result, position, placement, 1);
    lemma_step(result, position, placement, 2);
}

proof fn lemma_step(
    result: SearchResultView,
    position: Seq<Placement>,
    placement: Placement,
    step: int,
)
    requires
        1 <= step <= 2,
    ensures
        step_score(result, position, placement, step) == (if plays_next(
            result,
            position,
            placement,
            step,
        ) {
            say(result, position) + 2 - step
        } else {
            0
        }),
        step_count(result, position, placement, step) == (if plays_next(
            result,
            position,
            placement,
            step,
        ) {
            1int
        } else {
            0
        }),
{
}

/// The next moves of a colour are the points that it plays at least fifty times, each of them once
/// and with the number of times; those with higher scores come first, and of those with the same
/// score the ones that are played more often.
pub proof fn next_moves_are_those_played_often(
    next: Seq<NextMove>,
    results: Seq<SearchResultView>,
    position: Seq<Placement>,
    color: Color,
)
    requires
        are_next_moves(next, results, position, color),
    ensures
        forall|point: Point|
            #![trigger next_count(results, position, Placement { color, point })]
            next_count(results, position, Placement { color, point }) >= 50 <==> exists|i: int|
                0 <= i < next.len() && (#[trigger] next[i]).point == point,
        forall|i: int|
            0 <= i < next.len() ==> (#[trigger] next[i]).game_count == next_count(
                results,
                position,
                Placement { color, point: next[i].point },
            ),
        forall|i: int, j: int|
            #![trigger next[i], next[j]]
            0 <= i < j < next.len() ==> {
                let a = next_score(results, position, Placement { color, point: next[i].point });
                let b = next_score(results, position, Placement { color, point: next[j].point });
                next[i].point != next[j].point && (a > b || (a == b && next[i].game_count
                    >= next[j].game_count))
            },
{
}

/// An answer shows at most nine next moves, the first ones of the colour that is asked for: black
/// for the number 0, and white for any other.
pub proof fn answers_show_the_first_next_moves(
    answer: WasmSearchReturn,
    results: Seq<SearchResultView>,
    position: Seq<Placement>,
    next_color: u8,
    page: usize,
    page_size: usize,
    filters: Seq<PlayerFilter>,
) -> (next: Seq<NextMove>)
    requires
        answers(answer, results, position, next_color, page, page_size, filters),
    ensures
        next_color == 0 ==> are_next_moves(next, results, position, Color::Black),
        next_color != 0 ==> are_next_moves(next, results, position, Color::White),
        next.len() <= 9 ==> answer.next_moves@ == next,
        next.len() > 9 ==> answer.next_moves@.len() == 9,
        forall|i: int|
            0 <= i < answer.next_moves@.len() ==> #[trigger] answer.next_moves@[i] == next[i],
{
    let color = crate::answers::color_of_number(next_color);
    let next = choose|next: Seq<NextMove>|
        {
            &&& #[trigger] are_next_moves(next, results, position, color)
            &&& answer.next_moves@ == next.take(
                if next.len() < crate::answers::MAX_NEXT_MOVES {
                    next.len() as int
                } else {
                    crate::answers::MAX_NEXT_MOVES as int
                },
            )
        };
    assert(next.take(next.len() as int) =~= next);
    next
}

/// An answer tells how many results there are, on as many pages as it takes, and shows the page
/// that is asked for, or the last one if there is no such page: the results that come after those
/// of the pages before it, as many as a page holds or as are left.
pub proof fn answers_show_one_page(
    answer: WasmSearchReturn,
    results: Seq<SearchResultView>,
    position: Seq<Placement>,
    next_color: u8,
    page: usize,
    page_size: usize,
    filters: Seq<PlayerFilter>,
)
    requires
        answers(answer, results, position, next_color, page, page_size, filters),
        page_size > 0,
    ensures
        answer.num_results == results.len(),
        answer.total_pages * page_size >= results.len(),
        answer.total_pages > 0 ==> (answer.total_pages - 1) * page_size < results.len(),
        page < answer.total_pages ==> answer.current_page == page,
        page >= answer.total_pages && results.len() > 0 ==> answer.current_page
            == answer.total_pages - 1,
        results.len() == 0 ==> answer.total_pages == 0 && answer.current_page == 0,
        answer.current_page * page_size + answer.results@.len() <= results.len(),
        answer.results@.len() <= page_size,
        answer.results@.len() == page_size || answer.current_page * page_size
            + answer.results@.len() == results.len(),
        forall|k: int|
            0 <= k < answer.results@.len() ==> #[trigger] answer.results@[k]@
                == results[answer.current_page * page_size + k],
{
    let n = results.len();
    let size = page_size as nat;
    let pages = page_count(n, size);
    lemma_page_count(n, size);
    let shown = shown_page(page as nat, n, size);
    let start = shown * size;
    if n > 0 {
        assert(pages > 0) by (nonlinear_arith)
            requires
                pages * size >= n,
                n > 0,
        ;
        assert(shown * size <= (pages - 1) * size) by (nonlinear_arith)
            requires
                shown <= pages - 1,
                size > 0,
        ;
    } else {
        assert(pages == 0) by (nonlinear_arith)
            requires
                pages > 0 ==> (pages - 1) * size < n,
                n == 0,
                size > 0,
                pages >= 0,
        ;
        assert(start == 0) by (nonlinear_arith)
            requires
                start == shown * size,
                shown == 0,
        ;
    }
    assert(0 <= start <= n);
    let view = results_view(answer.results@);
    assert(view == page_results(results, shown, size));
    assert(view.len() == answer.results@.len());
    assert forall|k: int| 0 <= k < answer.results@.len() implies #[trigger] answer.results@[k]@
        == results[answer.current_page * page_size + k] by {
        assert(view[k] == answer.results@[k]@);
        assert(view[k] == results[start + k]);
    }
}

proof fn lemma_page_count(n: nat, size: nat)
    requires
        size > 0,
    ensures
        page_count(n, size) * size >= n,
        page_count(n, size) > 0 ==> (page_count(n, size) - 1) * size < n,
{
    let pages = (n + size - 1) / size as int;
    vstd::arithmetic::div_mod::lemma_fundamental_div_mod(n + size - 1, size as int);
    let rest = (n + size - 1) % size as int;
    assert(pages >= 0) by (nonlinear_arith)
        requires
            pages == (n + size - 1) / size as int,
            size > 0,
    ;
    assert(size * pages == pages * size) by (nonlinear_arith);
    assert((pages - 1) * size == pages * size - size) by (nonlinear_arith);
}

/// Whether a player has an id.
pub open spec fn is_player(player: PlayerView, id: i16) -> bool {
    match player {
        PlayerView::Id(own, _) => own == id,
        PlayerView::Unknown(_) => false,
    }
}

/// Of results with one more at the end, a filter keeps what it keeps without it, and then the last
/// one if each of the filters finds its player in it: with the colour that it asks for, or with any
/// colour if it asks for none.
pub proof fn filters_ask_for_players(
    results: Seq<SearchResultView>,
    result: SearchResultView,
    filters: Seq<PlayerFilter>,
)
    ensures
        filtered_results(Seq::empty(), filters) == Seq::<SearchResultView>::empty(),
        ({
            let kept = filtered_results(results, filters);
            let wanted = forall|i: int|
                #![trigger filters[i]]
                0 <= i < filters.len() ==> {
                    let black = is_player(result.player_black, filters[i].player_id);
                    let white = is_player(result.player_white, filters[i].player_id);
                    match filters[i].color {
                        Some(Color::Black) => black,
                        Some(Color::White) => white,
                        None => black || white,
                    }
                };
            filtered_results(results.push(result), filters) == (if wanted {
                kept.push(result)
            } else {
                kept
            })
        }),
        selected(results, filters, SortBy::BestMatch) == filtered_results(results, filters),
{
    reveal(Seq::filter);
    assert(results.push(result).drop_last() =~= results);
    assert forall|i: int| 0 <= i < filters.len() implies #[trigger] passes(filters[i], result) == ({
        let black = is_player(result.player_black, filters[i].player_id);
        let white = is_player(result.player_white, filters[i].player_id);
        match filters[i].color {
            Some(Color::Black) => black,
            Some(Color::White) => white,
            None => black || white,
        }
    }) by {}
    if passes_all(filters, result) {
        assert forall|i: int|
            #![trigger filters[i]]
            0 <= i < filters.len() implies {
            let black = is_player(result.player_black, filters[i].player_id);
            let white = is_player(result.player_white, filters[i].player_id);
            match filters[i].color {
                Some(Color::Black) => black,
                Some(Color::White) => white,
                None => black || white,
            }
        } by {
            assert(passes(filters[i], result));
        }
    }
}

/// A result counts for both of its players, once for each colour, and an answer counts all players
/// of its results other than those that a filter names.
pub proof fn both_players_count(
    results: Seq<SearchResultView>,
    result: SearchResultView,
    id: i16,
    counts: Map<i16, usize>,
    filters: Seq<PlayerFilter>,
)
    ensures
        player_count(Seq::empty(), id) == 0,
        player_count(results.push(result), id) == player_count(results, id) + (if is_player(
            result.player_black,
            id,
        ) {
            1nat
        } else {
            0
        }) + (if is_player(result.player_white, id) {
            1nat
        } else {
            0
        }),
        counts_players(counts, results, filters) ==> {
            let is_named = exists|i: int|
                0 <= i < filters.len() && (#[trigger] filters[i]).player_id == id;
            &&& counts.dom().contains(id) <==> player_count(results, id) > 0 && !is_named
            &&& counts.dom().contains(id) ==> counts[id] == player_count(results, id)
        },
{
    assert(results.push(result).drop_last() =~= results);
    if counts_players(counts, results, filters) {
        assert(counts.contains_key(id) <==> player_count(results, id) > 0 && !filtered_for(
            filters,
            id,
        ));
    }
}

/// Without any stones every game is given as it is, in the order of the games, with nothing matched
/// and without a score.
pub proof fn games_are_shown_as_they_are(
    model: BoardModel,
    games: Seq<(Seq<char>, GameView)>,
    i: int,
)
    requires
        0 <= i < games.len(),
    ensures
        ({
            let all = position_matches(model, Seq::empty(), games);
            let (path, game) = games[i];
            &&& all.len() == games.len()
            &&& all[i].path == path
            &&& all[i].moves == game.moves
            &&& all[i].moves_transformed == game.moves
            &&& all[i].details == game.details
            &&& all[i].player_black == game.player_black
            &&& all[i].player_white == game.player_white
            &&& all[i].score == 0
            &&& all[i].last_move_matched == 0
            &&& all[i].all_empty_correctly_within == 0
            &&& all[i].rotation == 0
            &&& !all[i].is_inverted
            &&& !all[i].is_mirrored
        }),
{
}

/// A game that is asked for by its path is given with its moves mirrored, if that is asked for, and
/// then turned by the quarter turns that are asked for, from one to three; any other number turns
/// nothing.
pub proof fn games_asked_for_are_turned(
    model: BoardModel,
    path: Seq<char>,
    game: GameView,
    rotation: u8,
    is_mirrored: bool,
)
    ensures
        ({
            let result = result_by_path(model, path, game, rotation, is_mirrored);
            let side = if is_mirrored {
                (model.mirrored)(game.moves)
            } else {
                game.moves
            };
            &&& result.path == path
            &&& result.moves == game.moves
            &&& rotation == 1 ==> result.moves_transformed == (model.rotated)(
                side,
                Rotation::Degrees90,
            )
            &&& rotation == 2 ==> result.moves_transformed == (model.rotated)(
                side,
                Rotation::Degrees180,
            )
            &&& rotation == 3 ==> result.moves_transformed == (model.rotated)(
                side,
                Rotation::Degrees270,
            )
            &&& rotation == 0 || rotation > 3 ==> result.moves_transformed == side
            &&& result.rotation == rotation
            &&& result.is_mirrored == is_mirrored
            &&& !result.is_inverted
            &&& result.score == 0
            &&& result.last_move_matched == 0
            &&& result.all_empty_correctly_within == 0
            &&& result.details == game.details
            &&& result.player_black == game.player_black
            &&& result.player_white == game.player_white
        }),
{
}

/// Positions with up to 449 stones can be searched in games with up to 32767 moves, as long as
/// there are not more games than can be counted.
pub proof fn sizes_that_can_be_searched(
    position: Seq<Placement>,
    games: Seq<(Seq<char>, GameView)>,
)
    ensures
        within_limits(position, games) <==> {
            &&& position.len() <= 449
            &&& games.len() * 601 <= usize::MAX
            &&& forall|i: int|
                0 <= i < games.len() ==> (#[trigger] games[i]).1.moves.len() <= 32767
        },
{
}

/// A search remembers the last thousand positions: what is searched for comes to the front with its
/// results, and nothing else is forgotten but the position that was not asked for the longest, and
/// that only if a thousand others are remembered.
pub proof fn a_thousand_positions_are_remembered(
    entries: Seq<(Seq<u32>, Seq<SearchResultView>)>,
    position: Seq<Placement>,
    results: Seq<SearchResultView>,
    k: int,
)
    requires
        entries.len() <= 1000,
        0 <= k < entries.len(),
        forall|i: int, j: int|
            0 <= i < j < entries.len() ==> (#[trigger] entries[i]).0 != (#[trigger] entries[j]).0,
    ensures
        ({
            let after = cache_after_search(entries, position, results);
            let key = position_key(position);
            let is_known = exists|i: int|
                0 <= i < entries.len() && (#[trigger] entries[i]).0 == key;
            &&& 1 <= after.len() <= 1000
            &&& after[0].0 == key
            &&& !is_known ==> after[0].1 == results
            &&& entries[k].0 == key ==> after[0] == entries[k]
            &&& is_known || entries.len() < 1000 || k < 999 ==> after.contains(entries[k])
            &&& !is_known && entries.len() == 1000 && k == 999 ==> !after.skip(1).contains(
                entries[k],
            )
        }),
{
    let after = cache_after_search(entries, position, results);
    let key = position_key(position);
    if has_key(entries, key) {
        let i = place_of(entries, key);
        let rest = entries.remove(i);
        if k < i {
            assert(entries[k].0 != entries[i].0);
            assert(rest[k] == entries[k]);
            assert(after[k + 1] == entries[k]);
        } else if k > i {
            assert(entries[i].0 != entries[k].0);
            assert(rest[k - 1] == entries[k]);
            assert(after[k] == entries[k]);
        } else {
            assert(after[0] == entries[k]);
        }
    } else if entries.len() == 1000 {
        assert(after == seq![(key, results)] + entries.drop_last());
        if k < 999 {
            assert(after[k + 1] == entries[k]);
        } else {
            let others = after.skip(1);
            assert(others =~= entries.drop_last());
            if others.contains(entries[k]) {
                let m = choose|m: int| 0 <= m < others.len() && others[m] == entries[k];
                assert(entries[m].0 != entries[k].0);
            }
        }
    } else {
        assert(after[k + 1] == entries[k]);
    }
}

} // verus!
