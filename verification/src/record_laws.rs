//! What holds of reading records and gathering games.

use crate::baduk::{occupied, Color, GameView, Placement, Point};
use crate::board::BoardModel;
use crate::games::{date_key, date_keys, distinct_paths, has_path, with_game};
use crate::matching::{captured, transformed_moves, AttemptView};
use crate::names::{
    alias_table, aliases_of, distinct_keys, field, first_key, games_of, has_distinct_keys, has_key,
    is_plain, name_of, with_aliases, with_entry, with_games_count, with_games_counts, with_number,
    JsonView, MAX_DEPTH,
};
use crate::packing::{
    alias_keys, both_play, captures_table, gathered, gathered_by_date, is_path_order,
    likely_aliases, loads_with_players, sorted_by_path, with_players, PossibleAlias,
};
use crate::players::{as_in_name, cleaned, may_stand_in_name, multiple_players};
use crate::sgf::{
    first_size, game_of_line, has_other_game, last_text, line_moves, loads, node_moves, on_board,
    reads, reads_line, sgf_trees, stones_color, stones_on_board, LoadError, PropertyView,
    SgfProperty, MIN_MOVES,
};
use crate::sorting::{arranged, stable_order, stable_order_sorts};
use crate::text::{
    all_digits, decimal, digits, digits_value, id_of, is_space, lowercase, text_lt,
    texts_are_ordered, trimmed, trimmed_end, trimmed_start,
};
use vstd::prelude::*;

verus! {

/// Whether all stones are on a board of this size.
pub open spec fn all_on_board(moves: Seq<Placement>, board_size: u8) -> bool {
    forall|i: int|
        0 <= i < moves.len() ==> on_board(
            (#[trigger] moves[i]).point.x,
            moves[i].point.y,
            board_size,
        )
}

proof fn lemma_stones_on_board(
    color: Color,
    points: Seq<(u8, u8)>,
    board_size: u8,
)
    ensures
        all_on_board(stones_on_board(color, points, board_size), board_size),
    decreases points.len(),
{
    if points.len() > 0 {
        lemma_stones_on_board(color, points.drop_last(), board_size);
    }
}

proof fn lemma_node_on_board(node: Seq<PropertyView>, board_size: u8)
    ensures
        all_on_board(node_moves(node, board_size), board_size),
    decreases node.len(),
{
    if node.len() > 0 {
        lemma_node_on_board(node.drop_first(), board_size);
        if let PropertyView::Stones(id, points) = node[0] {
            if let Some(color) = stones_color(id) {
                lemma_stones_on_board(color, points, board_size);
            }
        }
    }
}

proof fn lemma_line_on_board(line: Seq<Seq<PropertyView>>, board_size: u8)
    ensures
        all_on_board(line_moves(line, board_size), board_size),
    decreases line.len(),
{
    if line.len() > 0 {
        lemma_line_on_board(line.drop_last(), board_size);
        lemma_node_on_board(line.last(), board_size);
    }
}

/// A game that a record gives has enough moves, all of them on the board, and no player whose name
/// stands for several. It has no captured stones yet.
pub proof fn loaded_games_are_sound(text: Seq<char>, board_size: u8, game: GameView)
    requires
        loads(text, board_size, Ok(game)),
    ensures
        game.moves.len() >= MIN_MOVES,
        all_on_board(game.moves, board_size),
        !multiple_players(game.player_black.name()),
        !multiple_players(game.player_white.name()),
        game.captures == Map::<usize, Seq<Placement>>::empty(),
{
    let written = sgf_trees(text, true).unwrap()[0].unwrap();
    let line = choose|line: Seq<Seq<PropertyView>>| #[trigger]
        reads_line(line, written) && Ok::<GameView, LoadError>(game) == game_of_line(
            line,
            board_size,
        );
    lemma_line_on_board(line, board_size);
}

/// How often a stone is among those on the board depends on how often its point is given.
proof fn lemma_stones_count(
    color: Color,
    points: Seq<(u8, u8)>,
    board_size: u8,
    stone: Placement,
)
    ensures
        stones_on_board(color, points, board_size).to_multiset().count(stone) == (if stone.color
            == color && on_board(stone.point.x, stone.point.y, board_size) {
            points.to_multiset().count((stone.point.x, stone.point.y))
        } else {
            0
        }),
    decreases points.len(),
{
    broadcast use vstd::multiset::group_multiset_axioms;

    let stones = stones_on_board(color, points, board_size);
    stones.to_multiset_ensures();
    points.to_multiset_ensures();
    if points.len() > 0 {
        let rest = points.drop_last();
        let rest_stones = stones_on_board(color, rest, board_size);
        let (x, y) = points.last();
        lemma_stones_count(color, rest, board_size, stone);
        rest.to_multiset_ensures();
        rest_stones.to_multiset_ensures();
        assert(rest.push(points.last()) =~= points);
    }
}

/// The same points in another order put the same stones on the board.
proof fn lemma_same_stones(
    color: Color,
    a: Seq<(u8, u8)>,
    b: Seq<(u8, u8)>,
    board_size: u8,
)
    requires
        a.no_duplicates(),
        b.no_duplicates(),
        a.to_set() == b.to_set(),
    ensures
        stones_on_board(color, a, board_size).to_multiset() == stones_on_board(
            color,
            b,
            board_size,
        ).to_multiset(),
{
    let first = stones_on_board(color, a, board_size).to_multiset();
    let second = stones_on_board(color, b, board_size).to_multiset();
    a.lemma_multiset_has_no_duplicates();
    b.lemma_multiset_has_no_duplicates();
    a.to_multiset_ensures();
    b.to_multiset_ensures();
    assert forall|stone: Placement| #[trigger] first.count(stone) == second.count(stone) by {
        lemma_stones_count(color, a, board_size, stone);
        lemma_stones_count(color, b, board_size, stone);
        let point = (stone.point.x, stone.point.y);
        assert(a.contains(point) <==> a.to_set().contains(point));
        assert(b.contains(point) <==> b.to_set().contains(point));
        assert(a.to_multiset().contains(point) <==> a.contains(point));
        assert(b.to_multiset().contains(point) <==> b.contains(point));
    }
    assert(first =~= second);
}

/// Whether two nodes were read from the same node of a record.
spec fn read_alike(a: Seq<PropertyView>, b: Seq<PropertyView>, written: Seq<SgfProperty>) -> bool {
    &&& a.len() == b.len() == written.len()
    &&& forall|i: int|
        0 <= i < a.len() ==> reads(#[trigger] a[i], written[i]) && reads(b[i], written[i])
}

proof fn lemma_nodes_alike(
    a: Seq<PropertyView>,
    b: Seq<PropertyView>,
    written: Seq<SgfProperty>,
    board_size: u8,
)
    requires
        read_alike(a, b, written),
    ensures
        node_moves(a, board_size).to_multiset() == node_moves(b, board_size).to_multiset(),
        first_size(a) == first_size(b),
    decreases a.len(),
{
    if a.len() > 0 {
        let rest = written.drop_first();
        assert forall|i: int| 0 <= i < a.drop_first().len() implies reads(
            #[trigger] a.drop_first()[i],
            rest[i],
        ) && reads(b.drop_first()[i], rest[i]) by {
            assert(reads(a[i + 1], written[i + 1]));
        }
        lemma_nodes_alike(a.drop_first(), b.drop_first(), rest, board_size);
        assert(reads(a[0], written[0]));
        if let PropertyView::Stones(id, points) = a[0] {
            if let PropertyView::Stones(other, other_points) = b[0] {
                if let Some(color) = stones_color(id) {
                    lemma_same_stones(color, points, other_points, board_size);
                    vstd::seq_lib::lemma_multiset_commutative(
                        stones_on_board(color, points, board_size),
                        node_moves(a.drop_first(), board_size),
                    );
                    vstd::seq_lib::lemma_multiset_commutative(
                        stones_on_board(color, other_points, board_size),
                        node_moves(b.drop_first(), board_size),
                    );
                }
            }
        }
    }
}

proof fn lemma_texts_alike(
    a: Seq<PropertyView>,
    b: Seq<PropertyView>,
    written: Seq<SgfProperty>,
    id: Seq<char>,
)
    requires
        read_alike(a, b, written),
    ensures
        last_text(a, id) == last_text(b, id),
    decreases a.len(),
{
    if a.len() > 0 {
        let rest = written.drop_last();
        assert forall|i: int| 0 <= i < a.drop_last().len() implies reads(
            #[trigger] a.drop_last()[i],
            rest[i],
        ) && reads(b.drop_last()[i], rest[i]) by {
            assert(reads(a[i], written[i]));
        }
        lemma_texts_alike(a.drop_last(), b.drop_last(), rest, id);
        assert(reads(a[a.len() - 1], written[a.len() - 1]));
    }
}

proof fn lemma_lines_alike(
    a: Seq<Seq<PropertyView>>,
    b: Seq<Seq<PropertyView>>,
    written: Seq<Seq<SgfProperty>>,
    board_size: u8,
)
    requires
        reads_line(a, written),
        reads_line(b, written),
    ensures
        line_moves(a, board_size).to_multiset() == line_moves(b, board_size).to_multiset(),
    decreases a.len(),
{
    if a.len() > 0 {
        let last = a.len() - 1;
        lemma_node_alike(a, b, written, last);
        lemma_nodes_alike(a[last], b[last], written[last], board_size);
        let (rest_a, rest_b, rest) = (a.drop_last(), b.drop_last(), written.drop_last());
        assert forall|i: int| 0 <= i < rest_a.len() implies (#[trigger] rest_a[i]).len()
            == rest[i].len() by {
            assert(a[i].len() == written[i].len());
        }
        assert forall|i: int| 0 <= i < rest_b.len() implies (#[trigger] rest_b[i]).len()
            == rest[i].len() by {
            assert(b[i].len() == written[i].len());
        }
        assert forall|i: int, j: int|
            0 <= i < rest_a.len() && 0 <= j < rest_a[i].len() implies reads(
            #[trigger] rest_a[i][j],
            rest[i][j],
        ) by {
            assert(reads(a[i][j], written[i][j]));
        }
        assert forall|i: int, j: int|
            0 <= i < rest_b.len() && 0 <= j < rest_b[i].len() implies reads(
            #[trigger] rest_b[i][j],
            rest[i][j],
        ) by {
            assert(reads(b[i][j], written[i][j]));
        }
        lemma_lines_alike(rest_a, rest_b, rest, board_size);
        vstd::seq_lib::lemma_multiset_commutative(
            line_moves(rest_a, board_size),
            node_moves(a.last(), board_size),
        );
        vstd::seq_lib::lemma_multiset_commutative(
            line_moves(rest_b, board_size),
            node_moves(b.last(), board_size),
        );
    }
}

proof fn lemma_node_alike(
    a: Seq<Seq<PropertyView>>,
    b: Seq<Seq<PropertyView>>,
    written: Seq<Seq<SgfProperty>>,
    place: int,
)
    requires
        reads_line(a, written),
        reads_line(b, written),
        0 <= place < a.len(),
    ensures
        read_alike(a[place], b[place], written[place]),
{
    assert(a[place].len() == written[place].len());
    assert(b[place].len() == written[place].len());
    assert forall|j: int| 0 <= j < a[place].len() implies reads(
        #[trigger] a[place][j],
        written[place][j],
    ) && reads(b[place][j], written[place][j]) by {
        assert(reads(b[place][j], written[place][j]));
    }
}

/// However often a record is read, it gives the same error each time, or the same game but for the
/// order of stones that are put on the board.
pub proof fn records_read_alike(
    text: Seq<char>,
    board_size: u8,
    a: Result<GameView, LoadError>,
    b: Result<GameView, LoadError>,
)
    requires
        loads(text, board_size, a),
        loads(text, board_size, b),
    ensures
        match (a, b) {
            (Ok(first), Ok(second)) => {
                &&& first.moves.to_multiset() == second.moves.to_multiset()
                &&& second == (GameView { moves: second.moves, ..first })
            },
            (Err(first), Err(second)) => first == second,
            _ => false,
        },
{
    let trees = sgf_trees(text, true).unwrap();
    if !has_other_game(trees) {
        let written = trees[0].unwrap();
        let first = choose|line: Seq<Seq<PropertyView>>| #[trigger]
            reads_line(line, written) && line.len() > 0 && a == game_of_line(line, board_size);
        let second = choose|line: Seq<Seq<PropertyView>>| #[trigger]
            reads_line(line, written) && line.len() > 0 && b == game_of_line(line, board_size);
        lemma_lines_alike(first, second, written, board_size);
        line_moves(first, board_size).to_multiset_ensures();
        line_moves(second, board_size).to_multiset_ensures();
        lemma_node_alike(first, second, written, 0);
        lemma_nodes_alike(first[0], second[0], written[0], board_size);
        assert forall|id: Seq<char>| #[trigger] last_text(first[0], id) == last_text(
            second[0],
            id,
        ) by {
            lemma_texts_alike(first[0], second[0], written[0], id);
        }
    }
}

/// Telling players apart changes nothing else of a game.
pub proof fn telling_players_apart_keeps_the_game(
    text: Seq<char>,
    aliases: Map<Seq<char>, i16>,
    board_size: u8,
    game: GameView,
)
    requires
        loads_with_players(text, aliases, board_size, Ok(game)),
    ensures
        game.moves.len() >= MIN_MOVES,
        all_on_board(game.moves, board_size),
        exists|read: GameView| #[trigger]
            loads(text, board_size, Ok(read)) && game == (GameView {
                player_black: game.player_black,
                player_white: game.player_white,
                ..read
            }),
{
    let read = choose|read: GameView|
        #![trigger with_players(read, aliases)]
        loads(text, board_size, Ok(read)) && game == with_players(read, aliases);
    loaded_games_are_sound(text, board_size, read);
}

/// Whether neither end of a text is white space.
spec fn no_space_around(text: Seq<char>) -> bool {
    text.len() > 0 ==> !is_space(text[0]) && !is_space(text.last())
}

proof fn lemma_trimmed(text: Seq<char>)
    ensures
        no_space_around(trimmed(text)),
        forall|c: char| #[trigger] trimmed(text).contains(c) ==> text.contains(c),
{
    lemma_trimmed_start(text);
    lemma_trimmed_end(trimmed_start(text));
}

proof fn lemma_trimmed_start(text: Seq<char>)
    ensures
        trimmed_start(text).len() > 0 ==> !is_space(trimmed_start(text)[0]),
        forall|c: char| #[trigger] trimmed_start(text).contains(c) ==> text.contains(c),
    decreases text.len(),
{
    if text.len() > 0 && is_space(text[0]) {
        let rest = text.drop_first();
        lemma_trimmed_start(rest);
        assert forall|c: char| #[trigger] trimmed_start(text).contains(c) implies text.contains(
            c,
        ) by {
            assert(rest.contains(c));
            let i = choose|i: int| 0 <= i < rest.len() && rest[i] == c;
            assert(text[i + 1] == c);
        }
    }
}

proof fn lemma_trimmed_end(text: Seq<char>)
    ensures
        trimmed_end(text).len() > 0 ==> !is_space(trimmed_end(text).last()) && trimmed_end(text)[0]
            == text[0],
        forall|c: char| #[trigger] trimmed_end(text).contains(c) ==> text.contains(c),
    decreases text.len(),
{
    if text.len() > 0 && is_space(text.last()) {
        let rest = text.drop_last();
        lemma_trimmed_end(rest);
        assert forall|c: char| #[trigger]
            trimmed_end(text).contains(c) implies text.contains(c) by {
            assert(rest.contains(c));
            let i = choose|i: int| 0 <= i < rest.len() && rest[i] == c;
            assert(text[i] == c);
        }
    }
}

/// A cleaned name holds no line feed and no comma, and neither starts nor ends with white space.
pub proof fn cleaned_names_are_clean(name: Seq<char>)
    ensures
        !cleaned(name).contains('\n'),
        !cleaned(name).contains(','),
        cleaned(name).len() > 0 ==> !is_space(cleaned(name)[0]) && !is_space(cleaned(name).last()),
{
    let spaced = name.map_values(|c: char| as_in_name(c));
    let kept = spaced.filter(may_stand_in_name());
    lemma_trimmed(kept);
    if kept.contains('\n') {
        spaced.lemma_filter_contains_rev(may_stand_in_name(), '\n');
        let i = choose|i: int| 0 <= i < spaced.len() && spaced[i] == '\n';
        assert(spaced[i] == as_in_name(name[i]));
    }
    if kept.contains(',') {
        let i = choose|i: int| 0 <= i < kept.len() && kept[i] == ',';
        spaced.lemma_filter_pred(may_stand_in_name(), i);
    }
}

/// Sorting by path keeps every game and puts the paths in order.
pub proof fn games_come_in_path_order(
    before: Seq<(Seq<char>, GameView)>,
    after: Seq<(Seq<char>, GameView)>,
)
    requires
        sorted_by_path(before, after),
    ensures
        after.len() == before.len(),
        forall|i: int| 0 <= i < after.len() ==> before.contains(#[trigger] after[i]),
        forall|i: int, j: int|
            #![trigger after[i], after[j]]
            0 <= i < j < after.len() ==> !text_lt(after[j].0, after[i].0),
{
    let places = choose|places: Seq<int>| #[trigger]
        is_path_order(before, places) && after == arranged(before, places);
    assert forall|i: int| 0 <= i < after.len() implies before.contains(#[trigger] after[i]) by {
        assert(after[i] == before[places[i]]);
    }
    assert forall|i: int, j: int|
        #![trigger after[i], after[j]]
        0 <= i < j < after.len() implies !text_lt(after[j].0, after[i].0) by {
        assert(after[i] == before[places[i]]);
        assert(after[j] == before[places[j]]);
        texts_are_ordered(after[i].0, after[j].0);
    }
}

/// Inserting a game changes one place and leaves all others as they were.
proof fn lemma_with_game(
    entries: Seq<(Seq<char>, GameView)>,
    path: Seq<char>,
    game: GameView,
) -> (place: int)
    requires
        distinct_paths(entries),
    ensures
        ({
            let after = with_game(entries, path, game);
            &&& 0 <= place < after.len()
            &&& entries.len() <= after.len() <= entries.len() + 1
            &&& after[place] == (path, game)
            &&& place < entries.len() ==> entries[place].0 == path
            &&& place >= entries.len() ==> !has_path(entries, path)
            &&& forall|k: int|
                0 <= k < after.len() && k != place ==> k < entries.len() && #[trigger] after[k]
                    == entries[k] && after[k].0 != path
            &&& distinct_paths(after)
        }),
{
    let after = with_game(entries, path, game);
    let place = if has_path(entries, path) {
        choose|i: int| 0 <= i < entries.len() && (#[trigger] entries[i]).0 == path
    } else {
        entries.len() as int
    };
    assert forall|k: int| 0 <= k < after.len() && k != place implies k < entries.len()
        && #[trigger] after[k] == entries[k] && after[k].0 != path by {
        if has_path(entries, path) {
            if k < place {
                assert(entries[k].0 != entries[place].0);
            } else {
                assert(entries[place].0 != entries[k].0);
            }
        } else {
            assert(entries[k].0 != path);
        }
    }
    assert forall|i: int, j: int| 0 <= i < j < after.len() implies (#[trigger] after[i]).0 != (
    #[trigger] after[j]).0 by {
        if i != place && j != place {
            assert(entries[i].0 != entries[j].0);
        }
    }
    place
}

/// A collection has every path of the games, and none of them twice.
pub proof fn gathered_games_have_distinct_paths(entries: Seq<(Seq<char>, GameView)>)
    ensures
        distinct_paths(gathered(entries)),
        gathered(entries).len() <= entries.len(),
        forall|path: Seq<char>| #[trigger]
            has_path(gathered(entries), path) <==> has_path(entries, path),
    decreases entries.len(),
{
    if entries.len() > 0 {
        let rest = entries.drop_last();
        let last = entries.last();
        let earlier = gathered(rest);
        let after = gathered(entries);
        gathered_games_have_distinct_paths(rest);
        let place = lemma_with_game(earlier, last.0, last.1);
        assert forall|path: Seq<char>| #[trigger]
            has_path(after, path) <==> has_path(entries, path) by {
            assert(has_path(earlier, path) <==> has_path(rest, path));
            if has_path(after, path) {
                let k = choose|k: int| 0 <= k < after.len() && (#[trigger] after[k]).0 == path;
                if k == place {
                    assert(entries[entries.len() - 1].0 == path);
                } else {
                    assert(earlier[k].0 == path);
                    let i = choose|i: int| 0 <= i < rest.len() && (#[trigger] rest[i]).0 == path;
                    assert(entries[i].0 == path);
                }
            }
            if has_path(entries, path) {
                if path == last.0 {
                    assert(after[place].0 == path);
                } else {
                    let i = choose|i: int|
                        0 <= i < entries.len() && (#[trigger] entries[i]).0 == path;
                    assert(rest[i].0 == path);
                    let k = choose|k: int|
                        0 <= k < earlier.len() && (#[trigger] earlier[k]).0 == path;
                    assert(after[k].0 == path);
                }
            }
        }
    }
}

/// Of several games with the same path, the collection has the last one.
pub proof fn later_games_replace_earlier_ones(
    entries: Seq<(Seq<char>, GameView)>,
    k: int,
    i: int,
)
    requires
        0 <= k < gathered(entries).len(),
        0 <= i < entries.len(),
        gathered(entries)[k].0 == entries[i].0,
        forall|j: int| i < j < entries.len() ==> (#[trigger] entries[j]).0 != entries[i].0,
    ensures
        gathered(entries)[k] == entries[i],
    decreases entries.len(),
{
    let rest = entries.drop_last();
    let last = entries.last();
    gathered_games_have_distinct_paths(rest);
    let place = lemma_with_game(gathered(rest), last.0, last.1);
    if i < rest.len() {
        assert(entries[entries.len() - 1].0 != entries[i].0);
        assert(rest[i] == entries[i]);
        assert forall|j: int| i < j < rest.len() implies (#[trigger] rest[j]).0 != rest[i].0 by {
            assert(entries[j].0 != entries[i].0);
        }
        later_games_replace_earlier_ones(rest, k, i);
    }
}

/// In a collection that is sorted by date, games with a date come first, an earlier date before a
/// later one, and games without a date last.
pub proof fn dated_games_come_first(entries: Seq<(Seq<char>, GameView)>)
    requires
        entries.len() <= usize::MAX,
    ensures
        forall|i: int, j: int|
            #![trigger gathered_by_date(entries)[i], gathered_by_date(entries)[j]]
            0 <= i < j < gathered_by_date(entries).len() ==> match (
                gathered_by_date(entries)[i].1.date_order,
                gathered_by_date(entries)[j].1.date_order,
            ) {
                (Some(a), Some(b)) => a <= b,
                (None, Some(_)) => false,
                _ => true,
            },
        gathered_by_date(entries).len() == gathered(entries).len(),
        forall|i: int|
            0 <= i < gathered_by_date(entries).len() ==> gathered(entries).contains(
                #[trigger] gathered_by_date(entries)[i],
            ),
{
    let games = gathered(entries);
    let sorted = gathered_by_date(entries);
    let keys = date_keys(games);
    let places = stable_order(keys);
    gathered_games_have_distinct_paths(entries);
    stable_order_sorts(keys);
    assert forall|i: int| 0 <= i < sorted.len() implies games.contains(#[trigger] sorted[i]) by {
        assert(sorted[i] == games[places[i]]);
    }
    assert forall|i: int, j: int|
        #![trigger sorted[i], sorted[j]]
        0 <= i < j < sorted.len() implies match (sorted[i].1.date_order, sorted[j].1.date_order) {
        (Some(a), Some(b)) => a <= b,
        (None, Some(_)) => false,
        _ => true,
    } by {
        assert(keys[places[i]] == date_key(sorted[i].1.date_order));
        assert(keys[places[j]] == date_key(sorted[j].1.date_order));
    }
}

/// A search finds exactly the stones that were captured by the moves up to the one it looks at,
/// turned and mirrored as the moves are.
pub proof fn captures_are_found_again(
    model: BoardModel,
    captured_stones: Seq<Seq<Placement>>,
    last: usize,
    attempt: AttemptView,
    point: Point,
)
    requires
        captured_stones.len() <= usize::MAX,
        transformed_moves(model, Seq::empty(), attempt).len() == 0,
    ensures
        captured(model, captures_table(captured_stones), last, attempt, point) <==> exists|
            number: int,
        |
            0 <= number <= last && number < captured_stones.len() && occupied(
                transformed_moves(model, #[trigger] captured_stones[number], attempt),
                point,
            ),
{
    let table = captures_table(captured_stones);
    if exists|number: int|
        0 <= number <= last && number < captured_stones.len() && occupied(
            transformed_moves(model, #[trigger] captured_stones[number], attempt),
            point,
        ) {
        let number = choose|number: int|
            0 <= number <= last && number < captured_stones.len() && occupied(
                transformed_moves(model, #[trigger] captured_stones[number], attempt),
                point,
            );
        if captured_stones[number].len() == 0 {
            assert(captured_stones[number] =~= Seq::empty());
        }
        assert(table.contains_key(number as usize));
    }
    if captured(model, table, last, attempt, point) {
        let number = choose|number: usize|
            number <= last && #[trigger] table.contains_key(number) && occupied(
                transformed_moves(model, table[number], attempt),
                point,
            );
        assert(table[number] == captured_stones[number as int]);
    }
}

/// The listed aliases come in the order of their ids, and both players of each of them play.
pub proof fn likely_aliases_come_in_order(aliases: Seq<PossibleAlias>, counts: Map<i16, usize>)
    requires
        aliases.len() <= usize::MAX,
    ensures
        forall|i: int|
            0 <= i < likely_aliases(aliases, counts).len() ==> both_play(counts)(
                #[trigger] likely_aliases(aliases, counts)[i],
            ) && aliases.contains(likely_aliases(aliases, counts)[i]),
        forall|i: int, j: int|
            #![trigger likely_aliases(aliases, counts)[i], likely_aliases(aliases, counts)[j]]
            0 <= i < j < likely_aliases(aliases, counts).len() ==> {
                let a = likely_aliases(aliases, counts)[i];
                let b = likely_aliases(aliases, counts)[j];
                a.id1 < b.id1 || (a.id1 == b.id1 && a.id2 <= b.id2)
            },
{
    let kept = aliases.filter(both_play(counts));
    let keys = alias_keys(kept);
    let places = stable_order(keys);
    let sorted = likely_aliases(aliases, counts);
    aliases.lemma_filter_len(both_play(counts));
    stable_order_sorts(keys);
    assert forall|i: int| 0 <= i < sorted.len() implies both_play(counts)(#[trigger] sorted[i])
        && aliases.contains(sorted[i]) by {
        assert(sorted[i] == kept[places[i]]);
        aliases.lemma_filter_pred(both_play(counts), places[i]);
        assert(kept.contains(sorted[i]));
        aliases.lemma_filter_contains_rev(both_play(counts), sorted[i]);
    }
    assert forall|i: int, j: int|
        #![trigger sorted[i], sorted[j]]
        0 <= i < j < sorted.len() implies {
        let a = sorted[i];
        let b = sorted[j];
        a.id1 < b.id1 || (a.id1 == b.id1 && a.id2 <= b.id2)
    } by {
        assert(keys[places[i]] == (
            (sorted[i].id1 + 32768) as u64,
            (sorted[i].id2 + 32768) as u64,
        ));
        assert(keys[places[j]] == (
            (sorted[j].id1 + 32768) as u64,
            (sorted[j].id2 + 32768) as u64,
        ));
    }
}

proof fn lemma_digits(number: nat)
    ensures
        digits(number).len() > 0,
        all_digits(digits(number)),
        digits_value(digits(number)) == number,
    decreases number,
{
    let text = digits(number);
    if number < 10 {
        assert(text.drop_last() =~= Seq::empty());
        assert(digits_value(Seq::empty()) == 0);
        assert(text.last() as u32 == 0x30 + number);
    } else {
        lemma_digits(number / 10);
        assert(text.drop_last() =~= digits(number / 10));
        assert(text.last() as u32 == 0x30 + number % 10);
    }
}

/// An id that is written in decimal digits reads back as the same id.
pub proof fn ids_read_back(id: i16)
    ensures
        id_of(decimal(id as int)) == Some(id),
{
    let text = decimal(id as int);
    if id < 0 {
        lemma_digits((-id) as nat);
        assert(text.drop_first() =~= digits((-id) as nat));
    } else {
        lemma_digits(id as nat);
        assert('0' <= text[0] <= '9');
    }
}

proof fn lemma_first_key(entries: Seq<(Seq<char>, JsonView)>, place: int)
    requires
        0 <= place < entries.len(),
        distinct_keys(entries),
    ensures
        first_key(entries, entries[place].0) == place,
    decreases entries.len(),
{
    if place > 0 {
        let rest = entries.drop_first();
        assert(entries[0].0 != entries[place].0);
        assert forall|i: int, j: int| 0 <= i < j < rest.len() implies (#[trigger] rest[i]).0 != (
        #[trigger] rest[j]).0 by {
            assert(entries[i + 1].0 != entries[j + 1].0);
        }
        assert(rest[place - 1] == entries[place]);
        lemma_first_key(rest, place - 1);
    }
}

/// What an object has under a key, if its keys are all different.
proof fn lemma_field(entries: Seq<(Seq<char>, JsonView)>, place: int)
    requires
        0 <= place < entries.len(),
        distinct_keys(entries),
    ensures
        field(JsonView::Object(entries), entries[place].0) == Some(entries[place].1),
{
    lemma_first_key(entries, place);
    assert(has_key(entries, entries[place].0));
}

proof fn lemma_filter_keeps_distinct(
    entries: Seq<(Seq<char>, JsonView)>,
    pred: spec_fn((Seq<char>, JsonView)) -> bool,
)
    requires
        distinct_keys(entries),
    ensures
        distinct_keys(entries.filter(pred)),
    decreases entries.len(),
{
    reveal(Seq::filter);
    if entries.len() > 0 {
        let rest = entries.drop_last();
        let last = entries.last();
        let kept = rest.filter(pred);
        assert forall|i: int, j: int| 0 <= i < j < rest.len() implies (#[trigger] rest[i]).0 != (
        #[trigger] rest[j]).0 by {
            assert(entries[i].0 != entries[j].0);
        }
        lemma_filter_keeps_distinct(rest, pred);
        assert forall|i: int| 0 <= i < kept.len() implies (#[trigger] kept[i]).0 != last.0 by {
            assert(kept.contains(kept[i]));
            rest.lemma_filter_contains_rev(pred, kept[i]);
            let k = choose|k: int| 0 <= k < rest.len() && rest[k] == kept[i];
            assert(entries[k].0 != entries[entries.len() - 1].0);
        }
    }
}

proof fn lemma_with_entry(
    entries: Seq<(Seq<char>, JsonView)>,
    key: Seq<char>,
    value: JsonView,
)
    requires
        distinct_keys(entries),
    ensures
        distinct_keys(with_entry(entries, key, value)),
        with_entry(entries, key, value).contains((key, value)),
        forall|entry: (Seq<char>, JsonView)|
            entry.0 != key ==> (#[trigger] with_entry(entries, key, value).contains(entry)
                <==> entries.contains(entry)),
{
    let after = with_entry(entries, key, value);
    if has_key(entries, key) {
        let place = choose|i: int| 0 <= i < entries.len() && (#[trigger] entries[i]).0 == key;
        assert(after[place] == (key, value));
        assert forall|entry: (Seq<char>, JsonView)| entry.0 != key implies (
        #[trigger] after.contains(entry) <==> entries.contains(entry)) by {
            if after.contains(entry) {
                let k = choose|k: int| 0 <= k < after.len() && after[k] == entry;
                assert(entries[k] == entry);
            }
            if entries.contains(entry) {
                let k = choose|k: int| 0 <= k < entries.len() && entries[k] == entry;
                assert(after[k] == entry);
            }
        }
    } else {
        let before = |entry: (Seq<char>, JsonView)| text_lt(entry.0, key);
        let behind = |entry: (Seq<char>, JsonView)| !text_lt(entry.0, key);
        let low = entries.filter(before);
        let high = entries.filter(behind);
        lemma_filter_keeps_distinct(entries, before);
        lemma_filter_keeps_distinct(entries, behind);
        assert(after == low.push((key, value)) + high);
        assert(after[low.len() as int] == (key, value));
        assert forall|i: int| 0 <= i < low.len() implies (#[trigger] low[i]).0 != key
            && text_lt(low[i].0, key) && entries.contains(low[i]) by {
            entries.lemma_filter_pred(before, i);
            assert(low.contains(low[i]));
            entries.lemma_filter_contains_rev(before, low[i]);
            texts_are_ordered(low[i].0, key);
        }
        assert forall|i: int| 0 <= i < high.len() implies (#[trigger] high[i]).0 != key
            && !text_lt(high[i].0, key) && entries.contains(high[i]) by {
            entries.lemma_filter_pred(behind, i);
            assert(high.contains(high[i]));
            entries.lemma_filter_contains_rev(behind, high[i]);
            let k = choose|k: int| 0 <= k < entries.len() && entries[k] == high[i];
            assert(entries[k].0 != key);
        }
        assert forall|i: int, j: int| 0 <= i < j < after.len() implies (#[trigger] after[i]).0 != (
        #[trigger] after[j]).0 by {
            let n = low.len() as int;
            if j < n {
                assert(low[i].0 != low[j].0);
            } else if i > n {
                assert(high[i - n - 1].0 != high[j - n - 1].0);
            } else if i < n && j > n {
                assert(text_lt(low[i].0, key));
                assert(!text_lt(high[j - n - 1].0, key));
            } else if i == n {
                assert(high[j - n - 1].0 != key);
            } else {
                assert(low[i].0 != key);
            }
        }
        assert forall|entry: (Seq<char>, JsonView)| entry.0 != key implies (
        #[trigger] after.contains(entry) <==> entries.contains(entry)) by {
            let n = low.len() as int;
            if after.contains(entry) {
                let k = choose|k: int| 0 <= k < after.len() && after[k] == entry;
                if k < n {
                    assert(low[k] == entry);
                } else if k > n {
                    assert(high[k - n - 1] == entry);
                }
            }
            if entries.contains(entry) {
                let k = choose|k: int| 0 <= k < entries.len() && entries[k] == entry;
                if text_lt(entry.0, key) {
                    entries.lemma_filter_contains(before, k);
                    let i = choose|i: int| 0 <= i < low.len() && low[i] == entry;
                    assert(after[i] == entry);
                } else {
                    entries.lemma_filter_contains(behind, k);
                    let i = choose|i: int| 0 <= i < high.len() && high[i] == entry;
                    assert(after[n + 1 + i] == entry);
                }
            }
        }
    }
}

/// A player that gets a number of games has it then, and everything else stays as it was.
pub proof fn games_count_is_all_that_changes(
    fields: Seq<(Seq<char>, JsonView)>,
    key: Seq<char>,
    number: nat,
    other: Seq<char>,
)
    requires
        distinct_keys(fields),
        other != key,
    ensures
        ({
            let player = JsonView::Object(fields);
            &&& field(with_number(player, key, number), key) == Some(
                JsonView::Number(digits(number)),
            )
            &&& field(with_number(player, key, number), other) == field(player, other)
        }),
{
    let value = JsonView::Number(digits(number));
    let after = with_entry(fields, key, value);
    lemma_with_entry(fields, key, value);
    let k = choose|k: int| 0 <= k < after.len() && after[k] == (key, value);
    lemma_field(after, k);
    if has_key(fields, other) {
        let i = choose|i: int| 0 <= i < fields.len() && (#[trigger] fields[i]).0 == other;
        lemma_field(fields, i);
        assert(fields.contains(fields[i]));
        assert(after.contains(fields[i]));
        let j = choose|j: int| 0 <= j < after.len() && after[j] == fields[i];
        lemma_field(after, j);
    } else {
        if has_key(after, other) {
            let j = choose|j: int| 0 <= j < after.len() && (#[trigger] after[j]).0 == other;
            assert(after.contains(after[j]));
            assert(fields.contains(after[j]));
            let i = choose|i: int| 0 <= i < fields.len() && fields[i] == after[j];
            assert(fields[i].0 == other);
        }
    }
}

/// Setting a value under a key twice leaves what is set last.
proof fn lemma_with_entry_twice(
    entries: Seq<(Seq<char>, JsonView)>,
    key: Seq<char>,
    first: JsonView,
    second: JsonView,
)
    requires
        distinct_keys(entries),
    ensures
        with_entry(with_entry(entries, key, first), key, second) == with_entry(
            entries,
            key,
            second,
        ),
{
    let once = with_entry(entries, key, first);
    let twice = with_entry(once, key, second);
    let direct = with_entry(entries, key, second);
    lemma_with_entry(entries, key, first);
    let place = if has_key(entries, key) {
        choose|i: int| 0 <= i < entries.len() && (#[trigger] entries[i]).0 == key
    } else {
        entries.filter(|entry: (Seq<char>, JsonView)| text_lt(entry.0, key)).len() as int
    };
    assert(once[place] == (key, first));
    assert(has_key(once, key));
    let found = choose|i: int| 0 <= i < once.len() && (#[trigger] once[i]).0 == key;
    assert(found == place) by {
        if found < place {
            assert(once[found].0 != once[place].0);
        } else if place < found {
            assert(once[place].0 != once[found].0);
        }
    }
    assert(twice =~= direct);
}

proof fn lemma_with_number_plain(content: JsonView, key: Seq<char>, number: nat, depth: nat)
    requires
        is_plain(content, depth),
        content matches JsonView::Object(fields) ==> distinct_keys(fields),
    ensures
        is_plain(with_number(content, key, number), depth),
{
    if let JsonView::Object(fields) = content {
        let value = JsonView::Number(digits(number));
        let after = with_entry(fields, key, value);
        lemma_with_entry(fields, key, value);
        lemma_digits(number);
        assert('0' <= digits(number)[0] <= '9');
        assert forall|i: int| 0 <= i < after.len() implies is_plain(
            (#[trigger] after[i]).1,
            (depth - 1) as nat,
        ) by {
            assert(after.contains(after[i]));
            if after[i].0 == key {
                let k = choose|k: int| 0 <= k < after.len() && after[k] == (key, value);
                assert(i == k) by {
                    if i < k {
                        assert(after[i].0 != after[k].0);
                    } else if k < i {
                        assert(after[k].0 != after[i].0);
                    }
                }
            } else {
                assert(fields.contains(after[i]));
                let j = choose|j: int| 0 <= j < fields.len() && fields[j] == after[i];
                assert(is_plain(fields[j].1, (depth - 1) as nat));
            }
        }
    }
}

/// Numbers of games are set, not added up: counting again gives what counting once with the later
/// numbers gives, and counting again with the same numbers changes nothing. The content keeps its
/// keys apart, and stays one that is read back as it was printed if it was one.
pub proof fn later_games_counts_replace_earlier_ones(
    content: JsonView,
    earlier: Map<i16, usize>,
    later: Map<i16, usize>,
)
    requires
        has_distinct_keys(content),
    ensures
        with_games_counts(with_games_counts(content, earlier), later) == with_games_counts(
            content,
            later,
        ),
        with_games_counts(with_games_counts(content, later), later) == with_games_counts(
            content,
            later,
        ),
        has_distinct_keys(with_games_counts(content, earlier)),
        is_plain(content, MAX_DEPTH as nat) ==> is_plain(
            with_games_counts(content, earlier),
            MAX_DEPTH as nat,
        ),
{
    lemma_counted_twice(content, earlier, later);
    lemma_counted_twice(content, later, later);
    lemma_counted_keys(content, earlier);
    if is_plain(content, MAX_DEPTH as nat) {
        if let JsonView::Object(players) = content {
            let counted = with_games_counts(content, earlier)->Object_0;
            let below = (MAX_DEPTH - 1) as nat;
            assert forall|i: int| 0 <= i < counted.len() implies is_plain(
                (#[trigger] counted[i]).1,
                below,
            ) by {
                assert(counted[i] == with_games_count(players[i], earlier));
                assert(is_plain(players[i].1, below));
                if let Some(id) = id_of(players[i].0) {
                    lemma_with_number_plain(
                        players[i].1,
                        "games_count"@,
                        games_of(earlier, id),
                        below,
                    );
                }
            }
        }
    }
}

proof fn lemma_counted_twice(
    content: JsonView,
    earlier: Map<i16, usize>,
    later: Map<i16, usize>,
)
    requires
        has_distinct_keys(content),
    ensures
        with_games_counts(with_games_counts(content, earlier), later) == with_games_counts(
            content,
            later,
        ),
{
    if let JsonView::Object(players) = content {
        let once = players.map_values(
            |player: (Seq<char>, JsonView)| with_games_count(player, earlier),
        );
        let twice = once.map_values(
            |player: (Seq<char>, JsonView)| with_games_count(player, later),
        );
        let direct = players.map_values(
            |player: (Seq<char>, JsonView)| with_games_count(player, later),
        );
        assert forall|i: int| 0 <= i < players.len() implies #[trigger] twice[i] == direct[i] by {
            assert(once[i] == with_games_count(players[i], earlier));
            if let Some(id) = id_of(players[i].0) {
                if let JsonView::Object(fields) = players[i].1 {
                    lemma_with_entry_twice(
                        fields,
                        "games_count"@,
                        JsonView::Number(digits(games_of(earlier, id))),
                        JsonView::Number(digits(games_of(later, id))),
                    );
                }
            }
        }
        assert(twice =~= direct);
    }
}

proof fn lemma_counted_keys(content: JsonView, counts: Map<i16, usize>)
    requires
        has_distinct_keys(content),
    ensures
        has_distinct_keys(with_games_counts(content, counts)),
{
    if let JsonView::Object(players) = content {
        let counted = players.map_values(
            |player: (Seq<char>, JsonView)| with_games_count(player, counts),
        );
        assert(with_games_counts(content, counts) == JsonView::Object(counted));
        assert forall|i: int, j: int| 0 <= i < j < counted.len() implies (#[trigger] counted[i]).0
            != (#[trigger] counted[j]).0 by {
            assert(players[i].0 != players[j].0);
        }
        assert forall|i: int| 0 <= i < counted.len() implies ((#[trigger] counted[i]).1 matches
            JsonView::Object(fields) ==> distinct_keys(fields)) by {
            assert(counted[i] == with_games_count(players[i], counts));
            if let Some(id) = id_of(players[i].0) {
                if let JsonView::Object(fields) = players[i].1 {
                    lemma_with_entry(
                        fields,
                        "games_count"@,
                        JsonView::Number(digits(games_of(counts, id))),
                    );
                }
            }
        }
    }
}

/// Numbers of games are given to players in place: the file keeps its players and their order.
pub proof fn games_counts_keep_the_players(
    players: Seq<(Seq<char>, JsonView)>,
    counts: Map<i16, usize>,
)
    ensures
        with_games_counts(JsonView::Object(players), counts) matches JsonView::Object(updated)
            && updated.len() == players.len() && forall|i: int|
            0 <= i < players.len() ==> (#[trigger] updated[i]).0 == players[i].0 && updated[i]
                == with_games_count(players[i], counts),
{
}

/// Whether one of the aliases has this name, in upper or lower case.
pub open spec fn lists_name(aliases: Seq<JsonView>, lower: Seq<char>) -> bool {
    exists|j: int|
        0 <= j < aliases.len() && (name_of(#[trigger] aliases[j]) matches Some(name) && lowercase(
            name,
        ) == lower)
}

proof fn lemma_with_aliases(
    table: Map<Seq<char>, i16>,
    aliases: Seq<JsonView>,
    id: i16,
    lower: Seq<char>,
)
    ensures
        ({
            let after = with_aliases(table, aliases, id);
            &&& lists_name(aliases, lower) ==> after.contains_key(lower) && after[lower] == id
            &&& !lists_name(aliases, lower) ==> (after.contains_key(lower) <==> table.contains_key(
                lower,
            )) && after[lower] == table[lower]
        }),
    decreases aliases.len(),
{
    if aliases.len() > 0 {
        let rest = aliases.drop_last();
        lemma_with_aliases(table, rest, id, lower);
        assert(aliases[aliases.len() - 1] == aliases.last());
        if lists_name(rest, lower) {
            let j = choose|j: int|
                0 <= j < rest.len() && (name_of(#[trigger] rest[j]) matches Some(name)
                    && lowercase(name) == lower);
            assert(aliases[j] == rest[j]);
        }
        if lists_name(aliases, lower) {
            let j = choose|j: int|
                0 <= j < aliases.len() && (name_of(#[trigger] aliases[j]) matches Some(name)
                    && lowercase(name) == lower);
            if j < rest.len() {
                assert(rest[j] == aliases[j]);
            }
        }
    }
}

/// Whether a player has this name among its aliases, in upper or lower case.
pub open spec fn goes_by(player: (Seq<char>, JsonView), lower: Seq<char>) -> bool {
    lists_name(aliases_of(player.1), lower)
}

/// A name is known if and only if one of the players goes by it.
pub proof fn known_names_are_those_of_players(
    players: Seq<(Seq<char>, JsonView)>,
    lower: Seq<char>,
)
    ensures
        alias_table(players).contains_key(lower) <==> exists|i: int|
            0 <= i < players.len() && goes_by(#[trigger] players[i], lower),
    decreases players.len(),
{
    if players.len() > 0 {
        let rest = players.drop_last();
        let last = players.last();
        known_names_are_those_of_players(rest, lower);
        lemma_with_aliases(
            alias_table(rest),
            aliases_of(last.1),
            id_of(last.0).unwrap(),
            lower,
        );
        assert(players[players.len() - 1] == last);
        if alias_table(rest).contains_key(lower) {
            let i = choose|i: int| 0 <= i < rest.len() && goes_by(#[trigger] rest[i], lower);
            assert(players[i] == rest[i]);
        }
        if exists|i: int| 0 <= i < players.len() && goes_by(#[trigger] players[i], lower) {
            let i = choose|i: int| 0 <= i < players.len() && goes_by(#[trigger] players[i], lower);
            if i < rest.len() {
                assert(rest[i] == players[i]);
            }
        }
    }
}

/// A name that several players go by belongs to the last of them.
pub proof fn names_belong_to_the_last_player(
    players: Seq<(Seq<char>, JsonView)>,
    lower: Seq<char>,
    i: int,
)
    requires
        0 <= i < players.len(),
        goes_by(players[i], lower),
        forall|k: int| i < k < players.len() ==> !goes_by(#[trigger] players[k], lower),
    ensures
        alias_table(players).contains_key(lower),
        alias_table(players)[lower] == id_of(players[i].0).unwrap(),
    decreases players.len(),
{
    let rest = players.drop_last();
    let last = players.last();
    lemma_with_aliases(alias_table(rest), aliases_of(last.1), id_of(last.0).unwrap(), lower);
    if i < rest.len() {
        assert(!goes_by(players[players.len() - 1], lower));
        assert(rest[i] == players[i]);
        assert forall|k: int| i < k < rest.len() implies !goes_by(#[trigger] rest[k], lower) by {
            assert(rest[k] == players[k]);
        }
        names_belong_to_the_last_player(rest, lower, i);
    }
}

} // verus!
