//! What holds of the games that are packed: which of them, in which order, and what is listed of
//! them.

use crate::baduk::{Game, GameView, Placement, PlayerView};
use crate::games::{date_keys, has_path, with_game};
use crate::name_laws::{holds, lemma_field};
use crate::names::{distinct_keys, games_of, with_games_counts, with_number, JsonView};
use crate::packing::{
    alias_keys, alias_line, all_load, both_play, captures_table, counts_games, game_count, gathered,
    gathered_by_date, is_path_order, left_out, likely_aliases, listed_name, listed_names,
    lists_in_order, loads_with_players, played_view, sorted_by_path, taken, with_captures,
    PossibleAlias,
};
use crate::players::{is_to_be_read, places_to_read, FoundFile};
use crate::record_laws::games_count_is_all_that_changes;
use crate::sgf::LoadError;
use crate::sorting::{arranged, stable_order, stable_order_sorts};
use crate::text::{decimal, digits, id_of, text_lt};
use vstd::prelude::*;

verus! {

/// What was found among the records is read if and only if it is a file, has the extension `sgf`,
/// and its path is not one of those that are left out; it is read in the order in which it was
/// found, and only once.
pub proof fn records_are_files_that_are_not_blocked(
    files: Seq<FoundFile>,
    blocked: Set<Seq<char>>,
)
    ensures
        forall|place: int|
            0 <= place < files.len() ==> (#[trigger] places_to_read(files, blocked).contains(place)
                <==> {
                &&& files[place].is_file
                &&& files[place].extension matches Some(extension) && extension@.len() == 3
                    && extension@[0] == 's' && extension@[1] == 'g' && extension@[2] == 'f'
                &&& !blocked.contains(files[place].path@)
            }),
        forall|i: int|
            #![trigger places_to_read(files, blocked)[i]]
            0 <= i < places_to_read(files, blocked).len() ==> 0 <= places_to_read(
                files,
                blocked,
            )[i] < files.len(),
        forall|i: int, j: int|
            #![trigger places_to_read(files, blocked)[i], places_to_read(files, blocked)[j]]
            0 <= i < j < places_to_read(files, blocked).len() ==> places_to_read(files, blocked)[i]
                < places_to_read(files, blocked)[j],
{
    reveal_strlit("sgf");
    let all = Seq::new(files.len(), |place: int| place);
    let pred = is_to_be_read(files, blocked);
    lemma_ascending(all, pred);
    assert forall|place: int| 0 <= place < files.len() implies (
    #[trigger] places_to_read(files, blocked).contains(place) <==> {
        &&& files[place].is_file
        &&& files[place].extension matches Some(extension) && extension@.len() == 3
            && extension@[0] == 's' && extension@[1] == 'g' && extension@[2] == 'f'
        &&& !blocked.contains(files[place].path@)
    }) by {
        assert(all[place] == place);
        assert(all.contains(place));
        lemma_kept(all, pred, place);
        if let Some(extension) = files[place].extension {
            if extension@.len() == 3 && extension@[0] == 's' && extension@[1] == 'g'
                && extension@[2] == 'f' {
                assert(extension@ =~= "sgf"@);
            }
        }
    }
    assert forall|i: int|
        #![trigger places_to_read(files, blocked)[i]]
        0 <= i < places_to_read(files, blocked).len() implies 0 <= places_to_read(files, blocked)[i]
        < files.len() by {
        let kept = all.filter(pred);
        assert(kept.contains(kept[i]));
        lemma_kept(all, pred, kept[i]);
        let a = choose|a: int| 0 <= a < all.len() && all[a] == kept[i];
    }
}

proof fn lemma_kept<A>(items: Seq<A>, pred: spec_fn(A) -> bool, item: A)
    ensures
        items.filter(pred).contains(item) <==> items.contains(item) && pred(item),
    decreases items.len(),
{
    reveal(Seq::filter);
    if items.len() > 0 {
        let rest = items.drop_last();
        let last = items.last();
        let kept = rest.filter(pred);
        lemma_kept(rest, pred, item);
        assert(items[items.len() - 1] == last);
        if rest.contains(item) {
            let k = choose|k: int| 0 <= k < rest.len() && rest[k] == item;
            assert(items[k] == item);
        }
        if items.contains(item) && item != last {
            let k = choose|k: int| 0 <= k < items.len() && items[k] == item;
            assert(rest[k] == item);
        }
        if pred(last) {
            if kept.contains(item) {
                let k = choose|k: int| 0 <= k < kept.len() && kept[k] == item;
                assert(kept.push(last)[k] == item);
            }
            assert(kept.push(last)[kept.len() as int] == last);
            if kept.push(last).contains(item) && item != last {
                let k = choose|k: int|
                    0 <= k < kept.push(last).len() && kept.push(last)[k] == item;
                assert(kept[k] == item);
            }
        }
    }
}

proof fn lemma_ascending(items: Seq<int>, pred: spec_fn(int) -> bool)
    requires
        forall|i: int, j: int|
            0 <= i < j < items.len() ==> #[trigger] items[i] < #[trigger] items[j],
    ensures
        forall|i: int, j: int|
            0 <= i < j < items.filter(pred).len() ==> #[trigger] items.filter(pred)[i]
                < #[trigger] items.filter(pred)[j],
    decreases items.len(),
{
    reveal(Seq::filter);
    if items.len() > 0 {
        let rest = items.drop_last();
        let last = items.last();
        lemma_ascending(rest, pred);
        let kept = rest.filter(pred);
        assert forall|i: int, j: int| 0 <= i < j < items.filter(pred).len() implies
            #[trigger] items.filter(pred)[i] < #[trigger] items.filter(pred)[j] by {
            if pred(last) && j == kept.len() {
                assert(kept.contains(kept[i]));
                lemma_kept(rest, pred, kept[i]);
                let k = choose|k: int| 0 <= k < rest.len() && rest[k] == kept[i];
                assert(items[k] < items[items.len() - 1]);
            } else {
                assert(kept[i] < kept[j]);
            }
        }
    }
}

/// A record that is read is taken with its path and its game, after those before it; one that is
/// refused is left out with the reason.
pub proof fn records_are_taken_one_by_one(
    files: Seq<(String, String)>,
    outcomes: Seq<Result<GameView, LoadError>>,
)
    requires
        files.len() > 0,
    ensures
        taken(Seq::empty(), outcomes) == Seq::<(Seq<char>, GameView)>::empty(),
        left_out(Seq::empty(), outcomes) == Seq::<(Seq<char>, LoadError)>::empty(),
        ({
            let path = files.last().0@;
            let before = files.drop_last();
            match outcomes[files.len() - 1] {
                Ok(game) => {
                    &&& taken(files, outcomes) == taken(before, outcomes).push((path, game))
                    &&& left_out(files, outcomes) == left_out(before, outcomes)
                },
                Err(error) => {
                    &&& taken(files, outcomes) == taken(before, outcomes)
                    &&& left_out(files, outcomes) == left_out(before, outcomes).push((path, error))
                },
            }
        }),
{
}

/// Every record is read, from its own text.
pub proof fn every_record_is_read(
    files: Seq<(String, String)>,
    aliases: Map<Seq<char>, i16>,
    board_size: u8,
    outcomes: Seq<Result<GameView, LoadError>>,
    i: int,
)
    requires
        all_load(files, aliases, board_size, outcomes),
        0 <= i < files.len(),
    ensures
        outcomes.len() == files.len(),
        loads_with_players(files[i].1@, aliases, board_size, outcomes[i]),
{
}

/// Games that are sorted by their paths are the same games, each of them once more; those with
/// equal paths stay in their order. The places tell where each of them stood.
pub proof fn sorting_by_path_keeps_all_games(
    before: Seq<(Seq<char>, GameView)>,
    after: Seq<(Seq<char>, GameView)>,
) -> (places: Seq<int>)
    requires
        sorted_by_path(before, after),
    ensures
        places.len() == before.len() == after.len(),
        places.no_duplicates(),
        forall|i: int|
            0 <= i < places.len() ==> 0 <= #[trigger] places[i] < before.len() && after[i]
                == before[places[i]],
        forall|i: int, j: int|
            #![trigger after[i], after[j]]
            0 <= i < j < after.len() ==> text_lt(after[i].0, after[j].0) || (after[i].0
                == after[j].0 && places[i] < places[j]),
{
    let places = choose|places: Seq<int>| #[trigger]
        is_path_order(before, places) && after == arranged(before, places);
    assert forall|i: int, j: int|
        #![trigger after[i], after[j]]
        0 <= i < j < after.len() implies text_lt(after[i].0, after[j].0) || (after[i].0
        == after[j].0 && places[i] < places[j]) by {
        assert(after[i] == before[places[i]] && after[j] == before[places[j]]);
    }
    places
}

/// A game takes the place of the one that has the same path, and comes last if there is none. All
/// other games stay as and where they are.
pub proof fn games_are_gathered_by_path(
    entries: Seq<(Seq<char>, GameView)>,
    path: Seq<char>,
    game: GameView,
)
    ensures
        gathered(Seq::empty()) == Seq::<(Seq<char>, GameView)>::empty(),
        ({
            let before = gathered(entries);
            let after = gathered(entries.push((path, game)));
            let is_new = forall|k: int| 0 <= k < before.len() ==> (#[trigger] before[k]).0 != path;
            &&& is_new ==> after == before.push((path, game))
            &&& !is_new ==> after.len() == before.len() && forall|k: int|
                0 <= k < before.len() ==> #[trigger] after[k] == (if before[k].0 == path {
                    (path, game)
                } else {
                    before[k]
                })
        }),
{
    let before = gathered(entries);
    let more = entries.push((path, game));
    assert(more.drop_last() =~= entries);
    assert(more.last() == (path, game));
    crate::record_laws::gathered_games_have_distinct_paths(entries);
    let after = gathered(more);
    assert(after == with_game(before, path, game));
    if has_path(before, path) {
        let i = choose|i: int| 0 <= i < before.len() && (#[trigger] before[i]).0 == path;
        assert forall|k: int| 0 <= k < before.len() implies #[trigger] after[k] == (if before[k].0
            == path {
            (path, game)
        } else {
            before[k]
        }) by {
            if before[k].0 == path && k != i {
                if k < i {
                    assert(before[k].0 != before[i].0);
                } else {
                    assert(before[i].0 != before[k].0);
                }
            }
        }
    }
}

/// Whether one of two orders of dates comes before the other; a game without one comes last.
pub open spec fn is_earlier(a: Option<u64>, b: Option<u64>) -> bool {
    match (a, b) {
        (Some(a), Some(b)) => a < b,
        (Some(_), None) => true,
        _ => false,
    }
}

/// Games that are gathered by date are the games that are gathered, each of them once: earlier ones
/// first, those without a date last, and those with the same date in their order. The places tell
/// where each of them stood.
pub proof fn sorting_by_date_keeps_all_games(entries: Seq<(Seq<char>, GameView)>) -> (places: Seq<
    int,
>)
    requires
        entries.len() <= usize::MAX,
    ensures
        ({
            let before = gathered(entries);
            let after = gathered_by_date(entries);
            &&& places.len() == before.len() == after.len()
            &&& places.no_duplicates()
            &&& forall|i: int|
                0 <= i < places.len() ==> 0 <= #[trigger] places[i] < before.len() && after[i]
                    == before[places[i]]
            &&& forall|i: int, j: int|
                #![trigger after[i], after[j]]
                0 <= i < j < after.len() ==> is_earlier(
                    after[i].1.date_order,
                    after[j].1.date_order,
                ) || (after[i].1.date_order == after[j].1.date_order && places[i] < places[j])
        }),
{
    let before = gathered(entries);
    let keys = date_keys(before);
    crate::record_laws::gathered_games_have_distinct_paths(entries);
    stable_order_sorts(keys);
    let places = stable_order(keys);
    let after = gathered_by_date(entries);
    assert forall|i: int, j: int|
        #![trigger after[i], after[j]]
        0 <= i < j < after.len() implies is_earlier(after[i].1.date_order, after[j].1.date_order)
        || (after[i].1.date_order == after[j].1.date_order && places[i] < places[j]) by {
        let a = places[i];
        let b = places[j];
        assert(after[i] == before[a] && after[j] == before[b]);
        assert(keys[a] == crate::games::date_key(before[a].1.date_order));
        assert(keys[b] == crate::games::date_key(before[b].1.date_order));
    }
    places
}

/// Whether a name of a player is listed: names of known players, unless only unknown ones are asked
/// for, and names of unknown players that are not empty.
pub open spec fn is_listed(player: PlayerView, unknown_only: bool, name: Seq<char>) -> bool {
    match player {
        PlayerView::Id(_, own) => own == name && !unknown_only,
        PlayerView::Unknown(own) => own == name && own.len() > 0,
    }
}

/// The names of the players of games are listed, of black and of white, each of them once and in
/// alphabetical order.
pub proof fn names_of_players_are_listed(
    entries: Seq<(Seq<char>, GameView)>,
    unknown_only: bool,
    list: Seq<Seq<char>>,
    name: Seq<char>,
)
    requires
        lists_in_order(list, listed_names(entries, unknown_only).to_set()),
    ensures
        list.contains(name) <==> exists|i: int|
            0 <= i < entries.len() && (is_listed(
                (#[trigger] entries[i]).1.player_black,
                unknown_only,
                name,
            ) || is_listed(entries[i].1.player_white, unknown_only, name)),
        forall|i: int, j: int|
            #![trigger list[i], list[j]]
            0 <= i < j < list.len() ==> text_lt(list[i], list[j]),
{
    lemma_listed(entries, unknown_only, name);
}

proof fn lemma_listed(
    entries: Seq<(Seq<char>, GameView)>,
    unknown_only: bool,
    name: Seq<char>,
)
    ensures
        listed_names(entries, unknown_only).contains(name) <==> exists|i: int|
            0 <= i < entries.len() && (is_listed(
                (#[trigger] entries[i]).1.player_black,
                unknown_only,
                name,
            ) || is_listed(entries[i].1.player_white, unknown_only, name)),
    decreases entries.len(),
{
    if entries.len() > 0 {
        let rest = entries.drop_last();
        let last = entries.last().1;
        let n = entries.len() as int;
        lemma_listed(rest, unknown_only, name);
        let before = listed_names(rest, unknown_only);
        let black = listed_name(last.player_black, unknown_only);
        let white = listed_name(last.player_white, unknown_only);
        lemma_joined_contains(before, black, name);
        lemma_joined_contains(before + black, white, name);
        lemma_listed_name(last.player_black, unknown_only, name);
        lemma_listed_name(last.player_white, unknown_only, name);
        if exists|i: int|
            0 <= i < rest.len() && (is_listed(
                (#[trigger] rest[i]).1.player_black,
                unknown_only,
                name,
            ) || is_listed(rest[i].1.player_white, unknown_only, name)) {
            let i = choose|i: int|
                0 <= i < rest.len() && (is_listed(
                    (#[trigger] rest[i]).1.player_black,
                    unknown_only,
                    name,
                ) || is_listed(rest[i].1.player_white, unknown_only, name));
            assert(entries[i] == rest[i]);
        }
        if is_listed(last.player_black, unknown_only, name) || is_listed(
            last.player_white,
            unknown_only,
            name,
        ) {
            assert(entries[n - 1].1 == last);
        }
        if exists|i: int|
            0 <= i < entries.len() && (is_listed(
                (#[trigger] entries[i]).1.player_black,
                unknown_only,
                name,
            ) || is_listed(entries[i].1.player_white, unknown_only, name)) {
            let i = choose|i: int|
                0 <= i < entries.len() && (is_listed(
                    (#[trigger] entries[i]).1.player_black,
                    unknown_only,
                    name,
                ) || is_listed(entries[i].1.player_white, unknown_only, name));
            if i < n - 1 {
                assert(rest[i] == entries[i]);
            }
        }
    }
}

proof fn lemma_joined_contains(a: Seq<Seq<char>>, b: Seq<Seq<char>>, name: Seq<char>)
    ensures
        (a + b).contains(name) <==> a.contains(name) || b.contains(name),
{
    if a.contains(name) {
        let k = choose|k: int| 0 <= k < a.len() && a[k] == name;
        assert((a + b)[k] == name);
    }
    if b.contains(name) {
        let k = choose|k: int| 0 <= k < b.len() && b[k] == name;
        assert((a + b)[a.len() + k] == name);
    }
}

proof fn lemma_listed_name(player: PlayerView, unknown_only: bool, name: Seq<char>)
    ensures
        listed_name(player, unknown_only).contains(name) <==> is_listed(
            player,
            unknown_only,
            name,
        ),
{
    if is_listed(player, unknown_only, name) {
        assert(listed_name(player, unknown_only)[0] == name);
    }
}

/// Whether a player has an id.
pub open spec fn goes_under(player: PlayerView, id: i16) -> bool {
    match player {
        PlayerView::Id(own, _) => own == id,
        PlayerView::Unknown(_) => false,
    }
}

/// A game counts for both of its players, once for each colour; ids without games are not counted.
pub proof fn games_count_for_both_players(
    entries: Seq<(Seq<char>, GameView)>,
    path: Seq<char>,
    game: GameView,
    id: i16,
    counts: Map<i16, usize>,
)
    ensures
        game_count(Seq::empty(), id) == 0,
        game_count(entries.push((path, game)), id) == game_count(entries, id) + (if goes_under(
            game.player_black,
            id,
        ) {
            1nat
        } else {
            0
        }) + (if goes_under(game.player_white, id) {
            1nat
        } else {
            0
        }),
        counts_games(counts, entries) ==> {
            &&& counts.dom().contains(id) <==> game_count(entries, id) >= 1
            &&& counts.dom().contains(id) ==> counts[id] == game_count(entries, id)
        },
{
    assert(entries.push((path, game)).drop_last() =~= entries);
    if counts_games(counts, entries) {
        assert(counts.contains_key(id) <==> game_count(entries, id) > 0);
    }
}

/// Whether both players of an alias have games.
pub open spec fn both_have_games(alias: PossibleAlias, counts: Map<i16, usize>) -> bool {
    &&& counts.dom().contains(alias.id1) && counts[alias.id1] >= 1
    &&& counts.dom().contains(alias.id2) && counts[alias.id2] >= 1
}

/// An alias is listed if and only if both of its players have games, and as often as it was
/// proposed; its line has its two ids with a space between them.
pub proof fn aliases_of_players_with_games_are_listed(
    aliases: Seq<PossibleAlias>,
    alias: PossibleAlias,
    counts: Map<i16, usize>,
)
    requires
        aliases.len() < usize::MAX,
    ensures
        likely_aliases(aliases, counts).contains(alias) <==> aliases.contains(alias)
            && both_have_games(alias, counts),
        likely_aliases(Seq::empty(), counts).len() == 0,
        likely_aliases(aliases.push(alias), counts).len() == likely_aliases(aliases, counts).len()
            + (if both_have_games(alias, counts) {
            1int
        } else {
            0
        }),
        alias_line(alias) == decimal(alias.id1 as int) + seq![' '] + decimal(alias.id2 as int),
{
    reveal(Seq::filter);
    let pred = both_play(counts);
    let kept = aliases.filter(pred);
    let keys = alias_keys(kept);
    lemma_kept(aliases, pred, alias);
    lemma_filter_len(aliases, pred);
    lemma_filter_len(aliases.push(alias), pred);
    stable_order_sorts(keys);
    let places = stable_order(keys);
    let listed = likely_aliases(aliases, counts);
    if kept.contains(alias) {
        let k = choose|k: int| 0 <= k < kept.len() && kept[k] == alias;
        assert(places.contains(k));
        let i = choose|i: int| 0 <= i < places.len() && places[i] == k;
        assert(listed[i] == alias);
    }
    if listed.contains(alias) {
        let i = choose|i: int| 0 <= i < listed.len() && listed[i] == alias;
        assert(kept[places[i]] == alias);
    }
    assert(aliases.push(alias).drop_last() =~= aliases);
    let more = aliases.push(alias).filter(pred);
    stable_order_sorts(alias_keys(more));
    let none = Seq::<PossibleAlias>::empty().filter(pred);
    assert(none =~= Seq::empty());
    stable_order_sorts(alias_keys(none));
    assert(alias_line(alias) =~= decimal(alias.id1 as int) + seq![' '] + decimal(
        alias.id2 as int,
    ));
}

proof fn lemma_filter_len<A>(items: Seq<A>, pred: spec_fn(A) -> bool)
    ensures
        items.filter(pred).len() <= items.len(),
    decreases items.len(),
{
    reveal(Seq::filter);
    if items.len() > 0 {
        lemma_filter_len(items.drop_last(), pred);
    }
}

/// The captures of a game are the stones that each of its moves takes off the board, for those
/// moves that take any; the game stays as it is otherwise.
pub proof fn captures_belong_to_their_moves(
    game: GameView,
    stones: Seq<Seq<Placement>>,
    number: usize,
)
    ensures
        ({
            let with = with_captures(game, stones);
            &&& with.captures.dom().contains(number) <==> number < stones.len()
                && stones[number as int].len() >= 1
            &&& with.captures.dom().contains(number) ==> with.captures[number]
                == stones[number as int]
            &&& with.captures == captures_table(stones)
            &&& with.moves == game.moves
            &&& with.details == game.details
            &&& with.date_order == game.date_order
            &&& with.player_black == game.player_black
            &&& with.player_white == game.player_white
        }),
{
}

/// A game is packed under its path, with its moves, players, date and details, and with its
/// captures.
pub proof fn games_are_packed_with_their_captures(
    games: Seq<(String, Game, Vec<Vec<Placement>>)>,
    i: int,
    number: usize,
)
    requires
        0 <= i < games.len(),
    ensures
        ({
            let (path, game) = played_view(games)[i];
            let captured = games[i].2@;
            &&& played_view(games).len() == games.len()
            &&& path == games[i].0@
            &&& game.moves == games[i].1.moves@
            &&& game.player_black == games[i].1.player_black@
            &&& game.player_white == games[i].1.player_white@
            &&& game.date_order == games[i].1.date_order
            &&& game.details == games[i].1.details@
            &&& game.captures.dom().contains(number) <==> number < captured.len()
                && captured[number as int]@.len() >= 1
            &&& game.captures.dom().contains(number) ==> game.captures[number]
                == captured[number as int]@
        }),
{
}

/// In the file of names each player whose key is an id gets its number of games under
/// `games_count`, which is none if it is not counted; its other fields stay as they are, and so do
/// players that are no objects, and everything under keys that are no ids.
pub proof fn players_get_their_games_counts(
    players: Seq<(Seq<char>, JsonView)>,
    counts: Map<i16, usize>,
    i: int,
    other: Seq<char>,
    value: JsonView,
)
    requires
        0 <= i < players.len(),
        players[i].1 matches JsonView::Object(fields) ==> distinct_keys(fields),
        other != "games_count"@,
    ensures
        with_games_counts(JsonView::Object(players), counts) matches JsonView::Object(after) && {
            &&& after.len() == players.len()
            &&& after[i].0 == players[i].0
            &&& id_of(players[i].0) is None || !(players[i].1 is Object) ==> after[i] == players[i]
            &&& id_of(players[i].0) matches Some(id) ==> (players[i].1 is Object ==> {
                let number: nat = if counts.dom().contains(id) {
                    counts[id] as nat
                } else {
                    0
                };
                &&& after[i].1 is Object
                &&& holds(after[i].1, "games_count"@, JsonView::Number(digits(number)))
                &&& holds(after[i].1, other, value) <==> holds(players[i].1, other, value)
            })
        },
{
    if let Some(id) = id_of(players[i].0) {
        if let JsonView::Object(fields) = players[i].1 {
            let number = games_of(counts, id);
            let after = with_number(players[i].1, "games_count"@, number);
            games_count_is_all_that_changes(fields, "games_count"@, number, other);
            lemma_field(after, "games_count"@, JsonView::Number(digits(number)));
            lemma_field(after, other, value);
            lemma_field(players[i].1, other, value);
        }
    }
}

/// A file of names that is not an object has no players, and stays as it is.
pub proof fn files_without_players_get_no_games_counts(
    content: JsonView,
    counts: Map<i16, usize>,
)
    requires
        !(content is Object),
    ensures
        with_games_counts(content, counts) == content,
{
}

} // verus!
