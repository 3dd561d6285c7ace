//! Gathering games into one collection, and what is told of it.

use crate::answers::{count_player, PlayerFilter};
use crate::baduk::{captures_view, Game, GameView, Placement, Player, PlayerView};
use crate::games::{
    count_games, date_keys, game_at, game_entries, insert_game, new_games, sort_games_by_date,
    with_game,
};
use crate::players::{find_player_id, resolved, PlayerAliases};
use crate::sgf::{load_sgf, loads, LoadError};
use crate::sorting::{arranged, order_of, stable_order};
use crate::text::{
    decimal, join_lines, joined, push_decimal, sort_texts, text_lt, texts_are_ordered,
    texts_in_order_chain, texts_view,
};
use indexmap::IndexMap;
use std::collections::HashMap;
use vstd::prelude::*;

verus! {

/// What a list of games with their paths stands for.
pub open spec fn entries_view(games: Seq<(String, Game)>) -> Seq<(Seq<char>, GameView)> {
    games.map_values(|entry: (String, Game)| (entry.0@, entry.1@))
}

/// The game with its players told apart by their names.
pub open spec fn with_players(game: GameView, aliases: Map<Seq<char>, i16>) -> GameView {
    GameView {
        player_black: resolved(game.player_black.name(), aliases),
        player_white: resolved(game.player_white.name(), aliases),
        ..game
    }
}

/// Whether a record gives a game with its players told apart, or an error.
pub open spec fn loads_with_players(
    text: Seq<char>,
    aliases: Map<Seq<char>, i16>,
    board_size: u8,
    outcome: Result<GameView, LoadError>,
) -> bool {
    match outcome {
        Ok(game) => exists|read: GameView|
            #![trigger with_players(read, aliases)]
            loads(text, board_size, Ok(read)) && game == with_players(read, aliases),
        Err(error) => loads(text, board_size, Err(error)),
    }
}

/// Reads a record and tells its players apart.
pub fn load_game(
    file_data: &str,
    player_aliases: &PlayerAliases,
    board_size: u8,
) -> (loaded: Result<Game, LoadError>)
    ensures
        loads_with_players(
            file_data@,
            player_aliases@,
            board_size,
            match loaded {
                Ok(game) => Ok(game@),
                Err(error) => Err(error),
            },
        ),
{
    match load_sgf(file_data, board_size) {
        Ok((game, player_black, player_white)) => {
            let ghost read = game@;
            let mut game = game;
            game.player_black = find_player_id(player_black.as_str(), player_aliases);
            game.player_white = find_player_id(player_white.as_str(), player_aliases);
            assert(game@ == with_players(read, player_aliases@));
            Ok(game)
        },
        Err(error) => Err(error),
    }
}

/// The records that gave a game, each with its path.
pub open spec fn taken(
    files: Seq<(String, String)>,
    outcomes: Seq<Result<GameView, LoadError>>,
) -> Seq<(Seq<char>, GameView)>
    decreases files.len(),
{
    if files.len() == 0 {
        Seq::empty()
    } else {
        let rest = taken(files.drop_last(), outcomes);
        match outcomes[files.len() - 1] {
            Ok(game) => rest.push((files.last().0@, game)),
            Err(_) => rest,
        }
    }
}

/// The records that gave an error, each with its path.
pub open spec fn left_out(
    files: Seq<(String, String)>,
    outcomes: Seq<Result<GameView, LoadError>>,
) -> Seq<(Seq<char>, LoadError)>
    decreases files.len(),
{
    if files.len() == 0 {
        Seq::empty()
    } else {
        let rest = left_out(files.drop_last(), outcomes);
        match outcomes[files.len() - 1] {
            Ok(_) => rest,
            Err(error) => rest.push((files.last().0@, error)),
        }
    }
}

/// Whether these are what the records give, one after the other.
pub open spec fn all_load(
    files: Seq<(String, String)>,
    aliases: Map<Seq<char>, i16>,
    board_size: u8,
    outcomes: Seq<Result<GameView, LoadError>>,
) -> bool {
    &&& outcomes.len() == files.len()
    &&& forall|i: int|
        0 <= i < files.len() ==> loads_with_players(
            files[i].1@,
            aliases,
            board_size,
            #[trigger] outcomes[i],
        )
}

/// Whether the places put the entries in the order of their paths, and those with equal paths in
/// the order in which they stand.
pub open spec fn is_path_order(entries: Seq<(Seq<char>, GameView)>, places: Seq<int>) -> bool {
    &&& places.len() == entries.len()
    &&& places.no_duplicates()
    &&& forall|i: int| 0 <= i < places.len() ==> 0 <= #[trigger] places[i] < entries.len()
    &&& forall|i: int, j: int|
        #![trigger places[i], places[j]]
        0 <= i < j < places.len() ==> text_lt(entries[places[i]].0, entries[places[j]].0) || (
        entries[places[i]].0 == entries[places[j]].0 && places[i] < places[j])
}

/// Whether these are the same entries, sorted by their paths.
pub open spec fn sorted_by_path(
    before: Seq<(Seq<char>, GameView)>,
    after: Seq<(Seq<char>, GameView)>,
) -> bool {
    exists|places: Seq<int>| #[trigger]
        is_path_order(before, places) && after == arranged(before, places)
}

/// Sorts with `slice::sort_by_key` of the standard library, which is stable. The paths compare by
/// their characters, from the first one on.
#[verifier::external_body]
fn sort_by_path(games: &mut Vec<(String, Game)>)
    ensures
        sorted_by_path(entries_view(old(games)@), entries_view(final(games)@)),
{
    games.sort_by_key(|entry| entry.0.clone());
}

/// The games of some records, and the records that gave none.
pub struct LoadedGames {
    pub games: Vec<(String, Game)>,
    pub skipped: Vec<(String, LoadError)>,
}

/// What a list of errors with their paths stands for.
pub open spec fn errors_view(skipped: Seq<(String, LoadError)>) -> Seq<(Seq<char>, LoadError)> {
    skipped.map_values(|entry: (String, LoadError)| (entry.0@, entry.1))
}

/// Reads all records, which come with their paths. The games are sorted by path, and their players
/// are told apart; records that give no game are left out.
pub fn load_all_sgfs(
    files: &Vec<(String, String)>,
    player_aliases: &PlayerAliases,
    board_size: u8,
) -> (loaded: LoadedGames)
    ensures
        exists|outcomes: Seq<Result<GameView, LoadError>>| #[trigger]
            all_load(files@, player_aliases@, board_size, outcomes) && sorted_by_path(
                taken(files@, outcomes),
                entries_view(loaded.games@),
            ) && errors_view(loaded.skipped@) == left_out(files@, outcomes),
{
    let n: usize = files.len();
    let mut games: Vec<(String, Game)> = Vec::new();
    let mut skipped: Vec<(String, LoadError)> = Vec::new();
    let ghost mut outcomes: Seq<Result<GameView, LoadError>> = Seq::empty();
    assert(entries_view(games@) =~= Seq::empty());
    assert(errors_view(skipped@) =~= Seq::empty());
    for i in 0..n
        invariant
            n == files@.len(),
            all_load(files@.take(i as int), player_aliases@, board_size, outcomes),
            entries_view(games@) == taken(files@.take(i as int), outcomes),
            errors_view(skipped@) == left_out(files@.take(i as int), outcomes),
    {
        let ghost head = files@.take(i as int);
        let ghost more = files@.take(i + 1);
        let ghost known = outcomes;
        let ghost games_before = games@;
        let ghost skipped_before = skipped@;
        assert(more.drop_last() =~= head);
        assert(more.last() == files@[i as int]);
        match load_game(files[i].1.as_str(), player_aliases, board_size) {
            Ok(game) => {
                proof {
                    outcomes = outcomes.push(Ok(game@));
                }
                games.push((files[i].0.clone(), game));
                assert(entries_view(games@) =~= entries_view(games_before).push(
                    (files@[i as int].0@, game@),
                ));
            },
            Err(error) => {
                proof {
                    outcomes = outcomes.push(Err(error));
                }
                skipped.push((files[i].0.clone(), error));
                assert(errors_view(skipped@) =~= errors_view(skipped_before).push(
                    (files@[i as int].0@, error),
                ));
            },
        }
        proof {
            lemma_more_outcomes(head, known, outcomes);
            assert forall|k: int| 0 <= k < more.len() implies loads_with_players(
                more[k].1@,
                player_aliases@,
                board_size,
                #[trigger] outcomes[k],
            ) by {
                if k < i {
                    assert(known[k] == outcomes[k]);
                    assert(head[k] == more[k]);
                }
            }
        }
    }
    assert(files@.take(n as int) =~= files@);
    sort_by_path(&mut games);
    LoadedGames { games, skipped }
}

/// What some records give does not depend on what comes after.
proof fn lemma_more_outcomes(
    files: Seq<(String, String)>,
    known: Seq<Result<GameView, LoadError>>,
    more: Seq<Result<GameView, LoadError>>,
)
    requires
        known.len() >= files.len(),
        more.len() >= files.len(),
        forall|i: int| 0 <= i < files.len() ==> known[i] == more[i],
    ensures
        taken(files, known) == taken(files, more),
        left_out(files, known) == left_out(files, more),
    decreases files.len(),
{
    if files.len() > 0 {
        lemma_more_outcomes(files.drop_last(), known, more);
    }
}

/// The name of a player, if it is of interest: empty names are not, unless they have an id.
pub open spec fn listed_name(player: PlayerView, unknown_only: bool) -> Seq<Seq<char>> {
    match player {
        PlayerView::Id(_, name) => if unknown_only {
            Seq::empty()
        } else {
            seq![name]
        },
        PlayerView::Unknown(name) => if name.len() > 0 {
            seq![name]
        } else {
            Seq::empty()
        },
    }
}

/// The names of the players of all games, or only of those without an id.
pub open spec fn listed_names(
    entries: Seq<(Seq<char>, GameView)>,
    unknown_only: bool,
) -> Seq<Seq<char>>
    decreases entries.len(),
{
    if entries.len() == 0 {
        Seq::empty()
    } else {
        listed_names(entries.drop_last(), unknown_only) + listed_name(
            entries.last().1.player_black,
            unknown_only,
        ) + listed_name(entries.last().1.player_white, unknown_only)
    }
}

/// Whether a list holds these texts, each once and in their order.
pub open spec fn lists_in_order(list: Seq<Seq<char>>, texts: Set<Seq<char>>) -> bool {
    &&& forall|text: Seq<char>| #[trigger] list.contains(text) <==> texts.contains(text)
    &&& forall|i: int, j: int|
        #![trigger list[i], list[j]]
        0 <= i < j < list.len() ==> text_lt(list[i], list[j])
}

/// Adds the name of a player, if it is of interest.
fn add_name(names: &mut Vec<String>, player: &Player, unknown_only: bool)
    ensures
        texts_view(final(names)@) == texts_view(old(names)@) + listed_name(player@, unknown_only),
{
    let ghost before = names@;
    match player {
        Player::Id(_, name) => {
            if !unknown_only {
                names.push(name.clone());
            }
        },
        Player::Unknown(name) => {
            if !name.as_str().is_empty() {
                names.push(name.clone());
            }
        },
    }
    assert(texts_view(names@) =~= texts_view(before) + listed_name(player@, unknown_only));
}

/// The texts in their order, each once.
fn sort_and_thin(texts: Vec<String>) -> (list: Vec<String>)
    ensures
        lists_in_order(texts_view(list@), texts_view(texts@).to_set()),
{
    let mut sorted = texts;
    sort_texts(&mut sorted);
    let ghost all = texts_view(sorted@);
    let n: usize = sorted.len();
    let mut list: Vec<String> = Vec::new();
    for i in 0..n
        invariant
            n == sorted@.len(),
            all == texts_view(sorted@),
            forall|j: int, k: int|
                #![trigger sorted@[j], sorted@[k]]
                0 <= j < k < sorted@.len() ==> !text_lt(sorted@[k]@, sorted@[j]@),
            forall|text: Seq<char>| #[trigger]
                texts_view(list@).contains(text) <==> all.take(i as int).contains(text),
            forall|j: int, k: int|
                #![trigger list@[j], list@[k]]
                0 <= j < k < list@.len() ==> text_lt(list@[j]@, list@[k]@),
            i == 0 ==> list@.len() == 0,
            i > 0 ==> list@.len() > 0 && list@.last()@ == sorted@[i - 1]@,
    {
        let ghost before = list@;
        let ghost head = all.take(i as int);
        let ghost more = all.take(i + 1);
        let m: usize = list.len();
        let is_new = m == 0 || list[m - 1] != sorted[i];
        assert(more =~= head.push(sorted@[i as int]@));
        assert(more.last() == sorted@[i as int]@);
        if is_new {
            list.push(sorted[i].clone());
            proof {
                assert forall|j: int| 0 <= j < m implies text_lt(
                    (#[trigger] list@[j])@,
                    list@[m as int]@,
                ) by {
                    let own = before[j]@;
                    let last = before[m - 1]@;
                    let new = sorted@[i as int]@;
                    assert(!text_lt(new, last)) by {
                        assert(last == sorted@[i - 1]@);
                    }
                    texts_are_ordered(last, new);
                    assert(text_lt(last, new));
                    if j < m - 1 {
                        assert(text_lt(before[j]@, before[m - 1]@));
                        texts_in_order_chain(own, last, new);
                    }
                }
            }
        }
        assert forall|text: Seq<char>| #[trigger]
            texts_view(list@).contains(text) <==> more.contains(text) by {
            lemma_push_contains(head, sorted@[i as int]@, text);
            if is_new {
                assert(texts_view(list@) =~= texts_view(before).push(sorted@[i as int]@));
                lemma_push_contains(texts_view(before), sorted@[i as int]@, text);
            } else {
                assert(texts_view(list@)[m - 1] == sorted@[i as int]@);
            }
        }
    }
    proof {
        assert(all.take(n as int) =~= all);
        let given = texts_view(texts@);
        assert forall|text: Seq<char>| #[trigger]
            texts_view(list@).contains(text) <==> given.to_set().contains(text) by {
            all.to_multiset_ensures();
            given.to_multiset_ensures();
            assert(all.contains(text) <==> all.to_multiset().count(text) > 0);
            assert(given.contains(text) <==> given.to_multiset().count(text) > 0);
        }
    }
    list
}

proof fn lemma_push_contains(list: Seq<Seq<char>>, new: Seq<char>, text: Seq<char>)
    ensures
        list.push(new).contains(text) <==> list.contains(text) || text == new,
{
    let more = list.push(new);
    if list.contains(text) {
        let k = choose|k: int| 0 <= k < list.len() && list[k] == text;
        assert(more[k] == text);
    }
    if text == new {
        assert(more[list.len() as int] == text);
    }
}

/// The names of all players of the games, in order and each once.
pub fn collect_all_names(games: &Vec<(String, Game)>) -> (names: Vec<String>)
    ensures
        lists_in_order(
            texts_view(names@),
            listed_names(entries_view(games@), false).to_set(),
        ),
{
    let n: usize = games.len();
    let mut names: Vec<String> = Vec::new();
    let ghost all = entries_view(games@);
    assert(texts_view(names@) =~= Seq::empty());
    for i in 0..n
        invariant
            n == games@.len(),
            all == entries_view(games@),
            texts_view(names@) == listed_names(all.take(i as int), false),
    {
        assert(all.take(i + 1).drop_last() =~= all.take(i as int));
        assert(all.take(i + 1).last() == (games@[i as int].0@, games@[i as int].1@));
        add_name(&mut names, &games[i].1.player_black, false);
        add_name(&mut names, &games[i].1.player_white, false);
    }
    assert(all.take(n as int) =~= all);
    sort_and_thin(names)
}

/// The names of the players without an id, in order and each once.
pub fn collect_unknown_names(games: &IndexMap<String, Game>) -> (names: Vec<String>)
    ensures
        lists_in_order(
            texts_view(names@),
            listed_names(game_entries(*games), true).to_set(),
        ),
{
    let n: usize = count_games(games);
    let mut names: Vec<String> = Vec::new();
    let ghost all = game_entries(*games);
    assert(texts_view(names@) =~= Seq::empty());
    for i in 0..n
        invariant
            all == game_entries(*games),
            n == all.len(),
            texts_view(names@) == listed_names(all.take(i as int), true),
    {
        let (_, game) = game_at(games, i);
        assert(all.take(i + 1).drop_last() =~= all.take(i as int));
        assert(all.take(i + 1).last() == all[i as int]);
        add_name(&mut names, &game.player_black, true);
        add_name(&mut names, &game.player_white, true);
    }
    assert(all.take(n as int) =~= all);
    sort_and_thin(names)
}

/// The captured stones by the number of the move that captured them; moves that captured nothing
/// have no entry.
pub open spec fn captures_table(captured: Seq<Seq<Placement>>) -> Map<usize, Seq<Placement>> {
    Map::new(
        |number: usize| number < captured.len() && captured[number as int].len() > 0,
        |number: usize| captured[number as int],
    )
}

/// What lists of captured stones stand for.
pub open spec fn captured_view(captured: Seq<Vec<Placement>>) -> Seq<Seq<Placement>> {
    captured.map_values(|stones: Vec<Placement>| stones@)
}

/// The captured stones by the number of the move that captured them.
pub fn captures_of(captured: Vec<Vec<Placement>>) -> (captures: HashMap<usize, Vec<Placement>>)
    ensures
        captures_view(captures@) == captures_table(captured_view(captured@)),
{
    broadcast use vstd::std_specs::hash::group_hash_axioms;

    let total: usize = captured.len();
    let ghost all = captured_view(captured@);
    let mut captures: HashMap<usize, Vec<Placement>> = HashMap::new();
    let mut number: usize = 0;
    assert(captures_view(captures@) =~= captures_table(all.take(0)));
    for stones in it: captured
        invariant
            it.seq() == captured@,
            all == captured_view(captured@),
            total == captured@.len(),
            number == it.index(),
            captures_view(captures@) == captures_table(all.take(number as int)),
    {
        broadcast use vstd::std_specs::hash::group_hash_axioms;

        let ghost before = captures@;
        let ghost head = captures_table(all.take(number as int));
        let ghost more = captures_table(all.take(number + 1));
        assert(all[number as int] == stones@);
        if stones.len() > 0 {
            captures.insert(number, stones);
            assert(captures_view(captures@) =~= captures_view(before).insert(
                number,
                all[number as int],
            ));
            assert(more =~= head.insert(number, all[number as int]));
        } else {
            assert(more =~= head);
        }
        number = number + 1;
    }
    assert(all.take(total as int) =~= all);
    captures
}

/// The game with its captured stones.
pub open spec fn with_captures(game: GameView, captured: Seq<Seq<Placement>>) -> GameView {
    GameView { captures: captures_table(captured), ..game }
}

/// What a list of games with their paths and the stones that each of their moves captured stands
/// for: the paths and the games with their captured stones.
pub open spec fn played_view(
    games: Seq<(String, Game, Vec<Vec<Placement>>)>,
) -> Seq<(Seq<char>, GameView)> {
    games.map_values(
        |entry: (String, Game, Vec<Vec<Placement>>)|
            (entry.0@, with_captures(entry.1@, captured_view(entry.2@))),
    )
}

/// The collection of the games: of games with the same path the last one is in the place of the
/// first.
pub open spec fn gathered(entries: Seq<(Seq<char>, GameView)>) -> Seq<(Seq<char>, GameView)>
    decreases entries.len(),
{
    if entries.len() == 0 {
        Seq::empty()
    } else {
        with_game(gathered(entries.drop_last()), entries.last().0, entries.last().1)
    }
}

/// The collection of the games, sorted by date.
pub open spec fn gathered_by_date(entries: Seq<(Seq<char>, GameView)>) -> Seq<
    (Seq<char>, GameView),
> {
    arranged(gathered(entries), stable_order(date_keys(gathered(entries))))
}

/// Gathers the games, which come with their paths and the stones that each of their moves captured,
/// into one collection, sorted by date. Games without a date come last.
pub fn collect_games(
    games: Vec<(String, Game, Vec<Vec<Placement>>)>,
) -> (collection: IndexMap<String, Game>)
    ensures
        game_entries(collection) == gathered_by_date(played_view(games@)),
{
    let mut collection = new_games();
    let ghost all = played_view(games@);
    for entry in it: games
        invariant
            it.seq() == games@,
            all == played_view(games@),
            game_entries(collection) == gathered(all.take(it.index() as int)),
    {
        let ghost i = it.index() as int;
        let ghost played = (entry.0@, with_captures(entry.1@, captured_view(entry.2@)));
        assert(all[i] == played);
        assert(all.take(i + 1).drop_last() =~= all.take(i));
        assert(all.take(i + 1).last() == all[i]);
        let (path, game, captured) = entry;
        let mut game = game;
        game.captures = captures_of(captured);
        assert(game@ == played.1);
        insert_game(&mut collection, path, game);
    }
    assert(all.take(games@.len() as int) =~= all);
    sort_games_by_date(&mut collection);
    collection
}

/// How often a player plays in the games.
pub open spec fn game_count(entries: Seq<(Seq<char>, GameView)>, id: i16) -> nat
    decreases entries.len(),
{
    if entries.len() == 0 {
        0
    } else {
        game_count(entries.drop_last(), id) + (if entries.last().1.player_black.has_id(id) {
            1nat
        } else {
            0
        }) + (if entries.last().1.player_white.has_id(id) {
            1nat
        } else {
            0
        })
    }
}

proof fn lemma_game_count_bound(entries: Seq<(Seq<char>, GameView)>, id: i16)
    ensures
        game_count(entries, id) <= 2 * entries.len(),
    decreases entries.len(),
{
    if entries.len() > 0 {
        lemma_game_count_bound(entries.drop_last(), id);
    }
}

/// Whether a table holds how often each player plays in the games. Players that do not play have no
/// entry.
pub open spec fn counts_games(
    counts: Map<i16, usize>,
    entries: Seq<(Seq<char>, GameView)>,
) -> bool {
    forall|id: i16|
        #![trigger counts.contains_key(id)]
        #![trigger game_count(entries, id)]
        {
            &&& counts.contains_key(id) <==> game_count(entries, id) > 0
            &&& counts.contains_key(id) ==> counts[id] == game_count(entries, id)
        }
}

/// How often each player plays in the games.
pub fn count_player_ids(games: &IndexMap<String, Game>) -> (counts: HashMap<i16, usize>)
    requires
        2 * game_entries(*games).len() <= usize::MAX,
    ensures
        counts_games(counts@, game_entries(*games)),
{
    broadcast use vstd::std_specs::hash::group_hash_axioms;

    let n: usize = count_games(games);
    let ghost all = game_entries(*games);
    let no_filters: Vec<PlayerFilter> = Vec::new();
    let mut counts: HashMap<i16, usize> = HashMap::new();
    for i in 0..n
        invariant
            all == game_entries(*games),
            n == all.len(),
            2 * all.len() <= usize::MAX,
            no_filters@.len() == 0,
            counts_games(counts@, all.take(i as int)),
    {
        let (_, game) = game_at(games, i);
        let ghost head = all.take(i as int);
        let ghost more = all.take(i + 1);
        let ghost tallies = |id: i16| game_count(head, id);
        let ghost black_tallies = |id: i16|
            game_count(head, id) + (if game@.player_black.has_id(id) {
                1nat
            } else {
                0
            });
        proof {
            assert(more.drop_last() =~= head);
            assert(more.last() == all[i as int]);
            assert forall|id: i16| #[trigger] tallies(id) < usize::MAX by {
                lemma_game_count_bound(head, id);
            }
            assert forall|id: i16| #[trigger] black_tallies(id) < usize::MAX by {
                lemma_game_count_bound(head, id);
            }
        }
        count_player(&mut counts, &no_filters, &game.player_black, Ghost(tallies));
        count_player(&mut counts, &no_filters, &game.player_white, Ghost(black_tallies));
        assert(counts_games(counts@, more));
    }
    assert(all.take(n as int) =~= all);
    counts
}

/// Two ids that may belong to the same player.
#[derive(Clone, Copy, PartialEq, Eq, Structural, Debug)]
pub struct PossibleAlias {
    pub id1: i16,
    pub id2: i16,
}

/// Tells whether both players play in some game.
pub open spec fn both_play(counts: Map<i16, usize>) -> spec_fn(PossibleAlias) -> bool {
    |alias: PossibleAlias|
        counts.contains_key(alias.id1) && counts[alias.id1] > 0 && counts.contains_key(alias.id2)
            && counts[alias.id2] > 0
}

/// The keys that sort aliases by their first and then by their second id.
pub open spec fn alias_keys(aliases: Seq<PossibleAlias>) -> Seq<(u64, u64)> {
    aliases.map_values(
        |alias: PossibleAlias| ((alias.id1 + 32768) as u64, (alias.id2 + 32768) as u64),
    )
}

/// The aliases of players that play, sorted.
pub open spec fn likely_aliases(aliases: Seq<PossibleAlias>, counts: Map<i16, usize>) -> Seq<
    PossibleAlias,
> {
    let kept = aliases.filter(both_play(counts));
    arranged(kept, stable_order(alias_keys(kept)))
}

/// The line that tells of an alias.
pub open spec fn alias_line(alias: PossibleAlias) -> Seq<char> {
    decimal(alias.id1 as int).push(' ') + decimal(alias.id2 as int)
}

/// Whether a player plays in some game.
fn plays(counts: &HashMap<i16, usize>, id: i16) -> (found: bool)
    ensures
        found == (counts@.contains_key(id) && counts@[id] > 0),
{
    broadcast use vstd::std_specs::hash::group_hash_axioms;

    match counts.get(&id) {
        Some(count) => *count > 0,
        None => false,
    }
}

/// The aliases of players that play, sorted by their ids, each on a line.
pub fn list_aliases(
    aliases: &Vec<PossibleAlias>,
    player_id_counts: &HashMap<i16, usize>,
) -> (text: String)
    ensures
        text@ == joined(
            likely_aliases(aliases@, player_id_counts@).map_values(
                |alias: PossibleAlias| alias_line(alias),
            ),
        ),
{
    let n: usize = aliases.len();
    let mut kept: Vec<PossibleAlias> = Vec::new();
    let mut keys: Vec<(u64, u64)> = Vec::new();
    let ghost pred = both_play(player_id_counts@);
    reveal(Seq::filter);
    for i in 0..n
        invariant
            n == aliases@.len(),
            pred == both_play(player_id_counts@),
            kept@ == aliases@.take(i as int).filter(pred),
            keys@ == alias_keys(kept@),
    {
        reveal(Seq::filter);
        let alias = aliases[i];
        let ghost before = kept@;
        assert(aliases@.take(i + 1).drop_last() =~= aliases@.take(i as int));
        assert(aliases@.take(i + 1).last() == alias);
        if plays(player_id_counts, alias.id1) && plays(player_id_counts, alias.id2) {
            kept.push(alias);
            keys.push(((alias.id1 as i32 + 32768) as u64, (alias.id2 as i32 + 32768) as u64));
            assert(keys@ =~= alias_keys(kept@));
        }
    }
    assert(aliases@.take(n as int) =~= aliases@);
    let order = order_of(&keys);
    let m: usize = order.len();
    let ghost sorted = likely_aliases(aliases@, player_id_counts@);
    let mut texts: Vec<String> = Vec::new();
    for i in 0..m
        invariant
            m == order@.len() == kept@.len(),
            order@.map_values(|place: usize| place as int) == stable_order(alias_keys(kept@)),
            forall|i: int| 0 <= i < order@.len() ==> #[trigger] order@[i] < kept@.len(),
            sorted == arranged(kept@, stable_order(alias_keys(kept@))),
            texts@.len() == i,
            forall|j: int| 0 <= j < i ==> (#[trigger] texts@[j])@ == alias_line(sorted[j]),
    {
        let alias = kept[order[i]];
        assert(order@.map_values(|place: usize| place as int)[i as int] == order@[i as int]);
        assert(sorted[i as int] == alias);
        let mut line = String::new();
        push_decimal(&mut line, alias.id1 as i32);
        line.push(' ');
        push_decimal(&mut line, alias.id2 as i32);
        assert(line@ =~= alias_line(alias));
        texts.push(line);
    }
    assert(texts_view(texts@) =~= sorted.map_values(|alias: PossibleAlias| alias_line(alias)));
    join_lines(&texts)
}

} // verus!
