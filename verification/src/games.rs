//! The collection of games, keyed by path.

use crate::baduk::{Game, GameView};
use crate::sorting::{arranged, stable_order};
use indexmap::IndexMap;
use std::cmp::Ordering;
use vstd::prelude::*;

verus! {

/// A map that keeps its entries in the order in which they were inserted, or last sorted.
#[verifier::external_type_specification]
#[verifier::external_body]
#[verifier::reject_recursive_types(K)]
#[verifier::reject_recursive_types(V)]
#[verifier::reject_recursive_types(S)]
pub struct ExIndexMap<K, V, S>(IndexMap<K, V, S>);

/// The entries of a collection of games, in their order: the path of each game and the game.
pub uninterp spec fn game_entries(games: IndexMap<String, Game>) -> Seq<(Seq<char>, GameView)>;

/// Whether one of the entries has this path.
pub open spec fn has_path(entries: Seq<(Seq<char>, GameView)>, path: Seq<char>) -> bool {
    exists|i: int| 0 <= i < entries.len() && (#[trigger] entries[i]).0 == path
}

/// No two entries have the same path.
pub open spec fn distinct_paths(entries: Seq<(Seq<char>, GameView)>) -> bool {
    forall|i: int, j: int|
        0 <= i < j < entries.len() ==> (#[trigger] entries[i]).0 != (#[trigger] entries[j]).0
}

/// The entries after a game was inserted: in place of the game with the same path, or else at the
/// end.
pub open spec fn with_game(
    entries: Seq<(Seq<char>, GameView)>,
    path: Seq<char>,
    game: GameView,
) -> Seq<(Seq<char>, GameView)> {
    if has_path(entries, path) {
        let i = choose|i: int| 0 <= i < entries.len() && (#[trigger] entries[i]).0 == path;
        entries.update(i, (path, game))
    } else {
        entries.push((path, game))
    }
}

/// An empty collection, made with `IndexMap::new`.
#[verifier::external_body]
pub(crate) fn new_games() -> (games: IndexMap<String, Game>)
    ensures
        game_entries(games) == Seq::<(Seq<char>, GameView)>::empty(),
{
    IndexMap::new()
}

/// Inserts with `IndexMap::insert`: a path that is there keeps its place and gets the new game, any
/// other path comes last. No path is in the map twice.
#[verifier::external_body]
pub(crate) fn insert_game(games: &mut IndexMap<String, Game>, path: String, game: Game)
    ensures
        game_entries(*final(games)) == with_game(game_entries(*old(games)), path@, game@),
        distinct_paths(game_entries(*final(games))),
{
    games.insert(path, game);
}

/// The number of games, from `IndexMap::len`. The paths of a map are all different.
#[verifier::external_body]
pub(crate) fn count_games(games: &IndexMap<String, Game>) -> (count: usize)
    ensures
        count == game_entries(*games).len(),
        forall|i: int, j: int|
            0 <= i < j < count ==> (#[trigger] game_entries(*games)[i]).0 != (
            #[trigger] game_entries(*games)[j]).0,
{
    games.len()
}

/// The entry at a place, from `IndexMap::get_index`.
#[verifier::external_body]
pub(crate) fn game_at(games: &IndexMap<String, Game>, i: usize) -> (entry: (&String, &Game))
    requires
        i < game_entries(*games).len(),
    ensures
        (entry.0@, entry.1@) == game_entries(*games)[i as int],
{
    games.get_index(i).unwrap()
}

/// The game with the given path, from `IndexMap::get`.
#[verifier::external_body]
pub(crate) fn find_game<'a>(
    games: &'a IndexMap<String, Game>,
    path: &str,
) -> (found: Option<&'a Game>)
    ensures
        found is Some <==> has_path(game_entries(*games), path@),
        found matches Some(game) ==> forall|i: int|
            0 <= i < game_entries(*games).len() && (#[trigger] game_entries(*games)[i]).0 == path@
                ==> game_entries(*games)[i].1 == game@,
{
    games.get(path)
}

/// The key by which games are sorted: those with a date first, by date, then those without.
pub open spec fn date_key(date_order: Option<u64>) -> (u64, u64) {
    match date_order {
        Some(order) => (0, order),
        None => (1, 0),
    }
}

/// The keys by which the entries are sorted.
pub open spec fn date_keys(entries: Seq<(Seq<char>, GameView)>) -> Seq<(u64, u64)> {
    entries.map_values(|entry: (Seq<char>, GameView)| date_key(entry.1.date_order))
}

/// How the dates of two games compare: games with a date come first, games without a date last.
pub fn date_precedence(a: Option<u64>, b: Option<u64>) -> (order: Ordering)
    ensures
        match order {
            Ordering::Less => date_key(a).0 < date_key(b).0 || (date_key(a).0 == date_key(b).0
                && date_key(a).1 < date_key(b).1),
            Ordering::Equal => date_key(a) == date_key(b),
            Ordering::Greater => date_key(b).0 < date_key(a).0 || (date_key(a).0 == date_key(b).0
                && date_key(b).1 < date_key(a).1),
        },
{
    match (a, b) {
        (Some(first), Some(second)) => {
            if first < second {
                Ordering::Less
            } else if first == second {
                Ordering::Equal
            } else {
                Ordering::Greater
            }
        },
        (Some(_), None) => Ordering::Less,
        (None, Some(_)) => Ordering::Greater,
        (None, None) => Ordering::Equal,
    }
}

/// Sorts with `IndexMap::sort_by`, which is stable, by the dates of the games.
#[verifier::external_body]
pub(crate) fn sort_games_by_date(games: &mut IndexMap<String, Game>)
    ensures
        game_entries(*final(games)) == arranged(
            game_entries(*old(games)),
            stable_order(date_keys(game_entries(*old(games)))),
        ),
{
    games.sort_by(|_, a, _, b| date_precedence(a.date_order, b.date_order));
}

} // verus!
