//! The search over a collection of games.

use crate::answers::{
    answer_search, answers, arrange, selected, within_reach, PlayerFilter, SortBy,
    WasmSearchReturn, MAX_RESULT_SCORE,
};
use crate::baduk::{copy_placements, Game, GameView, Placement, Point, Rotation};
use crate::board::{Board, BoardModel};
use crate::cache::{
    after_put, after_use, cache_capacity, cached, has_key, keep, key_of, new_cache, place_of,
    position_key, position_keys_tell_positions_apart, recall,
};
use crate::games::{count_games, distinct_paths, find_game, game_at, game_entries, has_path};
use crate::matching::{
    attempts, attempts_view, copy_results, game_result, results_view, searchable, SearchResult,
    SearchResultView, MAX_POSITION,
};
use crate::sorting::{arranged, order_of, stable_order, stable_order_sorts};
use crate::stones::{in_order, put_in_order};
use indexmap::IndexMap;
use lru::LruCache;
use vstd::prelude::*;

verus! {

/// How many positions the search remembers.
pub const CACHE_CAPACITY: usize = 1000;

/// The result that stands for a game when no position is asked for.
pub open spec fn whole_game(path: Seq<char>, game: GameView) -> SearchResultView {
    SearchResultView {
        path,
        score: 0,
        last_move_matched: 0,
        rotation: 0,
        is_inverted: false,
        is_mirrored: false,
        all_empty_correctly_within: 0,
        moves: game.moves,
        moves_transformed: game.moves,
        details: game.details,
        player_black: game.player_black,
        player_white: game.player_white,
    }
}

/// The results of all games that have the position, in the order of the games.
pub open spec fn found_in(
    model: BoardModel,
    position: Seq<Placement>,
    games: Seq<(Seq<char>, GameView)>,
) -> Seq<SearchResultView> {
    games.filter_map(
        |entry: (Seq<char>, GameView)| game_result(model, position, entry.0, entry.1),
    )
}

/// The keys that sort results by score, the highest first.
pub open spec fn score_keys(results: Seq<SearchResultView>) -> Seq<(u64, u64)> {
    results.map_values(|result: SearchResultView| ((i16::MAX - result.score) as u64, 0u64))
}

/// The results for a position: the games that have it, the best score first and otherwise in the
/// order of the games. Without any stones, all games in their order.
pub open spec fn position_matches(
    model: BoardModel,
    position: Seq<Placement>,
    games: Seq<(Seq<char>, GameView)>,
) -> Seq<SearchResultView> {
    if position.len() == 0 {
        games.map_values(|entry: (Seq<char>, GameView)| whole_game(entry.0, entry.1))
    } else {
        let found = found_in(model, position, games);
        arranged(found, stable_order(score_keys(found)))
    }
}

/// Whether a position can be looked for in all of the games.
pub open spec fn searchable_in(
    model: BoardModel,
    position: Seq<Placement>,
    games: Seq<(Seq<char>, GameView)>,
) -> bool {
    position.len() == 0 || forall|i: int|
        0 <= i < games.len() ==> searchable(model, position, (#[trigger] games[i]).1)
}

/// Whether a position and the games are of a size that can be searched: the position has no more
/// stones than a score allows, no game is longer than can be taken off a score, and there are not
/// more games than can be counted into the scores of next moves.
pub open spec fn within_limits(
    position: Seq<Placement>,
    games: Seq<(Seq<char>, GameView)>,
) -> bool {
    &&& position.len() <= MAX_POSITION
    &&& games.len() * MAX_RESULT_SCORE <= usize::MAX
    &&& forall|i: int| 0 <= i < games.len() ==> (#[trigger] games[i]).1.moves.len() <= i16::MAX
}

/// The entries of the cache after a search for a position.
pub open spec fn cache_after_search(
    entries: Seq<(Seq<u32>, Seq<SearchResultView>)>,
    position: Seq<Placement>,
    results: Seq<SearchResultView>,
) -> Seq<(Seq<u32>, Seq<SearchResultView>)> {
    if has_key(entries, position_key(position)) {
        after_use(entries, position_key(position))
    } else {
        after_put(entries, CACHE_CAPACITY as nat, position_key(position), results)
    }
}

/// Sorts the results by score, the highest first, and otherwise leaves them in their order.
fn sort_by_score(results: &Vec<SearchResult>) -> (out: Vec<SearchResult>)
    ensures
        results_view(out@) == arranged(
            results_view(results@),
            stable_order(score_keys(results_view(results@))),
        ),
{
    let n: usize = results.len();
    let mut keys: Vec<(u64, u64)> = Vec::new();
    for i in 0..n
        invariant
            n == results@.len(),
            keys@.len() == i,
            forall|j: int|
                0 <= j < i ==> #[trigger] keys@[j] == ((i16::MAX - results@[j].score) as u64, 0u64),
    {
        let key: u64 = (i16::MAX as i32 - results[i].score as i32) as u64;
        keys.push((key, 0));
    }
    assert(keys@ =~= score_keys(results_view(results@)));
    let order = order_of(&keys);
    arrange(results, &order)
}

/// What is remembered for a position is what a search for it gives.
pub open spec fn remembers(
    entries: Seq<(Seq<u32>, Seq<SearchResultView>)>,
    model: BoardModel,
    games: Seq<(Seq<char>, GameView)>,
) -> bool {
    forall|i: int, position: Seq<Placement>|
        #![trigger entries[i], position_key(position)]
        0 <= i < entries.len() && entries[i].0 == position_key(position) ==> entries[i].1
            == position_matches(model, position, games)
}

/// A search keeps what the cache remembers, and keeps it within its room.
pub(crate) proof fn lemma_search_keeps_memory(
    model: BoardModel,
    games: Seq<(Seq<char>, GameView)>,
    entries: Seq<(Seq<u32>, Seq<SearchResultView>)>,
    position: Seq<Placement>,
)
    requires
        remembers(entries, model, games),
        entries.len() <= CACHE_CAPACITY,
    ensures
        ({
            let after = cache_after_search(
                entries,
                position,
                position_matches(model, position, games),
            );
            remembers(after, model, games) && after.len() <= CACHE_CAPACITY
        }),
{
    if has_key(entries, position_key(position)) {
        lemma_use_keeps_memory(model, games, entries, position_key(position));
    } else {
        lemma_put_keeps_memory(model, games, entries, position);
    }
}

/// Using an entry keeps what the cache remembers.
proof fn lemma_use_keeps_memory(
    model: BoardModel,
    games: Seq<(Seq<char>, GameView)>,
    entries: Seq<(Seq<u32>, Seq<SearchResultView>)>,
    key: Seq<u32>,
)
    requires
        has_key(entries, key),
        remembers(entries, model, games),
    ensures
        after_use(entries, key).len() == entries.len(),
        remembers(after_use(entries, key), model, games),
{
    let used = after_use(entries, key);
    let place = place_of(entries, key);
    assert forall|i: int, position: Seq<Placement>|
        #![trigger used[i], position_key(position)]
        0 <= i < used.len() && used[i].0 == position_key(position) implies used[i].1
        == position_matches(model, position, games) by {
        let source = if i == 0 {
            place
        } else if i <= place {
            i - 1
        } else {
            i
        };
        assert(used[i] == entries[source]);
    }
}

/// Keeping the right results for a position keeps what the cache remembers.
proof fn lemma_put_keeps_memory(
    model: BoardModel,
    games: Seq<(Seq<char>, GameView)>,
    entries: Seq<(Seq<u32>, Seq<SearchResultView>)>,
    position: Seq<Placement>,
)
    requires
        !has_key(entries, position_key(position)),
        entries.len() <= CACHE_CAPACITY,
        remembers(entries, model, games),
    ensures
        ({
            let kept = after_put(
                entries,
                CACHE_CAPACITY as nat,
                position_key(position),
                position_matches(model, position, games),
            );
            kept.len() <= CACHE_CAPACITY && remembers(kept, model, games)
        }),
{
    let kept = after_put(
        entries,
        CACHE_CAPACITY as nat,
        position_key(position),
        position_matches(model, position, games),
    );
    assert forall|i: int, other: Seq<Placement>|
        #![trigger kept[i], position_key(other)]
        0 <= i < kept.len() && kept[i].0 == position_key(other) implies kept[i].1
        == position_matches(model, other, games) by {
        if i == 0 {
            position_keys_tell_positions_apart(position, other);
        } else {
            assert(kept[i] == entries[i - 1]);
        }
    }
}

/// A search finds at most as many results as there are games, and all of them have looked around
/// the position up to the distance 3 at most.
proof fn lemma_found_in_reach(
    model: BoardModel,
    position: Seq<Placement>,
    games: Seq<(Seq<char>, GameView)>,
)
    ensures
        found_in(model, position, games).len() <= games.len(),
        within_reach(found_in(model, position, games)),
    decreases games.len(),
{
    if games.len() > 0 {
        lemma_found_in_reach(model, position, games.drop_last());
    }
}

/// The results for a position are at most as many as there are games, and all of them have looked
/// around the position up to the distance 3 at most.
proof fn lemma_matches_in_reach(
    model: BoardModel,
    position: Seq<Placement>,
    games: Seq<(Seq<char>, GameView)>,
)
    requires
        games.len() <= usize::MAX,
    ensures
        position_matches(model, position, games).len() <= games.len(),
        within_reach(position_matches(model, position, games)),
{
    if position.len() > 0 {
        let found = found_in(model, position, games);
        lemma_found_in_reach(model, position, games);
        stable_order_sorts(score_keys(found));
    }
}

/// The rotation with a number.
pub open spec fn rotation_of_number(number: u8) -> Option<Rotation> {
    if number == 1 {
        Some(Rotation::Degrees90)
    } else if number == 2 {
        Some(Rotation::Degrees180)
    } else if number == 3 {
        Some(Rotation::Degrees270)
    } else {
        None
    }
}

/// The rotation with a number. All numbers but 1, 2 and 3 stand for no rotation.
pub fn rotation_from_number(number: u8) -> (rotation: Option<Rotation>)
    ensures
        rotation == rotation_of_number(number),
{
    match number {
        1 => Some(Rotation::Degrees90),
        2 => Some(Rotation::Degrees180),
        3 => Some(Rotation::Degrees270),
        _ => None,
    }
}

/// The moves of a game, mirrored and then rotated as asked for.
pub open spec fn seen_moves(
    model: BoardModel,
    moves: Seq<Placement>,
    rotation: u8,
    is_mirrored: bool,
) -> Seq<Placement> {
    let side = if is_mirrored {
        (model.mirrored)(moves)
    } else {
        moves
    };
    match rotation_of_number(rotation) {
        Some(turn) => (model.rotated)(side, turn),
        None => side,
    }
}

/// The result that stands for a game that is asked for by its path.
pub open spec fn result_by_path(
    model: BoardModel,
    path: Seq<char>,
    game: GameView,
    rotation: u8,
    is_mirrored: bool,
) -> SearchResultView {
    SearchResultView {
        rotation,
        is_mirrored,
        moves_transformed: seen_moves(model, game.moves, rotation, is_mirrored),
        ..whole_game(path, game)
    }
}

/// A collection of games that can be searched. It remembers the results of recent searches.
pub struct WasmSearch {
    game_data: IndexMap<String, Game>,
    position_cache: LruCache<Vec<u32>, Vec<SearchResult>>,
}

impl WasmSearch {
    /// The games, with their paths.
    pub closed spec fn games(self) -> Seq<(Seq<char>, GameView)> {
        game_entries(self.game_data)
    }

    /// The remembered results, the ones that were used last first.
    pub closed spec fn remembered(self) -> Seq<(Seq<u32>, Seq<SearchResultView>)> {
        cached(self.position_cache)
    }

    /// No two games have the same path, and at most as many positions are remembered as the cache
    /// has room for.
    pub closed spec fn wf(self) -> bool {
        &&& distinct_paths(game_entries(self.game_data))
        &&& cache_capacity(self.position_cache) == CACHE_CAPACITY
        &&& cached(self.position_cache).len() <= CACHE_CAPACITY
    }

    /// In a search no two games have the same path, and no more positions are remembered than the
    /// cache has room for.
    pub proof fn games_are_told_apart(self)
        requires
            self.wf(),
        ensures
            distinct_paths(self.games()),
            self.remembered().len() <= CACHE_CAPACITY,
    {
    }

    /// What is remembered for a position is what a search for it gives.
    pub open spec fn remembers_rightly(self, model: BoardModel) -> bool {
        remembers(self.remembered(), model, self.games())
    }

    /// A search over the given games that remembers nothing yet.
    pub fn new(game_data: IndexMap<String, Game>) -> (search: WasmSearch)
        ensures
            search.wf(),
            search.games() == game_entries(game_data),
            search.remembered().len() == 0,
            forall|model: BoardModel| #[trigger] search.remembers_rightly(model),
    {
        // Counting the games shows that their paths are all different.
        let _ = count_games(&game_data);
        WasmSearch { game_data, position_cache: new_cache(CACHE_CAPACITY) }
    }

    /// The games of this search.
    pub fn game_data(&self) -> (games: &IndexMap<String, Game>)
        ensures
            game_entries(*games) == self.games(),
    {
        &self.game_data
    }

    /// Whether a position and the games are of a size that can be searched.
    pub fn can_search(&self, position: &[Placement]) -> (fits: bool)
        ensures
            fits == within_limits(position@, self.games()),
    {
        let n: usize = count_games(&self.game_data);
        if position.len() > MAX_POSITION || n > usize::MAX / MAX_RESULT_SCORE {
            return false;
        }
        for i in 0..n
            invariant
                n == self.games().len(),
                forall|j: int|
                    0 <= j < i ==> (#[trigger] self.games()[j]).1.moves.len() <= i16::MAX,
        {
            let (_, game) = game_at(&self.game_data, i);
            assert(self.games()[i as int].1.moves == game.moves@);
            if game.moves.len() > i16::MAX as usize {
                return false;
            }
        }
        true
    }

    /// A result for every game.
    fn all_games(&self) -> (results: Vec<SearchResult>)
        ensures
            results_view(results@) == self.games().map_values(
                |entry: (Seq<char>, GameView)| whole_game(entry.0, entry.1),
            ),
    {
        let n: usize = count_games(&self.game_data);
        let mut results: Vec<SearchResult> = Vec::new();
        for i in 0..n
            invariant
                n == self.games().len(),
                results@.len() == i,
                forall|j: int|
                    0 <= j < i ==> (#[trigger] results@[j])@ == whole_game(
                        self.games()[j].0,
                        self.games()[j].1,
                    ),
        {
            let (path, game) = game_at(&self.game_data, i);
            results.push(
                SearchResult {
                    path: path.clone(),
                    score: 0,
                    last_move_matched: 0,
                    rotation: 0,
                    is_inverted: false,
                    is_mirrored: false,
                    all_empty_correctly_within: 0,
                    moves: copy_placements(&game.moves),
                    moves_transformed: copy_placements(&game.moves),
                    details: game.details.clone(),
                    player_black: game.player_black.clone(),
                    player_white: game.player_white.clone(),
                },
            );
        }
        assert(results_view(results@) =~= self.games().map_values(
            |entry: (Seq<char>, GameView)| whole_game(entry.0, entry.1),
        ));
        results
    }

    /// The results of all games that have the position.
    fn search_games<R, S, M, T, Q, G, P, E>(
        &self,
        board: &Board<R, S, M, T, Q, G, P, E>,
        position: &[Placement],
    ) -> (results: Vec<SearchResult>) where
        R: Fn(&[Placement]) -> Vec<(Rotation, Vec<Placement>)>,
        S: Fn(&[Placement]) -> Vec<Placement>,
        M: Fn(&[Placement]) -> Vec<Placement>,
        T: Fn(&[Placement], Rotation) -> Vec<Placement>,
        Q: Fn(&[Placement]) -> bool,
        G: Fn(&[Placement], &[Placement]) -> Option<usize>,
        P: Fn(Point, u8) -> Vec<Point>,
        E: Fn(&[Point], &[Placement]) -> bool,

        requires
            board.wf(),
            position@.len() > 0,
            searchable_in(board.model(), position@, self.games()),
        ensures
            results_view(results@) == found_in(board.model(), position@, self.games()),
    {
        let list = board.attempts(position);
        let stones = put_in_order(position);
        let n: usize = count_games(&self.game_data);
        let mut results: Vec<SearchResult> = Vec::new();
        let ghost games = self.games();
        assert(results_view(results@) =~= found_in(board.model(), position@, games.take(0)));
        for i in 0..n
            invariant
                board.wf(),
                position@.len() > 0,
                games == self.games(),
                n == games.len(),
                searchable_in(board.model(), position@, games),
                stones@ == in_order(position@),
                attempts_view(list@) == attempts(board.model(), position@),
                results_view(results@) == found_in(
                    board.model(),
                    position@,
                    games.take(i as int),
                ),
        {
            let (path, game) = game_at(&self.game_data, i);
            let ghost before = results@;
            assert(games.take(i + 1).drop_last() =~= games.take(i as int));
            assert(games.take(i + 1).last() == games[i as int]);
            if let Some(result) = board.search_game(
                Ghost(position@),
                &stones,
                &list,
                path,
                game,
            ) {
                results.push(result);
                assert(results_view(results@) =~= results_view(before) + seq![result@]);
            }
        }
        assert(games.take(n as int) =~= games);
        results
    }

    /// Looks for a position in all games, or returns what is remembered of an earlier search.
    pub fn match_position<R, S, M, T, Q, G, P, E>(
        &mut self,
        board: &Board<R, S, M, T, Q, G, P, E>,
        position: &[Placement],
    ) -> (results: Vec<SearchResult>) where
        R: Fn(&[Placement]) -> Vec<(Rotation, Vec<Placement>)>,
        S: Fn(&[Placement]) -> Vec<Placement>,
        M: Fn(&[Placement]) -> Vec<Placement>,
        T: Fn(&[Placement], Rotation) -> Vec<Placement>,
        Q: Fn(&[Placement]) -> bool,
        G: Fn(&[Placement], &[Placement]) -> Option<usize>,
        P: Fn(Point, u8) -> Vec<Point>,
        E: Fn(&[Point], &[Placement]) -> bool,

        requires
            board.wf(),
            old(self).wf(),
            old(self).remembers_rightly(board.model()),
            searchable_in(board.model(), position@, old(self).games()),
        ensures
            results_view(results@) == position_matches(
                board.model(),
                position@,
                old(self).games(),
            ),
            final(self).games() == old(self).games(),
            final(self).remembered() == cache_after_search(
                old(self).remembered(),
                position@,
                results_view(results@),
            ),
            final(self).wf(),
            final(self).remembers_rightly(board.model()),
    {
        let key = key_of(position);
        let ghost before = *self;
        if let Some(results) = recall(&mut self.position_cache, &key) {
            let results = copy_results(results);
            proof {
                lemma_use_keeps_memory(
                    board.model(),
                    before.games(),
                    before.remembered(),
                    key@,
                );
                assert(before.remembered()[place_of(before.remembered(), key@)].0 == key@);
            }
            return results;
        }
        let results = if position.len() == 0 {
            self.all_games()
        } else {
            let found = self.search_games(board, position);
            sort_by_score(&found)
        };
        keep(&mut self.position_cache, key, copy_results(&results));
        proof {
            lemma_put_keeps_memory(board.model(), before.games(), before.remembered(), position@);
        }
        results
    }

    /// Searches for a position. Gives the page of results that is asked for, sorted and filtered,
    /// with the next moves and how many games each player has.
    ///
    /// * `next_color`: the colour of the next moves, 0 for black and anything else for white
    /// * `page`: the page, counted from 0
    /// * `page_size`: how many results a page has
    /// * `player_filters`: the players that have to play in a game, all of them
    /// * `sort_by`: how the results are sorted
    pub fn search<R, S, M, T, Q, G, P, E>(
        &mut self,
        board: &Board<R, S, M, T, Q, G, P, E>,
        position: &[Placement],
        next_color: u8,
        page: usize,
        page_size: usize,
        player_filters: &Vec<PlayerFilter>,
        sort_by: SortBy,
    ) -> (answer: WasmSearchReturn) where
        R: Fn(&[Placement]) -> Vec<(Rotation, Vec<Placement>)>,
        S: Fn(&[Placement]) -> Vec<Placement>,
        M: Fn(&[Placement]) -> Vec<Placement>,
        T: Fn(&[Placement], Rotation) -> Vec<Placement>,
        Q: Fn(&[Placement]) -> bool,
        G: Fn(&[Placement], &[Placement]) -> Option<usize>,
        P: Fn(Point, u8) -> Vec<Point>,
        E: Fn(&[Point], &[Placement]) -> bool,

        requires
            board.wf(),
            old(self).wf(),
            old(self).remembers_rightly(board.model()),
            searchable_in(board.model(), position@, old(self).games()),
            page_size > 0,
            old(self).games().len() * MAX_RESULT_SCORE <= usize::MAX,
        ensures
            answers(
                answer,
                selected(
                    position_matches(board.model(), position@, old(self).games()),
                    player_filters@,
                    sort_by,
                ),
                position@,
                next_color,
                page,
                page_size,
                player_filters@,
            ),
            final(self).games() == old(self).games(),
            final(self).remembered() == cache_after_search(
                old(self).remembered(),
                position@,
                position_matches(board.model(), position@, old(self).games()),
            ),
            final(self).wf(),
            final(self).remembers_rightly(board.model()),
    {
        let results = self.match_position(board, position);
        proof {
            lemma_matches_in_reach(board.model(), position@, self.games());
            assert(results@.len() * MAX_RESULT_SCORE <= usize::MAX) by (nonlinear_arith)
                requires
                    results@.len() <= self.games().len(),
                    self.games().len() * MAX_RESULT_SCORE <= usize::MAX,
            ;
        }
        answer_search(
            &results,
            position,
            next_color,
            page,
            page_size,
            player_filters,
            sort_by,
        )
    }

    /// The game with the given path as a result, its moves mirrored and then rotated as asked for,
    /// or nothing if there is no such game.
    ///
    /// * `rotation`: 0 for none, 1 to 3 for so many quarter turns
    /// * `is_mirrored`: whether the moves are mirrored, before they are rotated
    pub fn get_search_result_by_path<R, S, M, T, Q, G, P, E>(
        &self,
        board: &Board<R, S, M, T, Q, G, P, E>,
        path: &str,
        rotation: u8,
        is_mirrored: bool,
    ) -> (result: Option<SearchResult>) where
        R: Fn(&[Placement]) -> Vec<(Rotation, Vec<Placement>)>,
        S: Fn(&[Placement]) -> Vec<Placement>,
        M: Fn(&[Placement]) -> Vec<Placement>,
        T: Fn(&[Placement], Rotation) -> Vec<Placement>,
        Q: Fn(&[Placement]) -> bool,
        G: Fn(&[Placement], &[Placement]) -> Option<usize>,
        P: Fn(Point, u8) -> Vec<Point>,
        E: Fn(&[Point], &[Placement]) -> bool,

        requires
            board.wf(),
        ensures
            result is Some <==> has_path(self.games(), path@),
            result matches Some(found) ==> forall|i: int|
                0 <= i < self.games().len() && (#[trigger] self.games()[i]).0 == path@ ==> found@
                    == result_by_path(
                    board.model(),
                    path@,
                    self.games()[i].1,
                    rotation,
                    is_mirrored,
                ),
    {
        broadcast use vstd::string::to_string_from_display_ensures_for_str;

        let game = match find_game(&self.game_data, path) {
            Some(game) => game,
            None => {
                return None;
            },
        };
        let side = if is_mirrored {
            board.mirrored(&game.moves)
        } else {
            copy_placements(&game.moves)
        };
        let moves_transformed = match rotation_from_number(rotation) {
            Some(turn) => board.rotated(&side, turn),
            None => side,
        };
        Some(
            SearchResult {
                path: path.to_string(),
                score: 0,
                last_move_matched: 0,
                rotation,
                is_inverted: false,
                is_mirrored,
                all_empty_correctly_within: 0,
                moves: copy_placements(&game.moves),
                moves_transformed,
                details: game.details.clone(),
                player_black: game.player_black.clone(),
                player_white: game.player_white.clone(),
            },
        )
    }
}

} // verus!
