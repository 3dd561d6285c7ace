use go_patterns::answers::{
    answer_search, color_from_number, count_players, filter_results, passes_filter, PlayerFilter,
    SortBy,
};
use go_patterns::baduk::{
    Color, Game, GameDetails, Placement, Player, Point, Rotation,
};
use go_patterns::board::Board;
use go_patterns::cache::key_of;
use go_patterns::matching::{get_moves_rotation, get_rotation_index, SearchResult};
use go_patterns::next_moves::{get_next_moves, NextMove};
use go_patterns::sorting::order_of;
use go_patterns::stones::put_in_order;
use go_patterns::wasm_search::{rotation_from_number, WasmSearch, CACHE_CAPACITY};
use indexmap::IndexMap;
use std::collections::HashMap;

const SIZE: u8 = 19;

fn turn(point: Point, rotation: Rotation) -> Point {
    match rotation {
        Rotation::Degrees90 => Point { x: SIZE - 1 - point.y, y: point.x },
        Rotation::Degrees180 => Point { x: SIZE - 1 - point.x, y: SIZE - 1 - point.y },
        Rotation::Degrees270 => Point { x: point.y, y: SIZE - 1 - point.x },
    }
}

fn rotated(position: &[Placement], rotation: Rotation) -> Vec<Placement> {
    position
        .iter()
        .map(|p| Placement { color: p.color, point: turn(p.point, rotation) })
        .collect()
}

fn rotations(position: &[Placement]) -> Vec<(Rotation, Vec<Placement>)> {
    [Rotation::Degrees90, Rotation::Degrees180, Rotation::Degrees270]
        .iter()
        .map(|r| (*r, rotated(position, *r)))
        .collect()
}

fn switched(position: &[Placement]) -> Vec<Placement> {
    position
        .iter()
        .map(|p| Placement { color: p.color.opposite(), point: p.point })
        .collect()
}

fn mirrored(position: &[Placement]) -> Vec<Placement> {
    position
        .iter()
        .map(|p| Placement {
            color: p.color,
            point: Point { x: SIZE - 1 - p.point.x, y: p.point.y },
        })
        .collect()
}

fn within_one_quadrant(position: &[Placement]) -> bool {
    let half = SIZE / 2;
    let left = position.iter().all(|p| p.point.x < half);
    let right = position.iter().all(|p| p.point.x > half);
    let top = position.iter().all(|p| p.point.y < half);
    let bottom = position.iter().all(|p| p.point.y > half);
    (left || right) && (top || bottom)
}

/// The number of the move after which all stones of the position were played.
fn matched(position: &[Placement], moves: &[Placement]) -> Option<usize> {
    let mut last = 0;
    for stone in position {
        let number = moves.iter().position(|m| m == stone)?;
        last = last.max(number);
    }
    Some(last)
}

fn surrounding(point: Point, distance: u8) -> Vec<Point> {
    let mut points = Vec::new();
    for x in 0..SIZE {
        for y in 0..SIZE {
            let dx = x.abs_diff(point.x);
            let dy = y.abs_diff(point.y);
            if dx.max(dy) == distance {
                points.push(Point { x, y });
            }
        }
    }
    points
}

fn empty(points: &[Point], moves: &[Placement]) -> bool {
    !points.iter().any(|p| moves.iter().any(|m| m.point == *p))
}

fn b(x: u8, y: u8) -> Placement {
    Placement { color: Color::Black, point: Point { x, y } }
}

fn w(x: u8, y: u8) -> Placement {
    Placement { color: Color::White, point: Point { x, y } }
}

fn details(event: &str) -> GameDetails {
    GameDetails {
        event: event.to_string(),
        round: String::new(),
        location: String::new(),
        date: Some("2001-02-03".to_string()),
        rank_black: None,
        rank_white: None,
        komi: Some("6.5".to_string()),
        rules: None,
        result: None,
    }
}

fn game(moves: &[Placement], black: Player, white: Player) -> Game {
    Game {
        details: details("a game"),
        player_black: black,
        player_white: white,
        date_order: None,
        moves: moves.to_vec(),
        captures: HashMap::new(),
    }
}

fn unknown() -> Player {
    Player::Unknown(String::new())
}

fn id(number: i16) -> Player {
    Player::Id(number, format!("player {number}"))
}

fn collection(games: Vec<(&str, Game)>) -> IndexMap<String, Game> {
    games.into_iter().map(|(path, game)| (path.to_string(), game)).collect()
}

fn paths(results: &[SearchResult]) -> Vec<String> {
    results.iter().map(|r| r.path.clone()).collect()
}

fn search_one(position: &[Placement], one: Game) -> Vec<SearchResult> {
    let board = Board {
        get_rotations: rotations,
        switch_colors: switched,
        get_mirrored: mirrored,
        get_rotated: rotated,
        check_within_one_quadrant: within_one_quadrant,
        match_game: matched,
        get_surrounding_points: surrounding,
        check_empty: empty,
    };
    let mut search = WasmSearch::new(collection(vec![("one", one)]));
    search.match_position(&board, position)
}

#[test]
fn test_instantiate() {
    let wasm_search =
        WasmSearch::new(collection(vec![("one", game(&[b(3, 3)], unknown(), unknown()))]));
    assert!(!wasm_search.game_data().is_empty());
}

#[test]
fn plain_position_with_free_surroundings() {
    let moves = [b(3, 3), w(15, 15), b(3, 15), w(15, 3), b(9, 9)];
    let results = search_one(&[b(3, 3)], game(&moves, id(1), id(2)));
    assert_eq!(results.len(), 1);
    let result = &results[0];
    // (100 + 3 + 6 + 9) * 4 - 0
    assert_eq!(result.score, 472);
    assert_eq!(result.last_move_matched, 0);
    assert_eq!(result.rotation, 0);
    assert!(!result.is_inverted);
    assert!(!result.is_mirrored);
    assert_eq!(result.all_empty_correctly_within, 3);
    assert_eq!(result.moves, moves.to_vec());
    assert_eq!(result.moves_transformed, moves.to_vec());
    assert_eq!(result.path, "one");
    assert_eq!(result.details, details("a game"));
    assert_eq!(result.player_black, id(1));
    assert_eq!(result.player_white, id(2));
}

#[test]
fn later_positions_score_less() {
    let moves = [w(15, 15), b(9, 9), b(3, 3)];
    let results = search_one(&[b(3, 3)], game(&moves, unknown(), unknown()));
    assert_eq!(results[0].last_move_matched, 2);
    assert_eq!(results[0].score, 470);
}

#[test]
fn a_stone_nearby_costs_the_multiplier() {
    let moves = [w(3, 4), b(3, 3), w(15, 15)];
    let results = search_one(&[b(3, 3)], game(&moves, unknown(), unknown()));
    // (100 + 6 + 9) * 1 - 1
    assert_eq!(results[0].score, 114);
    assert_eq!(results[0].all_empty_correctly_within, 0);
}

#[test]
fn a_stone_further_out_costs_part_of_it() {
    let moves = [w(3, 6), b(3, 3), w(15, 15)];
    let results = search_one(&[b(3, 3)], game(&moves, unknown(), unknown()));
    // (100 + 3 + 6) * 3 - 1
    assert_eq!(results[0].score, 326);
    assert_eq!(results[0].all_empty_correctly_within, 2);
}

#[test]
fn captured_stones_do_not_count() {
    let moves = [w(3, 4), b(3, 3), w(15, 15)];
    let mut with_capture = game(&moves, unknown(), unknown());
    with_capture.captures.insert(1, vec![w(3, 4)]);
    let results = search_one(&[b(3, 3)], with_capture);
    // (100 + 3 + 6 + 9) * 4 - 1
    assert_eq!(results[0].score, 471);
    assert_eq!(results[0].all_empty_correctly_within, 3);

    let mut captured_later = game(&moves, unknown(), unknown());
    captured_later.captures.insert(2, vec![w(3, 4)]);
    assert_eq!(search_one(&[b(3, 3)], captured_later)[0].score, 114);
}

#[test]
fn captured_stones_do_not_count_whichever_way_round() {
    let moves = [w(3, 4), b(3, 3), w(15, 15)];
    let with_capture = || {
        let mut one = game(&moves, unknown(), unknown());
        one.captures.insert(1, vec![w(3, 4)]);
        one
    };
    // The captures are turned with the game: (99 + 18) * 4 - 1
    let turned = search_one(&[b(15, 3)], with_capture());
    assert_eq!((turned[0].rotation, turned[0].is_mirrored), (3, false));
    assert_eq!(turned[0].score, 467);
    assert_eq!(turned[0].all_empty_correctly_within, 3);
    let half = search_one(&[b(15, 15)], with_capture());
    assert_eq!((half[0].rotation, half[0].score), (2, 467));

    let mut at_the_side = game(&[w(15, 3), b(15, 2), w(9, 9)], unknown(), unknown());
    at_the_side.captures.insert(1, vec![w(15, 3)]);
    let mirrored = search_one(&[b(3, 2)], at_the_side);
    assert!(mirrored[0].is_mirrored);
    // (100 + 18) * 4 - 1
    assert_eq!(mirrored[0].score, 471);
    assert_eq!(mirrored[0].all_empty_correctly_within, 3);
}

#[test]
fn rotated_positions_are_found() {
    let moves = [w(9, 9), b(3, 3), w(15, 15)];
    let results = search_one(&[b(15, 3)], game(&moves, unknown(), unknown()));
    assert_eq!(results.len(), 1);
    assert_eq!(results[0].rotation, 3);
    assert!(!results[0].is_mirrored);
    // The game is turned back, so that the stone lies where it was looked for.
    assert_eq!(results[0].moves_transformed[1], b(15, 3));
    assert_eq!(results[0].moves[1], b(3, 3));
    // (99 + 18) * 4 - 1
    assert_eq!(results[0].score, 467);
}

#[test]
fn mirrored_positions_are_found() {
    let moves = [b(15, 2), w(9, 9)];
    let results = search_one(&[b(3, 2)], game(&moves, unknown(), unknown()));
    assert!(results[0].is_mirrored);
    assert!(!results[0].is_inverted);
    assert_eq!(results[0].rotation, 0);
    assert_eq!(results[0].moves_transformed, mirrored(&moves));
    // The position keeps to one quadrant.
    assert_eq!(results[0].score, 472);
}

#[test]
fn wide_mirrored_positions_are_worth_little() {
    let moves = [b(15, 2), b(3, 3), w(9, 9)];
    let results = search_one(&[b(3, 2), b(15, 3)], game(&moves, unknown(), unknown()));
    assert!(results[0].is_mirrored);
    assert_eq!(results[0].last_move_matched, 1);
    // The mirrored game has its first stone on a point of the position: (10 + 6 + 12 + 18) * 4 - 1
    assert_eq!(results[0].score, 183);
}

#[test]
fn mirrored_and_rotated_positions_are_found() {
    let position = [b(3, 2)];
    let form = rotated(&mirrored(&position), Rotation::Degrees90);
    let results = search_one(&position, game(&[form[0], w(9, 9)], unknown(), unknown()));
    assert!(results[0].is_mirrored);
    assert_eq!(results[0].rotation, 1);
    assert_eq!(
        results[0].moves_transformed,
        rotated(&mirrored(&[form[0], w(9, 9)]), Rotation::Degrees90)
    );
}

#[test]
fn colours_can_be_exchanged() {
    let moves = [w(3, 3), b(9, 9)];
    let results = search_one(&[b(3, 3)], game(&moves, unknown(), unknown()));
    assert!(results[0].is_inverted);
    assert!(!results[0].is_mirrored);
    assert_eq!(results[0].moves_transformed, moves.to_vec());
    // (90 + 18) * 4
    assert_eq!(results[0].score, 432);

    let turned = [w(15, 3), b(9, 9)];
    let results = search_one(&[b(3, 3)], game(&turned, unknown(), unknown()));
    assert!(results[0].is_inverted);
    assert_eq!(results[0].rotation, 1);
    // (89 + 18) * 4
    assert_eq!(results[0].score, 428);
}

#[test]
fn mirrored_positions_with_exchanged_colours_come_last() {
    let results = search_one(&[b(3, 2)], game(&[w(15, 2), b(9, 9)], unknown(), unknown()));
    assert!(results[0].is_inverted);
    assert!(results[0].is_mirrored);
    assert_eq!(results[0].score, 432);
}

#[test]
fn games_without_the_position_are_not_given() {
    assert!(search_one(&[b(3, 3), b(4, 4)], game(&[b(3, 3), w(4, 4)], unknown(), unknown()))
        .is_empty());
}

#[test]
fn the_plain_form_is_preferred() {
    // The game has the position rotated first, but also as it is.
    let moves = [b(15, 3), w(9, 9), b(3, 3)];
    let results = search_one(&[b(3, 3)], game(&moves, unknown(), unknown()));
    assert_eq!(results.len(), 1);
    assert_eq!(results[0].rotation, 0);
    assert_eq!(results[0].last_move_matched, 2);
}

#[test]
fn order_of_stones_does_not_matter() {
    let moves = [b(3, 3), w(15, 15), b(16, 3)];
    let first = search_one(&[b(3, 3), b(16, 3)], game(&moves, unknown(), unknown()));
    let second = search_one(&[b(16, 3), b(3, 3)], game(&moves, unknown(), unknown()));
    assert_eq!(first[0].last_move_matched, 2);
    assert_eq!(first, second);

    // A stone lies next to one of the two stones of the position.
    let nearby = [w(16, 15), b(3, 3), b(15, 15)];
    let first = search_one(&[b(3, 3), b(15, 15)], game(&nearby, unknown(), unknown()));
    let second = search_one(&[b(15, 15), b(3, 3)], game(&nearby, unknown(), unknown()));
    // (100 + 3 + 12 + 18) * 1 - 2
    assert_eq!(first[0].score, 131);
    assert_eq!(first[0].all_empty_correctly_within, 0);
    assert_eq!(first, second);

    // One stone lies near the first of three stones, one further from the last.
    let spread = [b(3, 3), w(15, 3), b(3, 15), w(4, 4), b(4, 14), w(13, 3)];
    let stones = [b(3, 3), w(15, 3), b(3, 15)];
    let orders = [[0, 1, 2], [0, 2, 1], [1, 0, 2], [1, 2, 0], [2, 0, 1], [2, 1, 0]];
    let mut late = spread.to_vec();
    late.rotate_left(3);
    let plain = search_one(&stones, game(&late, unknown(), unknown()));
    // The first stone by column and row is disturbed, the last one further out:
    // (100 + 0 + 12 + 27) * 1 - 5
    assert_eq!(plain[0].score, 134);
    for order in orders {
        let position: Vec<Placement> = order.iter().map(|i| stones[*i]).collect();
        assert_eq!(search_one(&position, game(&late, unknown(), unknown())), plain);
    }
}

#[test]
fn a_look_ends_at_the_first_stone_that_is_not_clear() {
    // Each stone is disturbed next to it, on a point that is two steps from the other one.
    let moves = [w(6, 9), w(7, 9), b(5, 9), b(8, 9)];
    for position in [[b(5, 9), b(8, 9)], [b(8, 9), b(5, 9)]] {
        let results = search_one(&position, game(&moves, unknown(), unknown()));
        // (100 + 0 + 0 + 18) * 1 - 3
        assert_eq!(results[0].score, 115);
        assert_eq!(results[0].all_empty_correctly_within, 0);
    }

    // Points that were looked at once are not looked at again.
    let beside = [w(4, 3), b(3, 3), b(6, 3)];
    let results = search_one(&[b(3, 3), b(6, 3)], game(&beside, unknown(), unknown()));
    // (100 + 0 + 12 + 18) * 1 - 2
    assert_eq!(results[0].score, 128);
}

#[test]
fn stones_are_put_in_order() {
    let stones = put_in_order(&[w(3, 4), b(15, 2), b(3, 4), w(3, 2), b(3, 4), w(0, 18)]);
    assert_eq!(stones, [w(0, 18), w(3, 2), b(3, 4), b(3, 4), w(3, 4), b(15, 2)]);
    assert!(put_in_order(&[]).is_empty());
}

#[test]
fn orientation_does_not_change_what_is_found() {
    let position = [b(3, 2), w(5, 3)];
    let forms = [
        position.to_vec(),
        rotated(&position, Rotation::Degrees90),
        rotated(&position, Rotation::Degrees180),
        rotated(&position, Rotation::Degrees270),
        mirrored(&position),
        rotated(&mirrored(&position), Rotation::Degrees90),
        switched(&position),
        switched(&rotated(&mirrored(&position), Rotation::Degrees270)),
    ];
    for played in &forms {
        let mut moves = played.clone();
        moves.push(b(9, 9));
        for looked_for in &forms {
            let results = search_one(looked_for, game(&moves, unknown(), unknown()));
            assert_eq!(paths(&results), ["one"]);
            // The transformed moves hold the pattern where it was drawn.
            let drawn = if results[0].is_inverted {
                switched(looked_for)
            } else {
                looked_for.clone()
            };
            assert_eq!(
                matched(&drawn, &results[0].moves_transformed),
                Some(results[0].last_move_matched)
            );
            assert_eq!(results[0].moves_transformed.len(), results[0].moves.len());
        }
    }
    let other = [b(3, 2), w(5, 4)];
    for looked_for in &forms {
        assert!(search_one(looked_for, game(&other, unknown(), unknown())).is_empty());
    }
}

fn five_games() -> IndexMap<String, Game> {
    let late = [w(9, 9), w(15, 15), b(3, 3)];
    let early = [b(3, 3), w(15, 15)];
    let turned = [b(15, 15), w(9, 9)];
    collection(vec![
        ("late", game(&late, id(1), id(2))),
        ("turned", game(&turned, id(2), id(3))),
        ("early", game(&early, id(1), id(3))),
        ("other", game(&[w(3, 15), b(9, 9)], unknown(), id(1))),
        ("none", game(&[b(9, 9), w(9, 8)], id(1), id(2))),
    ])
}

#[test]
fn results_are_sorted_by_score() {
    let board = Board {
        get_rotations: rotations,
        switch_colors: switched,
        get_mirrored: mirrored,
        get_rotated: rotated,
        check_within_one_quadrant: within_one_quadrant,
        match_game: matched,
        get_surrounding_points: surrounding,
        check_empty: empty,
    };
    let mut search = WasmSearch::new(five_games());
    let results = search.match_position(&board, &[b(3, 3)]);
    assert_eq!(paths(&results), ["early", "late", "turned", "other"]);
    let scores: Vec<i16> = results.iter().map(|r| r.score).collect();
    assert_eq!(scores, [472, 470, 468, 428]);
    // A second search gives what is remembered.
    assert_eq!(search.match_position(&board, &[b(3, 3)]), results);
}

#[test]
fn without_stones_all_games_are_given() {
    let board = Board {
        get_rotations: rotations,
        switch_colors: switched,
        get_mirrored: mirrored,
        get_rotated: rotated,
        check_within_one_quadrant: within_one_quadrant,
        match_game: matched,
        get_surrounding_points: surrounding,
        check_empty: empty,
    };
    let mut search = WasmSearch::new(five_games());
    let results = search.match_position(&board, &[]);
    assert_eq!(paths(&results), ["late", "turned", "early", "other", "none"]);
    assert!(results.iter().all(|r| r.score == 0 && r.all_empty_correctly_within == 0));
    let answer = search.search(&board, &[], 0, 0, 2, &vec![], SortBy::BestMatch);
    assert_eq!(answer.num_results, 5);
    assert_eq!(answer.total_pages, 3);
    assert!(answer.next_moves.is_empty());
}

#[test]
fn more_positions_than_the_cache_holds_can_be_searched() {
    let board = Board {
        get_rotations: rotations,
        switch_colors: switched,
        get_mirrored: mirrored,
        get_rotated: rotated,
        check_within_one_quadrant: within_one_quadrant,
        match_game: matched,
        get_surrounding_points: surrounding,
        check_empty: empty,
    };
    let mut search = WasmSearch::new(collection(vec![(
        "one",
        game(&[b(3, 3), w(15, 15)], unknown(), unknown()),
    )]));
    let first = search.match_position(&board, &[b(3, 3)]);
    for i in 0..CACHE_CAPACITY + 5 {
        let x = (i % 19) as u8;
        let y = ((i / 19) % 19) as u8;
        let z = (i / 361) as u8;
        search.match_position(&board, &[w(x, y), b(z, 18)]);
    }
    assert_eq!(search.match_position(&board, &[b(3, 3)]), first);
}

#[test]
fn answers_are_sorted_filtered_and_paged() {
    let board = Board {
        get_rotations: rotations,
        switch_colors: switched,
        get_mirrored: mirrored,
        get_rotated: rotated,
        check_within_one_quadrant: within_one_quadrant,
        match_game: matched,
        get_surrounding_points: surrounding,
        check_empty: empty,
    };
    let mut search = WasmSearch::new(five_games());
    let all = search.search(&board, &[b(3, 3)], 0, 0, 10, &vec![], SortBy::BestMatch);
    assert_eq!(all.num_results, 4);
    assert_eq!(all.total_pages, 1);
    assert_eq!(all.current_page, 0);
    assert_eq!(paths(&all.results), ["early", "late", "turned", "other"]);
    assert_eq!(all.player_counts, HashMap::from([(1, 3), (2, 2), (3, 2)]));

    let second = search.search(&board, &[b(3, 3)], 0, 1, 3, &vec![], SortBy::BestMatch);
    assert_eq!((second.total_pages, second.current_page), (2, 1));
    assert_eq!(paths(&second.results), ["other"]);

    let beyond = search.search(&board, &[b(3, 3)], 0, 9, 3, &vec![], SortBy::BestMatch);
    assert_eq!(beyond.current_page, 1);
    assert_eq!(paths(&beyond.results), ["other"]);

    let fewest = search.search(&board, &[b(3, 3)], 0, 0, 10, &vec![], SortBy::LeastMoves);
    assert_eq!(paths(&fewest.results), ["early", "turned", "other", "late"]);

    let one = vec![PlayerFilter { player_id: 1, color: None }];
    let with_one = search.search(&board, &[b(3, 3)], 0, 0, 10, &one, SortBy::BestMatch);
    assert_eq!(paths(&with_one.results), ["early", "late", "other"]);
    assert_eq!(with_one.player_counts, HashMap::from([(2, 1), (3, 1)]));

    let black = vec![PlayerFilter { player_id: 1, color: Some(Color::Black) }];
    let with_black = search.search(&board, &[b(3, 3)], 0, 0, 10, &black, SortBy::BestMatch);
    assert_eq!(paths(&with_black.results), ["early", "late"]);

    let white = vec![PlayerFilter { player_id: 1, color: Some(Color::White) }];
    let with_white = search.search(&board, &[b(3, 3)], 0, 0, 10, &white, SortBy::BestMatch);
    assert_eq!(paths(&with_white.results), ["other"]);

    let both = vec![
        PlayerFilter { player_id: 1, color: None },
        PlayerFilter { player_id: 3, color: Some(Color::White) },
    ];
    let with_both = search.search(&board, &[b(3, 3)], 0, 0, 10, &both, SortBy::BestMatch);
    assert_eq!(paths(&with_both.results), ["early"]);
    assert!(with_both.player_counts.is_empty());

    let nobody = vec![PlayerFilter { player_id: 9, color: None }];
    let with_nobody = search.search(&board, &[b(3, 3)], 0, 4, 10, &nobody, SortBy::BestMatch);
    assert_eq!(with_nobody.num_results, 0);
    assert_eq!((with_nobody.total_pages, with_nobody.current_page), (0, 0));
    assert!(with_nobody.results.is_empty());
}

fn result(path: &str, last: usize, within: u8, inverted: bool, moves: &[Placement]) -> SearchResult {
    SearchResult {
        path: path.to_string(),
        score: 0,
        last_move_matched: last,
        rotation: 0,
        is_inverted: inverted,
        is_mirrored: false,
        all_empty_correctly_within: within,
        moves: moves.to_vec(),
        moves_transformed: moves.to_vec(),
        details: details("a game"),
        player_black: id(7),
        player_white: id(7),
    }
}

#[test]
fn next_moves_need_fifty_games() {
    let moves = [b(3, 3), w(15, 15), b(9, 9), w(0, 0)];
    let mut results: Vec<SearchResult> =
        (0..49).map(|_| result("one", 0, 3, false, &moves)).collect();
    assert!(get_next_moves(&results, &[b(3, 3)], Color::White).is_empty());
    results.push(result("one", 0, 1, false, &moves));
    assert_eq!(
        get_next_moves(&results, &[b(3, 3)], Color::White),
        vec![NextMove { point: Point { x: 15, y: 15 }, game_count: 50 }]
    );
    assert_eq!(
        get_next_moves(&results, &[b(3, 3)], Color::Black),
        vec![NextMove { point: Point { x: 9, y: 9 }, game_count: 50 }]
    );
}

#[test]
fn next_moves_are_sorted_by_score() {
    // Fifty games come to the position with the first move, sixty with the second.
    let direct = [b(3, 3), w(15, 15), b(9, 9)];
    let late = [w(16, 16), b(3, 3), w(2, 2), b(9, 9)];
    let mut results: Vec<SearchResult> =
        (0..60).map(|_| result("late", 1, 3, false, &late)).collect();
    results.extend((0..50).map(|_| result("direct", 0, 3, false, &direct)));
    assert_eq!(
        get_next_moves(&results, &[b(3, 3)], Color::White),
        vec![
            NextMove { point: Point { x: 15, y: 15 }, game_count: 50 },
            NextMove { point: Point { x: 2, y: 2 }, game_count: 60 },
        ]
    );
    assert_eq!(
        get_next_moves(&results, &[b(3, 3)], Color::Black),
        vec![NextMove { point: Point { x: 9, y: 9 }, game_count: 110 }]
    );
}

#[test]
fn next_moves_leave_out_crowded_games_and_taken_points() {
    let crowded = [b(3, 3), w(15, 15), b(9, 9)];
    let results: Vec<SearchResult> =
        (0..60).map(|_| result("one", 0, 0, false, &crowded)).collect();
    assert!(get_next_moves(&results, &[b(3, 3)], Color::White).is_empty());

    let recapture = [b(3, 3), w(3, 3), b(9, 9)];
    let results: Vec<SearchResult> =
        (0..60).map(|_| result("one", 0, 3, false, &recapture)).collect();
    assert!(get_next_moves(&results, &[b(3, 3)], Color::White).is_empty());
    assert_eq!(get_next_moves(&results, &[b(3, 3)], Color::Black).len(), 1);
}

#[test]
fn next_moves_exchange_colours_with_the_position() {
    let moves = [w(3, 3), b(15, 15), w(9, 9)];
    let results: Vec<SearchResult> =
        (0..60).map(|_| result("one", 0, 3, true, &moves)).collect();
    assert_eq!(
        get_next_moves(&results, &[b(3, 3)], Color::White),
        vec![NextMove { point: Point { x: 15, y: 15 }, game_count: 60 }]
    );
}

#[test]
fn answers_hold_at_most_nine_next_moves() {
    let mut results: Vec<SearchResult> = Vec::new();
    for column in 0..12u8 {
        let moves = [b(3, 3), w(column, 18), b(9, 9)];
        results.extend((0..50).map(|_| result("one", 0, 3, false, &moves)));
    }
    let answer = answer_search(&results, &[b(3, 3)], 1, 0, 10, &vec![], SortBy::BestMatch);
    assert_eq!(answer.next_moves.len(), 9);
    assert!(answer.next_moves.iter().all(|next| next.game_count == 50));
    assert_eq!(answer.player_counts, HashMap::from([(7, 1200)]));
    let black = answer_search(&results, &[b(3, 3)], 0, 0, 10, &vec![], SortBy::BestMatch);
    assert_eq!(
        black.next_moves,
        vec![NextMove { point: Point { x: 9, y: 9 }, game_count: 600 }]
    );
}

#[test]
fn filters_look_at_colour_and_id() {
    let mut one = result("one", 0, 3, false, &[]);
    one.player_black = id(1);
    one.player_white = Player::Unknown("player 2".to_string());
    let by = |player_id, color| PlayerFilter { player_id, color };
    assert!(passes_filter(&by(1, None), &one));
    assert!(passes_filter(&by(1, Some(Color::Black)), &one));
    assert!(!passes_filter(&by(1, Some(Color::White)), &one));
    assert!(!passes_filter(&by(2, None), &one));
    let results = vec![one];
    assert_eq!(filter_results(&results, &vec![]), results);
    assert_eq!(count_players(&results, &vec![]), HashMap::from([(1, 1)]));
    assert!(count_players(&results, &vec![by(1, None)]).is_empty());
}

#[test]
fn results_can_be_asked_for_by_path() {
    let board = Board {
        get_rotations: rotations,
        switch_colors: switched,
        get_mirrored: mirrored,
        get_rotated: rotated,
        check_within_one_quadrant: within_one_quadrant,
        match_game: matched,
        get_surrounding_points: surrounding,
        check_empty: empty,
    };
    let search = WasmSearch::new(five_games());
    let early = [b(3, 3), w(15, 15)];
    let plain = search.get_search_result_by_path(&board, "early", 0, false).unwrap();
    assert_eq!(plain.moves_transformed, early.to_vec());
    assert_eq!((plain.score, plain.last_move_matched, plain.rotation), (0, 0, 0));
    let turned = search.get_search_result_by_path(&board, "early", 1, false).unwrap();
    assert_eq!(turned.moves_transformed, rotated(&early, Rotation::Degrees90));
    assert_eq!(turned.moves, early.to_vec());
    let half = search.get_search_result_by_path(&board, "early", 2, false).unwrap();
    assert_eq!(half.moves_transformed, rotated(&early, Rotation::Degrees180));
    let both = search.get_search_result_by_path(&board, "early", 3, true).unwrap();
    assert_eq!(both.moves_transformed, rotated(&mirrored(&early), Rotation::Degrees270));
    assert!(both.is_mirrored);
    let odd = search.get_search_result_by_path(&board, "early", 7, true).unwrap();
    assert_eq!(odd.moves_transformed, mirrored(&early));
    assert_eq!(odd.rotation, 7);
    assert!(search.get_search_result_by_path(&board, "earl", 0, false).is_none());
}

#[test]
fn rotations_and_their_numbers() {
    assert_eq!(get_moves_rotation(&Rotation::Degrees90), Rotation::Degrees270);
    assert_eq!(get_moves_rotation(&Rotation::Degrees180), Rotation::Degrees180);
    assert_eq!(get_moves_rotation(&Rotation::Degrees270), Rotation::Degrees90);
    assert_eq!(get_rotation_index(&Rotation::Degrees90), 1);
    assert_eq!(get_rotation_index(&Rotation::Degrees180), 2);
    assert_eq!(get_rotation_index(&Rotation::Degrees270), 3);
    assert_eq!(rotation_from_number(0), None);
    assert_eq!(rotation_from_number(3), Some(Rotation::Degrees270));
    assert_eq!(color_from_number(0), Color::Black);
    assert_eq!(color_from_number(2), Color::White);
}

#[test]
fn keys_tell_positions_apart() {
    assert_eq!(key_of(&[b(1, 2), w(3, 4)]), vec![258, 65536 + 772]);
    assert_ne!(key_of(&[b(1, 2), w(3, 4)]), key_of(&[w(3, 4), b(1, 2)]));
    assert!(key_of(&[]).is_empty());
}

#[test]
fn sorting_is_stable() {
    let keys = vec![(2, 0), (1, 5), (2, 0), (0, 9), (1, 4)];
    assert_eq!(order_of(&keys), vec![3, 4, 1, 0, 2]);
}

#[test]
fn large_positions_cannot_be_searched() {
    let search = WasmSearch::new(five_games());
    assert!(search.can_search(&[]));
    assert!(search.can_search(&vec![b(3, 3); 449]));
    assert!(!search.can_search(&vec![b(3, 3); 450]));
    let long = game(&vec![b(3, 3); 32768], unknown(), unknown());
    assert!(!WasmSearch::new(collection(vec![("long", long)])).can_search(&[b(3, 3)]));
}

#[test]
fn pages_join_to_all_results() {
    let results: Vec<SearchResult> =
        (0..7).map(|i| result(&format!("game {i}"), i % 3, 0, false, &[])).collect();
    for page_size in 1..9 {
        let first = answer_search(&results, &[], 0, 0, page_size, &vec![], SortBy::LeastMoves);
        let mut joined: Vec<String> = Vec::new();
        for page in 0..first.total_pages {
            let answer =
                answer_search(&results, &[], 0, page, page_size, &vec![], SortBy::LeastMoves);
            assert_eq!(answer.current_page, page);
            assert!(!answer.results.is_empty() && answer.results.len() <= page_size);
            joined.extend(paths(&answer.results));
        }
        assert_eq!(
            joined,
            ["game 0", "game 3", "game 6", "game 1", "game 4", "game 2", "game 5"]
        );
    }
}

#[test]
fn filters_add_up() {
    let mut results: Vec<SearchResult> = Vec::new();
    for (black, white) in [(1, 2), (2, 1), (1, 3), (3, 4), (1, 2)] {
        let mut one = result(&format!("{black} {white}"), 0, 0, false, &[]);
        one.player_black = id(black);
        one.player_white = id(white);
        results.push(one);
    }
    let first = PlayerFilter { player_id: 1, color: None };
    let second = PlayerFilter { player_id: 2, color: Some(Color::White) };
    let one_by_one = filter_results(&filter_results(&results, &vec![first]), &vec![second]);
    assert_eq!(one_by_one, filter_results(&results, &vec![first, second]));
    assert_eq!(paths(&one_by_one), ["1 2", "1 2"]);
}

#[test]
fn order_of_filters_does_not_matter() {
    let mut results: Vec<SearchResult> = Vec::new();
    for (i, (black, white)) in [(1, 2), (2, 1), (1, 3), (3, 4), (1, 2)].into_iter().enumerate() {
        let mut one = result(&format!("game {i}"), 5 - i, 0, false, &[]);
        one.player_black = id(black);
        one.player_white = id(white);
        results.push(one);
    }
    let first = PlayerFilter { player_id: 1, color: Some(Color::Black) };
    let second = PlayerFilter { player_id: 2, color: None };
    let one_way = answer_search(&results, &[], 0, 0, 9, &vec![first, second], SortBy::BestMatch);
    let other_way = answer_search(&results, &[], 0, 0, 9, &vec![second, first], SortBy::BestMatch);
    assert_eq!(paths(&one_way.results), ["game 0", "game 4"]);
    assert_eq!(one_way.results, other_way.results);
    assert_eq!(one_way.player_counts, other_way.player_counts);

    // More filters keep less.
    let fewer = answer_search(&results, &[], 0, 0, 9, &vec![first], SortBy::BestMatch);
    assert_eq!(paths(&fewer.results), ["game 0", "game 2", "game 4"]);

    // The least moves come first among those that the filters keep.
    let least = answer_search(&results, &[], 0, 0, 9, &vec![first], SortBy::LeastMoves);
    assert_eq!(paths(&least.results), ["game 4", "game 2", "game 0"]);
    assert_eq!(least.num_results, fewer.num_results);
    assert_eq!(least.player_counts, fewer.player_counts);
}

#[test]
fn results_with_equal_scores_keep_the_order_of_their_games() {
    let moves = [b(3, 3), w(15, 15)];
    let late = [w(15, 15), b(3, 3)];
    let board = Board {
        get_rotations: rotations,
        switch_colors: switched,
        get_mirrored: mirrored,
        get_rotated: rotated,
        check_within_one_quadrant: within_one_quadrant,
        match_game: matched,
        get_surrounding_points: surrounding,
        check_empty: empty,
    };
    let mut search = WasmSearch::new(collection(vec![
        ("late b", game(&late, unknown(), unknown())),
        ("early c", game(&moves, unknown(), unknown())),
        ("early a", game(&moves, unknown(), unknown())),
        ("late a", game(&late, unknown(), unknown())),
        ("early b", game(&moves, unknown(), unknown())),
    ]));
    let results = search.match_position(&board, &[b(3, 3)]);
    assert_eq!(paths(&results), ["early c", "early a", "early b", "late b", "late a"]);
}

#[test]
fn searches_in_between_change_nothing() {
    let board = Board {
        get_rotations: rotations,
        switch_colors: switched,
        get_mirrored: mirrored,
        get_rotated: rotated,
        check_within_one_quadrant: within_one_quadrant,
        match_game: matched,
        get_surrounding_points: surrounding,
        check_empty: empty,
    };
    let mut busy = WasmSearch::new(five_games());
    for position in [&[b(9, 9)][..], &[], &[w(9, 8), b(9, 9)], &[b(3, 3)], &[w(3, 3)]] {
        busy.match_position(&board, position);
        busy.search(&board, position, 0, 0, 2, &vec![], SortBy::LeastMoves);
        let mut fresh = WasmSearch::new(five_games());
        for other in [&[b(3, 3)][..], &[w(15, 15)], &[b(9, 9), w(9, 8)]] {
            assert_eq!(busy.match_position(&board, other), fresh.match_position(&board, other));
        }
    }
}

#[test]
fn next_moves_depend_on_no_order_and_on_lively_results_alone() {
    let direct = [b(3, 3), w(15, 15), b(9, 9)];
    let late = [w(16, 16), b(3, 3), w(2, 2), b(9, 9)];
    let mut results: Vec<SearchResult> =
        (0..60).map(|_| result("late", 1, 3, false, &late)).collect();
    results.extend((0..50).map(|_| result("direct", 0, 2, false, &direct)));
    let plain = get_next_moves(&results, &[b(3, 3)], Color::White);
    assert_eq!(plain.len(), 2);
    results.reverse();
    assert_eq!(get_next_moves(&results, &[b(3, 3)], Color::White), plain);
    let crowded = [b(3, 3), w(7, 7), b(9, 9)];
    for i in 0..70 {
        results.insert(i, result("crowded", 0, 0, false, &crowded));
    }
    assert_eq!(get_next_moves(&results, &[b(3, 3)], Color::White), plain);
}

#[test]
fn results_can_be_asked_for_again() {
    let board = Board {
        get_rotations: rotations,
        switch_colors: switched,
        get_mirrored: mirrored,
        get_rotated: rotated,
        check_within_one_quadrant: within_one_quadrant,
        match_game: matched,
        get_surrounding_points: surrounding,
        check_empty: empty,
    };
    let forms = [
        b(3, 2),
        rotated(&[b(3, 2)], Rotation::Degrees90)[0],
        rotated(&[b(3, 2)], Rotation::Degrees180)[0],
        rotated(&[b(3, 2)], Rotation::Degrees270)[0],
        mirrored(&[b(3, 2)])[0],
        rotated(&mirrored(&[b(3, 2)]), Rotation::Degrees90)[0],
        rotated(&mirrored(&[b(3, 2)]), Rotation::Degrees270)[0],
    ];
    for form in forms {
        let mut search = WasmSearch::new(collection(vec![(
            "one",
            game(&[w(9, 8), form, w(9, 9)], unknown(), unknown()),
        )]));
        let found = &search.match_position(&board, &[b(3, 2)])[0];
        // Mirrored games are given with their own turn, the others with the one that undoes it.
        let rotation = if found.is_mirrored || found.rotation == 0 {
            found.rotation
        } else {
            4 - found.rotation
        };
        let again = search
            .get_search_result_by_path(&board, "one", rotation, found.is_mirrored)
            .unwrap();
        assert_eq!(again.moves_transformed, found.moves_transformed);
        assert_eq!(again.moves, found.moves);
        assert_eq!(again.path, found.path);
    }
}
