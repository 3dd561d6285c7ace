use go_patterns::baduk::{Color, Game, Placement, Player, Point};
use go_patterns::games::date_precedence;
use go_patterns::names::{
    games_count_of, load_player_aliases, read_player_aliases, update_player_names_with_games_count,
    Json, NamesError,
};
use go_patterns::packing::{
    captures_of, collect_all_names, collect_games, collect_unknown_names, count_player_ids,
    list_aliases, load_all_sgfs, load_game, PossibleAlias,
};
use go_patterns::players::{
    clean_name, collect_sgf_files, fate_of, find_player_id, has_multiple_players, load_blocklist,
    player_named, FileFate, FoundFile, PlayerAliases,
};
use go_patterns::sgf::{load_sgf, read_game, LoadError, Property};
use go_patterns::text::{is_white_space, join_lines, parse_id};
use std::cmp::Ordering;
use std::collections::HashMap;

const GAME: &str = "(;GM[1]FF[4]SZ[19]PB[Cho Chikun]PW[Kobayashi Koichi]BR[9d]WR[9p]EV[Honinbo]\
    RO[Game 1]PC[Tokyo]DT[1990-05-02]KM[5.5]RU[Japanese]RE[B+R]\
    ;B[pd];W[dp];B[pp](;W[dd];B[fq])(;W[cc]))";

fn b(x: u8, y: u8) -> Placement {
    Placement { color: Color::Black, point: Point { x, y } }
}

fn w(x: u8, y: u8) -> Placement {
    Placement { color: Color::White, point: Point { x, y } }
}

fn record(root: &str) -> String {
    format!("(;{root};B[pd];W[dp];B[pp];W[dd];B[fq])")
}

fn load_error(text: &str) -> Option<LoadError> {
    load_sgf(text, 19).err()
}

#[test]
fn a_record_gives_its_game() {
    let (game, black, white) = load_sgf(GAME, 19).ok().unwrap();
    assert_eq!(black, "Cho Chikun");
    assert_eq!(white, "Kobayashi Koichi");
    assert_eq!(game.player_black, Player::Unknown("Cho Chikun".to_string()));
    assert_eq!(game.player_white, Player::Unknown("Kobayashi Koichi".to_string()));
    assert_eq!(game.details.event, "Honinbo");
    assert_eq!(game.details.round, "Game 1");
    assert_eq!(game.details.location, "Tokyo");
    assert_eq!(game.details.date.as_deref(), Some("1990-05-02"));
    assert_eq!(game.details.rank_black.as_deref(), Some("9d"));
    assert_eq!(game.details.rank_white.as_deref(), Some("9p"));
    assert_eq!(game.details.komi.as_deref(), Some("5.5"));
    assert_eq!(game.details.rules.as_deref(), Some("Japanese"));
    assert_eq!(game.details.result.as_deref(), Some("B+R"));
    assert_eq!(game.moves, vec![b(15, 3), w(3, 15), b(15, 15), w(3, 3), b(5, 16)]);
    assert!(game.captures.is_empty());
}

#[test]
fn what_is_missing_is_left_empty() {
    let (game, black, white) = load_sgf(&record(""), 19).ok().unwrap();
    assert_eq!((black.as_str(), white.as_str()), ("", ""));
    assert_eq!(game.details.event, "");
    assert_eq!(game.details.date, None);
    assert_eq!(game.details.komi, None);
    assert_eq!(game.details.result, None);
    assert_eq!(game.moves.len(), 5);
}

#[test]
fn the_last_of_several_texts_counts() {
    let (game, black, _) = load_sgf(&record("EV[one]PB[a]EV[two]PB[b]"), 19).ok().unwrap();
    assert_eq!(game.details.event, "two");
    assert_eq!(black, "b");
}

#[test]
fn other_games_are_refused() {
    assert_eq!(load_error("(;GM[6];B[pd])"), Some(LoadError::NotGo));
    assert_eq!(load_error(&format!("{GAME}(;GM[6])")), Some(LoadError::NotGo));
    // Only the first of several Go games is read.
    let (game, _, _) = load_sgf(&format!("{GAME}(;B[aa])"), 19).ok().unwrap();
    assert_eq!(game.moves.len(), 5);
}

#[test]
fn several_players_are_refused() {
    let refused = Some(LoadError::MultiplePlayers);
    assert_eq!(load_error(&record("PB[Cho and Rin]")), refused);
    assert_eq!(load_error(&record("PW[Cho & Rin]")), refused);
    assert_eq!(load_error(&record("PB[Cho, Rin, Otake]")), refused);
    assert_eq!(load_error(&record("PB[Cho, day 1]")), refused);
    assert_eq!(load_error(&record("PB[Cho, Chikun]")), None);
    // The names are looked at before the size of the board.
    assert_eq!(load_error(&record("PB[Cho & Rin]SZ[13]")), refused);
}

#[test]
fn other_board_sizes_are_refused() {
    assert_eq!(load_error(&record("SZ[13]")), Some(LoadError::BoardSize(13, 13)));
    assert_eq!(load_error(&record("SZ[19:13]")), Some(LoadError::BoardSize(19, 13)));
    assert_eq!(load_error(&record("SZ[19]SZ[13]")), None);
    assert_eq!(load_error(&record("SZ[13]SZ[19]")), Some(LoadError::BoardSize(13, 13)));
    assert!(load_sgf("(;SZ[9];B[aa];W[bb];B[cc];W[dd];B[ee])", 9).is_ok());
}

#[test]
fn games_with_few_moves_are_refused() {
    assert_eq!(load_error("(;SZ[19])"), Some(LoadError::NoMoves));
    assert_eq!(load_error(""), Some(LoadError::NoMoves));
    assert_eq!(load_error("nothing of the kind"), Some(LoadError::NoMoves));
    assert_eq!(load_error("(;B[pd];W[dp];B[pp];W[dd])"), Some(LoadError::TooFewMoves));
    assert_eq!(load_error("(;B[pd];W[dp];B[pp];W[dd];B[fq])"), None);
    assert_eq!(load_error("(;B[pd];W[];B[tt];W[dd];B[fq])"), Some(LoadError::TooFewMoves));
}

#[test]
fn errors_in_words() {
    assert_eq!(LoadError::NotGo.message(19), "Unexpected game type");
    assert_eq!(
        LoadError::MultiplePlayers.message(19),
        "Player name indicates multiple players"
    );
    assert_eq!(
        LoadError::BoardSize(13, 9).message(19),
        "Got non-19x19 board size: (13, 9)"
    );
    assert_eq!(LoadError::BoardSize(255, 100).message(0), "Got non-0x0 board size: (255, 100)");
    assert_eq!(LoadError::NoMoves.message(19), "Game has no moves");
    assert_eq!(LoadError::TooFewMoves.message(19), "Game has less than 5 moves");
}

#[test]
fn handicap_stones_are_moves() {
    let text = "(;SZ[19]AB[pd][dp][zz]AW[jj];W[qq];B[cc])";
    let (game, _, _) = load_sgf(text, 19).ok().unwrap();
    assert_eq!(game.moves.len(), 5);
    let mut stones = game.moves[..2].to_vec();
    stones.sort_by_key(|stone| stone.point.x);
    assert_eq!(stones, vec![b(3, 15), b(15, 3)]);
    assert_eq!(game.moves[2..], [w(9, 9), w(16, 16), b(2, 2)]);
}

#[test]
fn one_move_ends_a_node() {
    let line = vec![vec![
        Property::Stones("AB".to_string(), vec![(1, 1), (19, 1), (2, 2)]),
        Property::Other,
        Property::Stones("AE".to_string(), vec![(9, 9)]),
        Property::Move("W".to_string(), 3, 3),
        Property::Move("B".to_string(), 4, 4),
        Property::Stones("AW".to_string(), vec![(5, 5)]),
    ], vec![
        Property::Move("B".to_string(), 19, 0),
        Property::Move("W".to_string(), 6, 6),
    ], vec![Property::Move("B".to_string(), 7, 7)], vec![Property::Move("W".to_string(), 8, 8)]];
    let (game, _, _) = read_game(&line, 19).ok().unwrap();
    assert_eq!(game.moves, vec![b(1, 1), b(2, 2), w(3, 3), b(7, 7), w(8, 8)]);
}

#[test]
fn names_are_cleaned() {
    assert_eq!(clean_name("  Cho,\nChikun\t"), "Cho Chikun");
    assert_eq!(clean_name(",,"), "");
    assert_eq!(clean_name("\u{3000}\u{a0}林\u{2009}"), "林");
    assert_eq!(clean_name("a  b"), "a  b");
}

#[test]
fn names_give_players() {
    let mut aliases = PlayerAliases::new();
    aliases.insert("Cho Chikun", 17);
    aliases.insert("ÉMILE", 3);
    assert_eq!(
        find_player_id("CHO,\nCHIKUN ", &aliases),
        Player::Id(17, "CHO CHIKUN".to_string())
    );
    assert_eq!(find_player_id("émile", &aliases), Player::Id(3, "émile".to_string()));
    assert_eq!(find_player_id("Rin Kaiho", &aliases), Player::Unknown("Rin Kaiho".to_string()));
    assert_eq!(find_player_id(" , ", &aliases), Player::Unknown(String::new()));
    aliases.insert("cho chikun", 18);
    assert_eq!(aliases.find("Cho Chikun"), Some(18));
    assert_eq!(aliases.find("Cho"), None);
}

#[test]
fn names_of_several_players() {
    assert!(has_multiple_players("Cho and Rin"));
    assert!(!has_multiple_players("Alessandro and"));
    assert!(!has_multiple_players("Andersson"));
    assert!(has_multiple_players("a&b"));
    assert!(has_multiple_players("a,b,c"));
    assert!(!has_multiple_players("a,b"));
    assert!(has_multiple_players("day 1"));
    assert!(!has_multiple_players("day 2"));
    assert!(!has_multiple_players(""));
}

#[test]
fn blocked_paths_are_lines() {
    let text = "a/b\r\nc\n\nd\r";
    let blocklist = load_blocklist(Some(text));
    let std_lines: Vec<&str> = text.lines().collect();
    assert_eq!(std_lines, ["a/b", "c", "", "d\r"]);
    for line in std_lines {
        assert!(blocklist.contains(line));
    }
    assert!(!blocklist.contains("d"));
    assert!(!blocklist.contains("a/b\r"));
    assert!(!load_blocklist(Some("a\n")).contains(""));
    assert!(!load_blocklist(None).contains("a/b"));
}

#[test]
fn only_records_are_read() {
    let blocklist = load_blocklist(Some("old/two\n"));
    let file = |is_file: bool, extension: Option<&str>, path: &str| FoundFile {
        is_file,
        extension: extension.map(String::from),
        path: path.to_string(),
    };
    let files = vec![
        file(false, None, "old"),
        file(true, Some("sgf"), "old/one"),
        file(true, Some("sgf"), "old/two"),
        file(true, Some("SGF"), "old/three"),
        file(true, None, "sgf"),
        file(false, Some("sgf"), "folder"),
        file(true, Some("sgf"), "four"),
    ];
    assert_eq!(collect_sgf_files(&files, &blocklist), vec![1, 6]);
    assert_eq!(fate_of(&files[2], &blocklist), FileFate::Blocked);
    assert_eq!(fate_of(&files[3], &blocklist), FileFate::Ignored);
    assert_eq!(fate_of(&files[1], &blocklist), FileFate::Load);
}

#[test]
fn loaded_games_have_known_players() {
    let mut aliases = PlayerAliases::new();
    aliases.insert("Cho Chikun", 17);
    let game = load_game(GAME, &aliases, 19).ok().unwrap();
    assert_eq!(game.player_black, Player::Id(17, "Cho Chikun".to_string()));
    assert_eq!(game.player_white, Player::Unknown("Kobayashi Koichi".to_string()));
    assert_eq!(load_game("(;GM[1])", &aliases, 19).err(), Some(LoadError::NoMoves));
}

#[test]
fn all_records_are_sorted_by_path() {
    let files = vec![
        ("b/2".to_string(), GAME.to_string()),
        ("é".to_string(), record("EV[last]")),
        ("a".to_string(), "(;SZ[9])".to_string()),
        ("b/10".to_string(), GAME.to_string()),
        ("Z".to_string(), GAME.to_string()),
        ("b/2".to_string(), record("EV[again]")),
    ];
    let loaded = load_all_sgfs(&files, &PlayerAliases::new(), 19);
    let paths: Vec<&str> = loaded.games.iter().map(|(path, _)| path.as_str()).collect();
    assert_eq!(paths, ["Z", "b/10", "b/2", "b/2", "é"]);
    assert_eq!(loaded.games[2].1.details.event, "Honinbo");
    assert_eq!(loaded.games[3].1.details.event, "again");
    assert_eq!(loaded.skipped, vec![("a".to_string(), LoadError::BoardSize(9, 9))]);
}

fn game_of(black: Player, white: Player, date_order: Option<u64>) -> Game {
    let mut game = load_game(GAME, &PlayerAliases::new(), 19).ok().unwrap();
    game.player_black = black;
    game.player_white = white;
    game.date_order = date_order;
    game
}

fn known(id: i16, name: &str) -> Player {
    Player::Id(id, name.to_string())
}

fn unknown(name: &str) -> Player {
    Player::Unknown(name.to_string())
}

#[test]
fn names_are_listed_in_order() {
    let games = vec![
        ("a".to_string(), game_of(known(1, "Rin"), unknown("Cho"), None)),
        ("b".to_string(), game_of(unknown(""), unknown("Abe"), None)),
        ("c".to_string(), game_of(unknown("Cho"), known(2, "Otake"), None)),
        ("d".to_string(), game_of(unknown("Cho U"), unknown("\u{e9}"), None)),
    ];
    let all = collect_all_names(&games);
    assert_eq!(all, vec!["Abe", "Cho", "Cho U", "Otake", "Rin", "\u{e9}"]);
    assert_eq!(join_lines(&all), "Abe\nCho\nCho U\nOtake\nRin\n\u{e9}");
    let collection = collect_games(
        games.into_iter().map(|(path, game)| (path, game, Vec::new())).collect(),
    );
    assert_eq!(collect_unknown_names(&collection), vec!["Abe", "Cho", "Cho U", "\u{e9}"]);
    assert_eq!(join_lines(&vec![]), "");
    assert_eq!(join_lines(&vec!["a".to_string()]), "a");
}

#[test]
fn collections_are_sorted_by_date() {
    let games = vec![
        ("none".to_string(), game_of(known(1, "a"), known(2, "b"), None), vec![]),
        ("late".to_string(), game_of(known(1, "a"), unknown("c"), Some(9)), vec![]),
        ("early".to_string(), game_of(unknown("c"), known(1, "a"), Some(2)), vec![]),
        ("also".to_string(), game_of(unknown("c"), unknown("d"), None), vec![]),
        ("same".to_string(), game_of(unknown("c"), unknown("d"), Some(2)), vec![]),
        ("late".to_string(), game_of(known(3, "e"), known(3, "e"), Some(1)), vec![]),
    ];
    let collection = collect_games(games);
    let paths: Vec<&String> = collection.keys().collect();
    assert_eq!(paths, ["late", "early", "same", "none", "also"]);
    let counts = count_player_ids(&collection);
    assert_eq!(counts, HashMap::from([(1, 2), (2, 1), (3, 2)]));
    assert_eq!(date_precedence(Some(3), Some(4)), Ordering::Less);
    assert_eq!(date_precedence(Some(4), Some(4)), Ordering::Equal);
    assert_eq!(date_precedence(Some(5), Some(4)), Ordering::Greater);
    assert_eq!(date_precedence(Some(5), None), Ordering::Less);
    assert_eq!(date_precedence(None, Some(0)), Ordering::Greater);
    assert_eq!(date_precedence(None, None), Ordering::Equal);
}

#[test]
fn captures_are_kept_by_move() {
    let captured = vec![vec![], vec![w(1, 1), w(1, 2)], vec![], vec![b(3, 3)]];
    let table = captures_of(captured.clone());
    assert_eq!(
        table,
        HashMap::from([(1, vec![w(1, 1), w(1, 2)]), (3, vec![b(3, 3)])])
    );
    let collection = collect_games(vec![(
        "a".to_string(),
        game_of(unknown("c"), unknown("d"), None),
        captured,
    )]);
    assert_eq!(collection["a"].captures, table);
    assert_eq!(collection["a"].moves.len(), 5);
}

#[test]
fn aliases_of_players_that_play_are_listed() {
    let counts = HashMap::from([(1, 4), (2, 1), (-3, 2), (10, 1), (9, 0)]);
    let pair = |id1, id2| PossibleAlias { id1, id2 };
    let aliases = vec![pair(10, 1), pair(2, 10), pair(2, 1), pair(1, 9), pair(7, 1), pair(-3, 2)];
    assert_eq!(list_aliases(&aliases, &counts), "-3 2\n2 1\n2 10\n10 1");
    assert_eq!(list_aliases(&vec![pair(5, 6)], &counts), "");
    let widest = HashMap::from([(i16::MIN, 1), (i16::MAX, 1)]);
    assert_eq!(list_aliases(&vec![pair(i16::MIN, i16::MAX)], &widest), "-32768 32767");
}

#[test]
fn ids_are_read_as_numbers() {
    for text in [
        "0", "7", "+7", "-7", "007", "32767", "32768", "-32768", "-32769", "99999999999999999999",
        "", "+", "-", "--1", "+-1", " 1", "1 ", "1_0", "x", "1x", "\u{661}", "-0", "65536", "000000000001",
    ] {
        assert_eq!(parse_id(text), text.parse::<i16>().ok(), "{text:?}");
    }
    for id in i16::MIN..=i16::MAX {
        assert_eq!(parse_id(&id.to_string()), Some(id));
    }
}

#[test]
fn white_space_is_that_of_unicode() {
    for c in '\0'..=char::MAX {
        assert_eq!(is_white_space(c), c.is_whitespace(), "{c:?}");
    }
}

const NAMES: &str = r#"{
    "12": {"name": "Rin", "aliases": [{"name": "Rin Kaiho"}, {"name": 5}, {}, "Rin", {"name": "LIN Haifeng"}]},
    "3": {"aliases": [{"name": "Cho Chikun"}, {"name": "rin kaiho"}]},
    "-4": {"aliases": "none"},
    "5": 6
}"#;

#[test]
fn the_file_of_names_gives_aliases() {
    let aliases = load_player_aliases(NAMES).ok().unwrap();
    assert_eq!(aliases.find("cho chikun"), Some(3));
    assert_eq!(aliases.find("Lin Haifeng"), Some(12));
    // Players come in the order of their keys as texts, and the last one has the name.
    assert_eq!(aliases.find("RIN KAIHO"), Some(3));
    assert_eq!(aliases.find("Rin"), None);
    assert_eq!(load_player_aliases("{").err(), Some(NamesError::Malformed));
    assert_eq!(load_player_aliases("[]").err(), Some(NamesError::NotAnObject));
    assert_eq!(load_player_aliases(r#"{"1": {}, "one": {}}"#).err(), Some(NamesError::BadId));
    assert_eq!(load_player_aliases(r#"{"32768": {}}"#).err(), Some(NamesError::BadId));
    assert!(load_player_aliases("{}").is_ok());
}

#[test]
fn the_file_of_names_gets_numbers_of_games() {
    let text = r#"{"2": {"games_count": 7}, "1": {"name": "A", "zeal": [1, 2.5]}, "x": {"a": null}, "3": 5}"#;
    let counts = HashMap::from([(1, 40), (3, 1)]);
    let updated = update_player_names_with_games_count(text, &counts).ok().unwrap();
    let expected = r#"{
  "1": {
    "games_count": 40,
    "name": "A",
    "zeal": [
      1,
      2.5
    ]
  },
  "2": {
    "games_count": 0
  },
  "3": 5,
  "x": {
    "a": null
  }
}"#;
    assert_eq!(updated, expected);
    assert_eq!(update_player_names_with_games_count("[1]", &counts).ok().unwrap(), "[\n  1\n]");
    assert_eq!(
        update_player_names_with_games_count("{", &counts).err(),
        Some(NamesError::Malformed)
    );
}

#[test]
fn later_numbers_of_games_replace_earlier_ones() {
    let text = r#"{"2": {"games_count": 7}, "1": {"name": "A", "zeal": [1, -2]}, "x": {"a": null}}"#;
    let earlier = HashMap::from([(1, 3), (2, 40)]);
    let later = HashMap::from([(1, 5)]);
    let once = update_player_names_with_games_count(text, &later).ok().unwrap();
    let before = update_player_names_with_games_count(text, &earlier).ok().unwrap();
    assert_ne!(before, once);
    assert_eq!(update_player_names_with_games_count(&before, &later).ok().unwrap(), once);
    assert_eq!(update_player_names_with_games_count(&once, &later).ok().unwrap(), once);
}

#[test]
fn records_read_alike() {
    let text = "(;SZ[19]AB[aa:cc]AW[jj][kk];B[pd])";
    let (first, _, _) = load_sgf(text, 19).ok().unwrap();
    let (second, _, _) = load_sgf(text, 19).ok().unwrap();
    assert_eq!(first.moves.len(), 12);
    let sorted = |game: &Game| {
        let mut codes: Vec<u32> = game.moves.iter().map(|stone| stone.code()).collect();
        codes.sort();
        codes
    };
    assert_eq!(sorted(&first), sorted(&second));
    assert_eq!(first.details, second.details);
}

#[test]
fn players_are_named_with_their_ids() {
    assert_eq!(player_named("Rin".to_string(), Some(12)), known(12, "Rin"));
    assert_eq!(player_named("Rin".to_string(), None), unknown("Rin"));
    assert_eq!(player_named(String::new(), Some(12)), unknown(""));
    let mut aliases = PlayerAliases::new();
    aliases.insert_lowercase("rin".to_string(), 12);
    assert_eq!(aliases.find_lowercase("rin"), Some(12));
    assert_eq!(aliases.find_lowercase("Rin"), None);
    aliases.insert_lowercase("Rin".to_string(), 13);
    assert_eq!(aliases.find("Rin"), Some(12));
}

#[test]
fn the_content_of_the_file_of_names_gives_aliases() {
    let text = |text: &str| Json::Text(text.to_string());
    let object = |key: &str, value: Json| Json::Object(vec![(key.to_string(), value)]);
    let player = object("aliases", Json::List(vec![
        object("name", text("Cho")),
        object("name", Json::Null),
        object("other", text("Rin")),
        Json::Bool(true),
    ]));
    let aliases = read_player_aliases(&object("-7", player)).ok().unwrap();
    assert_eq!(aliases.find("CHO"), Some(-7));
    assert_eq!(aliases.find("Rin"), None);
    let number = Json::Number("1".to_string());
    assert_eq!(read_player_aliases(&number).err(), Some(NamesError::NotAnObject));
    assert_eq!(read_player_aliases(&object("x", number)).err(), Some(NamesError::BadId));
    let counts = HashMap::from([(5, 8)]);
    assert_eq!(games_count_of("5", &counts), Some(8));
    assert_eq!(games_count_of("+05", &counts), Some(8));
    assert_eq!(games_count_of("6", &counts), Some(0));
    assert_eq!(games_count_of("five", &counts), None);
}
