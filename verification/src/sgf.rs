//! Reading game records.

use crate::baduk::{
    captures_view, text_view, Color, Game, GameDetails, GameDetailsView, GameView, Placement,
    Player, PlayerView, Point,
};
use crate::players::{has_multiple_players, multiple_players};
use crate::text::{decimal, is_text, push_decimal};
use sgf_parse::go::Prop::{AB, AW, B, BR, DT, EV, KM, PB, PC, PW, RE, RO, RU, SZ, W, WR};
use sgf_parse::go::{Move, Prop};
use sgf_parse::{parse_with_options, GameTree, ParseOptions, SgfParseError, SgfProp};
use std::collections::HashMap;
use vstd::prelude::*;

verus! {

/// A game of a record, as the parser gives it.
#[verifier::external_type_specification]
#[verifier::external_body]
pub struct ExGameTree(GameTree);

/// What can go wrong with a record, as the parser has it.
#[verifier::external_type_specification]
#[verifier::external_body]
pub struct ExSgfParseError(SgfParseError);

/// A property of a node of a Go game, as the parser gives it.
#[verifier::external_type_specification]
#[verifier::external_body]
pub struct ExProp(Prop);

/// A property of a node, as far as it is of interest.
pub enum Property {
    /// A property with a text, by its identifier.
    Text(String, String),
    /// A move, by its identifier, that is not a pass.
    Move(String, u8, u8),
    /// The size of the board.
    Size(u8, u8),
    /// Stones that are put on the board, by the identifier of the property.
    Stones(String, Vec<(u8, u8)>),
    /// Any other property.
    Other,
}

/// What a [`Property`] stands for.
pub enum PropertyView {
    Text(Seq<char>, Seq<char>),
    Move(Seq<char>, u8, u8),
    Size(u8, u8),
    Stones(Seq<char>, Seq<(u8, u8)>),
    Other,
}

impl View for Property {
    type V = PropertyView;

    open spec fn view(&self) -> PropertyView {
        match self {
            Property::Text(id, text) => PropertyView::Text(id@, text@),
            Property::Move(id, x, y) => PropertyView::Move(id@, *x, *y),
            Property::Size(width, height) => PropertyView::Size(*width, *height),
            Property::Stones(id, points) => PropertyView::Stones(id@, points@),
            Property::Other => PropertyView::Other,
        }
    }
}

/// A property as it stands in a record: stones that are put on the board have no order there.
pub enum SgfProperty {
    Text(Seq<char>, Seq<char>),
    Move(Seq<char>, u8, u8),
    Size(u8, u8),
    Stones(Seq<char>, Set<(u8, u8)>),
    Other,
}

/// Whether a property that was read is the one that stands in a record.
pub open spec fn reads(property: PropertyView, written: SgfProperty) -> bool {
    match property {
        PropertyView::Text(id, text) => written == SgfProperty::Text(id, text),
        PropertyView::Move(id, x, y) => written == SgfProperty::Move(id, x, y),
        PropertyView::Size(width, height) => written == SgfProperty::Size(width, height),
        PropertyView::Stones(id, points) => points.no_duplicates() && written
            == SgfProperty::Stones(id, points.to_set()),
        PropertyView::Other => written == SgfProperty::Other,
    }
}

/// The properties of a property list of the parser.
pub open spec fn node_contents(props: Seq<Prop>) -> Seq<SgfProperty> {
    props.map_values(|prop: Prop| property_content(prop))
}

/// The games of a record: for each Go game its main line, which is the properties of each of its
/// nodes, and nothing for any other game.
pub uninterp spec fn sgf_trees(text: Seq<char>, lenient: bool) -> Option<
    Seq<Option<Seq<Seq<SgfProperty>>>>,
>;

/// What a game holds: the main line of a Go game, and nothing of any other game.
pub uninterp spec fn tree_line(tree: GameTree) -> Option<Seq<Seq<SgfProperty>>>;

/// What a property holds.
pub uninterp spec fn property_content(prop: Prop) -> SgfProperty;

/// Parses with `sgf_parse::parse_with_options`. A lenient parser takes what it can and never fails;
/// it gives at least one game, which is empty if there is nothing to read.
#[verifier::external_body]
fn parse_trees(text: &str, lenient: bool) -> (trees: Result<Vec<GameTree>, SgfParseError>)
    ensures
        match trees {
            Ok(list) => sgf_trees(text@, lenient) == Some(
                list@.map_values(|tree: GameTree| tree_line(tree)),
            ),
            Err(_) => sgf_trees(text@, lenient) is None,
        },
        lenient ==> trees is Ok,
        trees matches Ok(list) ==> list@.len() > 0,
{
    parse_with_options(text, &ParseOptions { lenient, ..ParseOptions::default() })
}

/// The properties of the nodes on the main line of a Go game, from `GameTree::into_go_node`, which
/// fails for any other game, and `SgfNode::main_variation`, which starts with the root and goes on
/// to the first of the nodes that follow, as long as there is one.
#[verifier::external_body]
fn main_line(tree: GameTree) -> (line: Result<Vec<Vec<Prop>>, SgfParseError>)
    ensures
        match line {
            Ok(nodes) => nodes@.len() > 0 && tree_line(tree) == Some(
                nodes@.map_values(|props: Vec<Prop>| node_contents(props@)),
            ),
            Err(_) => tree_line(tree) is None,
        },
{
    let root = tree.into_go_node()?;
    Ok(root.main_variation().map(|node| node.properties.clone()).collect())
}

/// A property with its identifier, from `SgfProp::identifier`, and what is of interest of its
/// value. The order of stones is that of the set in which the parser holds them.
#[verifier::external_body]
fn read_property(prop: Prop) -> (property: Property)
    ensures
        reads(property@, property_content(prop)),
{
    let id = prop.identifier();
    match prop {
        EV(t) | RO(t) | PC(t) | DT(t) | PB(t) | PW(t) | BR(t) | WR(t) | RE(t) | RU(t) => {
            Property::Text(id, t.text)
        },
        KM(k) => Property::Text(id, k.to_string()),
        B(Move::Move(p)) | W(Move::Move(p)) => Property::Move(id, p.x, p.y),
        SZ((width, height)) => Property::Size(width, height),
        AB(s) | AW(s) => Property::Stones(id, s.iter().map(|p| (p.x, p.y)).collect()),
        _ => Property::Other,
    }
}

/// What a node stands for.
pub open spec fn node_view(node: Seq<Property>) -> Seq<PropertyView> {
    node.map_values(|property: Property| property@)
}

/// What a line of nodes stands for.
pub open spec fn line_view(line: Seq<Vec<Property>>) -> Seq<Seq<PropertyView>> {
    line.map_values(|node: Vec<Property>| node_view(node@))
}

/// Whether a line that was read is the one that stands in a record.
pub open spec fn reads_line(
    line: Seq<Seq<PropertyView>>,
    written: Seq<Seq<SgfProperty>>,
) -> bool {
    &&& line.len() == written.len()
    &&& forall|i: int|
        0 <= i < line.len() ==> (#[trigger] line[i]).len() == written[i].len()
    &&& forall|i: int, j: int|
        0 <= i < line.len() && 0 <= j < line[i].len() ==> reads(
            #[trigger] line[i][j],
            written[i][j],
        )
}

/// The text of the last property with this identifier.
pub open spec fn last_text(node: Seq<PropertyView>, id: Seq<char>) -> Option<Seq<char>>
    decreases node.len(),
{
    if node.len() == 0 {
        None
    } else {
        match node.last() {
            PropertyView::Text(own, text) => if own == id {
                Some(text)
            } else {
                last_text(node.drop_last(), id)
            },
            _ => last_text(node.drop_last(), id),
        }
    }
}

/// The text of the last property with this identifier, or no text.
pub open spec fn text_or_empty(node: Seq<PropertyView>, id: Seq<char>) -> Seq<char> {
    match last_text(node, id) {
        Some(text) => text,
        None => Seq::empty(),
    }
}

/// The first size that a node gives.
pub open spec fn first_size(node: Seq<PropertyView>) -> Option<(u8, u8)>
    decreases node.len(),
{
    if node.len() == 0 {
        None
    } else {
        match node[0] {
            PropertyView::Size(width, height) => Some((width, height)),
            _ => first_size(node.drop_first()),
        }
    }
}

/// Whether a point is on the board.
pub open spec fn on_board(x: u8, y: u8, board_size: u8) -> bool {
    x < board_size && y < board_size
}

/// The colour of the moves with this identifier.
pub open spec fn move_color(id: Seq<char>) -> Option<Color> {
    if id == "W"@ {
        Some(Color::White)
    } else if id == "B"@ {
        Some(Color::Black)
    } else {
        None
    }
}

/// The colour of the stones that a property with this identifier puts on the board.
pub open spec fn stones_color(id: Seq<char>) -> Option<Color> {
    if id == "AB"@ {
        Some(Color::Black)
    } else if id == "AW"@ {
        Some(Color::White)
    } else {
        None
    }
}

/// Those of the stones that are on the board.
pub open spec fn stones_on_board(color: Color, points: Seq<(u8, u8)>, board_size: u8) -> Seq<
    Placement,
>
    decreases points.len(),
{
    if points.len() == 0 {
        Seq::empty()
    } else {
        let rest = stones_on_board(color, points.drop_last(), board_size);
        let (x, y) = points.last();
        if on_board(x, y, board_size) {
            rest.push(Placement { color, point: Point { x, y } })
        } else {
            rest
        }
    }
}

/// The stones that a node adds to a game, up to its first move and with it. Stones and moves that
/// are not on the board are left out.
pub open spec fn node_moves(node: Seq<PropertyView>, board_size: u8) -> Seq<Placement>
    decreases node.len(),
{
    if node.len() == 0 {
        Seq::empty()
    } else {
        let rest = node_moves(node.drop_first(), board_size);
        match node[0] {
            PropertyView::Move(id, x, y) => match move_color(id) {
                Some(color) => if on_board(x, y, board_size) {
                    seq![Placement { color, point: Point { x, y } }]
                } else {
                    Seq::empty()
                },
                None => rest,
            },
            PropertyView::Stones(id, points) => match stones_color(id) {
                Some(color) => stones_on_board(color, points, board_size) + rest,
                None => rest,
            },
            _ => rest,
        }
    }
}

/// The stones of all nodes of a line.
pub open spec fn line_moves(line: Seq<Seq<PropertyView>>, board_size: u8) -> Seq<Placement>
    decreases line.len(),
{
    if line.len() == 0 {
        Seq::empty()
    } else {
        line_moves(line.drop_last(), board_size) + node_moves(line.last(), board_size)
    }
}

/// How many moves a game has at least.
pub const MIN_MOVES: usize = 5;

/// Why a record is not taken as a game.
#[derive(Clone, Copy, PartialEq, Eq, Structural, Debug)]
pub enum LoadError {
    /// One of the games is not a Go game.
    NotGo,
    /// One of the names stands for several players.
    MultiplePlayers,
    /// The board has this size.
    BoardSize(u8, u8),
    NoMoves,
    TooFewMoves,
}

impl LoadError {
    /// The error in words, for the size of board that is asked for.
    pub open spec fn words(self, board_size: u8) -> Seq<char> {
        match self {
            LoadError::NotGo => "Unexpected game type"@,
            LoadError::MultiplePlayers => "Player name indicates multiple players"@,
            LoadError::BoardSize(width, height) => "Got non-"@ + decimal(board_size as int) + "x"@
                + decimal(board_size as int) + " board size: ("@ + decimal(width as int) + ", "@
                + decimal(height as int) + ")"@,
            LoadError::NoMoves => "Game has no moves"@,
            LoadError::TooFewMoves => "Game has less than 5 moves"@,
        }
    }

    /// The error in words, for the size of board that is asked for.
    pub fn message(self, board_size: u8) -> (text: String)
        ensures
            text@ == self.words(board_size),
    {
        match self {
            LoadError::NotGo => String::from_str("Unexpected game type"),
            LoadError::MultiplePlayers => String::from_str(
                "Player name indicates multiple players",
            ),
            LoadError::BoardSize(width, height) => {
                let mut text = String::from_str("Got non-");
                push_decimal(&mut text, board_size as i32);
                text.append("x");
                push_decimal(&mut text, board_size as i32);
                text.append(" board size: (");
                push_decimal(&mut text, width as i32);
                text.append(", ");
                push_decimal(&mut text, height as i32);
                text.append(")");
                text
            },
            LoadError::NoMoves => String::from_str("Game has no moves"),
            LoadError::TooFewMoves => String::from_str("Game has less than 5 moves"),
        }
    }
}

/// What the root of a game says of it beside its moves and players.
pub open spec fn root_details(root: Seq<PropertyView>) -> GameDetailsView {
    GameDetailsView {
        event: text_or_empty(root, "EV"@),
        round: text_or_empty(root, "RO"@),
        location: text_or_empty(root, "PC"@),
        date: last_text(root, "DT"@),
        rank_black: last_text(root, "BR"@),
        rank_white: last_text(root, "WR"@),
        komi: last_text(root, "KM"@),
        rules: last_text(root, "RU"@),
        result: last_text(root, "RE"@),
    }
}

/// The game that the main line of a record stands for, or why it is not taken as a game. The names
/// of the players are as in the record.
pub open spec fn game_of_line(line: Seq<Seq<PropertyView>>, board_size: u8) -> Result<
    GameView,
    LoadError,
> {
    let root = line[0];
    let black = text_or_empty(root, "PB"@);
    let white = text_or_empty(root, "PW"@);
    let size = first_size(root);
    let moves = line_moves(line, board_size);
    if multiple_players(black) || multiple_players(white) {
        Err(LoadError::MultiplePlayers)
    } else if size is Some && size != Some((board_size, board_size)) {
        Err(LoadError::BoardSize(size.unwrap().0, size.unwrap().1))
    } else if moves.len() == 0 {
        Err(LoadError::NoMoves)
    } else if moves.len() < MIN_MOVES {
        Err(LoadError::TooFewMoves)
    } else {
        Ok(
            GameView {
                details: root_details(root),
                player_black: PlayerView::Unknown(black),
                player_white: PlayerView::Unknown(white),
                date_order: None,
                moves,
                captures: Map::empty(),
            },
        )
    }
}

/// The text of the last property with this identifier.
fn find_text(node: &Vec<Property>, id: &str) -> (found: Option<String>)
    ensures
        text_view(found) == last_text(node_view(node@), id@),
{
    let n: usize = node.len();
    let mut found: Option<String> = None;
    let ghost all = node_view(node@);
    for i in 0..n
        invariant
            n == node@.len(),
            all == node_view(node@),
            text_view(found) == last_text(all.take(i as int), id@),
    {
        assert(all.take(i + 1).drop_last() =~= all.take(i as int));
        assert(all.take(i + 1).last() == node@[i as int]@);
        if let Property::Text(own, text) = &node[i] {
            if is_text(own, id) {
                found = Some(text.clone());
            }
        }
    }
    assert(all.take(n as int) =~= all);
    found
}

/// The text of the last property with this identifier, or no text.
fn find_text_or_empty(node: &Vec<Property>, id: &str) -> (text: String)
    ensures
        text@ == text_or_empty(node_view(node@), id@),
{
    match find_text(node, id) {
        Some(text) => text,
        None => String::new(),
    }
}

/// The first size that a node gives.
fn find_size(node: &Vec<Property>) -> (size: Option<(u8, u8)>)
    ensures
        size == first_size(node_view(node@)),
{
    let n: usize = node.len();
    let ghost all = node_view(node@);
    assert(all.skip(0) =~= all);
    for i in 0..n
        invariant
            n == node@.len(),
            all == node_view(node@),
            first_size(all.skip(i as int)) == first_size(all),
    {
        assert(all.skip(i as int)[0] == node@[i as int]@);
        assert(all.skip(i as int).drop_first() =~= all.skip(i + 1));
        if let Property::Size(width, height) = &node[i] {
            return Some((*width, *height));
        }
    }
    None
}

/// Adds those of the stones that are on the board.
fn add_stones(moves: &mut Vec<Placement>, color: Color, points: &Vec<(u8, u8)>, board_size: u8)
    ensures
        final(moves)@ == old(moves)@ + stones_on_board(color, points@, board_size),
{
    let n: usize = points.len();
    let ghost before = moves@;
    assert(moves@ =~= before + stones_on_board(color, points@.take(0), board_size));
    for i in 0..n
        invariant
            n == points@.len(),
            moves@ == before + stones_on_board(color, points@.take(i as int), board_size),
    {
        let (x, y) = points[i];
        assert(points@.take(i + 1).drop_last() =~= points@.take(i as int));
        assert(points@.take(i + 1).last() == points@[i as int]);
        if x < board_size && y < board_size {
            moves.push(Placement { color, point: Point { x, y } });
        }
        assert(moves@ =~= before + stones_on_board(color, points@.take(i + 1), board_size));
    }
    assert(points@.take(n as int) =~= points@);
}

/// Adds the stones that a node adds to a game.
fn add_node(moves: &mut Vec<Placement>, node: &Vec<Property>, board_size: u8)
    ensures
        final(moves)@ == old(moves)@ + node_moves(node_view(node@), board_size),
{
    let n: usize = node.len();
    let ghost start = moves@;
    let ghost all = node_view(node@);
    assert(all.skip(0) =~= all);
    for i in 0..n
        invariant
            n == node@.len(),
            all == node_view(node@),
            start == old(moves)@,
            moves@ + node_moves(all.skip(i as int), board_size) == start + node_moves(
                all,
                board_size,
            ),
    {
        let ghost before = moves@;
        let ghost rest = all.skip(i + 1);
        assert(all.skip(i as int)[0] == node@[i as int]@);
        assert(all.skip(i as int).drop_first() =~= rest);
        match &node[i] {
            Property::Move(id, x, y) => {
                let color = if is_text(id, "W") {
                    Some(Color::White)
                } else if is_text(id, "B") {
                    Some(Color::Black)
                } else {
                    None
                };
                if let Some(color) = color {
                    if *x < board_size && *y < board_size {
                        moves.push(Placement { color, point: Point { x: *x, y: *y } });
                        assert(moves@ =~= before + node_moves(all.skip(i as int), board_size));
                    } else {
                        assert(moves@ =~= before + node_moves(all.skip(i as int), board_size));
                    }
                    return;
                }
            },
            Property::Stones(id, points) => {
                let color = if is_text(id, "AB") {
                    Some(Color::Black)
                } else if is_text(id, "AW") {
                    Some(Color::White)
                } else {
                    None
                };
                if let Some(color) = color {
                    add_stones(moves, color, points, board_size);
                    assert(moves@ + node_moves(rest, board_size) =~= before + node_moves(
                        all.skip(i as int),
                        board_size,
                    ));
                }
            },
            _ => {},
        }
    }
    assert(all.skip(n as int) =~= Seq::empty());
    assert(moves@ + Seq::<Placement>::empty() =~= moves@);
}

/// The stones of all nodes of a line.
fn collect_moves(line: &Vec<Vec<Property>>, board_size: u8) -> (moves: Vec<Placement>)
    ensures
        moves@ == line_moves(line_view(line@), board_size),
{
    let n: usize = line.len();
    let mut moves: Vec<Placement> = Vec::new();
    let ghost all = line_view(line@);
    for i in 0..n
        invariant
            n == line@.len(),
            all == line_view(line@),
            moves@ == line_moves(all.take(i as int), board_size),
    {
        assert(all.take(i + 1).drop_last() =~= all.take(i as int));
        assert(all.take(i + 1).last() == node_view(line@[i as int]@));
        add_node(&mut moves, &line[i], board_size);
    }
    assert(all.take(n as int) =~= all);
    moves
}

/// The game that the main line of a record stands for, with the names of its players.
pub fn read_game(
    line: &Vec<Vec<Property>>,
    board_size: u8,
) -> (read: Result<(Game, String, String), LoadError>)
    requires
        line@.len() > 0,
    ensures
        match read {
            Ok((game, player_black, player_white)) => {
                &&& game_of_line(line_view(line@), board_size) == Ok::<GameView, LoadError>(game@)
                &&& game@.player_black == PlayerView::Unknown(player_black@)
                &&& game@.player_white == PlayerView::Unknown(player_white@)
            },
            Err(error) => game_of_line(line_view(line@), board_size) == Err::<GameView, LoadError>(
                error,
            ),
        },
{
    broadcast use vstd::std_specs::hash::group_hash_axioms;

    let root = &line[0];
    assert(line_view(line@)[0] == node_view(root@));
    let player_black = find_text_or_empty(root, "PB");
    let player_white = find_text_or_empty(root, "PW");
    if has_multiple_players(player_black.as_str()) || has_multiple_players(player_white.as_str()) {
        return Err(LoadError::MultiplePlayers);
    }
    if let Some((width, height)) = find_size(root) {
        if width != board_size || height != board_size {
            return Err(LoadError::BoardSize(width, height));
        }
    }
    let moves = collect_moves(line, board_size);
    if moves.len() == 0 {
        return Err(LoadError::NoMoves);
    }
    if moves.len() < MIN_MOVES {
        return Err(LoadError::TooFewMoves);
    }
    let details = GameDetails {
        event: find_text_or_empty(root, "EV"),
        round: find_text_or_empty(root, "RO"),
        location: find_text_or_empty(root, "PC"),
        date: find_text(root, "DT"),
        rank_black: find_text(root, "BR"),
        rank_white: find_text(root, "WR"),
        komi: find_text(root, "KM"),
        rules: find_text(root, "RU"),
        result: find_text(root, "RE"),
    };
    let captures: HashMap<usize, Vec<Placement>> = HashMap::new();
    assert(captures_view(captures@) =~= Map::empty());
    let game = Game {
        details,
        player_black: Player::Unknown(player_black.clone()),
        player_white: Player::Unknown(player_white.clone()),
        date_order: None,
        moves,
        captures,
    };
    Ok((game, player_black, player_white))
}

/// Whether one of the games is not a Go game.
pub open spec fn has_other_game(trees: Seq<Option<Seq<Seq<SgfProperty>>>>) -> bool {
    exists|i: int| 0 <= i < trees.len() && #[trigger] trees[i] is None
}

/// Whether a record gives a game, or an error. The first of its games counts, if all of them are
/// Go games.
pub open spec fn loads(
    text: Seq<char>,
    board_size: u8,
    outcome: Result<GameView, LoadError>,
) -> bool {
    match sgf_trees(text, true) {
        Some(trees) => trees.len() > 0 && if has_other_game(trees) {
            outcome == Err::<GameView, LoadError>(LoadError::NotGo)
        } else {
            exists|line: Seq<Seq<PropertyView>>| #[trigger]
                reads_line(line, trees[0].unwrap()) && line.len() > 0 && outcome == game_of_line(
                    line,
                    board_size,
                )
        },
        None => false,
    }
}

/// The main line of a game, read.
fn read_line(nodes: Vec<Vec<Prop>>) -> (line: Vec<Vec<Property>>)
    ensures
        reads_line(
            line_view(line@),
            nodes@.map_values(|props: Vec<Prop>| node_contents(props@)),
        ),
{
    let mut line: Vec<Vec<Property>> = Vec::new();
    let ghost written = nodes@.map_values(|props: Vec<Prop>| node_contents(props@));
    for props in it: nodes
        invariant
            it.seq() == nodes@,
            written == nodes@.map_values(|props: Vec<Prop>| node_contents(props@)),
            reads_line(line_view(line@), written.take(it.index() as int)),
    {
        let mut node: Vec<Property> = Vec::new();
        let ghost contents = node_contents(props@);
        for prop in own: props
            invariant
                own.seq() == props@,
                contents == node_contents(props@),
                node@.len() == own.index(),
                forall|j: int|
                    0 <= j < node@.len() ==> reads((#[trigger] node@[j])@, contents[j]),
        {
            node.push(read_property(prop));
        }
        let ghost before = line@;
        assert(written[it.index() as int] == contents);
        line.push(node);
        proof {
            let view = line_view(line@);
            let upto = written.take(it.index() + 1);
            assert forall|i: int, j: int|
                0 <= i < view.len() && 0 <= j < view[i].len() implies reads(
                #[trigger] view[i][j],
                upto[i][j],
            ) by {
                if i < before.len() {
                    assert(view[i] == line_view(before)[i]);
                    assert(reads(line_view(before)[i][j], written.take(it.index() as int)[i][j]));
                } else {
                    assert(view[i][j] == node@[j]@);
                }
            }
            assert forall|i: int| 0 <= i < view.len() implies (#[trigger] view[i]).len()
                == upto[i].len() by {
                if i < before.len() {
                    assert(view[i] == line_view(before)[i]);
                }
            }
        }
    }
    assert(written.take(nodes@.len() as int) =~= written);
    line
}

/// Reads a record for a board of the given size: gives its game and the names of its players.
///
/// The order in which stones are put on the board by one property is not fixed by the record, nor
/// is it the same each time the record is read.
pub fn load_sgf(
    file_data: &str,
    board_size: u8,
) -> (loaded: Result<(Game, String, String), LoadError>)
    ensures
        match loaded {
            Ok((game, player_black, player_white)) => {
                &&& loads(file_data@, board_size, Ok(game@))
                &&& game@.player_black == PlayerView::Unknown(player_black@)
                &&& game@.player_white == PlayerView::Unknown(player_white@)
            },
            Err(error) => loads(file_data@, board_size, Err(error)),
        },
{
    let trees = parse_trees(file_data, true).unwrap();
    let ghost written = trees@.map_values(|tree: GameTree| tree_line(tree));
    let mut first: Option<Vec<Vec<Prop>>> = None;
    for tree in it: trees
        invariant
            it.seq() == trees@,
            written == trees@.map_values(|tree: GameTree| tree_line(tree)),
            sgf_trees(file_data@, true) == Some(written),
            forall|i: int| 0 <= i < it.index() ==> #[trigger] written[i] is Some,
            first is Some <==> it.index() > 0,
            first matches Some(nodes) ==> nodes@.len() > 0 && written[0] == Some(
                nodes@.map_values(|props: Vec<Prop>| node_contents(props@)),
            ),
    {
        assert(written[it.index() as int] == tree_line(tree));
        match main_line(tree) {
            Ok(nodes) => {
                if first.is_none() {
                    first = Some(nodes);
                }
            },
            Err(_) => {
                return Err(LoadError::NotGo);
            },
        }
    }
    let line = read_line(first.unwrap());
    assert(reads_line(line_view(line@), written[0].unwrap()));
    read_game(&line, board_size)
}

} // verus!
