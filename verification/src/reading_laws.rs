//! What a game record tells: its stones, its details, and why it may be refused.

use crate::baduk::{Color, GameView, Placement, PlayerView, Point};
use crate::packing::loads_with_players;
use crate::players::{multiple_players, resolved};
use crate::sgf::{
    first_size, game_of_line, last_text, line_moves, loads, node_moves, reads_line, sgf_trees,
    stones_on_board, text_or_empty, LoadError, PropertyView,
};
use vstd::prelude::*;

verus! {

/// Whether a property is a move of black or white.
pub open spec fn is_move(property: PropertyView) -> bool {
    property matches PropertyView::Move(id, _, _) && (id == "B"@ || id == "W"@)
}

/// A stone at the point with these coordinates, if there is such a point on the board: coordinates
/// go from zero to one less than the size of the board.
pub open spec fn stone_at(color: Color, x: u8, y: u8, board_size: u8) -> Seq<Placement> {
    if x <= board_size - 1 && y <= board_size - 1 {
        seq![Placement { color, point: Point { x, y } }]
    } else {
        Seq::empty()
    }
}

proof fn lemma_ids()
    ensures
        "B"@ != "W"@,
        "AB"@ != "AW"@,
{
    reveal_strlit("B");
    reveal_strlit("W");
    reveal_strlit("AB");
    reveal_strlit("AW");
    assert("B"@[0] == 'B' && "W"@[0] == 'W');
    assert("AB"@[1] == 'B' && "AW"@[1] == 'W');
}

/// A node adds the stone of its first move, if it is on the board, and nothing after that move.
pub proof fn moves_add_their_stone(rest: Seq<PropertyView>, x: u8, y: u8, board_size: u8)
    ensures
        node_moves(seq![PropertyView::Move("B"@, x, y)] + rest, board_size) == stone_at(
            Color::Black,
            x,
            y,
            board_size,
        ),
        node_moves(seq![PropertyView::Move("W"@, x, y)] + rest, board_size) == stone_at(
            Color::White,
            x,
            y,
            board_size,
        ),
{
    lemma_ids();
    let black = seq![PropertyView::Move("B"@, x, y)] + rest;
    let white = seq![PropertyView::Move("W"@, x, y)] + rest;
    assert(black[0] == PropertyView::Move("B"@, x, y));
    assert(white[0] == PropertyView::Move("W"@, x, y));
}

/// What stands in a node before its first move adds its stones, and then comes what stands after
/// it.
pub proof fn properties_add_their_stones_in_order(
    before: Seq<PropertyView>,
    after: Seq<PropertyView>,
    board_size: u8,
)
    requires
        forall|i: int| 0 <= i < before.len() ==> !is_move(#[trigger] before[i]),
    ensures
        node_moves(Seq::empty(), board_size) == Seq::<Placement>::empty(),
        node_moves(before + after, board_size) == node_moves(before, board_size) + node_moves(
            after,
            board_size,
        ),
    decreases before.len(),
{
    lemma_ids();
    if before.len() == 0 {
        assert(before + after =~= after);
        assert(node_moves(before, board_size) + node_moves(after, board_size) =~= node_moves(
            after,
            board_size,
        ));
    } else {
        let rest = before.drop_first();
        assert forall|i: int| 0 <= i < rest.len() implies !is_move(#[trigger] rest[i]) by {
            assert(rest[i] == before[i + 1]);
        }
        properties_add_their_stones_in_order(rest, after, board_size);
        assert((before + after)[0] == before[0]);
        assert((before + after).drop_first() =~= rest + after);
        assert(!is_move(before[0]));
        assert(node_moves(before + after, board_size) =~= node_moves(before, board_size)
            + node_moves(after, board_size));
    }
}

/// A property with stones adds those that are on the board, in their order: black ones and white
/// ones, by the identifier of the property.
pub proof fn stones_are_put_on_the_board(points: Seq<(u8, u8)>, x: u8, y: u8, board_size: u8)
    ensures
        node_moves(seq![PropertyView::Stones("AB"@, Seq::empty())], board_size) == Seq::<
            Placement,
        >::empty(),
        node_moves(seq![PropertyView::Stones("AW"@, Seq::empty())], board_size) == Seq::<
            Placement,
        >::empty(),
        node_moves(seq![PropertyView::Stones("AB"@, points.push((x, y)))], board_size)
            == node_moves(seq![PropertyView::Stones("AB"@, points)], board_size) + stone_at(
            Color::Black,
            x,
            y,
            board_size,
        ),
        node_moves(seq![PropertyView::Stones("AW"@, points.push((x, y)))], board_size)
            == node_moves(seq![PropertyView::Stones("AW"@, points)], board_size) + stone_at(
            Color::White,
            x,
            y,
            board_size,
        ),
{
    lemma_ids();
    let more = points.push((x, y));
    assert(more.drop_last() =~= points);
    assert(more.last() == (x, y));
    lemma_one_property("AB"@, Color::Black, points, board_size);
    lemma_one_property("AW"@, Color::White, points, board_size);
    lemma_one_property("AB"@, Color::Black, more, board_size);
    lemma_one_property("AW"@, Color::White, more, board_size);
    lemma_one_property("AB"@, Color::Black, Seq::empty(), board_size);
    lemma_one_property("AW"@, Color::White, Seq::empty(), board_size);
    let black = stones_on_board(Color::Black, points, board_size);
    let white = stones_on_board(Color::White, points, board_size);
    assert(stones_on_board(Color::Black, more, board_size) =~= black + stone_at(
        Color::Black,
        x,
        y,
        board_size,
    ));
    assert(stones_on_board(Color::White, more, board_size) =~= white + stone_at(
        Color::White,
        x,
        y,
        board_size,
    ));
}

proof fn lemma_one_property(
    id: Seq<char>,
    color: Color,
    points: Seq<(u8, u8)>,
    board_size: u8,
)
    requires
        (id == "AB"@ && color is Black) || (id == "AW"@ && color is White),
    ensures
        node_moves(seq![PropertyView::Stones(id, points)], board_size) == stones_on_board(
            color,
            points,
            board_size,
        ),
{
    lemma_ids();
    let node = seq![PropertyView::Stones(id, points)];
    assert(node[0] == PropertyView::Stones(id, points));
    assert(node.drop_first() =~= Seq::empty());
    assert(node_moves(Seq::empty(), board_size) =~= Seq::empty());
    assert(node_moves(node, board_size) =~= stones_on_board(color, points, board_size));
}

/// Whether a property has nothing to do with stones on the board.
pub open spec fn adds_nothing(property: PropertyView) -> bool {
    match property {
        PropertyView::Move(id, _, _) => id != "B"@ && id != "W"@,
        PropertyView::Stones(id, _) => id != "AB"@ && id != "AW"@,
        _ => true,
    }
}

/// A node without moves and stones adds nothing.
pub proof fn other_properties_add_no_stones(node: Seq<PropertyView>, board_size: u8)
    requires
        forall|i: int| 0 <= i < node.len() ==> adds_nothing(#[trigger] node[i]),
    ensures
        node_moves(node, board_size) == Seq::<Placement>::empty(),
    decreases node.len(),
{
    if node.len() > 0 {
        let rest = node.drop_first();
        assert forall|i: int| 0 <= i < rest.len() implies adds_nothing(#[trigger] rest[i]) by {
            assert(rest[i] == node[i + 1]);
        }
        other_properties_add_no_stones(rest, board_size);
        assert(adds_nothing(node[0]));
    }
}

/// The stones of a line are those of its nodes, one node after the other.
pub proof fn lines_add_the_stones_of_their_nodes(
    line: Seq<Seq<PropertyView>>,
    node: Seq<PropertyView>,
    board_size: u8,
)
    ensures
        line_moves(Seq::empty(), board_size) == Seq::<Placement>::empty(),
        line_moves(line.push(node), board_size) == line_moves(line, board_size) + node_moves(
            node,
            board_size,
        ),
{
    assert(line.push(node).drop_last() =~= line);
    assert(line.push(node).last() == node);
}

/// Whether a node is one move on the board: of black or white, with coordinates below the size of
/// the board.
pub open spec fn is_plain_move(node: Seq<PropertyView>, board_size: u8) -> bool {
    node.len() == 1 && is_move(node[0]) && (node[0] matches PropertyView::Move(_, x, y) && x
        < board_size && y < board_size)
}

/// Whether a stone is the one that a node plays.
pub open spec fn is_played_by(stone: Placement, node: Seq<PropertyView>) -> bool {
    node[0] matches PropertyView::Move(id, x, y) && stone.point.x == x && stone.point.y == y && (
    stone.color is Black <==> id == "B"@)
}

/// Nodes that are one move on the board each give as many moves as there are nodes, in their order,
/// with their coordinates and colours.
pub proof fn every_move_on_the_board_is_read(line: Seq<Seq<PropertyView>>, board_size: u8)
    requires
        line.len() > 0,
        forall|k: int| 0 <= k < line[0].len() ==> adds_nothing(#[trigger] line[0][k]),
        forall|i: int| 1 <= i < line.len() ==> is_plain_move(#[trigger] line[i], board_size),
    ensures
        line_moves(line, board_size).len() == line.len() - 1,
        forall|i: int|
            0 <= i < line.len() - 1 ==> is_played_by(
                #[trigger] line_moves(line, board_size)[i],
                line[i + 1],
            ),
    decreases line.len(),
{
    let less = line.drop_last();
    let node = line.last();
    assert(line =~= less.push(node));
    lines_add_the_stones_of_their_nodes(less, node, board_size);
    if line.len() == 1 {
        assert(node == line[0]);
        assert(less =~= Seq::empty());
        other_properties_add_no_stones(node, board_size);
        assert(line_moves(line, board_size) =~= Seq::empty());
    } else {
        assert forall|i: int| 1 <= i < less.len() implies is_plain_move(
            #[trigger] less[i],
            board_size,
        ) by {
            assert(less[i] == line[i]);
        }
        assert(less[0] == line[0]);
        every_move_on_the_board_is_read(less, board_size);
        assert(is_plain_move(line[line.len() - 1], board_size));
        let id = node[0]->Move_0;
        let x = node[0]->Move_1;
        let y = node[0]->Move_2;
        assert(node =~= seq![PropertyView::Move(id, x, y)] + Seq::empty());
        moves_add_their_stone(Seq::empty(), x, y, board_size);
        lemma_ids();
        let before = line_moves(less, board_size);
        let all = line_moves(line, board_size);
        assert(all =~= before + node_moves(node, board_size));
        assert forall|i: int| 0 <= i < line.len() - 1 implies is_played_by(
            #[trigger] all[i],
            line[i + 1],
        ) by {
            if i < before.len() {
                assert(all[i] == before[i]);
                assert(is_played_by(before[i], less[i + 1]));
            }
        }
    }
}

/// Whether a node has a text under an identifier: it is the text of the last such property.
pub open spec fn says(node: Seq<PropertyView>, id: Seq<char>, text: Seq<char>) -> bool {
    exists|i: int|
        0 <= i < node.len() && #[trigger] node[i] == PropertyView::Text(id, text) && forall|j: int|
            i < j < node.len() ==> !(#[trigger] node[j] matches PropertyView::Text(own, _) && own
                == id)
}

/// Whether a node has no text under an identifier.
pub open spec fn is_silent(node: Seq<PropertyView>, id: Seq<char>) -> bool {
    forall|j: int|
        0 <= j < node.len() ==> !(#[trigger] node[j] matches PropertyView::Text(own, _) && own
            == id)
}

/// Whether a text is what a node has under an identifier, and nothing if it has none.
pub open spec fn is_told(node: Seq<PropertyView>, id: Seq<char>, text: Option<Seq<char>>) -> bool {
    match text {
        Some(text) => says(node, id, text),
        None => is_silent(node, id),
    }
}

/// Whether a text is what a node has under an identifier, and empty if it has none.
pub open spec fn is_told_or_empty(
    node: Seq<PropertyView>,
    id: Seq<char>,
    text: Seq<char>,
) -> bool {
    says(node, id, text) || (is_silent(node, id) && text.len() == 0)
}

/// Whether the first size that a node gives is this one.
pub open spec fn gives_size(node: Seq<PropertyView>, size: Option<(u8, u8)>) -> bool {
    match size {
        Some((width, height)) => exists|i: int|
            0 <= i < node.len() && #[trigger] node[i] == PropertyView::Size(width, height)
                && forall|j: int| 0 <= j < i ==> !(#[trigger] node[j] is Size),
        None => forall|j: int| 0 <= j < node.len() ==> !(#[trigger] node[j] is Size),
    }
}

proof fn lemma_told(node: Seq<PropertyView>, id: Seq<char>)
    ensures
        is_told(node, id, last_text(node, id)),
        is_told_or_empty(node, id, text_or_empty(node, id)),
    decreases node.len(),
{
    if node.len() > 0 {
        let rest = node.drop_last();
        let n = node.len() as int;
        lemma_told(rest, id);
        if node.last() matches PropertyView::Text(own, text) && own == id {
            assert(node[n - 1] == PropertyView::Text(id, node.last()->Text_1));
        } else {
            match last_text(rest, id) {
                Some(text) => {
                    let i = choose|i: int|
                        0 <= i < rest.len() && #[trigger] rest[i] == PropertyView::Text(id, text)
                            && forall|j: int|
                            i < j < rest.len() ==> !(
                            #[trigger] rest[j] matches PropertyView::Text(own, _) && own == id);
                    assert(node[i] == PropertyView::Text(id, text));
                    assert forall|j: int| i < j < node.len() implies !(
                    #[trigger] node[j] matches PropertyView::Text(own, _) && own == id) by {
                        if j < n - 1 {
                            assert(rest[j] == node[j]);
                        }
                    }
                },
                None => {
                    assert forall|j: int| 0 <= j < node.len() implies !(
                    #[trigger] node[j] matches PropertyView::Text(own, _) && own == id) by {
                        if j < n - 1 {
                            assert(rest[j] == node[j]);
                        }
                    }
                },
            }
        }
    }
}

proof fn lemma_size(node: Seq<PropertyView>)
    ensures
        gives_size(node, first_size(node)),
    decreases node.len(),
{
    if node.len() > 0 {
        if let PropertyView::Size(width, height) = node[0] {
            assert(node[0] == PropertyView::Size(width, height));
        } else {
            let rest = node.drop_first();
            lemma_size(rest);
            match first_size(rest) {
                Some((width, height)) => {
                    let i = choose|i: int|
                        0 <= i < rest.len() && #[trigger] rest[i] == PropertyView::Size(
                            width,
                            height,
                        ) && forall|j: int| 0 <= j < i ==> !(#[trigger] rest[j] is Size);
                    assert(node[i + 1] == PropertyView::Size(width, height));
                    assert forall|j: int| 0 <= j < i + 1 implies !(#[trigger] node[j] is Size) by {
                        if j > 0 {
                            assert(rest[j - 1] == node[j]);
                        }
                    }
                },
                None => {
                    assert forall|j: int| 0 <= j < node.len() implies !(
                    #[trigger] node[j] is Size) by {
                        if j > 0 {
                            assert(rest[j - 1] == node[j]);
                        }
                    }
                },
            }
        }
    }
}

/// A record is refused if one of the names in its root stands for several players; if not, then if
/// the root gives another size than the one that is asked for, in either direction; if not, then if
/// it has fewer than five moves, or none at all. Any other record is taken as a game with all the
/// stones of its nodes, and with the names and details that its root has under the identifiers of
/// the format.
pub proof fn records_are_taken_or_refused(
    line: Seq<Seq<PropertyView>>,
    board_size: u8,
) -> (told: (Seq<char>, Seq<char>, Option<(u8, u8)>))
    requires
        line.len() > 0,
    ensures
        ({
            let root = line[0];
            let moves = line_moves(line, board_size);
            let (black, white, size) = told;
            let several = multiple_players(black) || multiple_players(white);
            let other_size = size matches Some((width, height)) && (width != board_size || height
                != board_size);
            &&& is_told_or_empty(root, "PB"@, black)
            &&& is_told_or_empty(root, "PW"@, white)
            &&& gives_size(root, size)
            &&& match game_of_line(line, board_size) {
                Err(LoadError::MultiplePlayers) => several,
                Err(LoadError::BoardSize(width, height)) => !several && other_size && size == Some(
                    (width, height),
                ),
                Err(LoadError::NoMoves) => !several && !other_size && moves.len() == 0,
                Err(LoadError::TooFewMoves) => !several && !other_size && 1 <= moves.len() <= 4,
                Err(LoadError::NotGo) => false,
                Ok(game) => {
                    &&& !several && !other_size && moves.len() >= 5
                    &&& game.moves == moves
                    &&& game.player_black == PlayerView::Unknown(black)
                    &&& game.player_white == PlayerView::Unknown(white)
                    &&& game.date_order is None
                    &&& game.captures.dom() == Set::<usize>::empty()
                    &&& is_told_or_empty(root, "EV"@, game.details.event)
                    &&& is_told_or_empty(root, "RO"@, game.details.round)
                    &&& is_told_or_empty(root, "PC"@, game.details.location)
                    &&& is_told(root, "DT"@, game.details.date)
                    &&& is_told(root, "BR"@, game.details.rank_black)
                    &&& is_told(root, "WR"@, game.details.rank_white)
                    &&& is_told(root, "KM"@, game.details.komi)
                    &&& is_told(root, "RU"@, game.details.rules)
                    &&& is_told(root, "RE"@, game.details.result)
                },
            }
        }),
{
    let root = line[0];
    lemma_told(root, "PB"@);
    lemma_told(root, "PW"@);
    lemma_told(root, "EV"@);
    lemma_told(root, "RO"@);
    lemma_told(root, "PC"@);
    lemma_told(root, "DT"@);
    lemma_told(root, "BR"@);
    lemma_told(root, "WR"@);
    lemma_told(root, "KM"@);
    lemma_told(root, "RU"@);
    lemma_told(root, "RE"@);
    lemma_size(root);
    (text_or_empty(root, "PB"@), text_or_empty(root, "PW"@), first_size(root))
}

/// A record with a game that is not a Go game is refused for that, wherever the game stands. Of any
/// other record only the first game counts: records that begin with the same game give the same.
pub proof fn first_games_count(
    text: Seq<char>,
    other: Seq<char>,
    board_size: u8,
    outcome: Result<GameView, LoadError>,
)
    ensures
        sgf_trees(text, true) matches Some(trees) ==> {
            let has_other = exists|i: int| 0 <= i < trees.len() && #[trigger] trees[i] is None;
            &&& has_other && loads(text, board_size, outcome) ==> outcome == Err::<
                GameView,
                LoadError,
            >(LoadError::NotGo)
            &&& !has_other && loads(text, board_size, outcome) ==> exists|
                line: Seq<Seq<PropertyView>>,
            | #[trigger]
                reads_line(line, trees[0].unwrap()) && line.len() > 0 && outcome == game_of_line(
                    line,
                    board_size,
                )
            &&& sgf_trees(other, true) matches Some(others) ==> (!has_other && trees.len() > 0
                && others.len() > 0 && trees[0] == others[0] && (forall|i: int|
                0 <= i < others.len() ==> #[trigger] others[i] is Some) ==> loads(
                text,
                board_size,
                outcome,
            ) == loads(other, board_size, outcome))
        },
{
}

/// A record is read with its players told apart by what is known of their names; all else of the
/// game stays as it is read.
pub proof fn records_are_read_with_their_players(
    text: Seq<char>,
    aliases: Map<Seq<char>, i16>,
    board_size: u8,
    outcome: Result<GameView, LoadError>,
)
    requires
        loads_with_players(text, aliases, board_size, outcome),
    ensures
        match outcome {
            Ok(game) => exists|read: GameView|
                #![trigger loads(text, board_size, Ok(read))]
                {
                    &&& loads(text, board_size, Ok(read))
                    &&& read.player_black matches PlayerView::Unknown(black)
                        && game.player_black == resolved(black, aliases)
                    &&& read.player_white matches PlayerView::Unknown(white)
                        && game.player_white == resolved(white, aliases)
                    &&& game.moves == read.moves
                    &&& game.details == read.details
                    &&& game.date_order == read.date_order
                    &&& game.captures == read.captures
                },
            Err(error) => loads(text, board_size, Err(error)),
        },
{
}

} // verus!
