//! Stones, moves, players and games.

use std::collections::HashMap;
use vstd::prelude::*;

verus! {

/// The colour of a stone.
#[derive(Clone, Copy, PartialEq, Eq, Structural, Hash, Debug)]
pub enum Color {
    Black,
    White,
}

impl Color {
    /// The colour of the opponent.
    pub open spec fn spec_opposite(self) -> Color {
        match self {
            Color::Black => Color::White,
            Color::White => Color::Black,
        }
    }

    /// The colour of the opponent.
    #[verifier::when_used_as_spec(spec_opposite)]
    pub fn opposite(self) -> (other: Color)
        ensures
            other == self.spec_opposite(),
    {
        match self {
            Color::Black => Color::White,
            Color::White => Color::Black,
        }
    }
}

/// An intersection of the board, counted from one corner.
#[derive(Clone, Copy, PartialEq, Eq, Structural, Hash, Debug)]
pub struct Point {
    pub x: u8,
    pub y: u8,
}

/// A stone on an intersection, or the move that puts it there.
#[derive(Clone, Copy, PartialEq, Eq, Structural, Hash, Debug)]
pub struct Placement {
    pub color: Color,
    pub point: Point,
}

impl Placement {
    /// The number that stands for this placement where a table is keyed by integers.
    pub open spec fn spec_code(self) -> u32 {
        let color: int = if self.color == Color::Black { 0 } else { 1 };
        (color * 65536 + self.point.x * 256 + self.point.y) as u32
    }

    /// The number that stands for this placement where a table is keyed by integers.
    #[verifier::when_used_as_spec(spec_code)]
    pub fn code(self) -> (code: u32)
        ensures
            code == self.spec_code(),
    {
        let color: u32 = if self.color == Color::Black { 0 } else { 1 };
        color * 65536 + self.point.x as u32 * 256 + self.point.y as u32
    }

    /// The placement that a code stands for.
    pub(crate) fn decode(code: u32) -> (placement: Placement)
        ensures
            forall|p: Placement| p.spec_code() == code ==> p == placement,
    {
        let color = if code < 65536 { Color::Black } else { Color::White };
        let x: u8 = ((code / 256) % 256) as u8;
        let y: u8 = (code % 256) as u8;
        Placement { color, point: Point { x, y } }
    }
}

/// Two placements with the same code are the same placement.
pub proof fn placement_codes_tell_placements_apart(a: Placement, b: Placement)
    requires
        a.spec_code() == b.spec_code(),
    ensures
        a == b,
{
}

/// Whether one of the placements is on this point.
pub open spec fn occupied(placements: Seq<Placement>, point: Point) -> bool {
    exists|i: int| 0 <= i < placements.len() && (#[trigger] placements[i]).point == point
}

/// Whether one of the placements is on this point.
pub fn is_occupied(placements: &[Placement], point: Point) -> (found: bool)
    ensures
        found == occupied(placements@, point),
{
    let n: usize = placements.len();
    for i in 0..n
        invariant
            n == placements@.len(),
            forall|j: int| 0 <= j < i ==> (#[trigger] placements@[j]).point != point,
    {
        if placements[i].point == point {
            assert(placements@[i as int].point == point);
            return true;
        }
    }
    false
}

/// A turn of the whole board.
#[derive(Clone, Copy, PartialEq, Eq, Structural, Hash, Debug)]
pub enum Rotation {
    Degrees90,
    Degrees180,
    Degrees270,
}

/// A player: one that is known under an id and the name given in the record, or the name alone.
#[derive(PartialEq, Eq, Debug)]
pub enum Player {
    Id(i16, String),
    Unknown(String),
}

/// What a [`Player`] stands for.
pub enum PlayerView {
    Id(i16, Seq<char>),
    Unknown(Seq<char>),
}

impl View for Player {
    type V = PlayerView;

    open spec fn view(&self) -> PlayerView {
        match self {
            Player::Id(id, name) => PlayerView::Id(*id, name@),
            Player::Unknown(name) => PlayerView::Unknown(name@),
        }
    }
}

impl PlayerView {
    /// Whether this is the player with the given id.
    pub open spec fn has_id(self, id: i16) -> bool {
        self matches PlayerView::Id(own, _) && own == id
    }

    /// The name in the record.
    pub open spec fn name(self) -> Seq<char> {
        match self {
            PlayerView::Id(_, name) => name,
            PlayerView::Unknown(name) => name,
        }
    }
}

impl Clone for Player {
    fn clone(&self) -> (copy: Player)
        ensures
            copy@ == self@,
    {
        match self {
            Player::Id(id, name) => Player::Id(*id, name.clone()),
            Player::Unknown(name) => Player::Unknown(name.clone()),
        }
    }
}

impl Player {
    /// Whether this is the player with the given id.
    pub fn has_id(&self, id: i16) -> (same: bool)
        ensures
            same == self@.has_id(id),
    {
        match self {
            Player::Id(own, _) => *own == id,
            Player::Unknown(_) => false,
        }
    }
}

/// What an optional text stands for.
pub open spec fn text_view(text: Option<String>) -> Option<Seq<char>> {
    match text {
        Some(text) => Some(text@),
        None => None,
    }
}

/// A copy of an optional text.
pub(crate) fn copy_text(text: &Option<String>) -> (copy: Option<String>)
    ensures
        text_view(copy) == text_view(*text),
{
    match text {
        Some(text) => Some(text.clone()),
        None => None,
    }
}

/// What a record says of a game beside its moves and players. Only the texts are kept: neither
/// reading a record nor searching looks into them. A text that is absent was not in the record.
#[derive(PartialEq, Eq, Debug)]
pub struct GameDetails {
    pub event: String,
    pub round: String,
    pub location: String,
    pub date: Option<String>,
    pub rank_black: Option<String>,
    pub rank_white: Option<String>,
    pub komi: Option<String>,
    pub rules: Option<String>,
    pub result: Option<String>,
}

/// What [`GameDetails`] stand for.
pub struct GameDetailsView {
    pub event: Seq<char>,
    pub round: Seq<char>,
    pub location: Seq<char>,
    pub date: Option<Seq<char>>,
    pub rank_black: Option<Seq<char>>,
    pub rank_white: Option<Seq<char>>,
    pub komi: Option<Seq<char>>,
    pub rules: Option<Seq<char>>,
    pub result: Option<Seq<char>>,
}

impl View for GameDetails {
    type V = GameDetailsView;

    open spec fn view(&self) -> GameDetailsView {
        GameDetailsView {
            event: self.event@,
            round: self.round@,
            location: self.location@,
            date: text_view(self.date),
            rank_black: text_view(self.rank_black),
            rank_white: text_view(self.rank_white),
            komi: text_view(self.komi),
            rules: text_view(self.rules),
            result: text_view(self.result),
        }
    }
}

impl Clone for GameDetails {
    fn clone(&self) -> (copy: GameDetails)
        ensures
            copy@ == self@,
    {
        GameDetails {
            event: self.event.clone(),
            round: self.round.clone(),
            location: self.location.clone(),
            date: copy_text(&self.date),
            rank_black: copy_text(&self.rank_black),
            rank_white: copy_text(&self.rank_white),
            komi: copy_text(&self.komi),
            rules: copy_text(&self.rules),
            result: copy_text(&self.result),
        }
    }
}

/// A game: its players, its moves, and the stones that were captured, by the number of the move
/// that captured them.
pub struct Game {
    pub details: GameDetails,
    pub player_black: Player,
    pub player_white: Player,
    /// Where the date of the game stands among all dates: an earlier date has a smaller number. A
    /// game without a date, or whose date was not looked into, has none.
    pub date_order: Option<u64>,
    pub moves: Vec<Placement>,
    pub captures: HashMap<usize, Vec<Placement>>,
}

/// What a [`Game`] stands for.
pub struct GameView {
    pub details: GameDetailsView,
    pub player_black: PlayerView,
    pub player_white: PlayerView,
    pub date_order: Option<u64>,
    pub moves: Seq<Placement>,
    pub captures: Map<usize, Seq<Placement>>,
}

/// What a table of captured stones stands for.
pub open spec fn captures_view(captures: Map<usize, Vec<Placement>>) -> Map<usize, Seq<Placement>> {
    captures.map_values(|stones: Vec<Placement>| stones@)
}

impl View for Game {
    type V = GameView;

    open spec fn view(&self) -> GameView {
        GameView {
            details: self.details@,
            player_black: self.player_black@,
            player_white: self.player_white@,
            date_order: self.date_order,
            moves: self.moves@,
            captures: captures_view(self.captures@),
        }
    }
}

/// A copy of a list of placements.
pub(crate) fn copy_placements(placements: &[Placement]) -> (copy: Vec<Placement>)
    ensures
        copy@ == placements@,
{
    vstd::slice::slice_to_vec(placements)
}

} // verus!
