//! The geometry of the board, as a search asks for it.
//!
//! A search turns and mirrors positions, compares them with games and looks around stones. It does
//! so through the eight operations of a [`Board`], which are handed to it; every contract of the
//! search speaks of the [`BoardModel`] that those operations make up.

use crate::baduk::{Placement, Point, Rotation};
use vstd::prelude::*;

verus! {

/// The operations on the board as functions of plain values.
pub struct BoardModel {
    /// The position in each of its rotations, with the rotation that leads there.
    pub rotations: spec_fn(Seq<Placement>) -> Seq<(Rotation, Seq<Placement>)>,
    /// The position with the colours exchanged.
    pub switched: spec_fn(Seq<Placement>) -> Seq<Placement>,
    /// The position mirrored.
    pub mirrored: spec_fn(Seq<Placement>) -> Seq<Placement>,
    /// The position rotated.
    pub rotated: spec_fn(Seq<Placement>, Rotation) -> Seq<Placement>,
    /// Whether the position stays within one quadrant of the board.
    pub within_one_quadrant: spec_fn(Seq<Placement>) -> bool,
    /// The number of the move that completes the position in a game, if the game comes to it.
    pub matched: spec_fn(Seq<Placement>, Seq<Placement>) -> Option<usize>,
    /// The points around a point at the given distance.
    pub surrounding: spec_fn(Point, u8) -> Seq<Point>,
    /// Whether the points are empty after the moves.
    pub empty: spec_fn(Seq<Point>, Seq<Placement>) -> bool,
}

/// What a list of rotated positions stands for.
pub open spec fn rotations_view(rotations: Seq<(Rotation, Vec<Placement>)>) -> Seq<
    (Rotation, Seq<Placement>),
> {
    rotations.map_values(|entry: (Rotation, Vec<Placement>)| (entry.0, entry.1@))
}

/// Whether an operation gives this for a position.
pub open spec fn gives<O, F: Fn(&[Placement]) -> O>(
    operation: F,
    position: Seq<Placement>,
    call: (&[Placement], O),
) -> bool {
    call.0@ == position && call_ensures(operation, (call.0,), call.1)
}

/// Whether an operation gives this for a position and a rotation.
pub open spec fn gives_turned<F: Fn(&[Placement], Rotation) -> Vec<Placement>>(
    operation: F,
    position: Seq<Placement>,
    rotation: Rotation,
    call: (&[Placement], Vec<Placement>),
) -> bool {
    call.0@ == position && call_ensures(operation, (call.0, rotation), call.1)
}

/// Whether an operation gives this for a position and the moves of a game.
pub open spec fn gives_for_game<F: Fn(&[Placement], &[Placement]) -> Option<usize>>(
    operation: F,
    position: Seq<Placement>,
    moves: Seq<Placement>,
    call: (&[Placement], &[Placement], Option<usize>),
) -> bool {
    call.0@ == position && call.1@ == moves && call_ensures(operation, (call.0, call.1), call.2)
}

/// Whether an operation gives this for a point and a distance.
pub open spec fn gives_around<F: Fn(Point, u8) -> Vec<Point>>(
    operation: F,
    point: Point,
    distance: u8,
    points: Vec<Point>,
) -> bool {
    call_ensures(operation, (point, distance), points)
}

/// Whether an operation gives this for some points and the moves of a game.
pub open spec fn gives_for_points<F: Fn(&[Point], &[Placement]) -> bool>(
    operation: F,
    points: Seq<Point>,
    moves: Seq<Placement>,
    call: (&[Point], &[Placement], bool),
) -> bool {
    call.0@ == points && call.1@ == moves && call_ensures(operation, (call.0, call.1), call.2)
}

/// The operations on the board that a search is given.
pub struct Board<R, S, M, T, Q, G, P, E> {
    pub get_rotations: R,
    pub switch_colors: S,
    pub get_mirrored: M,
    pub get_rotated: T,
    pub check_within_one_quadrant: Q,
    pub match_game: G,
    pub get_surrounding_points: P,
    pub check_empty: E,
}

impl<R, S, M, T, Q, G, P, E> Board<R, S, M, T, Q, G, P, E> where
    R: Fn(&[Placement]) -> Vec<(Rotation, Vec<Placement>)>,
    S: Fn(&[Placement]) -> Vec<Placement>,
    M: Fn(&[Placement]) -> Vec<Placement>,
    T: Fn(&[Placement], Rotation) -> Vec<Placement>,
    Q: Fn(&[Placement]) -> bool,
    G: Fn(&[Placement], &[Placement]) -> Option<usize>,
    P: Fn(Point, u8) -> Vec<Point>,
    E: Fn(&[Point], &[Placement]) -> bool,
 {
    /// Every operation can be called on every argument.
    pub open spec fn total(self) -> bool {
        &&& forall|p: &[Placement]| call_requires(self.get_rotations, (p,))
        &&& forall|p: &[Placement]| call_requires(self.switch_colors, (p,))
        &&& forall|p: &[Placement]| call_requires(self.get_mirrored, (p,))
        &&& forall|p: &[Placement], r: Rotation| call_requires(self.get_rotated, (p, r))
        &&& forall|p: &[Placement]| call_requires(self.check_within_one_quadrant, (p,))
        &&& forall|p: &[Placement], m: &[Placement]| call_requires(self.match_game, (p, m))
        &&& forall|p: Point, d: u8| call_requires(self.get_surrounding_points, (p, d))
        &&& forall|p: &[Point], m: &[Placement]| call_requires(self.check_empty, (p, m))
    }

    /// What an operation returns depends on nothing but its arguments.
    pub open spec fn functional(self) -> bool {
        &&& forall|
            p: &[Placement],
            q: &[Placement],
            a: Vec<(Rotation, Vec<Placement>)>,
            b: Vec<(Rotation, Vec<Placement>)>,
        |
            p@ == q@ && #[trigger] call_ensures(self.get_rotations, (p,), a)
                && #[trigger] call_ensures(self.get_rotations, (q,), b) ==> rotations_view(a@)
                == rotations_view(b@)
        &&& forall|p: &[Placement], q: &[Placement], a: Vec<Placement>, b: Vec<Placement>|
            p@ == q@ && #[trigger] call_ensures(self.switch_colors, (p,), a)
                && #[trigger] call_ensures(self.switch_colors, (q,), b) ==> a@ == b@
        &&& forall|p: &[Placement], q: &[Placement], a: Vec<Placement>, b: Vec<Placement>|
            p@ == q@ && #[trigger] call_ensures(self.get_mirrored, (p,), a)
                && #[trigger] call_ensures(self.get_mirrored, (q,), b) ==> a@ == b@
        &&& forall|
            p: &[Placement],
            q: &[Placement],
            r: Rotation,
            a: Vec<Placement>,
            b: Vec<Placement>,
        |
            p@ == q@ && #[trigger] call_ensures(self.get_rotated, (p, r), a)
                && #[trigger] call_ensures(self.get_rotated, (q, r), b) ==> a@ == b@
        &&& forall|p: &[Placement], q: &[Placement], a: bool, b: bool|
            p@ == q@ && #[trigger] call_ensures(self.check_within_one_quadrant, (p,), a)
                && #[trigger] call_ensures(self.check_within_one_quadrant, (q,), b) ==> a == b
        &&& forall|
            p: &[Placement],
            q: &[Placement],
            m: &[Placement],
            n: &[Placement],
            a: Option<usize>,
            b: Option<usize>,
        |
            p@ == q@ && m@ == n@ && #[trigger] call_ensures(self.match_game, (p, m), a)
                && #[trigger] call_ensures(self.match_game, (q, n), b) ==> a == b
        &&& forall|p: Point, d: u8, a: Vec<Point>, b: Vec<Point>|
            #[trigger] call_ensures(self.get_surrounding_points, (p, d), a)
                && #[trigger] call_ensures(self.get_surrounding_points, (p, d), b) ==> a@ == b@
        &&& forall|
            p: &[Point],
            q: &[Point],
            m: &[Placement],
            n: &[Placement],
            a: bool,
            b: bool,
        |
            p@ == q@ && m@ == n@ && #[trigger] call_ensures(self.check_empty, (p, m), a)
                && #[trigger] call_ensures(self.check_empty, (q, n), b) ==> a == b
    }

    /// The operations can be called on everything and are functions of their arguments.
    pub open spec fn wf(self) -> bool {
        self.total() && self.functional()
    }

    /// The functions that the operations compute. Where an operation gives nothing at all, a
    /// position stays as it is, and nothing is found.
    pub open spec fn model(self) -> BoardModel {
        BoardModel {
            rotations: |p: Seq<Placement>|
                if exists|c: (&[Placement], Vec<(Rotation, Vec<Placement>)>)| #[trigger]
                    gives(self.get_rotations, p, c) {
                    rotations_view(
                        (choose|c: (&[Placement], Vec<(Rotation, Vec<Placement>)>)| #[trigger]
                            gives(self.get_rotations, p, c)).1@,
                    )
                } else {
                    Seq::empty()
                },
            switched: |p: Seq<Placement>|
                if exists|c: (&[Placement], Vec<Placement>)| #[trigger]
                    gives(self.switch_colors, p, c) {
                    (choose|c: (&[Placement], Vec<Placement>)| #[trigger]
                        gives(self.switch_colors, p, c)).1@
                } else {
                    p
                },
            mirrored: |p: Seq<Placement>|
                if exists|c: (&[Placement], Vec<Placement>)| #[trigger]
                    gives(self.get_mirrored, p, c) {
                    (choose|c: (&[Placement], Vec<Placement>)| #[trigger]
                        gives(self.get_mirrored, p, c)).1@
                } else {
                    p
                },
            rotated: |p: Seq<Placement>, r: Rotation|
                if exists|c: (&[Placement], Vec<Placement>)| #[trigger]
                    gives_turned(self.get_rotated, p, r, c) {
                    (choose|c: (&[Placement], Vec<Placement>)| #[trigger]
                        gives_turned(self.get_rotated, p, r, c)).1@
                } else {
                    p
                },
            within_one_quadrant: |p: Seq<Placement>|
                (exists|c: (&[Placement], bool)| #[trigger]
                    gives(self.check_within_one_quadrant, p, c)) && (choose|
                    c: (&[Placement], bool),
                | #[trigger]
                    gives(self.check_within_one_quadrant, p, c)).1,
            matched: |p: Seq<Placement>, m: Seq<Placement>|
                if exists|c: (&[Placement], &[Placement], Option<usize>)| #[trigger]
                    gives_for_game(self.match_game, p, m, c) {
                    (choose|c: (&[Placement], &[Placement], Option<usize>)| #[trigger]
                        gives_for_game(self.match_game, p, m, c)).2
                } else {
                    None
                },
            surrounding: |p: Point, d: u8|
                if exists|points: Vec<Point>| #[trigger]
                    gives_around(self.get_surrounding_points, p, d, points) {
                    (choose|points: Vec<Point>| #[trigger]
                        gives_around(self.get_surrounding_points, p, d, points))@
                } else {
                    Seq::empty()
                },
            empty: |p: Seq<Point>, m: Seq<Placement>|
                (exists|c: (&[Point], &[Placement], bool)| #[trigger]
                    gives_for_points(self.check_empty, p, m, c)) && (choose|
                    c: (&[Point], &[Placement], bool),
                | #[trigger]
                    gives_for_points(self.check_empty, p, m, c)).2,
        }
    }

    /// The position in each of its rotations.
    pub fn rotations(&self, position: &[Placement]) -> (out: Vec<(Rotation, Vec<Placement>)>)
        requires
            self.wf(),
        ensures
            rotations_view(out@) == (self.model().rotations)(position@),
            call_ensures(self.get_rotations, (position,), out),
    {
        let out = (self.get_rotations)(position);
        let ghost call = (position, out);
        assert(gives(self.get_rotations, position@, call));
        out
    }

    /// The position with the colours exchanged.
    pub fn switched(&self, position: &[Placement]) -> (out: Vec<Placement>)
        requires
            self.wf(),
        ensures
            out@ == (self.model().switched)(position@),
            call_ensures(self.switch_colors, (position,), out),
    {
        let out = (self.switch_colors)(position);
        let ghost call = (position, out);
        assert(gives(self.switch_colors, position@, call));
        out
    }

    /// The position mirrored.
    pub fn mirrored(&self, position: &[Placement]) -> (out: Vec<Placement>)
        requires
            self.wf(),
        ensures
            out@ == (self.model().mirrored)(position@),
            call_ensures(self.get_mirrored, (position,), out),
    {
        let out = (self.get_mirrored)(position);
        let ghost call = (position, out);
        assert(gives(self.get_mirrored, position@, call));
        out
    }

    /// The position rotated.
    pub fn rotated(&self, position: &[Placement], rotation: Rotation) -> (out: Vec<Placement>)
        requires
            self.wf(),
        ensures
            out@ == (self.model().rotated)(position@, rotation),
            call_ensures(self.get_rotated, (position, rotation), out),
    {
        let out = (self.get_rotated)(position, rotation);
        let ghost call = (position, out);
        assert(gives_turned(self.get_rotated, position@, rotation, call));
        out
    }

    /// Whether the position stays within one quadrant of the board.
    pub fn within_one_quadrant(&self, position: &[Placement]) -> (out: bool)
        requires
            self.wf(),
        ensures
            out == (self.model().within_one_quadrant)(position@),
            call_ensures(self.check_within_one_quadrant, (position,), out),
    {
        let out = (self.check_within_one_quadrant)(position);
        let ghost call = (position, out);
        assert(gives(self.check_within_one_quadrant, position@, call));
        out
    }

    /// The number of the move that completes the position in a game.
    pub fn matched(&self, position: &[Placement], moves: &[Placement]) -> (out: Option<usize>)
        requires
            self.wf(),
        ensures
            out == (self.model().matched)(position@, moves@),
            call_ensures(self.match_game, (position, moves), out),
    {
        let out = (self.match_game)(position, moves);
        let ghost call = (position, moves, out);
        assert(gives_for_game(self.match_game, position@, moves@, call));
        out
    }

    /// The points around a point at the given distance.
    pub fn surrounding(&self, point: Point, distance: u8) -> (out: Vec<Point>)
        requires
            self.wf(),
        ensures
            out@ == (self.model().surrounding)(point, distance),
            call_ensures(self.get_surrounding_points, (point, distance), out),
    {
        let out = (self.get_surrounding_points)(point, distance);
        assert(gives_around(self.get_surrounding_points, point, distance, out));
        out
    }

    /// Whether the points are empty after the moves.
    pub fn empty(&self, points: &[Point], moves: &[Placement]) -> (out: bool)
        requires
            self.wf(),
        ensures
            out == (self.model().empty)(points@, moves@),
            call_ensures(self.check_empty, (points, moves), out),
    {
        let out = (self.check_empty)(points, moves);
        let ghost call = (points, moves, out);
        assert(gives_for_points(self.check_empty, points@, moves@, call));
        out
    }
}

} // verus!
