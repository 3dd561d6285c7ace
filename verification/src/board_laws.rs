//! What the model of a board has to do with its operations.

use crate::baduk::{Placement, Point, Rotation};
use crate::board::{
    gives, gives_around, gives_for_game, gives_for_points, gives_turned, rotations_view, Board,
};
use vstd::prelude::*;

verus! {

/// What an operation of a board gives for a position is what the model of the board has for it.
pub proof fn model_has_what_operations_give<R, S, M, T, Q, G, P, E>(
    board: Board<R, S, M, T, Q, G, P, E>,
    position: &[Placement],
    moves: &[Placement],
    rotation: Rotation,
) where
    R: Fn(&[Placement]) -> Vec<(Rotation, Vec<Placement>)>,
    S: Fn(&[Placement]) -> Vec<Placement>,
    M: Fn(&[Placement]) -> Vec<Placement>,
    T: Fn(&[Placement], Rotation) -> Vec<Placement>,
    Q: Fn(&[Placement]) -> bool,
    G: Fn(&[Placement], &[Placement]) -> Option<usize>,
    P: Fn(Point, u8) -> Vec<Point>,
    E: Fn(&[Point], &[Placement]) -> bool,

    requires
        board.wf(),
    ensures
        forall|out: Vec<(Rotation, Vec<Placement>)>| #[trigger]
            call_ensures(board.get_rotations, (position,), out) ==> rotations_view(out@) == (
            board.model().rotations)(position@),
        forall|out: Vec<Placement>| #[trigger]
            call_ensures(board.switch_colors, (position,), out) ==> out@ == (
            board.model().switched)(position@),
        forall|out: Vec<Placement>| #[trigger]
            call_ensures(board.get_mirrored, (position,), out) ==> out@ == (
            board.model().mirrored)(position@),
        forall|out: Vec<Placement>| #[trigger]
            call_ensures(board.get_rotated, (position, rotation), out) ==> out@ == (
            board.model().rotated)(position@, rotation),
        forall|out: bool| #[trigger]
            call_ensures(board.check_within_one_quadrant, (position,), out) ==> out == (
            board.model().within_one_quadrant)(position@),
        forall|out: Option<usize>| #[trigger]
            call_ensures(board.match_game, (position, moves), out) ==> out == (
            board.model().matched)(position@, moves@),
{
    let model = board.model();
    assert forall|out: Vec<(Rotation, Vec<Placement>)>| #[trigger]
        call_ensures(board.get_rotations, (position,), out) implies rotations_view(out@) == (
    model.rotations)(position@) by {
        let call = (position, out);
        assert(gives(board.get_rotations, position@, call));
    }
    assert forall|out: Vec<Placement>| #[trigger]
        call_ensures(board.switch_colors, (position,), out) implies out@ == (model.switched)(
        position@,
    ) by {
        let call = (position, out);
        assert(gives(board.switch_colors, position@, call));
    }
    assert forall|out: Vec<Placement>| #[trigger]
        call_ensures(board.get_mirrored, (position,), out) implies out@ == (model.mirrored)(
        position@,
    ) by {
        let call = (position, out);
        assert(gives(board.get_mirrored, position@, call));
    }
    assert forall|out: Vec<Placement>| #[trigger]
        call_ensures(board.get_rotated, (position, rotation), out) implies out@ == (
    model.rotated)(position@, rotation) by {
        let call = (position, out);
        assert(gives_turned(board.get_rotated, position@, rotation, call));
    }
    assert forall|out: bool| #[trigger]
        call_ensures(board.check_within_one_quadrant, (position,), out) implies out == (
    model.within_one_quadrant)(position@) by {
        let call = (position, out);
        assert(gives(board.check_within_one_quadrant, position@, call));
    }
    assert forall|out: Option<usize>| #[trigger]
        call_ensures(board.match_game, (position, moves), out) implies out == (model.matched)(
        position@,
        moves@,
    ) by {
        let call = (position, moves, out);
        assert(gives_for_game(board.match_game, position@, moves@, call));
    }
}

/// What an operation of a board gives for points is what the model of the board has for them.
pub proof fn model_has_what_operations_give_for_points<R, S, M, T, Q, G, P, E>(
    board: Board<R, S, M, T, Q, G, P, E>,
    point: Point,
    distance: u8,
    points: &[Point],
    moves: &[Placement],
) where
    R: Fn(&[Placement]) -> Vec<(Rotation, Vec<Placement>)>,
    S: Fn(&[Placement]) -> Vec<Placement>,
    M: Fn(&[Placement]) -> Vec<Placement>,
    T: Fn(&[Placement], Rotation) -> Vec<Placement>,
    Q: Fn(&[Placement]) -> bool,
    G: Fn(&[Placement], &[Placement]) -> Option<usize>,
    P: Fn(Point, u8) -> Vec<Point>,
    E: Fn(&[Point], &[Placement]) -> bool,

    requires
        board.wf(),
    ensures
        forall|out: Vec<Point>| #[trigger]
            call_ensures(board.get_surrounding_points, (point, distance), out) ==> out@ == (
            board.model().surrounding)(point, distance),
        forall|out: bool| #[trigger]
            call_ensures(board.check_empty, (points, moves), out) ==> out == (
            board.model().empty)(points@, moves@),
{
    let model = board.model();
    assert forall|out: Vec<Point>| #[trigger]
        call_ensures(board.get_surrounding_points, (point, distance), out) implies out@ == (
    model.surrounding)(point, distance) by {
        assert(gives_around(board.get_surrounding_points, point, distance, out));
    }
    assert forall|out: bool| #[trigger]
        call_ensures(board.check_empty, (points, moves), out) implies out == (model.empty)(
        points@,
        moves@,
    ) by {
        let call = (points, moves, out);
        assert(gives_for_points(board.check_empty, points@, moves@, call));
    }
}

} // verus!
