//! What holds of searches for a pattern that is drawn another way round.

use crate::baduk::{GameView, Placement, Rotation};
use crate::board::BoardModel;
use crate::matching::{
    attempts, family, game_result, located, moves_rotation, rotation_index, transformed_moves,
    AttemptView, SearchResultView,
};
use crate::search_laws::{games_are_given_if_they_match, located_is_the_first_success};
use crate::wasm_search::{position_matches, rotation_of_number};
use vstd::prelude::*;

verus! {

/// The position after a number of quarter turns, from none to three.
pub open spec fn turned(model: BoardModel, position: Seq<Placement>, turns: int) -> Seq<Placement> {
    match rotation_of_number(turns as u8) {
        Some(rotation) => (model.rotated)(position, rotation),
        None => position,
    }
}

/// Whether the operations of a board turn and mirror a position and exchange its colours as on a
/// square board: quarter turns add up, mirroring turns them round, and exchanging the colours has
/// nothing to do with either. What they make of the position fits the board again.
#[verifier::opaque]
pub open spec fn obeys_symmetry(
    model: BoardModel,
    fits: spec_fn(Seq<Placement>) -> bool,
    p: Seq<Placement>,
) -> bool {
    let mirror = model.mirrored;
    let switch = model.switched;
    &&& fits(mirror(p)) && mirror(p).len() == p.len() && mirror(mirror(p)) == p
    &&& fits(switch(p)) && switch(p).len() == p.len() && switch(switch(p)) == p
    &&& switch(mirror(p)) == mirror(switch(p))
    &&& forall|a: int|
        0 <= a < 4 ==> {
            &&& fits(#[trigger] turned(model, p, a))
            &&& turned(model, p, a).len() == p.len()
            &&& mirror(turned(model, p, a)) == turned(model, mirror(p), (4 - a) % 4)
            &&& switch(turned(model, p, a)) == turned(model, switch(p), a)
        }
    &&& forall|a: int, b: int|
        0 <= a < 4 && 0 <= b < 4 ==> #[trigger] turned(model, turned(model, p, a), b) == turned(
            model,
            p,
            (a + b) % 4,
        )
    &&& forall|i: int|
        0 <= i < (model.rotations)(p).len() ==> (#[trigger] (model.rotations)(p)[i]).1 == (
        model.rotated)(p, (model.rotations)(p)[i].0)
    &&& forall|rotation: Rotation|
        (model.rotations)(p).contains((rotation, #[trigger] (model.rotated)(p, rotation)))
}

/// Whether the operations of a board are those of a square board, for the positions that fit it.
pub open spec fn symmetric(model: BoardModel, fits: spec_fn(Seq<Placement>) -> bool) -> bool {
    forall|p: Seq<Placement>| fits(p) ==> #[trigger] obeys_symmetry(model, fits, p)
}

/// Mirroring and exchanging colours undo themselves and do not disturb each other.
proof fn lemma_flips(
    model: BoardModel,
    fits: spec_fn(Seq<Placement>) -> bool,
    p: Seq<Placement>,
)
    requires
        symmetric(model, fits),
        fits(p),
    ensures
        fits((model.mirrored)(p)),
        (model.mirrored)(p).len() == p.len(),
        (model.mirrored)((model.mirrored)(p)) == p,
        fits((model.switched)(p)),
        (model.switched)(p).len() == p.len(),
        (model.switched)((model.switched)(p)) == p,
        (model.switched)((model.mirrored)(p)) == (model.mirrored)((model.switched)(p)),
{
    assert(obeys_symmetry(model, fits, p));
    reveal(obeys_symmetry);
}

/// What turning has to do with mirroring and exchanging colours.
proof fn lemma_turning(
    model: BoardModel,
    fits: spec_fn(Seq<Placement>) -> bool,
    p: Seq<Placement>,
    a: int,
)
    requires
        symmetric(model, fits),
        fits(p),
        0 <= a < 4,
    ensures
        fits(turned(model, p, a)),
        turned(model, p, a).len() == p.len(),
        (model.mirrored)(turned(model, p, a)) == turned(model, (model.mirrored)(p), (4 - a) % 4),
        (model.switched)(turned(model, p, a)) == turned(model, (model.switched)(p), a),
{
    assert(obeys_symmetry(model, fits, p));
    reveal(obeys_symmetry);
}

/// Quarter turns add up.
proof fn lemma_turning_twice(
    model: BoardModel,
    fits: spec_fn(Seq<Placement>) -> bool,
    p: Seq<Placement>,
    a: int,
    b: int,
)
    requires
        symmetric(model, fits),
        fits(p),
        0 <= a < 4,
        0 <= b < 4,
    ensures
        turned(model, turned(model, p, a), b) == turned(model, p, (a + b) % 4),
{
    assert(obeys_symmetry(model, fits, p));
    reveal(obeys_symmetry);
}

/// The rotations of a position are the position turned.
proof fn lemma_rotations(
    model: BoardModel,
    fits: spec_fn(Seq<Placement>) -> bool,
    p: Seq<Placement>,
)
    requires
        symmetric(model, fits),
        fits(p),
    ensures
        forall|i: int|
            0 <= i < (model.rotations)(p).len() ==> (#[trigger] (model.rotations)(p)[i]).1 == (
            model.rotated)(p, (model.rotations)(p)[i].0),
        forall|rotation: Rotation|
            (model.rotations)(p).contains((rotation, #[trigger] (model.rotated)(p, rotation))),
{
    assert(obeys_symmetry(model, fits, p));
    reveal(obeys_symmetry);
}

/// Turning a position and then turning it the opposite way gives the same stones back.
pub proof fn turning_back_gives_the_stones_back(
    model: BoardModel,
    fits: spec_fn(Seq<Placement>) -> bool,
    p: Seq<Placement>,
    rotation: Rotation,
)
    requires
        symmetric(model, fits),
        fits(p),
    ensures
        (model.rotated)((model.rotated)(p, rotation), moves_rotation(rotation)) == p,
        moves_rotation(moves_rotation(rotation)) == rotation,
{
    let a = rotation_index(rotation) as int;
    let b = rotation_index(moves_rotation(rotation)) as int;
    assert(turned(model, p, a) == (model.rotated)(p, rotation));
    lemma_turning_twice(model, fits, p, a, b);
}

/// The position, mirrored and with the colours exchanged as asked for.
spec fn side(model: BoardModel, p: Seq<Placement>, mirror: bool, switch: bool) -> Seq<Placement> {
    let colors = if switch {
        (model.switched)(p)
    } else {
        p
    };
    if mirror {
        (model.mirrored)(colors)
    } else {
        colors
    }
}

/// A form of the position.
spec fn form(
    model: BoardModel,
    p: Seq<Placement>,
    turns: int,
    mirror: bool,
    switch: bool,
) -> Seq<Placement> {
    turned(model, side(model, p, mirror, switch), turns)
}

/// Whether a game has one of the forms of the position.
spec fn has_form(model: BoardModel, p: Seq<Placement>, moves: Seq<Placement>) -> bool {
    exists|turns: int, mirror: bool, switch: bool|
        0 <= turns < 4 && (model.matched)(#[trigger] form(model, p, turns, mirror, switch), moves)
            is Some
}

/// Whether one of the attempts succeeds.
spec fn succeeds(model: BoardModel, list: Seq<AttemptView>, moves: Seq<Placement>) -> bool {
    exists|i: int| 0 <= i < list.len() && (model.matched)((#[trigger] list[i]).form, moves) is Some
}

proof fn lemma_side_fits(
    model: BoardModel,
    fits: spec_fn(Seq<Placement>) -> bool,
    p: Seq<Placement>,
    mirror: bool,
    switch: bool,
)
    requires
        symmetric(model, fits),
        fits(p),
    ensures
        fits(side(model, p, mirror, switch)),
{
    lemma_flips(model, fits, p);
    lemma_flips(model, fits, (model.switched)(p));
}

proof fn lemma_family_succeeds(
    model: BoardModel,
    fits: spec_fn(Seq<Placement>) -> bool,
    q: Seq<Placement>,
    is_mirrored: bool,
    is_inverted: bool,
    score: i16,
    moves: Seq<Placement>,
)
    requires
        symmetric(model, fits),
        fits(q),
    ensures
        succeeds(model, family(model, q, is_mirrored, is_inverted, score), moves) <==> exists|
            turns: int,
        |
            0 <= turns < 4 && (model.matched)(#[trigger] turned(model, q, turns), moves) is Some,
{
    let list = family(model, q, is_mirrored, is_inverted, score);
    let rotations = (model.rotations)(q);
    lemma_rotations(model, fits, q);
    assert(list[0].form == turned(model, q, 0));
    if succeeds(model, list, moves) {
        let i = choose|i: int|
            0 <= i < list.len() && (model.matched)((#[trigger] list[i]).form, moves) is Some;
        if i > 0 {
            let rotation = rotations[i - 1].0;
            assert(list[i].form == rotations[i - 1].1);
            assert(turned(model, q, rotation_index(rotation) as int) == (model.rotated)(
                q,
                rotation,
            ));
        }
    }
    if exists|turns: int|
        0 <= turns < 4 && (model.matched)(#[trigger] turned(model, q, turns), moves) is Some {
        let turns = choose|turns: int|
            0 <= turns < 4 && (model.matched)(#[trigger] turned(model, q, turns), moves) is Some;
        if turns > 0 {
            let rotation = rotation_of_number(turns as u8).unwrap();
            let entry = (rotation, (model.rotated)(q, rotation));
            assert(rotations.contains(entry));
            let k = choose|k: int| 0 <= k < rotations.len() && rotations[k] == entry;
            assert(list[k + 1].form == entry.1);
        }
    }
}

proof fn lemma_succeeds_joined(
    model: BoardModel,
    a: Seq<AttemptView>,
    b: Seq<AttemptView>,
    moves: Seq<Placement>,
)
    ensures
        succeeds(model, a + b, moves) <==> succeeds(model, a, moves) || succeeds(model, b, moves),
{
    let both = a + b;
    if succeeds(model, both, moves) {
        let i = choose|i: int|
            0 <= i < both.len() && (model.matched)((#[trigger] both[i]).form, moves) is Some;
        if i < a.len() {
            assert(both[i] == a[i]);
        } else {
            assert(both[i] == b[i - a.len()]);
        }
    }
    if succeeds(model, a, moves) {
        let i = choose|i: int|
            0 <= i < a.len() && (model.matched)((#[trigger] a[i]).form, moves) is Some;
        assert(both[i] == a[i]);
    }
    if succeeds(model, b, moves) {
        let i = choose|i: int|
            0 <= i < b.len() && (model.matched)((#[trigger] b[i]).form, moves) is Some;
        assert(both[a.len() + i] == b[i]);
    }
}

/// A game gives a result if and only if it has one of the forms of the position.
proof fn lemma_found_by_form(
    model: BoardModel,
    fits: spec_fn(Seq<Placement>) -> bool,
    p: Seq<Placement>,
    path: Seq<char>,
    game: GameView,
)
    requires
        symmetric(model, fits),
        fits(p),
    ensures
        game_result(model, p, path, game) is Some <==> has_form(model, p, game.moves),
{
    let moves = game.moves;
    let local = (model.within_one_quadrant)(p);
    let inverse = (model.switched)(p);
    let high: i16 = if local {
        100
    } else {
        10
    };
    let low: i16 = if local {
        90
    } else {
        9
    };
    let first = family(model, p, false, false, 100);
    let second = family(model, (model.mirrored)(p), true, false, high);
    let third = family(model, inverse, false, true, 90);
    let fourth = family(model, (model.mirrored)(inverse), true, true, low);
    assert(attempts(model, p) == first + second + third + fourth);
    lemma_side_fits(model, fits, p, true, false);
    lemma_side_fits(model, fits, p, false, true);
    lemma_side_fits(model, fits, p, true, true);
    lemma_family_succeeds(model, fits, p, false, false, 100, moves);
    lemma_family_succeeds(model, fits, (model.mirrored)(p), true, false, high, moves);
    lemma_family_succeeds(model, fits, inverse, false, true, 90, moves);
    lemma_family_succeeds(model, fits, (model.mirrored)(inverse), true, true, low, moves);
    lemma_succeeds_joined(model, first, second, moves);
    lemma_succeeds_joined(model, first + second, third, moves);
    lemma_succeeds_joined(model, first + second + third, fourth, moves);
    located_is_the_first_success(model, attempts(model, p), moves);
    assert(located(model, attempts(model, p), moves) is Some <==> succeeds(
        model,
        attempts(model, p),
        moves,
    ));
    assert(side(model, p, false, false) == p);
    assert(side(model, p, true, false) == (model.mirrored)(p));
    assert(side(model, p, false, true) == inverse);
    assert(side(model, p, true, true) == (model.mirrored)(inverse));
    if succeeds(model, attempts(model, p), moves) {
        if succeeds(model, first, moves) {
            lemma_side_has_form(model, p, moves, false, false);
        } else if succeeds(model, second, moves) {
            lemma_side_has_form(model, p, moves, true, false);
        } else if succeeds(model, third, moves) {
            lemma_side_has_form(model, p, moves, false, true);
        } else {
            lemma_side_has_form(model, p, moves, true, true);
        }
    }
    if has_form(model, p, moves) {
        let (turns, mirror, switch) = choose|turns: int, mirror: bool, switch: bool|
            0 <= turns < 4 && (model.matched)(
                #[trigger] form(model, p, turns, mirror, switch),
                moves,
            ) is Some;
        assert((model.matched)(turned(model, side(model, p, mirror, switch), turns), moves)
            is Some);
    }
}

proof fn lemma_side_has_form(
    model: BoardModel,
    p: Seq<Placement>,
    moves: Seq<Placement>,
    mirror: bool,
    switch: bool,
)
    requires
        exists|turns: int|
            0 <= turns < 4 && (model.matched)(
                #[trigger] turned(model, side(model, p, mirror, switch), turns),
                moves,
            ) is Some,
    ensures
        has_form(model, p, moves),
{
    let turns = choose|turns: int|
        0 <= turns < 4 && (model.matched)(
            #[trigger] turned(model, side(model, p, mirror, switch), turns),
            moves,
        ) is Some;
    assert((model.matched)(form(model, p, turns, mirror, switch), moves) is Some);
}

/// Whether a position is another one turned, mirrored or with its colours exchanged.
pub open spec fn redrawn(model: BoardModel, p: Seq<Placement>, q: Seq<Placement>) -> bool {
    ||| exists|rotation: Rotation| q == #[trigger] (model.rotated)(p, rotation)
    ||| q == (model.mirrored)(p)
    ||| q == (model.switched)(p)
}

/// A form of a redrawn position is a form of the position.
proof fn lemma_redrawn_forms(
    model: BoardModel,
    fits: spec_fn(Seq<Placement>) -> bool,
    p: Seq<Placement>,
    q: Seq<Placement>,
    moves: Seq<Placement>,
)
    requires
        symmetric(model, fits),
        fits(p),
        redrawn(model, p, q),
        has_form(model, q, moves),
    ensures
        has_form(model, p, moves),
{
    let (turns, mirror, switch) = choose|turns: int, mirror: bool, switch: bool|
        0 <= turns < 4 && (model.matched)(#[trigger] form(model, q, turns, mirror, switch), moves)
            is Some;
    let switched = (model.switched)(p);
    lemma_flips(model, fits, p);
    lemma_flips(model, fits, switched);
    if q == (model.switched)(p) {
        assert(side(model, q, mirror, switch) == side(model, p, mirror, !switch));
        assert(form(model, q, turns, mirror, switch) == form(model, p, turns, mirror, !switch));
    } else if q == (model.mirrored)(p) {
        assert(side(model, q, mirror, switch) == side(model, p, !mirror, switch));
        assert(form(model, q, turns, mirror, switch) == form(model, p, turns, !mirror, switch));
    } else {
        let rotation = choose|rotation: Rotation| q == #[trigger] (model.rotated)(p, rotation);
        let a = rotation_index(rotation) as int;
        assert(q == turned(model, p, a));
        let colors = side(model, p, false, switch);
        lemma_turning(model, fits, p, a);
        lemma_turning(model, fits, colors, a);
        assert(side(model, q, false, switch) == turned(model, colors, a));
        if mirror {
            let b = (4 - a) % 4;
            let seen = side(model, p, true, switch);
            lemma_side_fits(model, fits, p, true, switch);
            assert(side(model, q, true, switch) == turned(model, seen, b));
            lemma_turning_twice(model, fits, seen, b, turns);
            assert(form(model, q, turns, true, switch) == form(
                model,
                p,
                (b + turns) % 4,
                true,
                switch,
            ));
        } else {
            lemma_turning_twice(model, fits, colors, a, turns);
            assert(form(model, q, turns, false, switch) == form(
                model,
                p,
                (a + turns) % 4,
                false,
                switch,
            ));
        }
    }
}

/// A position is also its redrawn position redrawn.
proof fn lemma_redrawn_back(
    model: BoardModel,
    fits: spec_fn(Seq<Placement>) -> bool,
    p: Seq<Placement>,
    q: Seq<Placement>,
)
    requires
        symmetric(model, fits),
        fits(p),
        redrawn(model, p, q),
    ensures
        fits(q),
        redrawn(model, q, p),
        q.len() == p.len(),
{
    lemma_flips(model, fits, p);
    if q != (model.mirrored)(p) && q != (model.switched)(p) {
        let rotation = choose|rotation: Rotation| q == #[trigger] (model.rotated)(p, rotation);
        assert(turned(model, p, rotation_index(rotation) as int) == q);
        lemma_turning(model, fits, p, rotation_index(rotation) as int);
        turning_back_gives_the_stones_back(model, fits, p, rotation);
        assert(p == (model.rotated)(q, moves_rotation(rotation)));
    }
}

/// On a square board a game has a position if and only if it has the position redrawn.
pub proof fn games_are_found_whichever_way_round(
    model: BoardModel,
    fits: spec_fn(Seq<Placement>) -> bool,
    p: Seq<Placement>,
    q: Seq<Placement>,
    path: Seq<char>,
    game: GameView,
)
    requires
        symmetric(model, fits),
        fits(p),
        redrawn(model, p, q),
    ensures
        game_result(model, p, path, game) is Some <==> game_result(model, q, path, game) is Some,
{
    lemma_redrawn_back(model, fits, p, q);
    lemma_found_by_form(model, fits, p, path, game);
    lemma_found_by_form(model, fits, q, path, game);
    if has_form(model, q, game.moves) {
        lemma_redrawn_forms(model, fits, p, q, game.moves);
    }
    if has_form(model, p, game.moves) {
        lemma_redrawn_forms(model, fits, q, p, game.moves);
    }
}

/// Whether a board finds a position in a game with the same move if both are turned alike, or both
/// are mirrored.
#[verifier::opaque]
pub open spec fn finds_alike(
    model: BoardModel,
    position: Seq<Placement>,
    moves: Seq<Placement>,
) -> bool {
    let found = (model.matched)(position, moves);
    &&& (model.matched)((model.mirrored)(position), (model.mirrored)(moves)) == found
    &&& forall|a: int|
        0 <= a < 4 ==> (model.matched)(
            #[trigger] turned(model, position, a),
            turned(model, moves, a),
        ) == found
}

/// Whether a board finds positions in games whichever way round they lie, as long as both fit it.
pub open spec fn finds_whichever_way_round(
    model: BoardModel,
    fits: spec_fn(Seq<Placement>) -> bool,
) -> bool {
    forall|position: Seq<Placement>, moves: Seq<Placement>|
        fits(position) && fits(moves) ==> #[trigger] finds_alike(model, position, moves)
}

/// The quarter turns of an attempt.
spec fn turns_of(attempt: AttemptView) -> int {
    match attempt.rotation {
        Some(rotation) => rotation_index(rotation) as int,
        None => 0,
    }
}

/// What an attempt looks for is the position as the attempt sees it, turned.
proof fn lemma_attempt_form(
    model: BoardModel,
    fits: spec_fn(Seq<Placement>) -> bool,
    p: Seq<Placement>,
    i: int,
)
    requires
        symmetric(model, fits),
        fits(p),
        0 <= i < attempts(model, p).len(),
    ensures
        ({
            let attempt = attempts(model, p)[i];
            attempt.form == form(
                model,
                p,
                turns_of(attempt),
                attempt.is_mirrored,
                attempt.is_inverted,
            )
        }),
{
    let attempt = attempts(model, p)[i];
    let seen = side(model, p, attempt.is_mirrored, attempt.is_inverted);
    lemma_side_fits(model, fits, p, false, false);
    lemma_side_fits(model, fits, p, true, false);
    lemma_side_fits(model, fits, p, false, true);
    lemma_side_fits(model, fits, p, true, true);
    lemma_rotations(model, fits, side(model, p, false, false));
    lemma_rotations(model, fits, side(model, p, true, false));
    lemma_rotations(model, fits, side(model, p, false, true));
    lemma_rotations(model, fits, side(model, p, true, true));
    if let Some(rotation) = attempt.rotation {
        assert(attempt.form == (model.rotated)(seen, rotation));
    } else {
        assert(attempt.form == seen);
    }
}

/// The transformed moves of a result hold the position where it was drawn: on a square board the
/// position, or the position with its colours exchanged, is found in them as it is, with the move
/// that the result tells. They are as many as the moves of the game.
pub proof fn transformed_moves_hold_the_position(
    model: BoardModel,
    fits: spec_fn(Seq<Placement>) -> bool,
    p: Seq<Placement>,
    path: Seq<char>,
    game: GameView,
)
    requires
        symmetric(model, fits),
        finds_whichever_way_round(model, fits),
        fits(p),
        fits(game.moves),
    ensures
        game_result(model, p, path, game) matches Some(result) ==> {
            let drawn = if result.is_inverted {
                (model.switched)(p)
            } else {
                p
            };
            &&& (model.matched)(drawn, result.moves_transformed) == Some(result.last_move_matched)
            &&& result.moves_transformed.len() == result.moves.len()
        },
{
    let list = attempts(model, p);
    let moves = game.moves;
    located_is_the_first_success(model, list, moves);
    if let Some((attempt, last)) = located(model, list, moves) {
        let i = choose|i: int| 0 <= i < list.len() && #[trigger] list[i] == attempt;
        lemma_attempt_form(model, fits, p, i);
        let drawn = side(model, p, false, attempt.is_inverted);
        let turns = turns_of(attempt);
        let back = (4 - turns) % 4;
        lemma_flips(model, fits, p);
        lemma_flips(model, fits, drawn);
        lemma_flips(model, fits, moves);
        let mirror = (model.mirrored)(moves);
        if attempt.is_mirrored {
            let seen = (model.mirrored)(drawn);
            assert(attempt.form == turned(model, seen, turns));
            lemma_turning(model, fits, seen, turns);
            lemma_found_mirrored(model, fits, attempt.form, moves);
            assert((model.mirrored)(attempt.form) == turned(model, drawn, back));
            lemma_turning(model, fits, drawn, back);
            lemma_found_turned(model, fits, turned(model, drawn, back), mirror, turns);
            lemma_turning_twice(model, fits, drawn, back, turns);
            lemma_turning(model, fits, mirror, turns);
            assert(transformed_moves(model, moves, attempt) == turned(model, mirror, turns));
        } else {
            assert(attempt.form == turned(model, drawn, turns));
            lemma_turning(model, fits, drawn, turns);
            lemma_found_turned(model, fits, attempt.form, moves, back);
            lemma_turning_twice(model, fits, drawn, turns, back);
            lemma_turning(model, fits, moves, back);
            assert(transformed_moves(model, moves, attempt) == turned(model, moves, back));
        }
    }
}

proof fn lemma_found_mirrored(
    model: BoardModel,
    fits: spec_fn(Seq<Placement>) -> bool,
    position: Seq<Placement>,
    moves: Seq<Placement>,
)
    requires
        finds_whichever_way_round(model, fits),
        fits(position),
        fits(moves),
    ensures
        (model.matched)((model.mirrored)(position), (model.mirrored)(moves)) == (model.matched)(
            position,
            moves,
        ),
{
    assert(finds_alike(model, position, moves));
    reveal(finds_alike);
}

proof fn lemma_found_turned(
    model: BoardModel,
    fits: spec_fn(Seq<Placement>) -> bool,
    position: Seq<Placement>,
    moves: Seq<Placement>,
    turns: int,
)
    requires
        finds_whichever_way_round(model, fits),
        fits(position),
        fits(moves),
        0 <= turns < 4,
    ensures
        (model.matched)(turned(model, position, turns), turned(model, moves, turns)) == (
        model.matched)(position, moves),
{
    assert(finds_alike(model, position, moves));
    reveal(finds_alike);
}

/// Whether one of the results has this path.
pub open spec fn gives_path(results: Seq<SearchResultView>, path: Seq<char>) -> bool {
    exists|k: int| 0 <= k < results.len() && (#[trigger] results[k]).path == path
}

/// On a square board a search gives the same games whichever way round the pattern is drawn and
/// whichever colour plays which side.
pub proof fn orientation_does_not_change_what_is_found(
    model: BoardModel,
    fits: spec_fn(Seq<Placement>) -> bool,
    p: Seq<Placement>,
    q: Seq<Placement>,
    games: Seq<(Seq<char>, GameView)>,
    path: Seq<char>,
)
    requires
        symmetric(model, fits),
        fits(p),
        p.len() > 0,
        redrawn(model, p, q),
        games.len() <= usize::MAX,
    ensures
        gives_path(position_matches(model, p, games), path) <==> gives_path(
            position_matches(model, q, games),
            path,
        ),
{
    lemma_redrawn_back(model, fits, p, q);
    if gives_path(position_matches(model, p, games), path) {
        lemma_given_again(model, fits, p, q, games, path);
    }
    if gives_path(position_matches(model, q, games), path) {
        lemma_given_again(model, fits, q, p, games, path);
    }
}

proof fn lemma_given_again(
    model: BoardModel,
    fits: spec_fn(Seq<Placement>) -> bool,
    p: Seq<Placement>,
    q: Seq<Placement>,
    games: Seq<(Seq<char>, GameView)>,
    path: Seq<char>,
)
    requires
        symmetric(model, fits),
        fits(p),
        p.len() > 0,
        q.len() > 0,
        redrawn(model, p, q),
        games.len() <= usize::MAX,
        gives_path(position_matches(model, p, games), path),
    ensures
        gives_path(position_matches(model, q, games), path),
{
    let first = position_matches(model, p, games);
    let second = position_matches(model, q, games);
    let k = choose|k: int| 0 <= k < first.len() && (#[trigger] first[k]).path == path;
    games_are_given_if_they_match(model, p, games);
    let i = choose|i: int|
        0 <= i < games.len() && game_result(model, p, (#[trigger] games[i]).0, games[i].1) == Some(
            first[k],
        );
    games_are_found_whichever_way_round(model, fits, p, q, games[i].0, games[i].1);
    games_are_given_if_they_match(model, q, games);
    let result = game_result(model, q, games[i].0, games[i].1).unwrap();
    assert(second.contains(result));
    let l = choose|l: int| 0 <= l < second.len() && second[l] == result;
    assert(second[l].path == path);
}

} // verus!
