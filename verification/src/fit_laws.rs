//! What a result tells of the way in which a game has a position, and what its score is made of.

use crate::baduk::{GameView, Placement, Point, Rotation};
use crate::board::BoardModel;
use crate::matching::{
    attempts, captured, captured_set, family, game_result, located, open_points, searchable,
    surroundings, sweep, transformed_moves, AttemptView, SearchResultView,
};
use crate::stones::{
    in_order, in_order_keeps_the_stones, same_stones_have_one_order, stone_order,
    stones_in_order_stay,
};
use vstd::prelude::*;
use vstd::relations::sorted_by;

verus! {

/// Whether a form of a position does not occur in the moves, neither as it is nor rotated.
pub open spec fn is_absent(
    model: BoardModel,
    form: Seq<Placement>,
    moves: Seq<Placement>,
) -> bool {
    &&& (model.matched)(form, moves) is None
    &&& forall|i: int|
        0 <= i < (model.rotations)(form).len() ==> (model.matched)(
            (#[trigger] (model.rotations)(form)[i]).1,
            moves,
        ) is None
}

/// Whether the rotation of a position is its first one that occurs in the moves, with this move,
/// the position as it is does not, and the rotation has this many quarter turns.
pub open spec fn is_first_rotation(
    model: BoardModel,
    form: Seq<Placement>,
    moves: Seq<Placement>,
    i: int,
    turns: u8,
    last: usize,
) -> bool {
    let rotations = (model.rotations)(form);
    &&& 0 <= i < rotations.len()
    &&& (model.matched)(form, moves) is None
    &&& (model.matched)(rotations[i].1, moves) == Some(last)
    &&& forall|j: int|
        0 <= j < i ==> (model.matched)((#[trigger] rotations[j]).1, moves) is None
    &&& match rotations[i].0 {
        Rotation::Degrees90 => turns == 1,
        Rotation::Degrees180 => turns == 2,
        Rotation::Degrees270 => turns == 3,
    }
}

/// Whether a position occurs in the moves in one of its rotations, but not as it is; the first such
/// rotation has this many quarter turns and is found with this move.
pub open spec fn occurs_turned(
    model: BoardModel,
    form: Seq<Placement>,
    moves: Seq<Placement>,
    turns: u8,
    last: usize,
) -> bool {
    exists|i: int| #[trigger] is_first_rotation(model, form, moves, i, turns, last)
}

/// A position in the colours in which a result has it.
pub open spec fn found_colors(
    model: BoardModel,
    position: Seq<Placement>,
    is_inverted: bool,
) -> Seq<Placement> {
    if is_inverted {
        (model.switched)(position)
    } else {
        position
    }
}

/// A position in the colours and on the side in which a result has it.
pub open spec fn found_side(
    model: BoardModel,
    position: Seq<Placement>,
    is_inverted: bool,
    is_mirrored: bool,
) -> Seq<Placement> {
    if is_mirrored {
        (model.mirrored)(found_colors(model, position, is_inverted))
    } else {
        found_colors(model, position, is_inverted)
    }
}

/// Stones after a number of quarter turns.
pub open spec fn after_turns(model: BoardModel, stones: Seq<Placement>, turns: int) -> Seq<
    Placement,
> {
    if turns == 1 {
        (model.rotated)(stones, Rotation::Degrees90)
    } else if turns == 2 {
        (model.rotated)(stones, Rotation::Degrees180)
    } else if turns == 3 {
        (model.rotated)(stones, Rotation::Degrees270)
    } else {
        stones
    }
}

/// Stones of a game as they lie for someone who looks at a result: mirrored and then turned if the
/// position was found mirrored, and turned back if it was found turned.
pub open spec fn as_seen(
    model: BoardModel,
    result: SearchResultView,
    stones: Seq<Placement>,
) -> Seq<Placement> {
    if result.is_mirrored {
        after_turns(model, (model.mirrored)(stones), result.rotation as int)
    } else {
        after_turns(model, stones, (4 - result.rotation) % 4)
    }
}

/// What the form in which a game has a position is worth: the more it is like the position as it
/// was drawn, the more.
pub open spec fn form_worth(
    model: BoardModel,
    position: Seq<Placement>,
    result: SearchResultView,
) -> int {
    let whole_board = result.is_mirrored && !(model.within_one_quadrant)(position);
    let plain: int = if whole_board && result.is_inverted {
        9
    } else if whole_board {
        10
    } else if result.is_inverted {
        90
    } else {
        100
    };
    if result.rotation == 0 {
        plain
    } else {
        plain - 1
    }
}

proof fn lemma_located_joined(
    model: BoardModel,
    a: Seq<AttemptView>,
    b: Seq<AttemptView>,
    moves: Seq<Placement>,
)
    ensures
        located(model, a + b, moves) == (match located(model, a, moves) {
            Some(found) => Some(found),
            None => located(model, b, moves),
        }),
    decreases a.len(),
{
    if a.len() == 0 {
        assert(a + b =~= b);
    } else {
        assert((a + b)[0] == a[0]);
        assert((a + b).drop_first() =~= a.drop_first() + b);
        lemma_located_joined(model, a.drop_first(), b, moves);
    }
}

/// The first of the attempts that succeeds, with its place.
proof fn lemma_located_place(
    model: BoardModel,
    list: Seq<AttemptView>,
    moves: Seq<Placement>,
) -> (i: int)
    ensures
        match located(model, list, moves) {
            None => i == list.len() && forall|j: int|
                0 <= j < list.len() ==> (model.matched)((#[trigger] list[j]).form, moves) is None,
            Some((attempt, last)) => 0 <= i < list.len() && list[i] == attempt && (model.matched)(
                attempt.form,
                moves,
            ) == Some(last) && forall|j: int|
                0 <= j < i ==> (model.matched)((#[trigger] list[j]).form, moves) is None,
        },
    decreases list.len(),
{
    if list.len() == 0 {
        0
    } else if (model.matched)(list[0].form, moves) is Some {
        0
    } else {
        let rest = list.drop_first();
        let k = lemma_located_place(model, rest, moves);
        assert forall|j: int| 0 <= j < k + 1 && j < list.len() implies (model.matched)(
            (#[trigger] list[j]).form,
            moves,
        ) is None by {
            if j > 0 {
                assert(rest[j - 1] == list[j]);
            }
        }
        k + 1
    }
}

/// What an attempt out of a family tells of the form.
spec fn family_finds(
    model: BoardModel,
    form: Seq<Placement>,
    moves: Seq<Placement>,
    mirrored: bool,
    inverted: bool,
    score: i16,
    attempt: AttemptView,
    last: usize,
) -> bool {
    &&& attempt.is_mirrored == mirrored
    &&& attempt.is_inverted == inverted
    &&& match attempt.rotation {
        None => attempt.form == form && attempt.score == score && (model.matched)(form, moves)
            == Some(last),
        Some(rotation) => {
            &&& attempt.score == score - 1
            &&& occurs_turned(model, form, moves, turns_of(rotation), last)
        },
    }
}

spec fn turns_of(rotation: Rotation) -> u8 {
    match rotation {
        Rotation::Degrees90 => 1,
        Rotation::Degrees180 => 2,
        Rotation::Degrees270 => 3,
    }
}

proof fn lemma_family(
    model: BoardModel,
    form: Seq<Placement>,
    moves: Seq<Placement>,
    mirrored: bool,
    inverted: bool,
    score: i16,
)
    requires
        score > 0,
    ensures
        match located(model, family(model, form, mirrored, inverted, score), moves) {
            None => is_absent(model, form, moves),
            Some((attempt, last)) => family_finds(
                model,
                form,
                moves,
                mirrored,
                inverted,
                score,
                attempt,
                last,
            ),
        },
{
    let list = family(model, form, mirrored, inverted, score);
    let rotations = (model.rotations)(form);
    let place = lemma_located_place(model, list, moves);
    assert(list.len() == rotations.len() + 1);
    assert(list[0].form == form);
    assert forall|j: int| 0 <= j < rotations.len() implies list[j + 1].form
        == (#[trigger] rotations[j]).1 && list[j + 1].rotation == Some(rotations[j].0) by {}
    match located(model, list, moves) {
        None => {
            assert((model.matched)(list[0].form, moves) is None);
            assert forall|j: int| 0 <= j < rotations.len() implies (model.matched)(
                (#[trigger] rotations[j]).1,
                moves,
            ) is None by {
                assert((model.matched)(list[j + 1].form, moves) is None);
            }
        },
        Some((attempt, last)) => {
            if place > 0 {
                let i = place - 1;
                assert((model.matched)(list[0].form, moves) is None);
                assert(list[place].form == rotations[i].1);
                assert forall|j: int| 0 <= j < i implies (model.matched)(
                    (#[trigger] rotations[j]).1,
                    moves,
                ) is None by {
                    assert((model.matched)(list[j + 1].form, moves) is None);
                }
                assert(is_first_rotation(model, form, moves, i, turns_of(rotations[i].0), last));
            }
        },
    }
}

/// What is known of the attempt that finds a position.
spec fn plainest(
    model: BoardModel,
    p: Seq<Placement>,
    moves: Seq<Placement>,
    attempt: AttemptView,
    last: usize,
    score: i16,
) -> bool {
    let colors = found_colors(model, p, attempt.is_inverted);
    let side = found_side(model, p, attempt.is_inverted, attempt.is_mirrored);
    &&& attempt.is_inverted ==> is_absent(model, p, moves) && is_absent(
        model,
        (model.mirrored)(p),
        moves,
    )
    &&& attempt.is_mirrored ==> is_absent(model, colors, moves)
    &&& score > 1
    &&& score == (if attempt.is_mirrored && !(model.within_one_quadrant)(p) {
        if attempt.is_inverted {
            9int
        } else {
            10
        }
    } else if attempt.is_inverted {
        90
    } else {
        100
    })
    &&& family_finds(
        model,
        side,
        moves,
        attempt.is_mirrored,
        attempt.is_inverted,
        score,
        attempt,
        last,
    )
}

proof fn lemma_plainest(model: BoardModel, p: Seq<Placement>, moves: Seq<Placement>)
    ensures
        match located(model, attempts(model, p), moves) {
            None => {
                &&& is_absent(model, p, moves)
                &&& is_absent(model, (model.mirrored)(p), moves)
                &&& is_absent(model, (model.switched)(p), moves)
                &&& is_absent(model, (model.mirrored)((model.switched)(p)), moves)
            },
            Some((attempt, last)) => exists|score: i16| #[trigger]
                plainest(model, p, moves, attempt, last, score),
        },
{
    let local = (model.within_one_quadrant)(p);
    let inverse = (model.switched)(p);
    let high: i16 = if local {
        100
    } else {
        10
    };
    let low: i16 = if local {
        90
    } else {
        9
    };
    let first = family(model, p, false, false, 100);
    let second = family(model, (model.mirrored)(p), true, false, high);
    let third = family(model, inverse, false, true, 90);
    let fourth = family(model, (model.mirrored)(inverse), true, true, low);
    assert(attempts(model, p) == first + second + third + fourth);
    lemma_located_joined(model, first, second, moves);
    lemma_located_joined(model, first + second, third, moves);
    lemma_located_joined(model, first + second + third, fourth, moves);
    lemma_family(model, p, moves, false, false, 100);
    lemma_family(model, (model.mirrored)(p), moves, true, false, high);
    lemma_family(model, inverse, moves, false, true, 90);
    lemma_family(model, (model.mirrored)(inverse), moves, true, true, low);
    if let Some((attempt, last)) = located(model, attempts(model, p), moves) {
        if located(model, first, moves) is Some {
            assert(plainest(model, p, moves, attempt, last, 100));
        } else if located(model, second, moves) is Some {
            assert(plainest(model, p, moves, attempt, last, high));
        } else if located(model, third, moves) is Some {
            assert(plainest(model, p, moves, attempt, last, 90));
        } else {
            assert(plainest(model, p, moves, attempt, last, low));
        }
    }
}

/// A game is given in the form that is most like the position as it was drawn: with exchanged
/// colours only if it has the position in the colours that were asked for neither as it is nor
/// mirrored, in no rotation; mirrored only if it does not have it unmirrored in the same colours,
/// in no rotation; and turned only if it does not have it unturned. A game that is not given has it
/// in no form at all.
pub proof fn plainest_form_is_given(
    model: BoardModel,
    position: Seq<Placement>,
    path: Seq<char>,
    game: GameView,
)
    ensures
        match game_result(model, position, path, game) {
            None => {
                &&& is_absent(model, position, game.moves)
                &&& is_absent(model, (model.mirrored)(position), game.moves)
                &&& is_absent(model, (model.switched)(position), game.moves)
                &&& is_absent(model, (model.mirrored)((model.switched)(position)), game.moves)
            },
            Some(result) => {
                let colors = found_colors(model, position, result.is_inverted);
                let side = found_side(model, position, result.is_inverted, result.is_mirrored);
                &&& result.is_inverted ==> is_absent(model, position, game.moves) && is_absent(
                    model,
                    (model.mirrored)(position),
                    game.moves,
                )
                &&& result.is_mirrored ==> is_absent(model, colors, game.moves)
                &&& result.rotation == 0 ==> (model.matched)(side, game.moves) == Some(
                    result.last_move_matched,
                )
                &&& result.rotation != 0 ==> occurs_turned(
                    model,
                    side,
                    game.moves,
                    result.rotation,
                    result.last_move_matched,
                )
            },
        },
{
    lemma_plainest(model, position, game.moves);
}

/// A result tells the moves of the game, and how they lie for someone who drew the position; it
/// keeps the path of the game, what is known of it, and its players.
pub proof fn results_show_their_games(
    model: BoardModel,
    position: Seq<Placement>,
    path: Seq<char>,
    game: GameView,
)
    ensures
        game_result(model, position, path, game) matches Some(result) ==> {
            &&& result.path == path
            &&& result.moves == game.moves
            &&& result.moves_transformed == as_seen(model, result, game.moves)
            &&& result.details == game.details
            &&& result.player_black == game.player_black
            &&& result.player_white == game.player_white
            &&& result.rotation <= 3
            &&& result.all_empty_correctly_within <= 3
        },
{
}

/// Whether a board tells of some points that they are empty if and only if none of the moves is on
/// one of them.
pub open spec fn sees_stones(model: BoardModel) -> bool {
    forall|points: Seq<Point>, moves: Seq<Placement>|
        #![trigger (model.empty)(points, moves)]
        (model.empty)(points, moves) <==> forall|i: int, j: int|
            0 <= i < points.len() && 0 <= j < moves.len() ==> #[trigger] points[i] != (
            #[trigger] moves[j]).point
}

/// Whether a stone was captured on a point by the move that completes the position, or before, seen
/// as the result sees the game.
pub open spec fn was_captured(
    model: BoardModel,
    game: GameView,
    result: SearchResultView,
    point: Point,
) -> bool {
    exists|number: usize, k: int|
        #![trigger game.captures[number], as_seen(model, result, game.captures[number])[k]]
        {
            let stones = as_seen(model, result, game.captures[number]);
            &&& number <= result.last_move_matched
            &&& game.captures.dom().contains(number)
            &&& 0 <= k < stones.len()
            &&& stones[k].point == point
        }
}

/// Whether a stone on a point disturbs a position: it was played before the move that completes the
/// position, was not captured by then, and is not on a point of the position.
pub open spec fn disturbs(
    model: BoardModel,
    position: Seq<Placement>,
    game: GameView,
    result: SearchResultView,
    point: Point,
) -> bool {
    &&& exists|k: int|
        0 <= k < result.last_move_matched && (#[trigger] result.moves_transformed[k]).point
            == point
    &&& forall|k: int| 0 <= k < position.len() ==> (#[trigger] position[k]).point != point
    &&& !was_captured(model, game, result, point)
}

/// Whether the points at a distance from a point are disturbed, other than those that were seen
/// before.
pub open spec fn is_disturbed(
    model: BoardModel,
    position: Seq<Placement>,
    game: GameView,
    result: SearchResultView,
    stone: Point,
    distance: u8,
    seen: Set<Point>,
) -> bool {
    exists|point: Point|
        #![trigger disturbs(model, position, game, result, point)]
        (model.surrounding)(stone, distance).contains(point) && !seen.contains(point) && disturbs(
            model,
            position,
            game,
            result,
            point,
        )
}

/// Whether the stone with this number is the first one that is disturbed at a distance; it is the
/// number of the stones if none is.
pub open spec fn is_first_disturbed(
    model: BoardModel,
    position: Seq<Placement>,
    game: GameView,
    result: SearchResultView,
    stones: Seq<Placement>,
    distance: u8,
    seen: Set<Point>,
    number: int,
) -> bool {
    &&& 0 <= number <= stones.len()
    &&& forall|i: int|
        0 <= i < number ==> !is_disturbed(
            model,
            position,
            game,
            result,
            (#[trigger] stones[i]).point,
            distance,
            seen,
        )
    &&& number < stones.len() ==> is_disturbed(
        model,
        position,
        game,
        result,
        stones[number].point,
        distance,
        seen,
    )
}

/// The points around the stones up to the one with this number, at a distance, and those that were
/// seen before.
pub open spec fn seen_up_to(
    model: BoardModel,
    stones: Seq<Placement>,
    distance: u8,
    seen: Set<Point>,
    number: int,
) -> Set<Point> {
    Set::new(
        |point: Point|
            seen.contains(point) || exists|i: int|
                #![trigger stones[i]]
                0 <= i <= number && i < stones.len() && (model.surrounding)(
                    stones[i].point,
                    distance,
                ).contains(point),
    )
}

/// Whether stones go by column, then by row, and black before white.
pub open spec fn go_by_columns(stones: Seq<Placement>) -> bool {
    forall|i: int, j: int|
        0 <= i < j < stones.len() ==> {
            let a = #[trigger] stones[i];
            let b = #[trigger] stones[j];
            ||| a.point.x < b.point.x
            ||| a.point.x == b.point.x && a.point.y < b.point.y
            ||| a.point == b.point && (a.color == b.color || a.color is Black)
        }
}

/// Whether a stone of the position is not clear: one of the points around it that were not checked
/// has a stone that was not removed.
spec fn is_blocked(
    model: BoardModel,
    stones: Seq<Placement>,
    removed: Set<Point>,
    moves: Seq<Placement>,
    checked: Set<Point>,
    stone: Point,
    distance: u8,
) -> bool {
    exists|point: Point| #[trigger]
        blocks(stones, removed, moves, point) && (model.surrounding)(stone, distance).contains(
            point,
        ) && !checked.contains(point)
}

spec fn blocks(
    stones: Seq<Placement>,
    removed: Set<Point>,
    moves: Seq<Placement>,
    point: Point,
) -> bool {
    &&& exists|k: int| 0 <= k < moves.len() && (#[trigger] moves[k]).point == point
    &&& forall|k: int| 0 <= k < stones.len() ==> (#[trigger] stones[k]).point != point
    &&& !removed.contains(point)
}

proof fn lemma_filter_contains(points: Seq<Point>, pred: spec_fn(Point) -> bool, point: Point)
    ensures
        points.filter(pred).contains(point) <==> points.contains(point) && pred(point),
    decreases points.len(),
{
    reveal(Seq::filter);
    if points.len() > 0 {
        let rest = points.drop_last();
        let last = points.last();
        lemma_filter_contains(rest, pred, point);
        assert(points =~= rest.push(last));
        assert(rest.push(last).contains(point) <==> rest.contains(point) || last == point) by {
            if rest.contains(point) {
                let k = choose|k: int| 0 <= k < rest.len() && rest[k] == point;
                assert(rest.push(last)[k] == point);
            }
            if last == point {
                assert(rest.push(last)[rest.len() as int] == point);
            }
        }
        let kept = rest.filter(pred);
        if pred(last) {
            assert(kept.push(last).contains(point) <==> kept.contains(point) || last == point) by {
                if kept.contains(point) {
                    let k = choose|k: int| 0 <= k < kept.len() && kept[k] == point;
                    assert(kept.push(last)[k] == point);
                }
                if last == point {
                    assert(kept.push(last)[kept.len() as int] == point);
                }
            }
        }
    }
}

/// The points that have to be looked at are disturbed if and only if the stone is blocked.
proof fn lemma_open_points(
    model: BoardModel,
    stones: Seq<Placement>,
    removed: Set<Point>,
    moves: Seq<Placement>,
    checked: Seq<Point>,
    stone: Point,
    distance: u8,
)
    requires
        sees_stones(model),
    ensures
        (model.empty)(open_points(model, stones, removed, checked, stone, distance), moves)
            <==> !is_blocked(model, stones, removed, moves, checked.to_set(), stone, distance),
        forall|point: Point| #[trigger]
            open_points(model, stones, removed, checked, stone, distance).contains(point)
                && (model.empty)(
                open_points(model, stones, removed, checked, stone, distance),
                moves,
            ) ==> !blocks(stones, removed, moves, point),
{
    let around = (model.surrounding)(stone, distance);
    let points = open_points(model, stones, removed, checked, stone, distance);
    let pred = crate::matching::is_open(stones, removed, checked);
    if is_blocked(model, stones, removed, moves, checked.to_set(), stone, distance) {
        let point = choose|point: Point| #[trigger]
            blocks(stones, removed, moves, point) && around.contains(point)
                && !checked.to_set().contains(point);
        lemma_filter_contains(around, pred, point);
        assert(points.contains(point));
        let i = choose|i: int| 0 <= i < points.len() && points[i] == point;
        let j = choose|j: int| 0 <= j < moves.len() && (#[trigger] moves[j]).point == point;
        assert(points[i] == moves[j].point);
    }
    if !(model.empty)(points, moves) {
        let (i, j) = choose|i: int, j: int|
            0 <= i < points.len() && 0 <= j < moves.len() && #[trigger] points[i] == (
            #[trigger] moves[j]).point;
        lemma_filter_contains(around, pred, points[i]);
        assert(points.contains(points[i]));
        assert(blocks(stones, removed, moves, points[i]));
    }
    assert forall|point: Point| #[trigger]
        points.contains(point) && (model.empty)(points, moves) implies !blocks(
        stones,
        removed,
        moves,
        point,
    ) by {
        let i = choose|i: int| 0 <= i < points.len() && points[i] == point;
        if blocks(stones, removed, moves, point) {
            let j = choose|j: int| 0 <= j < moves.len() && (#[trigger] moves[j]).point == point;
            assert(points[i] == moves[j].point);
        }
    }
}

/// What a look finds, without going through it step by step.
proof fn lemma_look(
    model: BoardModel,
    stones: Seq<Placement>,
    removed: Set<Point>,
    moves: Seq<Placement>,
    distance: u8,
    from: int,
    checked: Seq<Point>,
)
    requires
        sees_stones(model),
        0 <= from <= stones.len(),
    ensures
        ({
            let look = sweep(model, stones, removed, moves, distance, from, checked);
            let stop = from + look.clear;
            &&& stop <= stones.len()
            &&& look.all_empty <==> stop == stones.len()
            &&& forall|i: int|
                from <= i < stop ==> !is_blocked(
                    model,
                    stones,
                    removed,
                    moves,
                    checked.to_set(),
                    (#[trigger] stones[i]).point,
                    distance,
                )
            &&& stop < stones.len() ==> is_blocked(
                model,
                stones,
                removed,
                moves,
                checked.to_set(),
                stones[stop].point,
                distance,
            )
            &&& forall|point: Point| #[trigger]
                blocks(stones, removed, moves, point) ==> (look.checked.contains(point)
                    <==> checked.contains(point) || exists|i: int|
                    #![trigger stones[i]]
                    from <= i <= stop && i < stones.len() && (model.surrounding)(
                        stones[i].point,
                        distance,
                    ).contains(point))
        }),
    decreases stones.len() - from,
{
    let look = sweep(model, stones, removed, moves, distance, from, checked);
    if from < stones.len() {
        let stone = stones[from].point;
        let around = (model.surrounding)(stone, distance);
        let points = open_points(model, stones, removed, checked, stone, distance);
        let pred = crate::matching::is_open(stones, removed, checked);
        let more = checked + points;
        lemma_open_points(model, stones, removed, moves, checked, stone, distance);
        assert forall|point: Point| #[trigger] more.contains(point) <==> checked.contains(point)
            || (around.contains(point) && pred(point)) by {
            lemma_filter_contains(around, pred, point);
            if checked.contains(point) {
                let k = choose|k: int| 0 <= k < checked.len() && checked[k] == point;
                assert(more[k] == point);
            }
            if points.contains(point) {
                let k = choose|k: int| 0 <= k < points.len() && points[k] == point;
                assert(more[checked.len() + k] == point);
            }
        }
        assert forall|point: Point| #[trigger] blocks(stones, removed, moves, point) implies (
        more.contains(point) <==> checked.contains(point) || around.contains(point)) by {
            assert(pred(point) <==> !checked.contains(point));
        }
        if (model.empty)(points, moves) {
            lemma_look(model, stones, removed, moves, distance, from + 1, more);
            let rest = sweep(model, stones, removed, moves, distance, from + 1, more);
            assert forall|point: Point| #[trigger] blocks(stones, removed, moves, point) implies (
            more.to_set().contains(point) <==> checked.to_set().contains(point)) by {
                if more.contains(point) && !checked.contains(point) {
                    lemma_filter_contains(around, pred, point);
                    assert(points.contains(point));
                }
            }
            assert forall|other: Point| #[trigger]
                is_blocked(model, stones, removed, moves, more.to_set(), other, distance)
                    == is_blocked(
                    model,
                    stones,
                    removed,
                    moves,
                    checked.to_set(),
                    other,
                    distance,
                ) by {}
            assert forall|i: int| from <= i < from + look.clear implies !is_blocked(
                model,
                stones,
                removed,
                moves,
                checked.to_set(),
                (#[trigger] stones[i]).point,
                distance,
            ) by {
                if i > from {
                    assert(!is_blocked(
                        model,
                        stones,
                        removed,
                        moves,
                        more.to_set(),
                        stones[i].point,
                        distance,
                    ));
                }
            }
            if from + look.clear < stones.len() {
                assert(is_blocked(
                    model,
                    stones,
                    removed,
                    moves,
                    more.to_set(),
                    stones[from + look.clear].point,
                    distance,
                ));
            }
            assert forall|point: Point| #[trigger] blocks(stones, removed, moves, point) implies (
            look.checked.contains(point) <==> checked.contains(point) || exists|i: int|
                #![trigger stones[i]]
                from <= i <= from + look.clear && i < stones.len() && (model.surrounding)(
                    stones[i].point,
                    distance,
                ).contains(point)) by {
                assert(rest.checked.contains(point) <==> more.contains(point) || exists|i: int|
                    #![trigger stones[i]]
                    from + 1 <= i <= from + 1 + rest.clear && i < stones.len() && (
                    model.surrounding)(stones[i].point, distance).contains(point));
                if around.contains(point) {
                    assert(stones[from].point == stone);
                }
            }
        } else {
            assert(look.checked == more);
            assert forall|point: Point| #[trigger] blocks(stones, removed, moves, point) implies (
            look.checked.contains(point) <==> checked.contains(point) || exists|i: int|
                #![trigger stones[i]]
                from <= i <= from && i < stones.len() && (model.surrounding)(
                    stones[i].point,
                    distance,
                ).contains(point)) by {
                if around.contains(point) {
                    assert(stones[from].point == stone);
                }
            }
        }
    }
}

proof fn lemma_same_members(a: Seq<Placement>, b: Seq<Placement>, stone: Placement)
    requires
        a.to_multiset() == b.to_multiset(),
        a.contains(stone),
    ensures
        b.contains(stone),
{
    a.to_multiset_ensures();
    b.to_multiset_ensures();
    assert(a.to_multiset().count(stone) > 0);
}

/// What blocks a look is what disturbs the position.
proof fn lemma_blocks(
    model: BoardModel,
    position: Seq<Placement>,
    path: Seq<char>,
    game: GameView,
    stones: Seq<Placement>,
    attempt: AttemptView,
    last: usize,
)
    requires
        searchable(model, position, game),
        stones.to_multiset() == position.to_multiset(),
        located(model, attempts(model, position), game.moves) == Some((attempt, last)),
    ensures
        game_result(model, position, path, game) matches Some(result) && forall|point: Point|
            #![trigger disturbs(model, position, game, result, point)]
            #![trigger blocks(
                stones,
                captured_set(model, game.captures, last, attempt),
                transformed_moves(model, game.moves, attempt).take(last as int),
                point,
            )]
            disturbs(model, position, game, result, point) <==> blocks(
                stones,
                captured_set(model, game.captures, last, attempt),
                transformed_moves(model, game.moves, attempt).take(last as int),
                point,
            ),
{
    let result = game_result(model, position, path, game).unwrap();
    let removed = captured_set(model, game.captures, last, attempt);
    let all = transformed_moves(model, game.moves, attempt);
    let moves = all.take(last as int);
    assert forall|ms: Seq<Placement>| #[trigger] as_seen(model, result, ms) == transformed_moves(
        model,
        ms,
        attempt,
    ) by {}
    assert forall|point: Point|
        #![trigger disturbs(model, position, game, result, point)]
        #![trigger blocks(stones, removed, moves, point)]
        disturbs(model, position, game, result, point) <==> blocks(
            stones,
            removed,
            moves,
            point,
        ) by {
        if exists|k: int|
            0 <= k < last && (#[trigger] result.moves_transformed[k]).point == point {
            let k = choose|k: int|
                0 <= k < last && (#[trigger] result.moves_transformed[k]).point == point;
            assert(moves[k].point == point);
        }
        if exists|k: int| 0 <= k < moves.len() && (#[trigger] moves[k]).point == point {
            let k = choose|k: int| 0 <= k < moves.len() && (#[trigger] moves[k]).point == point;
            assert(result.moves_transformed[k].point == point);
        }
        if exists|k: int| 0 <= k < stones.len() && (#[trigger] stones[k]).point == point {
            let k = choose|k: int| 0 <= k < stones.len() && (#[trigger] stones[k]).point == point;
            assert(stones.contains(stones[k]));
            lemma_same_members(stones, position, stones[k]);
            let m = choose|m: int| 0 <= m < position.len() && position[m] == stones[k];
            assert(position[m].point == point);
        }
        if exists|k: int| 0 <= k < position.len() && (#[trigger] position[k]).point == point {
            let k = choose|k: int|
                0 <= k < position.len() && (#[trigger] position[k]).point == point;
            assert(position.contains(position[k]));
            lemma_same_members(position, stones, position[k]);
            let m = choose|m: int| 0 <= m < stones.len() && stones[m] == position[k];
            assert(stones[m].point == point);
        }
        if was_captured(model, game, result, point) {
            let (number, k) = choose|number: usize, k: int|
                #![trigger game.captures[number], as_seen(model, result, game.captures[number])[k]]
                {
                    let taken = as_seen(model, result, game.captures[number]);
                    &&& number <= result.last_move_matched
                    &&& game.captures.dom().contains(number)
                    &&& 0 <= k < taken.len()
                    &&& taken[k].point == point
                };
            assert(game.captures.contains_key(number));
            assert(captured(model, game.captures, last, attempt, point));
        }
        if captured(model, game.captures, last, attempt, point) {
            let number = choose|number: usize|
                number <= last && #[trigger] game.captures.contains_key(number)
                    && crate::baduk::occupied(
                    transformed_moves(model, game.captures[number], attempt),
                    point,
                );
            let taken = as_seen(model, result, game.captures[number]);
            let k = choose|k: int| 0 <= k < taken.len() && (#[trigger] taken[k]).point == point;
            assert(game.captures.dom().contains(number));
            assert(as_seen(model, result, game.captures[number])[k].point == point);
        }
    }
}

/// Being blocked is being disturbed.
proof fn lemma_disturbed(
    model: BoardModel,
    position: Seq<Placement>,
    game: GameView,
    result: SearchResultView,
    stones: Seq<Placement>,
    removed: Set<Point>,
    moves: Seq<Placement>,
    checked: Set<Point>,
    seen: Set<Point>,
    stone: Point,
    distance: u8,
)
    requires
        forall|point: Point|
            #![trigger disturbs(model, position, game, result, point)]
            #![trigger blocks(stones, removed, moves, point)]
            disturbs(model, position, game, result, point) <==> blocks(
                stones,
                removed,
                moves,
                point,
            ),
        forall|point: Point| #[trigger]
            blocks(stones, removed, moves, point) ==> (checked.contains(point) <==> seen.contains(
                point,
            )),
    ensures
        is_blocked(model, stones, removed, moves, checked, stone, distance) <==> is_disturbed(
            model,
            position,
            game,
            result,
            stone,
            distance,
            seen,
        ),
{
    if is_blocked(model, stones, removed, moves, checked, stone, distance) {
        let point = choose|point: Point| #[trigger]
            blocks(stones, removed, moves, point) && (model.surrounding)(
                stone,
                distance,
            ).contains(point) && !checked.contains(point);
        assert(disturbs(model, position, game, result, point));
    }
    if is_disturbed(model, position, game, result, stone, distance, seen) {
        let point = choose|point: Point|
            #![trigger disturbs(model, position, game, result, point)]
            (model.surrounding)(stone, distance).contains(point) && !seen.contains(point)
                && disturbs(model, position, game, result, point);
        assert(blocks(stones, removed, moves, point));
    }
}

/// The look at one distance, told by what disturbs the position.
proof fn lemma_look_told(
    model: BoardModel,
    position: Seq<Placement>,
    game: GameView,
    result: SearchResultView,
    stones: Seq<Placement>,
    removed: Set<Point>,
    moves: Seq<Placement>,
    checked: Seq<Point>,
    seen: Set<Point>,
    distance: u8,
)
    requires
        sees_stones(model),
        forall|point: Point|
            #![trigger disturbs(model, position, game, result, point)]
            #![trigger blocks(stones, removed, moves, point)]
            disturbs(model, position, game, result, point) <==> blocks(
                stones,
                removed,
                moves,
                point,
            ),
        forall|point: Point| #[trigger]
            blocks(stones, removed, moves, point) ==> (checked.contains(point) <==> seen.contains(
                point,
            )),
    ensures
        ({
            let look = sweep(model, stones, removed, moves, distance, 0, checked);
            let after = seen_up_to(model, stones, distance, seen, look.clear as int);
            &&& is_first_disturbed(
                model,
                position,
                game,
                result,
                stones,
                distance,
                seen,
                look.clear as int,
            )
            &&& look.all_empty <==> look.clear == stones.len()
            &&& forall|point: Point| #[trigger]
                blocks(stones, removed, moves, point) ==> (look.checked.contains(point)
                    <==> after.contains(point))
        }),
{
    let look = sweep(model, stones, removed, moves, distance, 0, checked);
    let after = seen_up_to(model, stones, distance, seen, look.clear as int);
    lemma_look(model, stones, removed, moves, distance, 0, checked);
    assert forall|point: Point| #[trigger] blocks(stones, removed, moves, point) implies (
    checked.to_set().contains(point) <==> seen.contains(point)) by {}
    assert forall|i: int| 0 <= i < look.clear implies !is_disturbed(
        model,
        position,
        game,
        result,
        (#[trigger] stones[i]).point,
        distance,
        seen,
    ) by {
        lemma_disturbed(
            model,
            position,
            game,
            result,
            stones,
            removed,
            moves,
            checked.to_set(),
            seen,
            stones[i].point,
            distance,
        );
    }
    if look.clear < stones.len() {
        lemma_disturbed(
            model,
            position,
            game,
            result,
            stones,
            removed,
            moves,
            checked.to_set(),
            seen,
            stones[look.clear as int].point,
            distance,
        );
    }
}

/// The score of a result tells how undisturbed the surroundings of the position are when it is
/// completed, how much the form is like the position, and how early it is completed.
///
/// At each of the distances 1, 2 and 3 the stones are gone through by columns. Each of them up to
/// the first one that is disturbed adds three points for each step of the distance; points that
/// were seen around a stone at a smaller distance do not disturb again. The sum is taken once more
/// for each distance up to which no stone is disturbed at all, and one point is taken off for each
/// move before the one that completes the position.
pub proof fn score_tells_how_well_a_position_fits(
    model: BoardModel,
    position: Seq<Placement>,
    path: Seq<char>,
    game: GameView,
    stones: Seq<Placement>,
) -> (undisturbed: (int, int, int))
    requires
        sees_stones(model),
        searchable(model, position, game),
        game_result(model, position, path, game) is Some,
        stones.to_multiset() == position.to_multiset(),
        go_by_columns(stones),
    ensures
        ({
            let result = game_result(model, position, path, game).unwrap();
            let (near, middle, far) = undisturbed;
            let nothing = Set::<Point>::empty();
            let seen_near = seen_up_to(model, stones, 1, nothing, near);
            let seen_middle = seen_up_to(model, stones, 2, seen_near, middle);
            let within = result.all_empty_correctly_within;
            &&& is_first_disturbed(model, position, game, result, stones, 1, nothing, near)
            &&& is_first_disturbed(model, position, game, result, stones, 2, seen_near, middle)
            &&& is_first_disturbed(model, position, game, result, stones, 3, seen_middle, far)
            &&& within == (if near < stones.len() {
                0int
            } else if middle < stones.len() {
                1
            } else if far < stones.len() {
                2
            } else {
                3
            })
            &&& result.score == (form_worth(model, position, result) + 3 * near + 6 * middle + 9
                * far) * (1 + within) - result.last_move_matched
        }),
{
    let (attempt, last) = located(model, attempts(model, position), game.moves).unwrap();
    let result = game_result(model, position, path, game).unwrap();
    let removed = captured_set(model, game.captures, last, attempt);
    let moves = transformed_moves(model, game.moves, attempt).take(last as int);
    assert(sorted_by(stones, stone_order())) by {
        assert forall|i: int, j: int| 0 <= i < j < stones.len() implies #[trigger] (
        stone_order())(stones[i], stones[j]) by {
            let a = stones[i];
            let b = stones[j];
        }
    }
    stones_in_order_stay(stones);
    same_stones_have_one_order(stones, position);
    assert(in_order(position) == stones);
    lemma_blocks(model, position, path, game, stones, attempt, last);
    let looks = surroundings(model, position, game, attempt, last);
    let nothing = Set::<Point>::empty();
    let none = Seq::<Point>::empty();
    let near = sweep(model, stones, removed, moves, 1, 0, none);
    let middle = sweep(model, stones, removed, moves, 2, 0, near.checked);
    let far = sweep(model, stones, removed, moves, 3, 0, middle.checked);
    assert(looks == (near, middle, far));
    let seen_near = seen_up_to(model, stones, 1, nothing, near.clear as int);
    let seen_middle = seen_up_to(model, stones, 2, seen_near, middle.clear as int);
    lemma_look_told(model, position, game, result, stones, removed, moves, none, nothing, 1);
    lemma_look_told(
        model,
        position,
        game,
        result,
        stones,
        removed,
        moves,
        near.checked,
        seen_near,
        2,
    );
    lemma_look_told(
        model,
        position,
        game,
        result,
        stones,
        removed,
        moves,
        middle.checked,
        seen_middle,
        3,
    );
    lemma_plainest(model, position, game.moves);
    let sum = attempt.score + 3 * near.clear + 6 * middle.clear + 9 * far.clear;
    let within = result.all_empty_correctly_within;
    assert(form_worth(model, position, result) == attempt.score);
    assert(0 <= sum * (1 + within)) by (nonlinear_arith)
        requires
            0 <= sum,
            0 <= within,
    ;
    (near.clear as int, middle.clear as int, far.clear as int)
}

/// The distance of a result is the one up to which nothing disturbs the position, around any of its
/// stones.
pub proof fn distance_tells_what_is_undisturbed(
    model: BoardModel,
    position: Seq<Placement>,
    path: Seq<char>,
    game: GameView,
    distance: u8,
)
    requires
        sees_stones(model),
        searchable(model, position, game),
        1 <= distance <= 3,
    ensures
        game_result(model, position, path, game) matches Some(result) ==> (
        result.all_empty_correctly_within >= distance <==> forall|i: int, d: u8|
            0 <= i < position.len() && 1 <= d <= distance ==> !#[trigger] is_disturbed(
                model,
                position,
                game,
                result,
                position[i].point,
                d,
                Set::empty(),
            )),
{
    if let Some(result) = game_result(model, position, path, game) {
        let stones = in_order(position);
        in_order_keeps_the_stones(position);
        assert(go_by_columns(stones)) by {
            assert forall|i: int, j: int| 0 <= i < j < stones.len() implies {
                let a = #[trigger] stones[i];
                let b = #[trigger] stones[j];
                ||| a.point.x < b.point.x
                ||| a.point.x == b.point.x && a.point.y < b.point.y
                ||| a.point == b.point && (a.color == b.color || a.color is Black)
            } by {
                assert((stone_order())(stones[i], stones[j]));
            }
        }
        let (near, middle, far) = score_tells_how_well_a_position_fits(
            model,
            position,
            path,
            game,
            stones,
        );
        let n = stones.len() as int;
        let nothing = Set::<Point>::empty();
        let seen_near = seen_up_to(model, stones, 1, nothing, near);
        let seen_middle = seen_up_to(model, stones, 2, seen_near, middle);
        if near == n {
            lemma_nothing_hidden(model, position, game, result, stones, 1, nothing, nothing);
            lemma_ring(model, position, game, result, stones, 2, seen_near);
            if middle == n {
                lemma_nothing_hidden(
                    model,
                    position,
                    game,
                    result,
                    stones,
                    2,
                    seen_near,
                    nothing,
                );
                lemma_ring(model, position, game, result, stones, 3, seen_middle);
            }
        }
        lemma_ring(model, position, game, result, stones, 1, nothing);
        lemma_rings(model, position, game, result, stones, distance);
    }
}

/// Whether none of the stones is disturbed at a distance.
spec fn ring_is_clear(
    model: BoardModel,
    position: Seq<Placement>,
    game: GameView,
    result: SearchResultView,
    stones: Seq<Placement>,
    distance: u8,
) -> bool {
    forall|i: int|
        0 <= i < stones.len() ==> !is_disturbed(
            model,
            position,
            game,
            result,
            (#[trigger] stones[i]).point,
            distance,
            Set::empty(),
        )
}

/// If none of the stones is disturbed at a distance, nothing that disturbs is among what was seen
/// there.
proof fn lemma_nothing_hidden(
    model: BoardModel,
    position: Seq<Placement>,
    game: GameView,
    result: SearchResultView,
    stones: Seq<Placement>,
    distance: u8,
    seen: Set<Point>,
    nothing: Set<Point>,
)
    requires
        is_first_disturbed(
            model,
            position,
            game,
            result,
            stones,
            distance,
            seen,
            stones.len() as int,
        ),
        forall|point: Point|
            #![trigger disturbs(model, position, game, result, point)]
            disturbs(model, position, game, result, point) ==> !seen.contains(point),
    ensures
        forall|point: Point|
            #![trigger disturbs(model, position, game, result, point)]
            disturbs(model, position, game, result, point) ==> !seen_up_to(
                model,
                stones,
                distance,
                seen,
                stones.len() as int,
            ).contains(point),
{
    let after = seen_up_to(model, stones, distance, seen, stones.len() as int);
    assert forall|point: Point|
        #![trigger disturbs(model, position, game, result, point)]
        disturbs(model, position, game, result, point) implies !after.contains(point) by {
        if after.contains(point) {
            let i = choose|i: int|
                #![trigger stones[i]]
                0 <= i <= stones.len() && i < stones.len() && (model.surrounding)(
                    stones[i].point,
                    distance,
                ).contains(point);
            assert(is_disturbed(
                model,
                position,
                game,
                result,
                stones[i].point,
                distance,
                seen,
            ));
        }
    }
}

/// If nothing that disturbs was seen before, the first stone that is disturbed tells whether the
/// ring is clear.
proof fn lemma_ring(
    model: BoardModel,
    position: Seq<Placement>,
    game: GameView,
    result: SearchResultView,
    stones: Seq<Placement>,
    distance: u8,
    seen: Set<Point>,
)
    requires
        forall|point: Point|
            #![trigger disturbs(model, position, game, result, point)]
            disturbs(model, position, game, result, point) ==> !seen.contains(point),
    ensures
        forall|number: int|
            #[trigger]
            is_first_disturbed(model, position, game, result, stones, distance, seen, number) ==> (
            number == stones.len() <==> ring_is_clear(
                model,
                position,
                game,
                result,
                stones,
                distance,
            )),
{
    assert forall|stone: Point|
        #![trigger is_disturbed(model, position, game, result, stone, distance, seen)]
        #![trigger is_disturbed(model, position, game, result, stone, distance, Set::empty())]
        is_disturbed(model, position, game, result, stone, distance, seen) == is_disturbed(
            model,
            position,
            game,
            result,
            stone,
            distance,
            Set::empty(),
        ) by {}
}

/// Rings are clear around the stones in order if and only if they are around the position.
proof fn lemma_rings(
    model: BoardModel,
    position: Seq<Placement>,
    game: GameView,
    result: SearchResultView,
    stones: Seq<Placement>,
    distance: u8,
)
    requires
        stones.to_multiset() == position.to_multiset(),
        1 <= distance <= 3,
    ensures
        (forall|i: int, d: u8|
            0 <= i < position.len() && 1 <= d <= distance ==> !#[trigger] is_disturbed(
                model,
                position,
                game,
                result,
                position[i].point,
                d,
                Set::empty(),
            )) <==> {
            &&& ring_is_clear(model, position, game, result, stones, 1)
            &&& distance >= 2 ==> ring_is_clear(model, position, game, result, stones, 2)
            &&& distance >= 3 ==> ring_is_clear(model, position, game, result, stones, 3)
        },
{
    assert forall|d: u8| #[trigger]
        ring_is_clear(model, position, game, result, stones, d) == ring_is_clear(
            model,
            position,
            game,
            result,
            position,
            d,
        ) by {
        lemma_ring_members(model, position, game, result, stones, position, d);
        lemma_ring_members(model, position, game, result, position, stones, d);
    }
    assert(ring_is_clear(model, position, game, result, stones, 1) == ring_is_clear(
        model,
        position,
        game,
        result,
        position,
        1,
    ));
    assert(ring_is_clear(model, position, game, result, stones, 2) == ring_is_clear(
        model,
        position,
        game,
        result,
        position,
        2,
    ));
    assert(ring_is_clear(model, position, game, result, stones, 3) == ring_is_clear(
        model,
        position,
        game,
        result,
        position,
        3,
    ));
    if forall|i: int, d: u8|
        0 <= i < position.len() && 1 <= d <= distance ==> !#[trigger] is_disturbed(
            model,
            position,
            game,
            result,
            position[i].point,
            d,
            Set::empty(),
        ) {
        assert(ring_is_clear(model, position, game, result, position, 1));
        assert(distance >= 2 ==> ring_is_clear(model, position, game, result, position, 2));
        assert(distance >= 3 ==> ring_is_clear(model, position, game, result, position, 3));
    }
}

proof fn lemma_ring_members(
    model: BoardModel,
    position: Seq<Placement>,
    game: GameView,
    result: SearchResultView,
    a: Seq<Placement>,
    b: Seq<Placement>,
    distance: u8,
)
    requires
        a.to_multiset() == b.to_multiset(),
    ensures
        ring_is_clear(model, position, game, result, a, distance) ==> ring_is_clear(
            model,
            position,
            game,
            result,
            b,
            distance,
        ),
{
    if ring_is_clear(model, position, game, result, a, distance) {
        assert forall|i: int| 0 <= i < b.len() implies !is_disturbed(
            model,
            position,
            game,
            result,
            (#[trigger] b[i]).point,
            distance,
            Set::empty(),
        ) by {
            assert(b.contains(b[i]));
            lemma_same_members(b, a, b[i]);
            let k = choose|k: int| 0 <= k < a.len() && a[k] == b[i];
            assert(!is_disturbed(
                model,
                position,
                game,
                result,
                a[k].point,
                distance,
                Set::empty(),
            ));
        }
    }
}

/// Moves from the one on that completes the position do not matter for the score and the distance:
/// two games that have the position in the same form and with the same move, and that are alike
/// before that move and in what was captured up to it, get the same of both.
pub proof fn later_moves_do_not_matter(
    model: BoardModel,
    position: Seq<Placement>,
    path: Seq<char>,
    game: GameView,
    a: SearchResultView,
    other_path: Seq<char>,
    other: GameView,
    b: SearchResultView,
)
    requires
        game_result(model, position, path, game) == Some(a),
        game_result(model, position, other_path, other) == Some(b),
        a.last_move_matched == b.last_move_matched,
        a.rotation == b.rotation,
        a.is_mirrored == b.is_mirrored,
        a.is_inverted == b.is_inverted,
        a.moves_transformed.take(a.last_move_matched as int) == b.moves_transformed.take(
            b.last_move_matched as int,
        ),
        forall|number: usize|
            number <= a.last_move_matched ==> (#[trigger] game.captures.contains_key(number)
                == other.captures.contains_key(number)) && (game.captures.contains_key(number)
                ==> game.captures[number] == other.captures[number]),
    ensures
        a.score == b.score,
        a.all_empty_correctly_within == b.all_empty_correctly_within,
{
    let last = a.last_move_matched;
    let first = located(model, attempts(model, position), game.moves).unwrap().0;
    let second = located(model, attempts(model, position), other.moves).unwrap().0;
    lemma_plainest(model, position, game.moves);
    lemma_plainest(model, position, other.moves);
    assert(first.score == second.score);
    assert forall|ms: Seq<Placement>| #[trigger]
        transformed_moves(model, ms, first) == transformed_moves(model, ms, second) by {}
    assert forall|point: Point|
        captured(model, game.captures, last, first, point) == captured(
            model,
            other.captures,
            last,
            second,
            point,
        ) by {
        if captured(model, game.captures, last, first, point) {
            let number = choose|number: usize|
                number <= last && #[trigger] game.captures.contains_key(number)
                    && crate::baduk::occupied(
                    transformed_moves(model, game.captures[number], first),
                    point,
                );
            assert(other.captures.contains_key(number));
        }
        if captured(model, other.captures, last, second, point) {
            let number = choose|number: usize|
                number <= last && #[trigger] other.captures.contains_key(number)
                    && crate::baduk::occupied(
                    transformed_moves(model, other.captures[number], second),
                    point,
                );
            assert(game.captures.contains_key(number));
        }
    }
    assert(captured_set(model, game.captures, last, first) =~= captured_set(
        model,
        other.captures,
        last,
        second,
    ));
    assert(surroundings(model, position, game, first, last) == surroundings(
        model,
        position,
        other,
        second,
        last,
    ));
}

/// If the first move of a game completes the position, nothing disturbs it.
pub proof fn nothing_disturbs_a_first_move(
    model: BoardModel,
    position: Seq<Placement>,
    path: Seq<char>,
    game: GameView,
)
    requires
        forall|points: Seq<Point>| #[trigger] (model.empty)(points, Seq::empty()),
    ensures
        game_result(model, position, path, game) matches Some(result) ==> (
        result.last_move_matched == 0 ==> result.all_empty_correctly_within == 3),
{
    if let Some((attempt, last)) = located(model, attempts(model, position), game.moves) {
        if last == 0 {
            let stones = in_order(position);
            let removed = captured_set(model, game.captures, last, attempt);
            let moves = transformed_moves(model, game.moves, attempt).take(0);
            assert(moves =~= Seq::empty());
            let none = Seq::<Point>::empty();
            let near = sweep(model, stones, removed, moves, 1, 0, none);
            let middle = sweep(model, stones, removed, moves, 2, 0, near.checked);
            lemma_empty_look(model, stones, removed, 1, 0, none);
            lemma_empty_look(model, stones, removed, 2, 0, near.checked);
            lemma_empty_look(model, stones, removed, 3, 0, middle.checked);
        }
    }
}

proof fn lemma_empty_look(
    model: BoardModel,
    stones: Seq<Placement>,
    removed: Set<Point>,
    distance: u8,
    from: int,
    checked: Seq<Point>,
)
    requires
        forall|points: Seq<Point>| #[trigger] (model.empty)(points, Seq::empty()),
        0 <= from <= stones.len(),
    ensures
        sweep(model, stones, removed, Seq::empty(), distance, from, checked).all_empty,
    decreases stones.len() - from,
{
    if from < stones.len() {
        let points = open_points(model, stones, removed, checked, stones[from].point, distance);
        lemma_empty_look(model, stones, removed, distance, from + 1, checked + points);
    }
}

} // verus!
