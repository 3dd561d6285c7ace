//! Finding a position in a game, and how well it fits there.

use crate::baduk::{
    copy_placements, is_occupied, occupied, Game, GameDetails, GameDetailsView, GameView, Placement,
    Player, PlayerView, Point, Rotation,
};
use crate::board::{rotations_view, Board, BoardModel};
use crate::stones::in_order;
use vstd::prelude::*;

verus! {

/// A game in which a position occurs, how it occurs there and how well it fits.
#[derive(PartialEq, Debug)]
pub struct SearchResult {
    pub path: String,
    pub score: i16,
    /// The number of the move that completes the position.
    pub last_move_matched: usize,
    /// 0: no rotation, 1 to 3: the rotation of the position.
    pub rotation: u8,
    /// Whether the colours were exchanged.
    pub is_inverted: bool,
    /// Whether the position was mirrored.
    pub is_mirrored: bool,
    /// The distance from the stones up to which all points around them are empty, as they should.
    pub all_empty_correctly_within: u8,
    /// The moves of the game.
    pub moves: Vec<Placement>,
    /// The moves of the game, rotated or mirrored.
    pub moves_transformed: Vec<Placement>,
    pub details: GameDetails,
    pub player_black: Player,
    pub player_white: Player,
}

/// What a [`SearchResult`] stands for.
#[verifier::ext_equal]
pub struct SearchResultView {
    pub path: Seq<char>,
    pub score: i16,
    pub last_move_matched: usize,
    pub rotation: u8,
    pub is_inverted: bool,
    pub is_mirrored: bool,
    pub all_empty_correctly_within: u8,
    pub moves: Seq<Placement>,
    pub moves_transformed: Seq<Placement>,
    pub details: GameDetailsView,
    pub player_black: PlayerView,
    pub player_white: PlayerView,
}

impl View for SearchResult {
    type V = SearchResultView;

    open spec fn view(&self) -> SearchResultView {
        SearchResultView {
            path: self.path@,
            score: self.score,
            last_move_matched: self.last_move_matched,
            rotation: self.rotation,
            is_inverted: self.is_inverted,
            is_mirrored: self.is_mirrored,
            all_empty_correctly_within: self.all_empty_correctly_within,
            moves: self.moves@,
            moves_transformed: self.moves_transformed@,
            details: self.details@,
            player_black: self.player_black@,
            player_white: self.player_white@,
        }
    }
}

impl Clone for SearchResult {
    fn clone(&self) -> (copy: SearchResult)
        ensures
            copy@ == self@,
    {
        SearchResult {
            path: self.path.clone(),
            score: self.score,
            last_move_matched: self.last_move_matched,
            rotation: self.rotation,
            is_inverted: self.is_inverted,
            is_mirrored: self.is_mirrored,
            all_empty_correctly_within: self.all_empty_correctly_within,
            moves: copy_placements(&self.moves),
            moves_transformed: copy_placements(&self.moves_transformed),
            details: self.details.clone(),
            player_black: self.player_black.clone(),
            player_white: self.player_white.clone(),
        }
    }
}

/// What a list of results stands for.
pub open spec fn results_view(results: Seq<SearchResult>) -> Seq<SearchResultView> {
    results.map_values(|result: SearchResult| result@)
}

/// A copy of a list of results.
pub(crate) fn copy_results(results: &Vec<SearchResult>) -> (copy: Vec<SearchResult>)
    ensures
        results_view(copy@) == results_view(results@),
{
    let mut copy: Vec<SearchResult> = Vec::new();
    let n: usize = results.len();
    for i in 0..n
        invariant
            n == results@.len(),
            copy@.len() == i,
            forall|j: int| 0 <= j < i ==> (#[trigger] copy@[j])@ == results@[j]@,
    {
        copy.push(results[i].clone());
    }
    assert(results_view(copy@) =~= results_view(results@));
    copy
}

/// The rotation that undoes a rotation.
pub open spec fn moves_rotation(rotation: Rotation) -> Rotation {
    match rotation {
        Rotation::Degrees90 => Rotation::Degrees270,
        Rotation::Degrees180 => Rotation::Degrees180,
        Rotation::Degrees270 => Rotation::Degrees90,
    }
}

/// The rotation of the moves that goes with a rotation of the position: the opposite one.
pub fn get_moves_rotation(query_rotation: &Rotation) -> (rotation: Rotation)
    ensures
        rotation == moves_rotation(*query_rotation),
{
    match query_rotation {
        Rotation::Degrees90 => Rotation::Degrees270,
        Rotation::Degrees270 => Rotation::Degrees90,
        Rotation::Degrees180 => Rotation::Degrees180,
    }
}

/// The number of a rotation, which counts its quarter turns.
pub open spec fn rotation_index(rotation: Rotation) -> u8 {
    match rotation {
        Rotation::Degrees90 => 1,
        Rotation::Degrees180 => 2,
        Rotation::Degrees270 => 3,
    }
}

/// The number of a rotation, which counts its quarter turns.
pub fn get_rotation_index(r: &Rotation) -> (index: u8)
    ensures
        index == rotation_index(*r),
{
    match r {
        Rotation::Degrees90 => 1,
        Rotation::Degrees180 => 2,
        Rotation::Degrees270 => 3,
    }
}

/// A form of the position that is looked for in a game, and the score that finding it is worth.
pub struct Attempt {
    pub form: Vec<Placement>,
    pub rotation: Option<Rotation>,
    pub is_mirrored: bool,
    pub is_inverted: bool,
    pub score: i16,
}

/// What an [`Attempt`] stands for.
#[verifier::ext_equal]
pub struct AttemptView {
    pub form: Seq<Placement>,
    pub rotation: Option<Rotation>,
    pub is_mirrored: bool,
    pub is_inverted: bool,
    pub score: i16,
}

impl View for Attempt {
    type V = AttemptView;

    open spec fn view(&self) -> AttemptView {
        AttemptView {
            form: self.form@,
            rotation: self.rotation,
            is_mirrored: self.is_mirrored,
            is_inverted: self.is_inverted,
            score: self.score,
        }
    }
}

/// What a list of attempts stands for.
pub open spec fn attempts_view(attempts: Seq<Attempt>) -> Seq<AttemptView> {
    attempts.map_values(|attempt: Attempt| attempt@)
}

/// A form of the position as it is, then in its rotations, which are worth one point less.
pub open spec fn family(
    model: BoardModel,
    form: Seq<Placement>,
    is_mirrored: bool,
    is_inverted: bool,
    score: i16,
) -> Seq<AttemptView> {
    seq![AttemptView { form, rotation: None, is_mirrored, is_inverted, score }]
        + (model.rotations)(form).map_values(
        |entry: (Rotation, Seq<Placement>)|
            AttemptView {
                form: entry.1,
                rotation: Some(entry.0),
                is_mirrored,
                is_inverted,
                score: (score - 1) as i16,
            },
    )
}

/// All forms of a position in the order in which they are tried: as it is, mirrored, with the
/// colours exchanged, and both. A mirrored form is worth little unless the position keeps to one
/// quadrant.
pub open spec fn attempts(model: BoardModel, position: Seq<Placement>) -> Seq<AttemptView> {
    let inverse = (model.switched)(position);
    let local = (model.within_one_quadrant)(position);
    family(model, position, false, false, 100) + family(
        model,
        (model.mirrored)(position),
        true,
        false,
        if local {
            100
        } else {
            10
        },
    ) + family(model, inverse, false, true, 90) + family(
        model,
        (model.mirrored)(inverse),
        true,
        true,
        if local {
            90
        } else {
            9
        },
    )
}

/// The first of the attempts that succeeds on the moves, with the number of the last move that it
/// takes.
pub open spec fn located(
    model: BoardModel,
    attempts: Seq<AttemptView>,
    moves: Seq<Placement>,
) -> Option<(AttemptView, usize)>
    decreases attempts.len(),
{
    if attempts.len() == 0 {
        None
    } else {
        match (model.matched)(attempts[0].form, moves) {
            Some(last) => Some((attempts[0], last)),
            None => located(model, attempts.drop_first(), moves),
        }
    }
}

/// The moves of a game as seen by the attempt that found the position in it.
pub open spec fn transformed_moves(
    model: BoardModel,
    moves: Seq<Placement>,
    attempt: AttemptView,
) -> Seq<Placement> {
    if attempt.is_mirrored {
        match attempt.rotation {
            Some(rotation) => (model.rotated)((model.mirrored)(moves), rotation),
            None => (model.mirrored)(moves),
        }
    } else {
        match attempt.rotation {
            Some(rotation) => (model.rotated)(moves, moves_rotation(rotation)),
            None => moves,
        }
    }
}

/// Whether a stone was captured by the given move or before on what is this point as the attempt
/// sees the game.
pub open spec fn captured(
    model: BoardModel,
    captures: Map<usize, Seq<Placement>>,
    last: usize,
    attempt: AttemptView,
    point: Point,
) -> bool {
    exists|number: usize|
        number <= last && #[trigger] captures.contains_key(number) && occupied(
            transformed_moves(model, captures[number], attempt),
            point,
        )
}

/// The points on which a stone was captured by the given move or before, as the attempt sees the
/// game.
pub open spec fn captured_set(
    model: BoardModel,
    captures: Map<usize, Seq<Placement>>,
    last: usize,
    attempt: AttemptView,
) -> Set<Point> {
    Set::new(|point: Point| captured(model, captures, last, attempt, point))
}

/// Tells whether a search has to look at a point around a position: it has no stone of the
/// position, was not looked at yet, and nothing was captured on it.
pub open spec fn is_open(
    position: Seq<Placement>,
    removed: Set<Point>,
    checked: Seq<Point>,
) -> spec_fn(Point) -> bool {
    |point: Point|
        !occupied(position, point) && !checked.contains(point) && !removed.contains(point)
}

/// The points around a stone at the given distance that a search has to look at.
pub open spec fn open_points(
    model: BoardModel,
    position: Seq<Placement>,
    removed: Set<Point>,
    checked: Seq<Point>,
    stone: Point,
    distance: u8,
) -> Seq<Point> {
    (model.surrounding)(stone, distance).filter(is_open(position, removed, checked))
}

/// How a look around the stones of a position went.
#[verifier::ext_equal]
pub struct Sweep {
    /// The number of stones that were found to be clear before the look ended.
    pub clear: nat,
    /// The points that were looked at, then or before.
    pub checked: Seq<Point>,
    /// Whether all stones were clear.
    pub all_empty: bool,
}

/// The look around the stones of a position, from the given one on, at the given distance. It ends
/// at the first stone that is not clear.
pub open spec fn sweep(
    model: BoardModel,
    position: Seq<Placement>,
    removed: Set<Point>,
    moves: Seq<Placement>,
    distance: u8,
    from: int,
    checked: Seq<Point>,
) -> Sweep
    decreases position.len() - from,
{
    if from >= position.len() {
        Sweep { clear: 0, checked, all_empty: true }
    } else {
        let points = open_points(
            model,
            position,
            removed,
            checked,
            position[from].point,
            distance,
        );
        if (model.empty)(points, moves) {
            let rest = sweep(
                model,
                position,
                removed,
                moves,
                distance,
                from + 1,
                checked + points,
            );
            Sweep { clear: rest.clear + 1, ..rest }
        } else {
            Sweep { clear: 0, checked: checked + points, all_empty: false }
        }
    }
}

/// The looks around the stones at the distances 1, 2 and 3, one after the other.
pub open spec fn sweeps(
    model: BoardModel,
    position: Seq<Placement>,
    removed: Set<Point>,
    moves: Seq<Placement>,
) -> (Sweep, Sweep, Sweep) {
    let near = sweep(model, position, removed, moves, 1, 0, Seq::empty());
    let middle = sweep(model, position, removed, moves, 2, 0, near.checked);
    let far = sweep(model, position, removed, moves, 3, 0, middle.checked);
    (near, middle, far)
}

/// The looks around the stones of a position in a game, before the move that completes the position
/// there. They go through the stones in an order of their own, so that it is not important in which
/// order the stones are given.
pub open spec fn surroundings(
    model: BoardModel,
    position: Seq<Placement>,
    game: GameView,
    attempt: AttemptView,
    last: usize,
) -> (Sweep, Sweep, Sweep) {
    sweeps(
        model,
        in_order(position),
        captured_set(model, game.captures, last, attempt),
        transformed_moves(model, game.moves, attempt).take(last as int),
    )
}

/// The distance up to which all looks found everything empty.
pub open spec fn empty_within(looks: (Sweep, Sweep, Sweep)) -> u8 {
    if !looks.0.all_empty {
        0
    } else if !looks.1.all_empty {
        1
    } else if !looks.2.all_empty {
        2
    } else {
        3
    }
}

/// What a match is worth: what the form of the position is worth and three points for each clear
/// stone and each step of the distance, multiplied when everything around the position is empty.
pub open spec fn worth(base: i16, looks: (Sweep, Sweep, Sweep)) -> int {
    (base + 3 * looks.0.clear + 6 * looks.1.clear + 9 * looks.2.clear) * (1 + empty_within(looks))
}

/// The final score: what the match is worth, less one point for each move that the game takes to
/// come to the position.
pub open spec fn final_score(base: i16, looks: (Sweep, Sweep, Sweep), last: usize) -> int {
    worth(base, looks) - last
}

/// The largest number of stones for which the score of a position is sure to fit its type.
pub const MAX_POSITION: usize = 449;

/// The result that a game gives for a position, if it has the position at all.
pub open spec fn game_result(
    model: BoardModel,
    position: Seq<Placement>,
    path: Seq<char>,
    game: GameView,
) -> Option<SearchResultView> {
    match located(model, attempts(model, position), game.moves) {
        None => None,
        Some((attempt, last)) => {
            let moves_transformed = transformed_moves(model, game.moves, attempt);
            let looks = surroundings(model, position, game, attempt, last);
            Some(
                SearchResultView {
                    path,
                    score: final_score(attempt.score, looks, last) as i16,
                    last_move_matched: last,
                    rotation: match attempt.rotation {
                        Some(rotation) => rotation_index(rotation),
                        None => 0,
                    },
                    is_inverted: attempt.is_inverted,
                    is_mirrored: attempt.is_mirrored,
                    all_empty_correctly_within: empty_within(looks),
                    moves: game.moves,
                    moves_transformed,
                    details: game.details,
                    player_black: game.player_black,
                    player_white: game.player_white,
                },
            )
        },
    }
}

/// Whether a position can be looked for in a game: the move that completes it in the game is one of
/// the game and small enough to be taken off the score, and the score fits its type.
pub open spec fn searchable(
    model: BoardModel,
    position: Seq<Placement>,
    game: GameView,
) -> bool {
    located(model, attempts(model, position), game.moves) matches Some((attempt, last)) ==> {
        &&& last <= transformed_moves(model, game.moves, attempt).len()
        &&& last <= i16::MAX
        &&& worth(attempt.score, surroundings(model, position, game, attempt, last)) <= i16::MAX
    }
}

/// A look finds at most all stones to be clear.
pub proof fn lemma_sweep_within(
    model: BoardModel,
    position: Seq<Placement>,
    removed: Set<Point>,
    moves: Seq<Placement>,
    distance: u8,
    from: int,
    checked: Seq<Point>,
)
    requires
        0 <= from <= position.len(),
    ensures
        sweep(model, position, removed, moves, distance, from, checked).clear <= position.len()
            - from,
    decreases position.len() - from,
{
    if from < position.len() {
        let points = open_points(
            model,
            position,
            removed,
            checked,
            position[from].point,
            distance,
        );
        lemma_sweep_within(
            model,
            position,
            removed,
            moves,
            distance,
            from + 1,
            checked + points,
        );
    }
}

/// Whether the point is among the points.
fn has_point(points: &Vec<Point>, point: Point) -> (found: bool)
    ensures
        found == points@.contains(point),
{
    let n: usize = points.len();
    for i in 0..n
        invariant
            n == points@.len(),
            forall|j: int| 0 <= j < i ==> points@[j] != point,
    {
        if points[i] == point {
            assert(points@[i as int] == point);
            return true;
        }
    }
    false
}

/// Adds the points of the placements.
fn add_points(points: &mut Vec<Point>, placements: &Vec<Placement>)
    ensures
        forall|point: Point| #[trigger]
            final(points)@.contains(point) <==> old(points)@.contains(point) || occupied(
                placements@,
                point,
            ),
{
    let n: usize = placements.len();
    let ghost before = points@;
    for i in 0..n
        invariant
            n == placements@.len(),
            forall|point: Point| #[trigger]
                points@.contains(point) <==> before.contains(point) || occupied(
                    placements@.take(i as int),
                    point,
                ),
    {
        let ghost earlier = points@;
        let ghost head = placements@.take(i as int);
        let ghost more = placements@.take(i + 1);
        points.push(placements[i].point);
        assert forall|point: Point| #[trigger] points@.contains(point) <==> before.contains(point)
            || occupied(more, point) by {
            lemma_push_contains(earlier, placements@[i as int].point, point);
            assert(earlier.contains(point) <==> before.contains(point) || occupied(head, point));
            assert(occupied(more, point) <==> occupied(head, point) || placements@[i as int].point
                == point) by {
                if occupied(head, point) {
                    let j = choose|j: int|
                        0 <= j < head.len() && (#[trigger] head[j]).point == point;
                    assert(more[j].point == point);
                }
                if placements@[i as int].point == point {
                    assert(more[i as int].point == point);
                }
                if occupied(more, point) {
                    let j = choose|j: int|
                        0 <= j < more.len() && (#[trigger] more[j]).point == point;
                    if j < i {
                        assert(head[j].point == point);
                    }
                }
            }
        }
    }
    assert(placements@.take(n as int) =~= placements@);
}

proof fn lemma_push_contains(points: Seq<Point>, new: Point, point: Point)
    ensures
        points.push(new).contains(point) <==> points.contains(point) || point == new,
{
    let more = points.push(new);
    if points.contains(point) {
        let k = choose|k: int| 0 <= k < points.len() && points[k] == point;
        assert(more[k] == point);
    }
    if point == new {
        assert(more[points.len() as int] == point);
    }
}

impl<R, S, M, T, Q, G, P, E> Board<R, S, M, T, Q, G, P, E> where
    R: Fn(&[Placement]) -> Vec<(Rotation, Vec<Placement>)>,
    S: Fn(&[Placement]) -> Vec<Placement>,
    M: Fn(&[Placement]) -> Vec<Placement>,
    T: Fn(&[Placement], Rotation) -> Vec<Placement>,
    Q: Fn(&[Placement]) -> bool,
    G: Fn(&[Placement], &[Placement]) -> Option<usize>,
    P: Fn(Point, u8) -> Vec<Point>,
    E: Fn(&[Point], &[Placement]) -> bool,
 {
    /// Adds a form of the position and its rotations to the attempts.
    fn add_family(
        &self,
        attempts: &mut Vec<Attempt>,
        form: &[Placement],
        is_mirrored: bool,
        is_inverted: bool,
        score: i16,
    )
        requires
            self.wf(),
            score > 0,
        ensures
            attempts_view(final(attempts)@) == attempts_view(old(attempts)@) + family(
                self.model(),
                form@,
                is_mirrored,
                is_inverted,
                score,
            ),
    {
        let ghost start = attempts@;
        let ghost all = family(self.model(), form@, is_mirrored, is_inverted, score);
        attempts.push(
            Attempt {
                form: copy_placements(form),
                rotation: None,
                is_mirrored,
                is_inverted,
                score,
            },
        );
        let rotations = self.rotations(form);
        let n: usize = rotations.len();
        assert(all.len() == n + 1);
        assert(attempts_view(attempts@) =~= attempts_view(start) + all.take(1));
        for i in 0..n
            invariant
                n == rotations@.len(),
                score > 0,
                rotations_view(rotations@) == (self.model().rotations)(form@),
                all == family(self.model(), form@, is_mirrored, is_inverted, score),
                all.len() == n + 1,
                attempts_view(attempts@) == attempts_view(start) + all.take(i + 1),
        {
            let ghost before = attempts@;
            attempts.push(
                Attempt {
                    form: copy_placements(&rotations[i].1),
                    rotation: Some(rotations[i].0),
                    is_mirrored,
                    is_inverted,
                    score: score - 1,
                },
            );
            assert(rotations_view(rotations@)[i as int] == (
                rotations@[i as int].0,
                rotations@[i as int].1@,
            ));
            assert(attempts@.last()@ == all[i + 1]);
            assert(all.take(i + 2) =~= all.take(i + 1).push(all[i + 1]));
            assert(attempts_view(attempts@) =~= attempts_view(before).push(attempts@.last()@));
            assert(attempts_view(attempts@) =~= attempts_view(start) + all.take(i + 2));
        }
        assert(all.take(n + 1) =~= all);
    }

    /// All forms of the position in the order in which they are tried.
    pub fn attempts(&self, position: &[Placement]) -> (list: Vec<Attempt>)
        requires
            self.wf(),
        ensures
            attempts_view(list@) == attempts(self.model(), position@),
    {
        let inverse = self.switched(position);
        let mirrored = self.mirrored(position);
        let mirrored_inverse = self.mirrored(&inverse);
        let local = self.within_one_quadrant(position);
        let mut list: Vec<Attempt> = Vec::new();
        assert(attempts_view(list@) =~= Seq::empty());
        self.add_family(&mut list, position, false, false, 100);
        self.add_family(
            &mut list,
            &mirrored,
            true,
            false,
            if local {
                100
            } else {
                10
            },
        );
        self.add_family(&mut list, &inverse, false, true, 90);
        self.add_family(
            &mut list,
            &mirrored_inverse,
            true,
            true,
            if local {
                90
            } else {
                9
            },
        );
        assert(attempts_view(list@) =~= attempts(self.model(), position@));
        list
    }

    /// The first of the attempts that succeeds on the moves, and the number of the last move that
    /// it takes.
    fn locate(&self, list: &Vec<Attempt>, moves: &[Placement]) -> (found: Option<(usize, usize)>)
        requires
            self.wf(),
        ensures
            match found {
                Some((i, last)) => i < list@.len() && located(
                    self.model(),
                    attempts_view(list@),
                    moves@,
                ) == Some((list@[i as int]@, last)),
                None => located(self.model(), attempts_view(list@), moves@) is None,
            },
    {
        let n: usize = list.len();
        let ghost all = attempts_view(list@);
        assert(all.skip(0) =~= all);
        for i in 0..n
            invariant
                self.wf(),
                n == list@.len(),
                all == attempts_view(list@),
                located(self.model(), all, moves@) == located(
                    self.model(),
                    all.skip(i as int),
                    moves@,
                ),
        {
            assert(all.skip(i as int)[0] == list@[i as int]@);
            assert(all.skip(i as int).drop_first() =~= all.skip(i + 1));
            if let Some(last) = self.matched(&list[i].form, moves) {
                return Some((i, last));
            }
        }
        None
    }

    /// The moves of a game as seen by the attempt that found the position in it.
    pub fn transform(&self, moves: &[Placement], attempt: &Attempt) -> (out: Vec<Placement>)
        requires
            self.wf(),
        ensures
            out@ == transformed_moves(self.model(), moves@, attempt@),
    {
        if attempt.is_mirrored {
            let mirrored = self.mirrored(moves);
            match attempt.rotation {
                Some(rotation) => self.rotated(&mirrored, rotation),
                None => mirrored,
            }
        } else {
            match attempt.rotation {
                Some(rotation) => self.rotated(moves, get_moves_rotation(&rotation)),
                None => copy_placements(moves),
            }
        }
    }

    /// The points on which stones were captured by the given move or before, as the attempt sees
    /// the game.
    fn captured_points(&self, game: &Game, last: usize, attempt: &Attempt) -> (points: Vec<Point>)
        requires
            self.wf(),
            last < usize::MAX,
        ensures
            forall|point: Point| #[trigger]
                points@.contains(point) <==> captured(
                    self.model(),
                    game@.captures,
                    last,
                    attempt@,
                    point,
                ),
    {
        broadcast use vstd::std_specs::hash::group_hash_axioms;

        let mut points: Vec<Point> = Vec::new();
        for number in 0..last + 1
            invariant
                self.wf(),
                last < usize::MAX,
                forall|point: Point| #[trigger]
                    points@.contains(point) <==> exists|earlier: usize|
                        earlier < number && #[trigger] game@.captures.contains_key(earlier)
                            && occupied(
                            transformed_moves(
                                self.model(),
                                game@.captures[earlier],
                                attempt@,
                            ),
                            point,
                        ),
        {
            broadcast use vstd::std_specs::hash::group_hash_axioms;

            let ghost before = points@;
            if let Some(stones) = game.captures.get(&number) {
                assert(game.captures@.contains_key(number));
                assert(game@.captures.contains_key(number));
                assert(game@.captures[number] == stones@);
                let seen = self.transform(stones, attempt);
                add_points(&mut points, &seen);
            } else {
                assert(!game@.captures.contains_key(number));
            }
            assert forall|point: Point| #[trigger]
                points@.contains(point) <==> exists|earlier: usize|
                    earlier < number + 1 && #[trigger] game@.captures.contains_key(earlier)
                        && occupied(
                        transformed_moves(self.model(), game@.captures[earlier], attempt@),
                        point,
                    ) by {
                assert(before.contains(point) <==> exists|earlier: usize|
                    earlier < number && #[trigger] game@.captures.contains_key(earlier) && occupied(
                        transformed_moves(self.model(), game@.captures[earlier], attempt@),
                        point,
                    ));
            }
        }
        points
    }

    /// The points around a stone that have to be looked at.
    fn points_to_check(
        &self,
        position: &[Placement],
        captures: &Vec<Point>,
        checked: &Vec<Point>,
        stone: Point,
        distance: u8,
        Ghost(removed): Ghost<Set<Point>>,
    ) -> (points: Vec<Point>)
        requires
            self.wf(),
            forall|point: Point| #[trigger]
                captures@.contains(point) <==> removed.contains(point),
        ensures
            points@ == open_points(self.model(), position@, removed, checked@, stone, distance),
    {
        let around = self.surrounding(stone, distance);
        let n: usize = around.len();
        let mut points: Vec<Point> = Vec::new();
        let ghost wanted = is_open(position@, removed, checked@);
        reveal(Seq::filter);
        for i in 0..n
            invariant
                n == around@.len(),
                wanted == is_open(position@, removed, checked@),
                forall|point: Point| #[trigger]
                    captures@.contains(point) <==> removed.contains(point),
                points@ == around@.take(i as int).filter(wanted),
        {
            reveal(Seq::filter);
            let point = around[i];
            assert(around@.take(i + 1).drop_last() =~= around@.take(i as int));
            assert(around@.take(i + 1).last() == point);
            assert(captures@.contains(point) <==> removed.contains(point));
            if !is_occupied(position, point) && !has_point(checked, point) && !has_point(
                captures,
                point,
            ) {
                points.push(point);
            }
        }
        assert(around@.take(n as int) =~= around@);
        points
    }

    /// Looks around the stones of the position at the given distance. Returns the number of stones
    /// that were clear and whether all were, and adds the points that it looked at to `checked`.
    fn look_around(
        &self,
        position: &[Placement],
        captures: &Vec<Point>,
        moves: &[Placement],
        distance: u8,
        checked: &mut Vec<Point>,
        Ghost(removed): Ghost<Set<Point>>,
    ) -> (out: (usize, bool))
        requires
            self.wf(),
            forall|point: Point| #[trigger]
                captures@.contains(point) <==> removed.contains(point),
        ensures
            sweep(self.model(), position@, removed, moves@, distance, 0, old(checked)@) == (Sweep {
                clear: out.0 as nat,
                checked: final(checked)@,
                all_empty: out.1,
            }),
    {
        let n: usize = position.len();
        let ghost whole = sweep(
            self.model(),
            position@,
            removed,
            moves@,
            distance,
            0,
            checked@,
        );
        for i in 0..n
            invariant
                self.wf(),
                n == position@.len(),
                forall|point: Point| #[trigger]
                    captures@.contains(point) <==> removed.contains(point),
                whole == sweep(
                    self.model(),
                    position@,
                    removed,
                    moves@,
                    distance,
                    0,
                    old(checked)@,
                ),
                whole == ({
                    let rest = sweep(
                        self.model(),
                        position@,
                        removed,
                        moves@,
                        distance,
                        i as int,
                        checked@,
                    );
                    Sweep { clear: rest.clear + i as nat, ..rest }
                }),
        {
            let mut points = self.points_to_check(
                position,
                captures,
                checked,
                position[i].point,
                distance,
                Ghost(removed),
            );
            let clear = self.empty(&points, moves);
            checked.append(&mut points);
            if !clear {
                return (i, false);
            }
        }
        (n, true)
    }

    /// Looks for a position, given with its stones in order and with all its forms, in a game.
    pub(crate) fn search_game(
        &self,
        Ghost(position): Ghost<Seq<Placement>>,
        stones: &[Placement],
        list: &Vec<Attempt>,
        path: &String,
        game: &Game,
    ) -> (result: Option<SearchResult>)
        requires
            self.wf(),
            stones@ == in_order(position),
            attempts_view(list@) == attempts(self.model(), position),
            searchable(self.model(), position, game@),
        ensures
            match result {
                Some(found) => game_result(self.model(), position, path@, game@) == Some(found@),
                None => game_result(self.model(), position, path@, game@) is None,
            },
    {
        let (chosen, last) = match self.locate(list, &game.moves) {
            Some(found) => found,
            None => {
                return None;
            },
        };
        let attempt = &list[chosen];
        proof {
            lemma_attempt_scores(self.model(), position);
            assert(attempts_view(list@)[chosen as int] == attempt@);
        }
        let moves_transformed = self.transform(&game.moves, attempt);
        let truncated = vstd::slice::slice_subrange(moves_transformed.as_slice(), 0, last);
        assert(truncated@ =~= moves_transformed@.take(last as int));
        let captures = self.captured_points(game, last, attempt);
        let ghost removed = captured_set(self.model(), game@.captures, last, attempt@);
        assert forall|point: Point| #[trigger] captures@.contains(point) <==> removed.contains(
            point,
        ) by {}
        let mut checked: Vec<Point> = Vec::new();
        let near = self.look_around(stones, &captures, truncated, 1, &mut checked, Ghost(removed));
        let middle = self.look_around(
            stones,
            &captures,
            truncated,
            2,
            &mut checked,
            Ghost(removed),
        );
        let far = self.look_around(stones, &captures, truncated, 3, &mut checked, Ghost(removed));
        let within: u8 = if !near.1 {
            0
        } else if !middle.1 {
            1
        } else if !far.1 {
            2
        } else {
            3
        };
        let ghost looks = surroundings(self.model(), position, game@, attempt@, last);
        let ghost total = attempt.score + 3 * near.0 + 6 * middle.0 + 9 * far.0;
        assert(within == empty_within(looks));
        assert(worth(attempt.score, looks) == total * (1 + within));
        assert(total <= total * (1 + within)) by (nonlinear_arith)
            requires
                0 <= total,
                0 <= within,
        ;
        let sum: i16 = attempt.score + 3 * near.0 as i16 + 6 * middle.0 as i16 + 9 * far.0 as i16;
        let multiplier: i16 = 1 + within as i16;
        let score: i16 = sum * multiplier - last as i16;
        assert(score == final_score(attempt.score, looks, last));
        Some(
            SearchResult {
                path: path.clone(),
                score,
                last_move_matched: last,
                rotation: match attempt.rotation {
                    Some(rotation) => get_rotation_index(&rotation),
                    None => 0,
                },
                is_inverted: attempt.is_inverted,
                is_mirrored: attempt.is_mirrored,
                all_empty_correctly_within: within,
                moves: copy_placements(&game.moves),
                moves_transformed,
                details: game.details.clone(),
                player_black: game.player_black.clone(),
                player_white: game.player_white.clone(),
            },
        )
    }
}

/// Every attempt is worth between 8 and 100 points.
pub proof fn lemma_attempt_scores(model: BoardModel, position: Seq<Placement>)
    ensures
        forall|i: int|
            0 <= i < attempts(model, position).len() ==> 8 <= (#[trigger] attempts(
                model,
                position,
            )[i]).score <= 100,
{
}

} // verus!
