//! The moves that were played next in the games that a search found.

use crate::baduk::{is_occupied, occupied, Color, Placement, Point};
use crate::matching::{results_view, SearchResult, SearchResultView};
use crate::sorting::{order_of, stable_order, stable_order_sorts};
use std::collections::HashMap;
use vstd::prelude::*;

verus! {

/// A point that was played next, and how often.
#[derive(Clone, Copy, PartialEq, Eq, Structural, Debug)]
pub struct NextMove {
    pub point: Point,
    pub game_count: usize,
}

/// How many moves after the position are looked at.
pub const MOVES_AHEAD: usize = 2;

/// How often a move has to occur to be of interest.
pub const MIN_GAME_COUNT: usize = 50;

/// What the moves after the position are worth in a game: more if the points around the position
/// are empty further out, and a hundred times more if the game comes to the position with the very
/// first moves.
pub open spec fn result_weight(result: SearchResultView, position: Seq<Placement>) -> nat {
    let directness: nat = if result.last_move_matched + 1 == position.len() {
        100
    } else {
        1
    };
    directness * result.all_empty_correctly_within as nat
}

/// The move that a game adds to the next moves with the given step after the position, seen as the
/// position is: with its colour exchanged if the position was found that way. A game adds nothing
/// if the points around the position are not empty, if it ends before, or if the move is on a point
/// of the position.
pub open spec fn next_placement(
    result: SearchResultView,
    position: Seq<Placement>,
    step: int,
) -> Option<Placement> {
    let number = result.last_move_matched + step;
    if result_weight(result, position) == 0 || number >= result.moves_transformed.len() {
        None
    } else {
        let played = result.moves_transformed[number];
        if occupied(position, played.point) {
            None
        } else if result.is_inverted {
            Some(Placement { color: played.color.spec_opposite(), point: played.point })
        } else {
            Some(played)
        }
    }
}

/// What a game adds to the score of a placement with the given step: its weight, and one point more
/// for the move that comes first.
pub open spec fn step_score(
    result: SearchResultView,
    position: Seq<Placement>,
    placement: Placement,
    step: int,
) -> nat {
    if next_placement(result, position, step) == Some(placement) {
        (result_weight(result, position) + MOVES_AHEAD - step) as nat
    } else {
        0
    }
}

/// What a game adds to the count of a placement with the given step.
pub open spec fn step_count(
    result: SearchResultView,
    position: Seq<Placement>,
    placement: Placement,
    step: int,
) -> nat {
    if next_placement(result, position, step) == Some(placement) {
        1
    } else {
        0
    }
}

/// The score of a placement as a next move, over all results.
pub open spec fn next_score(
    results: Seq<SearchResultView>,
    position: Seq<Placement>,
    placement: Placement,
) -> nat
    decreases results.len(),
{
    if results.len() == 0 {
        0
    } else {
        next_score(results.drop_last(), position, placement) + step_score(
            results.last(),
            position,
            placement,
            1,
        ) + step_score(results.last(), position, placement, 2)
    }
}

/// How often a placement occurs as a next move, over all results.
pub open spec fn next_count(
    results: Seq<SearchResultView>,
    position: Seq<Placement>,
    placement: Placement,
) -> nat
    decreases results.len(),
{
    if results.len() == 0 {
        0
    } else {
        next_count(results.drop_last(), position, placement) + step_count(
            results.last(),
            position,
            placement,
            1,
        ) + step_count(results.last(), position, placement, 2)
    }
}

/// Whether the next moves are those of one colour that occur often enough, each once and with its
/// count, the one with the highest score first. Moves that are equal in score and count come in any
/// order.
pub open spec fn are_next_moves(
    next_moves: Seq<NextMove>,
    results: Seq<SearchResultView>,
    position: Seq<Placement>,
    color: Color,
) -> bool {
    &&& forall|i: int|
        0 <= i < next_moves.len() ==> {
            let placement = Placement { color, point: (#[trigger] next_moves[i]).point };
            &&& next_moves[i].game_count == next_count(results, position, placement)
            &&& next_moves[i].game_count >= MIN_GAME_COUNT
        }
    &&& forall|point: Point|
        #![trigger next_count(results, position, Placement { color, point })]
        next_count(results, position, Placement { color, point }) >= MIN_GAME_COUNT ==> exists|
            i: int,
        |
            0 <= i < next_moves.len() && (#[trigger] next_moves[i]).point == point
    &&& forall|i: int, j: int|
        0 <= i < j < next_moves.len() ==> (#[trigger] next_moves[i]).point != (
        #[trigger] next_moves[j]).point
    &&& forall|i: int, j: int|
        #![trigger next_moves[i], next_moves[j]]
        0 <= i < j < next_moves.len() ==> {
            let a = next_score(results, position, Placement { color, point: next_moves[i].point });
            let b = next_score(results, position, Placement { color, point: next_moves[j].point });
            a > b || (a == b && next_moves[i].game_count >= next_moves[j].game_count)
        }
}

/// A placement is counted at most as often as it scores.
proof fn lemma_count_within_score(
    results: Seq<SearchResultView>,
    position: Seq<Placement>,
    placement: Placement,
)
    ensures
        next_count(results, position, placement) <= next_score(results, position, placement),
        next_count(results, position, placement) == 0 ==> next_score(results, position, placement)
            == 0,
    decreases results.len(),
{
    if results.len() > 0 {
        lemma_count_within_score(results.drop_last(), position, placement);
    }
}

/// A score never shrinks as results are added.
proof fn lemma_score_grows(
    results: Seq<SearchResultView>,
    position: Seq<Placement>,
    placement: Placement,
    n: int,
)
    requires
        0 <= n <= results.len(),
    ensures
        next_score(results.take(n), position, placement) <= next_score(
            results,
            position,
            placement,
        ),
    decreases results.len(),
{
    if n == results.len() {
        assert(results.take(n) =~= results);
    } else {
        lemma_score_grows(results.drop_last(), position, placement, n);
        assert(results.drop_last().take(n) =~= results.take(n));
    }
}

/// Whether a table holds the scores and counts, under the codes of the placements.
spec fn tallied(
    table: Map<u32, (usize, usize)>,
    scores: spec_fn(Placement) -> nat,
    counts: spec_fn(Placement) -> nat,
) -> bool {
    &&& forall|placement: Placement|
        #![trigger placement.spec_code()]
        {
            &&& table.contains_key(placement.spec_code()) <==> counts(placement) > 0
            &&& counts(placement) > 0 ==> table[placement.spec_code()].0 == scores(placement)
                && table[placement.spec_code()].1 == counts(placement)
        }
    &&& forall|code: u32| #[trigger]
        table.contains_key(code) ==> exists|placement: Placement|
            #[trigger] placement.spec_code() == code
}

/// The weight of a result.
fn weigh(result: &SearchResult, position: &[Placement]) -> (weight: usize)
    ensures
        weight == result_weight(result@, position@),
        weight <= 25500,
{
    let within: usize = result.all_empty_correctly_within as usize;
    if result.last_move_matched < position.len() && result.last_move_matched + 1 == position.len() {
        100 * within
    } else {
        within
    }
}

/// The move that a result adds to the next moves with the given step.
fn next_of(
    result: &SearchResult,
    position: &[Placement],
    weight: usize,
    step: usize,
) -> (next: Option<Placement>)
    requires
        weight == result_weight(result@, position@),
        step <= MOVES_AHEAD,
    ensures
        next == next_placement(result@, position@, step as int),
{
    let n: usize = result.moves_transformed.len();
    if weight == 0 || step >= n || result.last_move_matched >= n - step {
        return None;
    }
    let played = result.moves_transformed[result.last_move_matched + step];
    if is_occupied(position, played.point) {
        None
    } else if result.is_inverted {
        Some(Placement { color: played.color.opposite(), point: played.point })
    } else {
        Some(played)
    }
}

/// Adds to the score and the count under a code.
fn tally(table: &mut HashMap<u32, (usize, usize)>, code: u32, amount: usize)
    requires
        old(table)@.contains_key(code) ==> old(table)@[code].0 + amount <= usize::MAX
            && old(table)@[code].1 < usize::MAX,
    ensures
        final(table)@ == old(table)@.insert(
            code,
            if old(table)@.contains_key(code) {
                ((old(table)@[code].0 + amount) as usize, (old(table)@[code].1 + 1) as usize)
            } else {
                (amount, 1)
            },
        ),
{
    broadcast use vstd::std_specs::hash::group_hash_axioms;

    let sums: (usize, usize) = match table.get(&code) {
        Some(sums) => (sums.0 + amount, sums.1 + 1),
        None => (amount, 1),
    };
    table.insert(code, sums);
}

/// Adds what a result adds with one step, if anything.
fn tally_step(
    table: &mut HashMap<u32, (usize, usize)>,
    result: &SearchResult,
    position: &[Placement],
    weight: usize,
    step: usize,
    Ghost(scores): Ghost<spec_fn(Placement) -> nat>,
    Ghost(counts): Ghost<spec_fn(Placement) -> nat>,
)
    requires
        weight == result_weight(result@, position@),
        weight <= 25500,
        1 <= step <= MOVES_AHEAD,
        tallied(old(table)@, scores, counts),
        forall|placement: Placement|
            #![trigger scores(placement)]
            scores(placement) + step_score(result@, position@, placement, step as int)
                <= usize::MAX && counts(placement) <= scores(placement) && (counts(placement) == 0
                ==> scores(placement) == 0),
    ensures
        tallied(
            final(table)@,
            |placement: Placement|
                scores(placement) + step_score(result@, position@, placement, step as int),
            |placement: Placement|
                counts(placement) + step_count(result@, position@, placement, step as int),
        ),
{
    let ghost before = table@;
    let next = next_of(result, position, weight, step);
    if let Some(placement) = next {
        let code = placement.code();
        assert(placement.spec_code() == code);
        let amount: usize = weight + MOVES_AHEAD - step;
        assert(amount == step_score(result@, position@, placement, step as int));
        tally(table, code, amount);
        assert forall|other: Placement|
            #![trigger other.spec_code()]
            other.spec_code() == code implies other == placement by {
            crate::baduk::placement_codes_tell_placements_apart(other, placement);
        }
    }
}

/// The next moves of one colour in the games of a search.
pub fn get_next_moves(
    results: &Vec<SearchResult>,
    position: &[Placement],
    next_color: Color,
) -> (next: Vec<NextMove>)
    requires
        forall|placement: Placement|
            #![trigger next_score(results_view(results@), position@, placement)]
            next_score(results_view(results@), position@, placement) <= usize::MAX,
    ensures
        are_next_moves(next@, results_view(results@), position@, next_color),
{
    broadcast use vstd::std_specs::hash::group_hash_axioms;

    let ghost all = results_view(results@);
    let mut table: HashMap<u32, (usize, usize)> = HashMap::new();
    let n: usize = results.len();
    for k in 0..n
        invariant
            n == results@.len(),
            all == results_view(results@),
            forall|placement: Placement|
                #![trigger next_score(all, position@, placement)]
                next_score(all, position@, placement) <= usize::MAX,
            tallied(
                table@,
                |placement: Placement| next_score(all.take(k as int), position@, placement),
                |placement: Placement| next_count(all.take(k as int), position@, placement),
            ),
    {
        let result = &results[k];
        let weight = weigh(result, position);
        let ghost head = all.take(k as int);
        let ghost more = all.take(k + 1);
        let ghost scores = |placement: Placement| next_score(head, position@, placement);
        let ghost counts = |placement: Placement| next_count(head, position@, placement);
        let ghost first_scores = |placement: Placement|
            scores(placement) + step_score(result@, position@, placement, 1);
        let ghost first_counts = |placement: Placement|
            counts(placement) + step_count(result@, position@, placement, 1);
        proof {
            assert(more.drop_last() =~= head);
            assert(more.last() == result@);
            assert forall|placement: Placement| #![trigger scores(placement)] {
                &&& next_score(more, position@, placement) <= usize::MAX
                &&& next_score(more, position@, placement) == scores(placement) + step_score(
                    result@,
                    position@,
                    placement,
                    1,
                ) + step_score(result@, position@, placement, 2)
                &&& next_count(more, position@, placement) == counts(placement) + step_count(
                    result@,
                    position@,
                    placement,
                    1,
                ) + step_count(result@, position@, placement, 2)
                &&& counts(placement) <= scores(placement)
                &&& counts(placement) == 0 ==> scores(placement) == 0
            } by {
                lemma_score_grows(all, position@, placement, k + 1);
                lemma_count_within_score(head, position@, placement);
            }
        }
        assert forall|placement: Placement| #![trigger first_scores(placement)] {
            &&& first_scores(placement) + step_score(result@, position@, placement, 2)
                <= usize::MAX
            &&& first_counts(placement) <= first_scores(placement)
            &&& first_counts(placement) == 0 ==> first_scores(placement) == 0
        } by {
            assert(scores(placement) >= 0);
        }
        tally_step(&mut table, result, position, weight, 1, Ghost(scores), Ghost(counts));
        tally_step(
            &mut table,
            result,
            position,
            weight,
            2,
            Ghost(first_scores),
            Ghost(first_counts),
        );
        assert forall|placement: Placement| #![trigger placement.spec_code()] {
            &&& next_score(more, position@, placement) == first_scores(placement) + step_score(
                result@,
                position@,
                placement,
                2,
            )
            &&& next_count(more, position@, placement) == first_counts(placement) + step_count(
                result@,
                position@,
                placement,
                2,
            )
        } by {
            assert(scores(placement) >= 0);
        }
    }
    assert(all.take(n as int) =~= all);
    let mut candidates: Vec<(Point, usize, usize)> = Vec::new();
    let mut keys: Vec<(u64, u64)> = Vec::new();
    let ghost mut sources: Seq<int> = Seq::empty();
    for entry in it: table.iter()
        invariant
            tallied(
                table@,
                |placement: Placement| next_score(all, position@, placement),
                |placement: Placement| next_count(all, position@, placement),
            ),
            it.seq().no_duplicates(),
            forall|j: int|
                0 <= j < it.seq().len() ==> table@.contains_key(*(#[trigger] it.seq()[j]).0)
                    && table@[*it.seq()[j].0] == *it.seq()[j].1,
            candidates@.len() == keys@.len() == sources.len(),
            forall|i: int|
                0 <= i < candidates@.len() ==> {
                    let c = #[trigger] candidates@[i];
                    let placement = Placement { color: next_color, point: c.0 };
                    &&& c.1 == next_score(all, position@, placement)
                    &&& c.2 == next_count(all, position@, placement)
                    &&& keys@[i] == ((u64::MAX - c.1) as u64, (u64::MAX - c.2) as u64)
                    &&& 0 <= sources[i] < it.index()
                    &&& *it.seq()[sources[i]].0 == placement.spec_code()
                },
            forall|i: int, j: int|
                0 <= i < j < candidates@.len() ==> (#[trigger] candidates@[i]).0 != (
                #[trigger] candidates@[j]).0,
            forall|j: int, point: Point|
                0 <= j < it.index() && *(#[trigger] it.seq()[j]).0 == (#[trigger] (Placement {
                    color: next_color,
                    point,
                }).spec_code()) ==> exists|i: int|
                    0 <= i < candidates@.len() && (#[trigger] candidates@[i]).0 == point,
    {
        let code: u32 = *entry.0;
        let sums: (usize, usize) = *entry.1;
        let placement = Placement::decode(code);
        assert(it.seq()[it.index() as int] == entry);
        assert(table@.contains_key(code));
        assert(placement.spec_code() == code);
        let ghost before = candidates@;
        if placement.color == next_color {
            candidates.push((placement.point, sums.0, sums.1));
            keys.push((u64::MAX - sums.0 as u64, u64::MAX - sums.1 as u64));
            proof {
                sources = sources.push(it.index() as int);
                assert(placement == Placement { color: next_color, point: placement.point });
                assert(candidates@[before.len() as int].0 == placement.point);
                assert forall|i: int| 0 <= i < before.len() implies (#[trigger] before[i]).0
                    != placement.point by {
                    assert(candidates@[i] == before[i]);
                    if before[i].0 == placement.point {
                        assert(it.seq()[sources[i]] == it.seq()[it.index() as int]);
                    }
                }
            }
        }
        assert(forall|i: int| 0 <= i < before.len() ==> candidates@[i] == #[trigger] before[i]);
    }
    let total: usize = keys.len();
    let order = order_of(&keys);
    let ghost places = stable_order(keys@);
    proof {
        stable_order_sorts(keys@);
    }
    let mut next: Vec<NextMove> = Vec::new();
    let ghost mut origins: Seq<int> = Seq::empty();
    for k in 0..total
        invariant
            total == keys@.len() == candidates@.len() == order@.len(),
            places == order@.map_values(|place: usize| place as int),
            forall|i: int| 0 <= i < order@.len() ==> #[trigger] order@[i] < keys@.len(),
            next@.len() == origins.len(),
            forall|i: int|
                0 <= i < next@.len() ==> {
                    &&& 0 <= #[trigger] origins[i] < k
                    &&& next@[i].point == candidates@[places[origins[i]]].0
                    &&& next@[i].game_count == candidates@[places[origins[i]]].2
                    &&& next@[i].game_count >= MIN_GAME_COUNT
                },
            forall|i: int, j: int| 0 <= i < j < origins.len() ==> origins[i] < origins[j],
            forall|m: int|
                0 <= m < k && candidates@[#[trigger] places[m]].2 >= MIN_GAME_COUNT ==> exists|
                    i: int,
                |
                    0 <= i < next@.len() && (#[trigger] next@[i]).point == candidates@[places[m]].0,
    {
        let candidate = candidates[order[k]];
        let ghost before = next@;
        assert(places[k as int] == order@[k as int]);
        if candidate.2 >= MIN_GAME_COUNT {
            next.push(NextMove { point: candidate.0, game_count: candidate.2 });
            proof {
                origins = origins.push(k as int);
                assert(next@[before.len() as int].point == candidate.0);
            }
        }
        assert(forall|i: int| 0 <= i < before.len() ==> next@[i] == #[trigger] before[i]);
    }
    proof {
        assert forall|i: int| 0 <= i < next@.len() implies {
            let placement = Placement { color: next_color, point: (#[trigger] next@[i]).point };
            &&& next@[i].game_count == next_count(all, position@, placement)
            &&& next@[i].game_count >= MIN_GAME_COUNT
        } by {
            let place = places[origins[i]];
            assert(candidates@[place].0 == next@[i].point);
        }
        assert forall|point: Point|
            #![trigger next_count(all, position@, Placement { color: next_color, point })]
            next_count(all, position@, Placement { color: next_color, point })
                >= MIN_GAME_COUNT implies exists|i: int|
            0 <= i < next@.len() && (#[trigger] next@[i]).point == point by {
            let placement = Placement { color: next_color, point };
            assert(table@.contains_key(placement.spec_code()));
            let c = choose|c: int| 0 <= c < candidates@.len() && (#[trigger] candidates@[c]).0
                == point;
            assert(places.contains(c));
            let m = choose|m: int| 0 <= m < places.len() && places[m] == c;
            assert(candidates@[places[m]].2 >= MIN_GAME_COUNT);
        }
        assert forall|i: int, j: int| 0 <= i < j < next@.len() implies (#[trigger] next@[i]).point
            != (#[trigger] next@[j]).point && ({
            let a = next_score(
                all,
                position@,
                Placement { color: next_color, point: next@[i].point },
            );
            let b = next_score(
                all,
                position@,
                Placement { color: next_color, point: next@[j].point },
            );
            a > b || (a == b && next@[i].game_count >= next@[j].game_count)
        }) by {
            let a = places[origins[i]];
            let b = places[origins[j]];
            assert(origins[i] < origins[j]);
            assert(a != b);
            assert(candidates@[a].0 != candidates@[b].0);
            assert(keys@[a].0 <= keys@[b].0);
        }
    }
    next
}

} // verus!
