//! Laws of the carving state machine, each proved once and for all states:
//! wall symmetry at every point in time, monotonicity of visited flags and
//! of wall openings, the termination bound of repeated stepping, and
//! determinism of the transition under a fixed random draw.

use vstd::prelude::*;

use crate::carver::CarverView;
use crate::carver::lemma_candidates_all;
use crate::carver::lemma_open_pair_wf;
use crate::carver::lemma_step_opened_adjacent;
use crate::carver::lemma_step_state_wf;
use crate::carver::lemma_unvisited_count_nonneg;
use crate::carver::lemma_unvisited_count_pos;
use crate::carver::lemma_unvisited_count_same_flags;
use crate::carver::lemma_unvisited_count_update;
use crate::grid::Coord;
use crate::grid::Direction;
use crate::grid::has_neighbor;
use crate::grid::in_bounds;
use crate::grid::lemma_coord_index_bounded;
use crate::grid::lemma_neighbor_sound;
use crate::grid::neighbor_coord;

verus! {

/// Wall symmetry, at every point in time: in any well-formed carver state a
/// wall is open on one side exactly when it is open on the matching side of
/// the adjacent neighbour. Every carver operation returns a well-formed
/// state, so this holds after every step and every wall opening.
pub proof fn lemma_wall_symmetry(v: CarverView, c: Coord, d: Direction)
    requires
        v.wf(),
        in_bounds(c, v.width, v.height),
        has_neighbor(c, d, v.width, v.height),
    ensures
        v.cell(c).wall_spec(d) == v.cell(neighbor_coord(c, d)).wall_spec(d.opposite_spec()),
{
}

/// Visited monotonicity: once a cell is visited it stays visited, across
/// both the bare step transition and the combined step-and-open transition.
pub proof fn lemma_visited_monotonic(v: CarverView, pick: int)
    requires
        v.wf(),
        pick >= 0,
    ensures
        forall|c: Coord|
            in_bounds(c, v.width, v.height) && v.cell(c).visited ==> (#[trigger] v.step_state(
                pick,
            ).cell(c)).visited,
        forall|c: Coord|
            in_bounds(c, v.width, v.height) && v.cell(c).visited ==> (#[trigger] v.advance_state(
                pick,
            ).cell(c)).visited,
{
    let sv = v.step_state(pick);
    assert(in_bounds(v.stack[v.stack.len() - 1], v.width, v.height));
    lemma_coord_index_bounded(v.top(), v.width, v.height);
    assert forall|c: Coord| in_bounds(c, v.width, v.height) && v.cell(c).visited implies (
    #[trigger] sv.cell(c)).visited by {
        lemma_coord_index_bounded(c, v.width, v.height);
    }
    let s = v.step_result(pick);
    if s.opened_wall {
        lemma_step_state_wf(v, pick);
        lemma_step_opened_adjacent(v, pick);
        lemma_open_pair_wf(sv, s.from_coord, s.to_coord);
    }
}

/// Walls are untouched by the bare step transition: only `open_walls`
/// changes wall state, and it only ever opens walls.
pub proof fn lemma_step_walls_unchanged(v: CarverView, pick: int)
    requires
        v.wf(),
        pick >= 0,
    ensures
        forall|c: Coord, d: Direction|
            in_bounds(c, v.width, v.height) ==> #[trigger] v.step_state(pick).cell(c).wall_spec(d)
                == v.cell(c).wall_spec(d),
{
    assert(in_bounds(v.stack[v.stack.len() - 1], v.width, v.height));
    lemma_coord_index_bounded(v.top(), v.width, v.height);
    assert forall|c: Coord, d: Direction| in_bounds(c, v.width, v.height) implies #[trigger] v.step_state(
        pick,
    ).cell(c).wall_spec(d) == v.cell(c).wall_spec(d) by {
        lemma_coord_index_bounded(c, v.width, v.height);
    }
}

/// The termination measure never goes below one on well-formed states.
pub proof fn lemma_measure_positive(v: CarverView)
    requires
        v.wf(),
    ensures
        v.measure() >= 1,
{
    assert(in_bounds(v.stack[v.stack.len() - 1], v.width, v.height));
    lemma_coord_index_bounded(v.top(), v.width, v.height);
    if !v.cell(v.top()).visited {
        lemma_unvisited_count_pos(v.cells, crate::grid::coord_index(v.top(), v.width));
    } else {
        lemma_unvisited_count_nonneg(v.cells);
    }
}

/// Termination: every step taken before generation completes either lowers
/// the measure or completes the generation, and no step ever raises it.
/// A fresh `width * height` carver starts with measure
/// `2 * width * height - 1` and the measure stays at least one, so a fresh
/// carver reaches `is_complete` within `2 * width * height - 1` steps.
pub proof fn lemma_step_measure_decreases(v: CarverView, pick: int)
    requires
        v.wf(),
        pick >= 0,
    ensures
        v.step_state(pick).measure() <= v.measure(),
        !v.is_complete() && !v.step_state(pick).is_complete() ==> v.step_state(pick).measure()
            < v.measure(),
{
    if v.is_complete() {
        return ;
    }
    let m = v.marked();
    let cs = m.candidates();
    let top = v.top();
    assert(in_bounds(v.stack[v.stack.len() - 1], v.width, v.height));
    lemma_coord_index_bounded(top, v.width, v.height);
    let itop = crate::grid::coord_index(top, v.width);
    lemma_unvisited_count_update(v.cells, itop);
    if cs.len() == 0 {
        if m.stack.len() == 1 {
            assert(v.step_state(pick) == m);
            assert(top == v.root());
            assert(top.x == 0 && top.y == 0);
            assert(0 * (v.width as int) + 0 == 0);
            assert(itop == top.y * v.width + top.x);
            assert(itop == 0);
            assert(m.cell(m.top()).visited);
            assert(m.is_complete());
        } else {
            let p = m.popped();
            assert(v.step_state(pick) == p);
            assert(p.top() == v.stack[v.stack.len() - 2]);
            assert(v.cell(v.stack[v.stack.len() - 2]).visited);
            lemma_coord_index_bounded(p.top(), v.width, v.height);
            assert(p.cell(p.top()).visited);
            assert(p.measure() == v.measure() - 1);
        }
    } else {
        let d = cs[pick % cs.len() as int];
        lemma_candidates_all(m);
        assert(m.is_candidate(d));
        lemma_neighbor_sound(top, d, v.width, v.height);
        let n = neighbor_coord(top, d);
        let p = m.pushed(n);
        assert(v.step_state(pick) == p);
        lemma_coord_index_bounded(n, v.width, v.height);
        assert(!p.cell(p.top()).visited);
        assert(p.measure() == v.measure() - 1);
    }
}

/// Opening a wall pair leaves the measure unchanged: only `step` makes
/// progress, so the combined step-and-open transition lowers the measure
/// exactly as the bare step does.
pub proof fn lemma_advance_measure(v: CarverView, pick: int)
    requires
        v.wf(),
        pick >= 0,
    ensures
        v.advance_state(pick).measure() == v.step_state(pick).measure(),
        v.advance_state(pick).is_complete() == v.step_state(pick).is_complete(),
{
    let s = v.step_result(pick);
    if s.opened_wall {
        let sv = v.step_state(pick);
        let av = v.advance_state(pick);
        lemma_step_state_wf(v, pick);
        lemma_step_opened_adjacent(v, pick);
        lemma_open_pair_wf(sv, s.from_coord, s.to_coord);
        assert forall|i: int| 0 <= i < sv.cells.len() implies (#[trigger] av.cells[i]).visited
            == sv.cells[i].visited by {
            lemma_coord_index_bounded(s.from_coord, sv.width, sv.height);
            lemma_coord_index_bounded(s.to_coord, sv.width, sv.height);
        }
        lemma_unvisited_count_same_flags(av.cells, sv.cells);
        assert(in_bounds(sv.stack[sv.stack.len() - 1], sv.width, sv.height));
        lemma_coord_index_bounded(sv.top(), sv.width, sv.height);
        assert(av.cell(av.top()).visited == sv.cell(sv.top()).visited);
        assert(av.cells[0].visited == sv.cells[0].visited);
    }
}

/// Determinism under fixed randomness: two runs from equal states with
/// equal draws report the same step result and reach the same state, both
/// for the bare step and for the combined step-and-open transition.
pub proof fn lemma_step_deterministic(a: CarverView, b: CarverView, pick_a: int, pick_b: int)
    requires
        a == b,
        pick_a == pick_b,
    ensures
        a.step_result(pick_a) == b.step_result(pick_b),
        a.step_state(pick_a) == b.step_state(pick_b),
        a.advance_state(pick_a) == b.advance_state(pick_b),
{
}

} // verus!
