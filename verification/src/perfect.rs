//! The perfect-maze invariant: a carver driven by the step-and-open
//! protocol keeps, at every moment, exactly one open wall pair per visited
//! cell beyond the first, every open wall pair between cells the carving
//! has already joined, and every joined cell connected to the start cell.
//! At completion this makes the open-wall graph a spanning tree: connected,
//! with exactly `width * height - 1` open wall pairs.

use vstd::prelude::*;

use crate::carver::CarverView;
use crate::carver::lemma_candidates_all;
use crate::carver::lemma_step_state_wf;
use crate::carver::lemma_unvisited_count_update;
use crate::carver::unvisited_count;
use crate::grid::Cell;
use crate::grid::Coord;
use crate::grid::Direction;
use crate::grid::adjacent;
use crate::grid::coord_index;
use crate::grid::dir_between;
use crate::grid::has_neighbor;
use crate::grid::in_bounds;
use crate::grid::is_grid_path;
use crate::grid::lemma_adjacent_has_neighbor;
use crate::grid::lemma_adjacent_symmetric;
use crate::grid::lemma_coord_index_bounded;
use crate::grid::lemma_coord_index_distinct;
use crate::grid::lemma_neighbor_sound;
use crate::grid::lemma_offorigin_walk;
use crate::grid::lemma_to_origin_path;
use crate::grid::neighbor_coord;
use crate::grid::to_origin_path;

verus! {

/// How many of one cell's four walls are open.
pub open spec fn open_wall_count_cell(cell: Cell) -> int {
    (if !cell.wall_up {
        1int
    } else {
        0int
    }) + (if !cell.wall_down {
        1int
    } else {
        0int
    }) + (if !cell.wall_left {
        1int
    } else {
        0int
    }) + (if !cell.wall_right {
        1int
    } else {
        0int
    })
}

/// The total number of open wall sides over all cells. By wall symmetry
/// every open inner wall is counted once from each side, so this is twice
/// the number of open wall pairs.
pub open spec fn open_wall_total(cells: Seq<Cell>) -> int
    decreases cells.len(),
{
    if cells.len() == 0 {
        0
    } else {
        open_wall_total(cells.drop_last()) + open_wall_count_cell(cells.last())
    }
}

/// The number of open wall pairs of the maze.
pub open spec fn open_pairs(v: CarverView) -> int {
    open_wall_total(v.cells) / 2
}

/// Replacing one cell shifts the open-wall total by the difference of the
/// two cells' open-wall counts.
pub proof fn lemma_open_wall_total_update(cells: Seq<Cell>, j: int, c2: Cell)
    requires
        0 <= j < cells.len(),
    ensures
        open_wall_total(cells.update(j, c2)) == open_wall_total(cells) - open_wall_count_cell(
            cells[j],
        ) + open_wall_count_cell(c2),
    decreases cells.len(),
{
    let upd = cells.update(j, c2);
    if j == cells.len() - 1 {
        assert(upd.drop_last() =~= cells.drop_last());
    } else {
        assert(upd.drop_last() =~= cells.drop_last().update(j, c2));
        lemma_open_wall_total_update(cells.drop_last(), j, c2);
    }
}

/// One beyond the number of visited cells, counting the current cell as
/// visited: the number of cells the carving has joined so far.
pub open spec fn joined_cells(v: CarverView) -> int {
    (v.cells.len() - unvisited_count(v.cells)) + (if !v.cell(v.top()).visited {
        1int
    } else {
        0int
    })
}

/// The open-wall bookkeeping of the protocol: the number of open wall
/// sides is exactly twice the number of joined cells minus one pair.
pub open spec fn count_inv(v: CarverView) -> bool {
    open_wall_total(v.cells) == 2 * (joined_cells(v) - 1)
}

/// Whether the open wall from `c` toward `d` is accounted for: it joins
/// two visited cells, or it joins the current (still unvisited) cell to its
/// predecessor on the stack.
pub open spec fn edge_carved(v: CarverView, c: Coord, d: Direction) -> bool {
    let n = neighbor_coord(c, d);
    ||| (v.cell(c).visited && v.cell(n).visited)
    ||| (v.stack.len() >= 2 && ((c == v.top() && n == v.stack[v.stack.len() - 2]) || (n == v.top()
        && c == v.stack[v.stack.len() - 2])))
}

/// Every open wall is accounted for by `edge_carved`.
pub open spec fn edges_carved(v: CarverView) -> bool {
    forall|c: Coord, d: Direction|
        in_bounds(c, v.width, v.height) && has_neighbor(c, d, v.width, v.height) && !(
        #[trigger] v.cell(c).wall_spec(d)) ==> edge_carved(v, c, d)
}

/// A sequence of no candidates rules out every direction.
pub proof fn lemma_no_candidates(v: CarverView)
    requires
        v.candidates().len() == 0,
    ensures
        forall|d: Direction| !v.is_candidate(d),
{
    assert forall|d: Direction| !v.is_candidate(d) by {
        if v.is_candidate(d) {
            assert(v.cand_part(d).len() == 1);
            assert(d == Direction::Right || d == Direction::Down || d == Direction::Left || d
                == Direction::Up);
        }
    }
}

/// A walk through the maze: consecutive coordinates are grid-adjacent and
/// the wall between them is open.
pub open spec fn is_open_path(v: CarverView, p: Seq<Coord>) -> bool
    decreases p.len(),
{
    if p.len() == 0 {
        false
    } else if p.len() == 1 {
        in_bounds(p[0], v.width, v.height)
    } else {
        &&& in_bounds(p[0], v.width, v.height)
        &&& adjacent(p[0], p[1])
        &&& !v.cell(p[0]).wall_spec(dir_between(p[0], p[1]))
        &&& is_open_path(v, p.drop_first())
    }
}

/// Whether cell `b` can be reached from cell `a` through open walls.
pub open spec fn connected(v: CarverView, a: Coord, b: Coord) -> bool {
    exists|p: Seq<Coord>| is_open_path(v, p) && p[0] == a && p.last() == b
}

/// Every visited cell and every cell on the stack is reachable from the
/// start cell through open walls.
pub open spec fn connected_inv(v: CarverView) -> bool {
    &&& forall|c: Coord|
        in_bounds(c, v.width, v.height) && (#[trigger] v.cell(c)).visited ==> connected(
            v,
            v.root(),
            c,
        )
    &&& forall|i: int|
        0 <= i < v.stack.len() ==> connected(v, v.root(), #[trigger] v.stack[i])
}

/// An open path stays a path in any state of the same grid whose open
/// walls include the old ones: opening walls never severs a passage.
pub proof fn lemma_path_monotone(v1: CarverView, v2: CarverView, p: Seq<Coord>)
    requires
        v1.width == v2.width,
        v1.height == v2.height,
        is_open_path(v1, p),
        forall|c: Coord, e: Direction|
            in_bounds(c, v1.width, v1.height) && !(#[trigger] v1.cell(c).wall_spec(e)) ==> !v2.cell(
                c,
            ).wall_spec(e),
    ensures
        is_open_path(v2, p),
    decreases p.len(),
{
    if p.len() > 1 {
        lemma_path_monotone(v1, v2, p.drop_first());
    }
}

/// Connectivity is monotone in the set of open walls.
pub proof fn lemma_connected_monotone(v1: CarverView, v2: CarverView, a: Coord, b: Coord)
    requires
        v1.width == v2.width,
        v1.height == v2.height,
        connected(v1, a, b),
        forall|c: Coord, e: Direction|
            in_bounds(c, v1.width, v1.height) && !(#[trigger] v1.cell(c).wall_spec(e)) ==> !v2.cell(
                c,
            ).wall_spec(e),
    ensures
        connected(v2, a, b),
{
    let p = choose|p: Seq<Coord>| is_open_path(v1, p) && p[0] == a && p.last() == b;
    lemma_path_monotone(v1, v2, p);
    assert(is_open_path(v2, p) && p[0] == a && p.last() == b);
}

/// Every cell reaches itself.
pub proof fn lemma_connected_refl(v: CarverView, a: Coord)
    requires
        in_bounds(a, v.width, v.height),
    ensures
        connected(v, a, a),
{
    let p = seq![a];
    assert(is_open_path(v, p) && p[0] == a && p.last() == a);
}

/// The last cell of an open path lies in the grid.
pub proof fn lemma_path_last_in_bounds(v: CarverView, p: Seq<Coord>)
    requires
        is_open_path(v, p),
    ensures
        in_bounds(p.last(), v.width, v.height),
    decreases p.len(),
{
    if p.len() > 1 {
        lemma_path_last_in_bounds(v, p.drop_first());
        assert(p.drop_first().last() == p.last());
    }
}

/// A path extended through one more open wall is still a path.
pub proof fn lemma_path_push(v: CarverView, p: Seq<Coord>, d: Direction)
    requires
        is_open_path(v, p),
        has_neighbor(p.last(), d, v.width, v.height),
        !v.cell(p.last()).wall_spec(d),
    ensures
        is_open_path(v, p.push(neighbor_coord(p.last(), d))),
    decreases p.len(),
{
    let b = p.last();
    let n = neighbor_coord(b, d);
    lemma_path_last_in_bounds(v, p);
    lemma_neighbor_sound(b, d, v.width, v.height);
    let p2 = p.push(n);
    if p.len() == 1 {
        assert(p2.len() == 2 && p2[0] == b && p2[1] == n);
        assert(p2.drop_first() =~= seq![n]);
        assert(is_open_path(v, p2.drop_first()));
    } else {
        assert(p.drop_first().last() == b);
        lemma_path_push(v, p.drop_first(), d);
        assert(p2.drop_first() =~= p.drop_first().push(n));
        assert(p2[0] == p[0] && p2[1] == p[1]);
    }
}

/// A reachable cell's neighbour through an open wall is reachable.
pub proof fn lemma_connected_extend(v: CarverView, a: Coord, b: Coord, d: Direction)
    requires
        connected(v, a, b),
        in_bounds(b, v.width, v.height),
        has_neighbor(b, d, v.width, v.height),
        !v.cell(b).wall_spec(d),
    ensures
        connected(v, a, neighbor_coord(b, d)),
{
    let n = neighbor_coord(b, d);
    lemma_neighbor_sound(b, d, v.width, v.height);
    let p = choose|p: Seq<Coord>| is_open_path(v, p) && p[0] == a && p.last() == b;
    lemma_path_push(v, p, d);
    let p2 = p.push(n);
    assert(is_open_path(v, p2) && p2[0] == a && p2.last() == n);
}

/// Connectivity from the start cell carries over to a state of the same
/// grid whose open walls include the old ones, provided every visited cell
/// and every stack entry of the new state was already reachable in the old.
proof fn lemma_connected_inv_lift(v: CarverView, f: CarverView)
    requires
        f.width == v.width,
        f.height == v.height,
        forall|c: Coord, e: Direction|
            in_bounds(c, v.width, v.height) && !(#[trigger] v.cell(c).wall_spec(e)) ==> !f.cell(
                c,
            ).wall_spec(e),
        forall|c: Coord|
            in_bounds(c, v.width, v.height) && (#[trigger] f.cell(c)).visited ==> connected(
                v,
                v.root(),
                c,
            ),
        forall|i: int| 0 <= i < f.stack.len() ==> connected(v, v.root(), #[trigger] f.stack[i]),
    ensures
        connected_inv(f),
{
    assert forall|c: Coord|
        in_bounds(c, f.width, f.height) && (#[trigger] f.cell(c)).visited implies connected(
        f,
        f.root(),
        c,
    ) by {
        lemma_connected_monotone(v, f, v.root(), c);
    }
    assert forall|i: int| 0 <= i < f.stack.len() implies connected(
        f,
        f.root(),
        #[trigger] f.stack[i],
    ) by {
        lemma_connected_monotone(v, f, v.root(), f.stack[i]);
    }
}

/// As `lemma_connected_inv_lift`, for a state that additionally pushed one
/// new cell onto the stack, reached from an already-connected cell through
/// a wall that is open in the new state.
proof fn lemma_connected_inv_lift_push(v: CarverView, f: CarverView, x: Coord, d: Direction)
    requires
        f.width == v.width,
        f.height == v.height,
        forall|c: Coord, e: Direction|
            in_bounds(c, v.width, v.height) && !(#[trigger] v.cell(c).wall_spec(e)) ==> !f.cell(
                c,
            ).wall_spec(e),
        forall|c: Coord|
            in_bounds(c, v.width, v.height) && (#[trigger] f.cell(c)).visited ==> connected(
                v,
                v.root(),
                c,
            ),
        forall|i: int|
            0 <= i < f.stack.len() - 1 ==> connected(v, v.root(), #[trigger] f.stack[i]),
        f.stack.len() >= 1,
        in_bounds(x, v.width, v.height),
        has_neighbor(x, d, v.width, v.height),
        connected(v, v.root(), x),
        !f.cell(x).wall_spec(d),
        f.stack.last() == neighbor_coord(x, d),
    ensures
        connected_inv(f),
{
    assert forall|c: Coord|
        in_bounds(c, f.width, f.height) && (#[trigger] f.cell(c)).visited implies connected(
        f,
        f.root(),
        c,
    ) by {
        lemma_connected_monotone(v, f, v.root(), c);
    }
    assert forall|i: int| 0 <= i < f.stack.len() implies connected(
        f,
        f.root(),
        #[trigger] f.stack[i],
    ) by {
        if i < f.stack.len() - 1 {
            lemma_connected_monotone(v, f, v.root(), f.stack[i]);
        } else {
            lemma_connected_monotone(v, f, v.root(), x);
            lemma_connected_extend(f, f.root(), x, d);
        }
    }
}

/// The step-and-open protocol preserves reachability of every joined cell
/// from the start cell: a carving move links the one cell it joins to the
/// already-joined current cell, and no move ever closes a wall.
#[verifier::rlimit(100)]
pub proof fn lemma_advance_preserves_connected(v: CarverView, pick: int)
    requires
        v.wf(),
        pick >= 0,
        connected_inv(v),
    ensures
        connected_inv(v.advance_state(pick)),
{
    if v.is_complete() {
        return ;
    }
    let m = v.marked();
    let cs = m.candidates();
    let top = v.top();
    assert(in_bounds(v.stack[v.stack.len() - 1], v.width, v.height));
    lemma_coord_index_bounded(top, v.width, v.height);
    assert(connected(v, v.root(), top));
    assert(forall|c: Coord|
        in_bounds(c, v.width, v.height) ==> (#[trigger] m.cell(c)).visited == (v.cell(c).visited
            || c == top)) by {
        assert forall|c: Coord| in_bounds(c, v.width, v.height) implies (#[trigger] m.cell(
            c,
        )).visited == (v.cell(c).visited || c == top) by {
            lemma_coord_index_bounded(c, v.width, v.height);
            if c != top {
                lemma_coord_index_distinct(c, top, v.width, v.height);
            }
        }
    }
    assert(forall|c: Coord, e: Direction|
        in_bounds(c, v.width, v.height) ==> #[trigger] m.cell(c).wall_spec(e) == v.cell(
            c,
        ).wall_spec(e)) by {
        assert forall|c: Coord, e: Direction| in_bounds(c, v.width, v.height) implies #[trigger] m.cell(
            c,
        ).wall_spec(e) == v.cell(c).wall_spec(e) by {
            lemma_coord_index_bounded(c, v.width, v.height);
            if c != top {
                lemma_coord_index_distinct(c, top, v.width, v.height);
            }
        }
    }
    let f = v.advance_state(pick);
    if cs.len() == 0 {
        assert(f == if m.stack.len() == 1 {
            m
        } else {
            m.popped()
        });
        assert(f.cells == m.cells && f.width == v.width && f.height == v.height);
        assert forall|c: Coord, e: Direction|
            in_bounds(c, v.width, v.height) && !(#[trigger] v.cell(c).wall_spec(
                e,
            )) implies !f.cell(c).wall_spec(e) by {
            assert(m.cell(c).wall_spec(e) == v.cell(c).wall_spec(e));
            assert(f.cell(c) == m.cell(c));
        }
        assert forall|c: Coord|
            in_bounds(c, v.width, v.height) && (#[trigger] f.cell(c)).visited implies connected(
            v,
            v.root(),
            c,
        ) by {
            assert(f.cell(c) == m.cell(c));
        }
        assert forall|i: int| 0 <= i < f.stack.len() implies connected(
            v,
            v.root(),
            #[trigger] f.stack[i],
        ) by {
            assert(f.stack[i] == v.stack[i]);
        }
        lemma_connected_inv_lift(v, f);
        return ;
    }
    let d = cs[pick % cs.len() as int];
    lemma_candidates_all(m);
    assert(m.is_candidate(d));
    lemma_neighbor_sound(top, d, v.width, v.height);
    let n = neighbor_coord(top, d);
    lemma_coord_index_bounded(n, v.width, v.height);
    lemma_coord_index_distinct(top, n, v.width, v.height);
    let p = m.pushed(n);
    let s = v.step_result(pick);
    assert(s.opened_wall && s.from_coord == top && s.to_coord == n);
    assert(f == p.with_pair_open(top, n));
    assert(dir_between(top, n) == d);
    lemma_step_state_wf(v, pick);
    crate::carver::lemma_open_pair_wf(p, top, n);
    assert forall|c: Coord, e: Direction|
        in_bounds(c, v.width, v.height) && !(#[trigger] v.cell(c).wall_spec(
            e,
        )) implies !f.cell(c).wall_spec(e) by {
        assert(m.cell(c).wall_spec(e) == v.cell(c).wall_spec(e));
        assert(p.cell(c) == m.cell(c));
        assert(!p.cell(c).wall_spec(e));
        assert(f.cell(c).wall_spec(e) ==> p.cell(c).wall_spec(e));
    }
    assert forall|c: Coord|
        in_bounds(c, v.width, v.height) && (#[trigger] f.cell(c)).visited implies connected(
        v,
        v.root(),
        c,
    ) by {
        lemma_coord_index_bounded(c, v.width, v.height);
        if c != top {
            lemma_coord_index_distinct(c, top, v.width, v.height);
        }
        if c != n {
            lemma_coord_index_distinct(c, n, v.width, v.height);
        }
        assert(m.cell(c).visited == (v.cell(c).visited || c == top));
    }
    assert forall|i: int| 0 <= i < f.stack.len() - 1 implies connected(
        v,
        v.root(),
        #[trigger] f.stack[i],
    ) by {
        assert(f.stack[i] == v.stack[i]);
    }
    assert(!f.cell(top).wall_spec(d)) by {
        assert(f.cell(top) == p.cell(top).with_wall_open(d));
    }
    assert(f.stack.last() == n);
    lemma_connected_inv_lift_push(v, f, top, d);
}

/// Every visited cell no longer on the stack has all of its in-bounds
/// neighbours visited: the carver only backtracks out of fully explored
/// cells.
pub open spec fn explored(v: CarverView) -> bool {
    forall|c: Coord, e: Direction|
        #![trigger v.cell(c), neighbor_coord(c, e)]
        in_bounds(c, v.width, v.height) && v.cell(c).visited && !v.stack.contains(c)
            && has_neighbor(c, e, v.width, v.height) ==> v.cell(neighbor_coord(c, e)).visited
}

/// The step-and-open protocol preserves `explored`: the stack only sheds a
/// cell when none of its neighbours is left unvisited.
#[verifier::rlimit(100)]
pub proof fn lemma_advance_preserves_explored(v: CarverView, pick: int)
    requires
        v.wf(),
        pick >= 0,
        explored(v),
    ensures
        explored(v.advance_state(pick)),
{
    if v.is_complete() {
        return ;
    }
    let m = v.marked();
    let cs = m.candidates();
    let top = v.top();
    assert(in_bounds(v.stack[v.stack.len() - 1], v.width, v.height));
    lemma_coord_index_bounded(top, v.width, v.height);
    assert(forall|c: Coord|
        in_bounds(c, v.width, v.height) ==> (#[trigger] m.cell(c)).visited == (v.cell(c).visited
            || c == top)) by {
        assert forall|c: Coord| in_bounds(c, v.width, v.height) implies (#[trigger] m.cell(
            c,
        )).visited == (v.cell(c).visited || c == top) by {
            lemma_coord_index_bounded(c, v.width, v.height);
            if c != top {
                lemma_coord_index_distinct(c, top, v.width, v.height);
            }
        }
    }
    assert(v.stack[v.stack.len() - 1] == top);
    assert(v.stack.contains(top));
    let f = v.advance_state(pick);
    if cs.len() == 0 {
        assert(f == if m.stack.len() == 1 {
            m
        } else {
            m.popped()
        });
        lemma_no_candidates(m);
        assert forall|c: Coord, e: Direction|
            in_bounds(c, f.width, f.height) && (#[trigger] f.cell(c)).visited && !f.stack.contains(
                c,
            ) && has_neighbor(c, e, f.width, f.height) implies f.cell(
            #[trigger] neighbor_coord(c, e),
        ).visited by {
            let nb = neighbor_coord(c, e);
            lemma_neighbor_sound(c, e, v.width, v.height);
            assert(f.cell(c) == m.cell(c) && f.cell(nb) == m.cell(nb));
            assert(m.cell(c).visited == (v.cell(c).visited || c == top));
            assert(m.cell(nb).visited == (v.cell(nb).visited || nb == top));
            if c == top {
                assert(!m.is_candidate(e));
                assert(m.cell(nb).visited);
            } else {
                assert(!v.stack.contains(c)) by {
                    if v.stack.contains(c) {
                        let i = choose|i: int| 0 <= i < v.stack.len() && v.stack[i] == c;
                        if m.stack.len() > 1 && i < v.stack.len() - 1 {
                            assert(f.stack[i] == c);
                            assert(f.stack.contains(c));
                        } else if m.stack.len() == 1 {
                            assert(f.stack.contains(c));
                        } else {
                            assert(c == top);
                        }
                    }
                }
                assert(v.cell(c).visited);
                assert(v.cell(nb).visited);
            }
        }
        return ;
    }
    let d = cs[pick % cs.len() as int];
    lemma_candidates_all(m);
    assert(m.is_candidate(d));
    lemma_neighbor_sound(top, d, v.width, v.height);
    let n = neighbor_coord(top, d);
    lemma_coord_index_bounded(n, v.width, v.height);
    lemma_coord_index_distinct(top, n, v.width, v.height);
    let p = m.pushed(n);
    let s = v.step_result(pick);
    assert(s.opened_wall && s.from_coord == top && s.to_coord == n);
    assert(f == p.with_pair_open(top, n));
    assert(forall|c: Coord|
        in_bounds(c, v.width, v.height) ==> (#[trigger] f.cell(c)).visited == m.cell(
            c,
        ).visited) by {
        assert forall|c: Coord| in_bounds(c, v.width, v.height) implies (#[trigger] f.cell(
            c,
        )).visited == m.cell(c).visited by {
            lemma_coord_index_bounded(c, v.width, v.height);
            if c != top {
                lemma_coord_index_distinct(c, top, v.width, v.height);
            }
            if c != n {
                lemma_coord_index_distinct(c, n, v.width, v.height);
            }
        }
    }
    assert forall|c: Coord, e: Direction|
        in_bounds(c, f.width, f.height) && (#[trigger] f.cell(c)).visited && !f.stack.contains(
            c,
        ) && has_neighbor(c, e, f.width, f.height) implies f.cell(
        #[trigger] neighbor_coord(c, e),
    ).visited by {
        let nb = neighbor_coord(c, e);
        lemma_neighbor_sound(c, e, v.width, v.height);
        assert(!v.stack.contains(c)) by {
            if v.stack.contains(c) {
                let i = choose|i: int| 0 <= i < v.stack.len() && v.stack[i] == c;
                assert(f.stack[i] == c);
                assert(f.stack.contains(c));
            }
        }
        assert(c != top);
        assert(v.cell(c).visited);
        assert(v.cell(nb).visited);
    }
}

/// The step-and-open protocol preserves the open-wall bookkeeping: a move
/// that carves opens exactly one previously closed wall pair and joins
/// exactly one new cell, and every other move changes neither.
#[verifier::rlimit(100)]
pub proof fn lemma_advance_preserves_counts(v: CarverView, pick: int)
    requires
        v.wf(),
        pick >= 0,
        count_inv(v),
        edges_carved(v),
    ensures
        count_inv(v.advance_state(pick)),
        edges_carved(v.advance_state(pick)),
{
    if v.is_complete() {
        return ;
    }
    let m = v.marked();
    let cs = m.candidates();
    let top = v.top();
    assert(in_bounds(v.stack[v.stack.len() - 1], v.width, v.height));
    lemma_coord_index_bounded(top, v.width, v.height);
    let itop = coord_index(top, v.width);
    lemma_unvisited_count_update(v.cells, itop);
    lemma_open_wall_total_update(v.cells, itop, v.cells[itop].visited_cell());
    assert(open_wall_count_cell(v.cells[itop].visited_cell()) == open_wall_count_cell(
        v.cells[itop],
    ));
    assert(open_wall_total(m.cells) == open_wall_total(v.cells));
    assert(joined_cells(m) == joined_cells(v));
    assert(forall|c: Coord|
        in_bounds(c, v.width, v.height) ==> (#[trigger] m.cell(c)).visited == (v.cell(c).visited
            || c == top)) by {
        assert forall|c: Coord| in_bounds(c, v.width, v.height) implies (#[trigger] m.cell(
            c,
        )).visited == (v.cell(c).visited || c == top) by {
            lemma_coord_index_bounded(c, v.width, v.height);
            if c != top {
                lemma_coord_index_distinct(c, top, v.width, v.height);
            }
        }
    }
    assert(forall|c: Coord, e: Direction|
        in_bounds(c, v.width, v.height) ==> #[trigger] m.cell(c).wall_spec(e) == v.cell(
            c,
        ).wall_spec(e)) by {
        assert forall|c: Coord, e: Direction| in_bounds(c, v.width, v.height) implies #[trigger] m.cell(
            c,
        ).wall_spec(e) == v.cell(c).wall_spec(e) by {
            lemma_coord_index_bounded(c, v.width, v.height);
            if c != top {
                lemma_coord_index_distinct(c, top, v.width, v.height);
            }
        }
    }
    if cs.len() == 0 {
        let f = v.advance_state(pick);
        assert(f == if m.stack.len() == 1 {
            m
        } else {
            m.popped()
        });
        if m.stack.len() > 1 {
            assert(v.cell(v.stack[v.stack.len() - 2]).visited);
            lemma_coord_index_bounded(v.stack[v.stack.len() - 2], v.width, v.height);
            assert(m.cell(f.top()).visited);
        }
        assert(count_inv(f));
        assert forall|c: Coord, e: Direction|
            in_bounds(c, f.width, f.height) && has_neighbor(c, e, f.width, f.height) && !(
            #[trigger] f.cell(c).wall_spec(e)) implies edge_carved(f, c, e) by {
            let nb = neighbor_coord(c, e);
            lemma_neighbor_sound(c, e, v.width, v.height);
            lemma_coord_index_bounded(c, v.width, v.height);
            lemma_coord_index_bounded(nb, v.width, v.height);
            assert(!v.cell(c).wall_spec(e));
            assert(edge_carved(v, c, e));
            if v.cell(c).visited && v.cell(nb).visited {
                assert(m.cell(c).visited && m.cell(nb).visited);
            } else {
                assert(v.stack.len() >= 2);
                assert(v.cell(v.stack[v.stack.len() - 2]).visited);
                assert(m.cell(v.top()).visited && m.cell(v.stack[v.stack.len() - 2]).visited);
                assert(m.cell(c).visited && m.cell(nb).visited);
            }
        }
        return ;
    }
    // a candidate was pushed and the reported wall pair opened
    let d = cs[pick % cs.len() as int];
    lemma_candidates_all(m);
    assert(m.is_candidate(d));
    lemma_neighbor_sound(top, d, v.width, v.height);
    let n = neighbor_coord(top, d);
    lemma_coord_index_bounded(n, v.width, v.height);
    lemma_coord_index_distinct(top, n, v.width, v.height);
    let inn = coord_index(n, v.width);
    let p = m.pushed(n);
    let s = v.step_result(pick);
    assert(s.opened_wall && s.from_coord == top && s.to_coord == n);
    let f = v.advance_state(pick);
    assert(f == p.with_pair_open(top, n));
    assert(dir_between(top, n) == d);
    // the pair being opened was closed: its target is unvisited, so an open
    // wall there could not have been accounted for
    assert(!v.cell(n).visited);
    assert(v.cell(top).wall_spec(d)) by {
        if !v.cell(top).wall_spec(d) {
            assert(edge_carved(v, top, d));
            assert(v.stack.len() >= 2 ==> v.cell(v.stack[v.stack.len() - 2]).visited);
        }
    }
    assert(v.cell(n).wall_spec(d.opposite_spec())) by {
        assert(v.cell(top).wall_spec(d) == v.cell(n).wall_spec(d.opposite_spec()));
    }
    // counting: two wall sides open, one cell joined
    let a_cell = p.cell(top).with_wall_open(d);
    let b_cell = p.cell(n).with_wall_open(d.opposite_spec());
    lemma_open_wall_total_update(p.cells, itop, a_cell);
    let cells1 = p.cells.update(itop, a_cell);
    lemma_open_wall_total_update(cells1, inn, b_cell);
    assert(cells1[inn] == m.cells[inn]);
    assert(open_wall_count_cell(a_cell) == open_wall_count_cell(m.cells[itop]) + 1);
    assert(open_wall_count_cell(b_cell) == open_wall_count_cell(m.cells[inn]) + 1);
    assert(open_wall_total(f.cells) == open_wall_total(v.cells) + 2);
    assert(forall|c: Coord|
        in_bounds(c, v.width, v.height) ==> (#[trigger] f.cell(c)).visited == m.cell(
            c,
        ).visited) by {
        assert forall|c: Coord| in_bounds(c, v.width, v.height) implies (#[trigger] f.cell(
            c,
        )).visited == m.cell(c).visited by {
            lemma_coord_index_bounded(c, v.width, v.height);
            if c != top {
                lemma_coord_index_distinct(c, top, v.width, v.height);
            }
            if c != n {
                lemma_coord_index_distinct(c, n, v.width, v.height);
            }
        }
    }
    assert forall|i: int| 0 <= i < f.cells.len() implies (#[trigger] f.cells[i]).visited
        == m.cells[i].visited by {
    }
    crate::carver::lemma_unvisited_count_same_flags(f.cells, m.cells);
    assert(f.top() == n);
    assert(!f.cell(n).visited);
    assert(joined_cells(f) == joined_cells(v) + 1);
    assert(count_inv(f));
    // every open wall of the new state is accounted for
    assert forall|c: Coord, e: Direction|
        in_bounds(c, f.width, f.height) && has_neighbor(c, e, f.width, f.height) && !(
        #[trigger] f.cell(c).wall_spec(e)) implies edge_carved(f, c, e) by {
        let nb = neighbor_coord(c, e);
        lemma_neighbor_sound(c, e, v.width, v.height);
        lemma_coord_index_bounded(c, v.width, v.height);
        lemma_coord_index_bounded(nb, v.width, v.height);
        if c != top {
            lemma_coord_index_distinct(c, top, v.width, v.height);
        }
        if c != n {
            lemma_coord_index_distinct(c, n, v.width, v.height);
        }
        assert(f.stack.len() >= 2 && f.top() == n && f.stack[f.stack.len() - 2] == top);
        if c == top && e == d {
            assert(edge_carved(f, c, e));
        } else if c == n && e == d.opposite_spec() {
            assert(neighbor_coord(n, d.opposite_spec()) == top);
            assert(edge_carved(f, c, e));
        } else {
            assert(f.cell(c).wall_spec(e) == v.cell(c).wall_spec(e));
            assert(edge_carved(v, c, e));
            if v.cell(c).visited && v.cell(nb).visited {
                assert(f.cell(c).visited && f.cell(nb).visited);
            } else {
                assert(v.stack.len() >= 2);
                assert(in_bounds(v.stack[v.stack.len() - 2], v.width, v.height));
                assert(v.cell(v.stack[v.stack.len() - 2]).visited);
                assert(f.cell(v.top()).visited && f.cell(v.stack[v.stack.len() - 2]).visited);
                assert(f.cell(c).visited && f.cell(nb).visited);
            }
        }
    }
}

/// With every wall of every cell present, the open-wall total is zero.
pub proof fn lemma_open_wall_total_zero(cells: Seq<Cell>)
    requires
        forall|i: int| 0 <= i < cells.len() ==> open_wall_count_cell(#[trigger] cells[i]) == 0,
    ensures
        open_wall_total(cells) == 0,
    decreases cells.len(),
{
    if cells.len() > 0 {
        lemma_open_wall_total_zero(cells.drop_last());
    }
}

/// With every cell visited, the unvisited count is zero.
pub proof fn lemma_unvisited_count_zero(cells: Seq<Cell>)
    requires
        forall|i: int| 0 <= i < cells.len() ==> (#[trigger] cells[i]).visited,
    ensures
        unvisited_count(cells) == 0,
    decreases cells.len(),
{
    if cells.len() > 0 {
        lemma_unvisited_count_zero(cells.drop_last());
    }
}

/// When every in-bounds coordinate's cell is visited, every entry of the
/// cell sequence is visited: each index is the row-major index of exactly
/// one in-bounds coordinate.
proof fn lemma_all_visited_by_index(v: CarverView)
    requires
        v.wf(),
        forall|c: Coord| in_bounds(c, v.width, v.height) ==> (#[trigger] v.cell(c)).visited,
    ensures
        forall|i: int| 0 <= i < v.cells.len() ==> (#[trigger] v.cells[i]).visited,
{
    assert forall|i: int| 0 <= i < v.cells.len() implies (#[trigger] v.cells[i]).visited by {
        let w = v.width as int;
        let h = v.height as int;
        let c = Coord { x: (i % w) as usize, y: (i / w) as usize };
        vstd::arithmetic::div_mod::lemma_fundamental_div_mod(i, w);
        vstd::arithmetic::div_mod::lemma_mod_division_less_than_divisor(i, w);
        assert(0 <= i / w && i / w < h) by (nonlinear_arith)
            requires
                w >= 1,
                h >= 1,
                0 <= i,
                i < w * h,
                i == w * (i / w) + i % w,
                0 <= i % w < w,
        ;
        assert((i / w) * w == w * (i / w)) by (nonlinear_arith);
        assert((i / w) * w + i % w == i);
        assert(in_bounds(c, v.width, v.height));
        assert(coord_index(c, v.width) == i);
        assert(v.cell(c).visited);
    }
}

/// Along any grid walk from an unvisited cell to a visited cell there is a
/// first crossing: an unvisited cell whose successor on the walk is
/// visited.
proof fn lemma_first_visited_transition(v: CarverView, p: Seq<Coord>)
    requires
        is_grid_path(p, v.width, v.height),
        !v.cell(p[0]).visited,
        v.cell(p.last()).visited,
    ensures
        exists|i: int|
            0 <= i < p.len() - 1 && !v.cell(#[trigger] p[i]).visited && v.cell(p[i + 1]).visited
                && in_bounds(p[i], v.width, v.height) && in_bounds(p[i + 1], v.width, v.height)
                && adjacent(p[i], p[i + 1]),
    decreases p.len(),
{
    if p.len() == 1 {
        assert(p.last() == p[0]);
        assert(false);
    }
    if v.cell(p[1]).visited {
        assert(in_bounds(p[1], v.width, v.height)) by {
            assert(is_grid_path(p.drop_first(), v.width, v.height));
            assert(p.drop_first()[0] == p[1]);
        }
        assert(0 <= 0 < p.len() - 1 && !v.cell(p[0]).visited && v.cell(p[1]).visited
            && in_bounds(p[0], v.width, v.height) && in_bounds(p[1], v.width, v.height)
            && adjacent(p[0], p[1]));
    } else {
        let q = p.drop_first();
        assert(q[0] == p[1] && q.last() == p.last());
        lemma_first_visited_transition(v, q);
        let j = choose|j: int|
            0 <= j < q.len() - 1 && !v.cell(#[trigger] q[j]).visited && v.cell(q[j + 1]).visited
                && in_bounds(q[j], v.width, v.height) && in_bounds(q[j + 1], v.width, v.height)
                && adjacent(q[j], q[j + 1]);
        assert(q[j] == p[j + 1] && q[j + 1] == p[j + 2]);
        assert(0 <= j + 1 < p.len() - 1 && !v.cell(p[j + 1]).visited && v.cell(
            p[j + 1 + 1],
        ).visited && in_bounds(p[j + 1], v.width, v.height) && in_bounds(
            p[j + 1 + 1],
            v.width,
            v.height,
        ) && adjacent(p[j + 1], p[j + 1 + 1]));
    }
}

/// A carving move that completes generation leaves no cell unvisited:
/// the stack only unwinds out of fully explored cells, and a cell still
/// unvisited at that moment would, along a grid walk from it to an
/// explored cell, put an unvisited neighbour next to a fully explored
/// cell — impossible.
#[verifier::rlimit(100)]
proof fn lemma_advance_completion_full(v: CarverView, pick: int)
    requires
        carve_inv(v),
        pick >= 0,
        !v.is_complete(),
        v.advance_state(pick).is_complete(),
    ensures
        forall|c: Coord|
            in_bounds(c, v.width, v.height) ==> (#[trigger] v.advance_state(pick).cell(
                c,
            )).visited,
{
    let m = v.marked();
    let cs = m.candidates();
    let top = v.top();
    let origin = v.root();
    assert(in_bounds(v.stack[v.stack.len() - 1], v.width, v.height));
    lemma_coord_index_bounded(top, v.width, v.height);
    assert(forall|c: Coord|
        in_bounds(c, v.width, v.height) ==> (#[trigger] m.cell(c)).visited == (v.cell(c).visited
            || c == top)) by {
        assert forall|c: Coord| in_bounds(c, v.width, v.height) implies (#[trigger] m.cell(
            c,
        )).visited == (v.cell(c).visited || c == top) by {
            lemma_coord_index_bounded(c, v.width, v.height);
            if c != top {
                lemma_coord_index_distinct(c, top, v.width, v.height);
            }
        }
    }
    let f = v.advance_state(pick);
    if cs.len() > 0 {
        assert(f.stack.len() == v.stack.len() + 1);
        assert(!f.is_complete());
    }
    assert(cs.len() == 0);
    lemma_no_candidates(m);
    assert(f == if m.stack.len() == 1 {
        m
    } else {
        m.popped()
    });
    assert(f.cells == m.cells && f.width == v.width && f.height == v.height);
    assert(m.cell(top).visited);
    if m.stack.len() == 1 {
        assert(top == origin);
        assert forall|c: Coord| in_bounds(c, v.width, v.height) implies (#[trigger] f.cell(
            c,
        )).visited by {
            assert(f.cell(c) == m.cell(c));
            if !m.cell(c).visited {
                assert(c != top);
                lemma_to_origin_path(c, v.width, v.height);
                let p0 = to_origin_path(c);
                assert(m.cell(origin).visited);
                lemma_first_visited_transition(m, p0);
                let i = choose|i: int|
                    0 <= i < p0.len() - 1 && !m.cell(#[trigger] p0[i]).visited && m.cell(
                        p0[i + 1],
                    ).visited && in_bounds(p0[i], v.width, v.height) && in_bounds(
                        p0[i + 1],
                        v.width,
                        v.height,
                    ) && adjacent(p0[i], p0[i + 1]);
                let u = p0[i];
                let x = p0[i + 1];
                lemma_adjacent_symmetric(u, x);
                lemma_adjacent_has_neighbor(x, u, v.width, v.height);
                let e = dir_between(x, u);
                if x == origin {
                    assert(!m.is_candidate(e));
                    assert(m.cell(neighbor_coord(m.top(), e)).visited);
                    assert(false);
                } else {
                    assert(!v.stack.contains(x)) by {
                        if v.stack.contains(x) {
                            let j = choose|j: int|
                                0 <= j < v.stack.len() && v.stack[j] == x;
                            assert(j == 0 && v.stack[0] == origin);
                        }
                    }
                    assert(v.cell(x).visited);
                    assert(v.cell(neighbor_coord(x, e)).visited);
                    assert(m.cell(u).visited);
                    assert(false);
                }
            }
        }
    } else {
        assert(f.stack.len() == m.stack.len() - 1);
        assert(v.stack.len() == 2);
        assert(v.stack[0] == origin);
        let t = top;
        assert(t == v.stack[1]);
        assert(adjacent(v.stack[0], v.stack[1]));
        lemma_adjacent_symmetric(origin, t);
        assert(t != origin);
        assert(v.cell(v.stack[0]).visited);
        assert(v.width >= 2 || v.height >= 2) by {
            assert(in_bounds(v.stack[1], v.width, v.height));
            assert(t.x >= 1 || t.y >= 1);
        }
        assert forall|c: Coord| in_bounds(c, v.width, v.height) implies (#[trigger] f.cell(
            c,
        )).visited by {
            assert(f.cell(c) == m.cell(c));
            if !m.cell(c).visited {
                assert(c != t && c != origin);
                lemma_offorigin_walk(c, t, v.width, v.height);
                let p0 = choose|p0: Seq<Coord>|
                    is_grid_path(p0, v.width, v.height) && p0[0] == c && p0.last() == t && (
                    forall|i: int|
                        0 <= i < p0.len() ==> #[trigger] p0[i] != (Coord { x: 0, y: 0 }));
                assert(m.cell(t).visited);
                lemma_first_visited_transition(m, p0);
                let i = choose|i: int|
                    0 <= i < p0.len() - 1 && !m.cell(#[trigger] p0[i]).visited && m.cell(
                        p0[i + 1],
                    ).visited && in_bounds(p0[i], v.width, v.height) && in_bounds(
                        p0[i + 1],
                        v.width,
                        v.height,
                    ) && adjacent(p0[i], p0[i + 1]);
                let u = p0[i];
                let x = p0[i + 1];
                assert(x != (Coord { x: 0, y: 0 }));
                assert(x != origin);
                lemma_adjacent_symmetric(u, x);
                lemma_adjacent_has_neighbor(x, u, v.width, v.height);
                let e = dir_between(x, u);
                if x == t {
                    assert(!m.is_candidate(e));
                    assert(m.cell(neighbor_coord(m.top(), e)).visited);
                    assert(false);
                } else {
                    assert(!v.stack.contains(x)) by {
                        if v.stack.contains(x) {
                            let j = choose|j: int|
                                0 <= j < v.stack.len() && v.stack[j] == x;
                            assert(j == 0 || j == 1);
                        }
                    }
                    assert(v.cell(x).visited);
                    assert(v.cell(neighbor_coord(x, e)).visited);
                    assert(m.cell(u).visited);
                    assert(false);
                }
            }
        }
    }
}

/// Whenever generation is complete, every cell of the grid is visited.
pub open spec fn completion_full(v: CarverView) -> bool {
    v.is_complete() ==> forall|c: Coord|
        in_bounds(c, v.width, v.height) ==> (#[trigger] v.cell(c)).visited
}

/// The protocol invariant of a carver driven by the step-and-open
/// protocol: a well-formed state with exact open-wall bookkeeping, every
/// open wall accounted for, every joined cell reachable from the start
/// cell, and every cell the stack has shed fully explored.
pub open spec fn carve_inv(v: CarverView) -> bool {
    &&& v.wf()
    &&& count_inv(v)
    &&& edges_carved(v)
    &&& connected_inv(v)
    &&& explored(v)
    &&& completion_full(v)
}

/// A fresh carver satisfies the protocol invariant.
pub proof fn lemma_initial_carve_inv(width: usize, height: usize)
    requires
        width >= 1,
        height >= 1,
        width * height <= usize::MAX,
    ensures
        carve_inv(CarverView::initial(width, height)),
{
    let v = CarverView::initial(width, height);
    crate::carver::lemma_initial_wf(width, height);
    crate::carver::lemma_unvisited_count_all(v.cells);
    assert forall|i: int| 0 <= i < v.cells.len() implies open_wall_count_cell(
        #[trigger] v.cells[i],
    ) == 0 by {
    }
    lemma_open_wall_total_zero(v.cells);
    assert(v.top() == (Coord { x: 0, y: 0 }));
    assert(v.top().x == 0 && v.top().y == 0);
    assert(0 * (width as int) + 0 == 0);
    assert(coord_index(v.top(), width) == v.top().y * width + v.top().x);
    assert(coord_index(v.top(), width) == 0);
    assert(!v.cell(v.top()).visited);
    assert(joined_cells(v) == 1);
    assert(count_inv(v));
    assert forall|c: Coord, d: Direction|
        in_bounds(c, v.width, v.height) && has_neighbor(c, d, v.width, v.height) && !(
        #[trigger] v.cell(c).wall_spec(d)) implies edge_carved(v, c, d) by {
        lemma_coord_index_bounded(c, v.width, v.height);
    }
    assert forall|c: Coord|
        in_bounds(c, v.width, v.height) && (#[trigger] v.cell(c)).visited implies connected(
        v,
        v.root(),
        c,
    ) by {
        lemma_coord_index_bounded(c, v.width, v.height);
    }
    assert forall|i: int| 0 <= i < v.stack.len() implies connected(
        v,
        v.root(),
        #[trigger] v.stack[i],
    ) by {
        lemma_connected_refl(v, v.root());
    }
    assert forall|c: Coord, e: Direction|
        #![trigger v.cell(c), neighbor_coord(c, e)]
        in_bounds(c, v.width, v.height) && v.cell(c).visited && !v.stack.contains(c)
            && has_neighbor(c, e, v.width, v.height) implies v.cell(
        neighbor_coord(c, e),
    ).visited by {
        lemma_coord_index_bounded(c, v.width, v.height);
    }
    assert(completion_full(v));
}

/// The protocol invariant is preserved by every carving move.
pub proof fn lemma_advance_preserves_carve_inv(v: CarverView, pick: int)
    requires
        carve_inv(v),
        pick >= 0,
    ensures
        carve_inv(v.advance_state(pick)),
{
    crate::carver::lemma_advance_state_wf(v, pick);
    lemma_advance_preserves_counts(v, pick);
    lemma_advance_preserves_connected(v, pick);
    lemma_advance_preserves_explored(v, pick);
    if v.advance_state(pick).is_complete() {
        if v.is_complete() {
            assert(v.advance_state(pick) == v);
        } else {
            lemma_advance_completion_full(v, pick);
        }
    }
}

/// The perfect-maze invariant: when a carver driven by the step-and-open
/// protocol completes, the open-wall graph is a spanning tree of the grid —
/// it connects every cell to the start cell and holds exactly
/// `width * height - 1` open wall pairs.
pub proof fn lemma_perfect_maze(v: CarverView)
    requires
        carve_inv(v),
        v.is_complete(),
    ensures
        open_pairs(v) == v.width * v.height - 1,
        forall|c: Coord| in_bounds(c, v.width, v.height) ==> connected(v, v.root(), c),
{
    lemma_all_visited_by_index(v);
    lemma_unvisited_count_zero(v.cells);
    assert(v.top() == v.stack[0]);
    assert(v.top() == v.root());
    assert(v.top().x == 0 && v.top().y == 0);
    assert(0 * (v.width as int) + 0 == 0);
    assert(coord_index(v.top(), v.width) == v.top().y * v.width + v.top().x);
    assert(coord_index(v.top(), v.width) == 0);
    assert(v.cell(v.top()).visited);
    assert(joined_cells(v) == v.width * v.height);
    assert(open_wall_total(v.cells) == 2 * (v.width * v.height - 1));
    assert(open_pairs(v) == v.width * v.height - 1);
    assert forall|c: Coord| in_bounds(c, v.width, v.height) implies connected(
        v,
        v.root(),
        c,
    ) by {
        assert(v.cell(c).visited);
    }
}

} // verus!
