//! The maze carver: a randomized depth-first state machine that carves a
//! perfect maze into a rectangular grid, one step at a time.
//!
//! A [`Carver`] owns the cells and a backtracking stack of coordinates. Each
//! [`Carver::step`] either pushes a random in-bounds unvisited neighbour of
//! the current cell (reporting that a wall pair should be opened) or pops the
//! stack when the current cell has no such neighbour. The carver never opens
//! walls by itself: the caller passes a step result with `opened_wall` set to
//! [`Carver::open_walls`], which opens the matched wall pair.
//!
//! The whole transition is modelled by the spec functions
//! [`CarverView::step_state`] and [`CarverView::step_result`]: given the
//! state before the step and the index drawn from the random source, they
//! return the state after the step and the reported step result. Every
//! executable transition is pinned to this model by its postcondition.

use vstd::prelude::*;

use crate::grid::Cell;
use crate::grid::Coord;
use crate::grid::Direction;
use crate::grid::adjacent;
use crate::grid::coord_index;
use crate::grid::coord_to_idx;
use crate::grid::dir_between;
use crate::grid::has_neighbor;
use crate::grid::in_bounds;
use crate::grid::lemma_adjacent_symmetric;
use crate::grid::lemma_coord_index_bounded;
use crate::grid::lemma_coord_index_distinct;
use crate::grid::lemma_neighbor_sound;
use crate::grid::neighbor;
use crate::grid::neighbor_coord;

verus! {

/// The outcome of one carving step.
///
/// When `opened_wall` is true the step connected the grid-adjacent cells
/// `from_coord` and `to_coord` and the caller should pass the step to
/// [`Carver::open_walls`]; when it is false the step was a pure backtrack
/// (or a terminal no-op, with `from_coord == to_coord`) and no wall changes.
#[derive(Clone, Copy, Debug, PartialEq, Eq, Structural)]
pub struct Step {
    pub from_coord: Coord,
    pub to_coord: Coord,
    pub opened_wall: bool,
}

impl Step {
    /// The direction of travel from `from_coord` to `to_coord`.
    pub fn direction(&self) -> (r: Direction)
        requires
            adjacent(self.from_coord, self.to_coord),
        ensures
            r == dir_between(self.from_coord, self.to_coord),
    {
        Direction::from_coords(self.from_coord, self.to_coord)
    }
}

/// Why a carver could not be constructed.
#[derive(Clone, Copy, Debug, PartialEq, Eq, Structural)]
pub enum CarverError {
    /// A requested dimension was zero.
    InvalidConfiguration,
}

/// The number of unvisited cells in `cells`.
pub open spec fn unvisited_count(cells: Seq<Cell>) -> int
    decreases cells.len(),
{
    if cells.len() == 0 {
        0
    } else {
        unvisited_count(cells.drop_last()) + if !cells.last().visited {
            1int
        } else {
            0int
        }
    }
}

/// The mathematical state of a [`Carver`]: dimensions, cell sequence and
/// backtracking stack.
#[verifier::ext_equal]
pub struct CarverView {
    pub width: usize,
    pub height: usize,
    pub cells: Seq<Cell>,
    pub stack: Seq<Coord>,
}

impl CarverView {
    /// The generation's start coordinate, the bottom of the stack.
    pub open spec fn root(self) -> Coord {
        Coord { x: 0, y: 0 }
    }

    /// The current cell: the top of the backtracking stack.
    pub open spec fn top(self) -> Coord {
        self.stack[self.stack.len() - 1]
    }

    /// The cell stored for coordinate `c`.
    pub open spec fn cell(self, c: Coord) -> Cell {
        self.cells[coord_index(c, self.width)]
    }

    /// Matched wall pairs: the wall of every in-bounds cell facing an
    /// in-bounds neighbour is present exactly when the neighbour's facing
    /// wall is.
    pub open spec fn walls_symmetric(self) -> bool {
        forall|c: Coord, d: Direction|
            in_bounds(c, self.width, self.height) && has_neighbor(c, d, self.width, self.height)
                ==> #[trigger] self.cell(c).wall_spec(d) == self.cell(
                neighbor_coord(c, d),
            ).wall_spec(d.opposite_spec())
    }

    /// Well-formedness: positive dimensions whose product fits the machine,
    /// one cell per coordinate, a non-empty stack of in-bounds coordinates
    /// in which consecutive entries are grid-adjacent and every entry below
    /// the top is visited, and symmetric walls.
    pub open spec fn wf(self) -> bool {
        &&& self.width >= 1
        &&& self.height >= 1
        &&& 1 <= self.width * self.height <= usize::MAX
        &&& self.cells.len() == self.width * self.height
        &&& self.stack.len() >= 1
        &&& self.stack[0] == self.root()
        &&& forall|i: int|
            0 <= i < self.stack.len() ==> in_bounds(
                #[trigger] self.stack[i],
                self.width,
                self.height,
            )
        &&& forall|i: int|
            0 <= i < self.stack.len() - 1 ==> (#[trigger] self.cell(self.stack[i])).visited
        &&& forall|i: int|
            0 <= i < self.stack.len() - 1 ==> adjacent(
                #[trigger] self.stack[i],
                self.stack[i + 1],
            )
        &&& self.walls_symmetric()
    }

    /// Generation is complete: the start cell is visited and the stack has
    /// unwound to its minimal length.
    pub open spec fn is_complete(self) -> bool {
        self.stack.len() == 1 && self.cells[0].visited
    }

    /// Whether direction `d` leads from the current cell to an in-bounds,
    /// not yet visited neighbour.
    pub open spec fn is_candidate(self, d: Direction) -> bool {
        has_neighbor(self.top(), d, self.width, self.height) && !self.cell(
            neighbor_coord(self.top(), d),
        ).visited
    }

    /// `[d]` when `d` is a candidate, empty otherwise.
    pub open spec fn cand_part(self, d: Direction) -> Seq<Direction> {
        if self.is_candidate(d) {
            seq![d]
        } else {
            Seq::<Direction>::empty()
        }
    }

    /// The candidate set from the current cell, enumerated clockwise
    /// starting at `Right`.
    pub open spec fn candidates(self) -> Seq<Direction> {
        self.cand_part(Direction::Right) + self.cand_part(Direction::Down) + self.cand_part(
            Direction::Left,
        ) + self.cand_part(Direction::Up)
    }

    /// This state with the current cell marked visited.
    pub open spec fn marked(self) -> CarverView {
        CarverView {
            width: self.width,
            height: self.height,
            cells: self.cells.update(
                coord_index(self.top(), self.width),
                self.cell(self.top()).visited_cell(),
            ),
            stack: self.stack,
        }
    }

    /// This state with the top of the stack popped.
    pub open spec fn popped(self) -> CarverView {
        CarverView {
            width: self.width,
            height: self.height,
            cells: self.cells,
            stack: self.stack.drop_last(),
        }
    }

    /// This state with `c` pushed onto the stack.
    pub open spec fn pushed(self, c: Coord) -> CarverView {
        CarverView {
            width: self.width,
            height: self.height,
            cells: self.cells,
            stack: self.stack.push(c),
        }
    }

    /// The state after one step that draws `pick` from the random source:
    /// unchanged when complete; otherwise the current cell is marked and
    /// then either a candidate neighbour is pushed, or the stack is popped,
    /// or — when the stack cannot unwind further — nothing else changes.
    pub open spec fn step_state(self, pick: int) -> CarverView {
        if self.is_complete() {
            self
        } else {
            let m = self.marked();
            let cs = m.candidates();
            if cs.len() == 0 {
                if m.stack.len() == 1 {
                    m
                } else {
                    m.popped()
                }
            } else {
                let d = cs[pick % cs.len() as int];
                m.pushed(neighbor_coord(self.top(), d))
            }
        }
    }

    /// The step result reported by the step described by `step_state`.
    pub open spec fn step_result(self, pick: int) -> Step {
        if self.is_complete() {
            Step { from_coord: self.top(), to_coord: self.top(), opened_wall: false }
        } else {
            let m = self.marked();
            let cs = m.candidates();
            if cs.len() == 0 {
                if m.stack.len() == 1 {
                    Step { from_coord: self.top(), to_coord: self.top(), opened_wall: false }
                } else {
                    Step {
                        from_coord: self.top(),
                        to_coord: self.stack[self.stack.len() - 2],
                        opened_wall: false,
                    }
                }
            } else {
                let d = cs[pick % cs.len() as int];
                Step {
                    from_coord: self.top(),
                    to_coord: neighbor_coord(self.top(), d),
                    opened_wall: true,
                }
            }
        }
    }

    /// This state with the matched wall pair between the adjacent cells
    /// `from` and `to` opened.
    pub open spec fn with_pair_open(self, from: Coord, to: Coord) -> CarverView {
        let d = dir_between(from, to);
        CarverView {
            width: self.width,
            height: self.height,
            cells: self.cells.update(
                coord_index(from, self.width),
                self.cell(from).with_wall_open(d),
            ).update(coord_index(to, self.width), self.cell(to).with_wall_open(d.opposite_spec())),
            stack: self.stack,
        }
    }

    /// The state after one step that draws `pick`, with the wall pair the
    /// step reports opened when the step carved: the combined transition of
    /// `step_with` followed by `open_walls` on its result.
    pub open spec fn advance_state(self, pick: int) -> CarverView {
        let s = self.step_result(pick);
        if s.opened_wall {
            self.step_state(pick).with_pair_open(s.from_coord, s.to_coord)
        } else {
            self.step_state(pick)
        }
    }

    /// The termination measure: twice the number of unvisited cells off the
    /// top of the stack, plus the stack length. Every step that does not end
    /// the generation lowers it.
    pub open spec fn measure(self) -> int {
        2 * (unvisited_count(self.cells) - (if !self.cell(self.top()).visited {
            1int
        } else {
            0int
        })) + self.stack.len()
    }

    /// The carver state of a fresh `width * height` grid: every cell
    /// unvisited with all walls present, and the stack holding the root.
    pub open spec fn initial(width: usize, height: usize) -> CarverView {
        CarverView {
            width,
            height,
            cells: Seq::new(
                (width * height) as nat,
                |i: int|
                    Cell {
                        visited: false,
                        wall_up: true,
                        wall_down: true,
                        wall_left: true,
                        wall_right: true,
                    },
            ),
            stack: seq![Coord { x: 0, y: 0 }],
        }
    }
}

/// Marking one cell visited lowers the unvisited count by one exactly when
/// that cell was unvisited.
pub proof fn lemma_unvisited_count_update(cells: Seq<Cell>, j: int)
    requires
        0 <= j < cells.len(),
    ensures
        unvisited_count(cells.update(j, cells[j].visited_cell())) == unvisited_count(cells) - (
        if !cells[j].visited {
            1int
        } else {
            0int
        }),
    decreases cells.len(),
{
    let upd = cells.update(j, cells[j].visited_cell());
    if j == cells.len() - 1 {
        assert(upd.drop_last() =~= cells.drop_last());
    } else {
        assert(upd.drop_last() =~= cells.drop_last().update(j, cells.drop_last()[j].visited_cell()));
        lemma_unvisited_count_update(cells.drop_last(), j);
    }
}

/// The unvisited count never goes below zero.
pub proof fn lemma_unvisited_count_nonneg(cells: Seq<Cell>)
    ensures
        unvisited_count(cells) >= 0,
    decreases cells.len(),
{
    if cells.len() > 0 {
        lemma_unvisited_count_nonneg(cells.drop_last());
    }
}

/// A sequence holding an unvisited cell has a positive unvisited count.
pub proof fn lemma_unvisited_count_pos(cells: Seq<Cell>, j: int)
    requires
        0 <= j < cells.len(),
        !cells[j].visited,
    ensures
        unvisited_count(cells) >= 1,
    decreases cells.len(),
{
    lemma_unvisited_count_nonneg(cells.drop_last());
    if j < cells.len() - 1 {
        lemma_unvisited_count_pos(cells.drop_last(), j);
    }
}

/// In a sequence of entirely unvisited cells, the unvisited count is the
/// length.
pub proof fn lemma_unvisited_count_all(cells: Seq<Cell>)
    requires
        forall|i: int| 0 <= i < cells.len() ==> !(#[trigger] cells[i]).visited,
    ensures
        unvisited_count(cells) == cells.len(),
    decreases cells.len(),
{
    if cells.len() > 0 {
        lemma_unvisited_count_all(cells.drop_last());
    }
}

/// Cell updates that leave every visited flag unchanged leave the unvisited
/// count unchanged.
pub proof fn lemma_unvisited_count_same_flags(a: Seq<Cell>, b: Seq<Cell>)
    requires
        a.len() == b.len(),
        forall|i: int| 0 <= i < a.len() ==> (#[trigger] a[i]).visited == b[i].visited,
    ensures
        unvisited_count(a) == unvisited_count(b),
    decreases a.len(),
{
    if a.len() > 0 {
        lemma_unvisited_count_same_flags(a.drop_last(), b.drop_last());
    }
}

/// The maze carver: the grid's cells, the grid dimensions, and the
/// depth-first backtracking stack from the start cell to the current cell.
pub struct Carver {
    width: usize,
    height: usize,
    cells: Vec<Cell>,
    stack: Vec<Coord>,
}

impl View for Carver {
    type V = CarverView;

    closed spec fn view(&self) -> CarverView {
        CarverView {
            width: self.width,
            height: self.height,
            cells: self.cells@,
            stack: self.stack@,
        }
    }
}

impl Carver {
    /// Builds a carver for a fresh `width * height` maze, or reports an
    /// invalid configuration when either dimension is zero.
    pub fn new(width: usize, height: usize) -> (r: Result<Carver, CarverError>)
        requires
            width * height <= usize::MAX,
        ensures
            r is Ok <==> width >= 1 && height >= 1,
            r matches Err(e) ==> e == CarverError::InvalidConfiguration,
            r matches Ok(c) ==> c@ == CarverView::initial(width, height) && c@.wf()
                && c@.measure() == 2 * (width * height) - 1 && !c@.is_complete()
                && crate::perfect::carve_inv(c@),
    {
        if width == 0 || height == 0 {
            return Err(CarverError::InvalidConfiguration);
        }
        let total = width * height;
        let mut cells: Vec<Cell> = Vec::new();
        let mut i: usize = 0;
        while i < total
            invariant
                i <= total,
                cells@.len() == i,
                forall|j: int|
                    0 <= j < i ==> #[trigger] cells@[j] == (Cell {
                        visited: false,
                        wall_up: true,
                        wall_down: true,
                        wall_left: true,
                        wall_right: true,
                    }),
            decreases total - i,
        {
            cells.push(Cell::fresh());
            i += 1;
        }
        let mut stack: Vec<Coord> = Vec::new();
        stack.push(Coord { x: 0, y: 0 });
        let carver = Carver { width, height, cells, stack };
        proof {
            let v = carver@;
            assert(v.cells =~= CarverView::initial(width, height).cells);
            assert(v.stack =~= CarverView::initial(width, height).stack);
            assert(v =~= CarverView::initial(width, height));
            lemma_initial_wf(width, height);
            crate::perfect::lemma_initial_carve_inv(width, height);
        }
        Ok(carver)
    }

    /// The grid width the carver was built with.
    pub fn width(&self) -> (r: usize)
        ensures
            r == self@.width,
    {
        self.width
    }

    /// The grid height the carver was built with.
    pub fn height(&self) -> (r: usize)
        ensures
            r == self@.height,
    {
        self.height
    }

    /// The coordinate of the current cell: the top of the stack.
    pub fn current_coord(&self) -> (c: Coord)
        requires
            self@.stack.len() >= 1,
        ensures
            c == self@.top(),
    {
        self.stack[self.stack.len() - 1]
    }

    /// Whether generation is complete: the start cell is visited and the
    /// stack has unwound to its minimal length.
    pub fn complete(&self) -> (r: bool)
        requires
            self@.wf(),
        ensures
            r == self@.is_complete(),
    {
        self.cells[0].visited && self.stack.len() == 1
    }

    /// A snapshot of the cell at `c`, for a presentation layer to render.
    pub fn cell_at(&self, c: Coord) -> (r: Cell)
        requires
            self@.wf(),
            in_bounds(c, self@.width, self@.height),
        ensures
            r == self@.cell(c),
    {
        proof {
            lemma_coord_index_bounded(c, self.width, self.height);
        }
        let idx = coord_to_idx(c, self.width);
        self.cells[idx]
    }

    /// Marks the current cell visited; idempotent when already visited.
    /// Whether direction `d` currently leads to an in-bounds, unvisited
    /// neighbour of the current cell.
    fn dir_is_candidate(&self, d: Direction) -> (r: bool)
        requires
            self@.wf(),
        ensures
            r == self@.is_candidate(d),
    {
        let c = self.current_coord();
        proof {
            assert(in_bounds(self@.stack[self@.stack.len() - 1], self@.width, self@.height));
        }
        match neighbor(c, d, self.width, self.height) {
            Some(n) => {
                proof {
                    lemma_neighbor_sound(c, d, self.width, self.height);
                    lemma_coord_index_bounded(n, self.width, self.height);
                }
                let idx = coord_to_idx(n, self.width);
                !self.cells[idx].visited
            },
            None => false,
        }
    }

    /// The candidate directions from the current cell, enumerated clockwise
    /// starting at `Right`.
    fn candidate_dirs(&self) -> (cands: Vec<Direction>)
        requires
            self@.wf(),
        ensures
            cands@ == self@.candidates(),
    {
        let mut cands: Vec<Direction> = Vec::new();
        if self.dir_is_candidate(Direction::Right) {
            cands.push(Direction::Right);
        }
        if self.dir_is_candidate(Direction::Down) {
            cands.push(Direction::Down);
        }
        if self.dir_is_candidate(Direction::Left) {
            cands.push(Direction::Left);
        }
        if self.dir_is_candidate(Direction::Up) {
            cands.push(Direction::Up);
        }
        proof {
            assert(cands@ =~= self@.candidates());
        }
        cands
    }

    /// How many directions from the current cell lead to an in-bounds,
    /// unvisited neighbour.
    pub fn candidate_count(&self) -> (k: usize)
        requires
            self@.wf(),
        ensures
            k == self@.candidates().len(),
    {
        self.candidate_dirs().len()
    }

    /// One carving step, with the random source's draw supplied by the
    /// caller as `pick`: the deterministic transition of the carver.
    ///
    /// Marks the current cell, then either pushes the candidate neighbour
    /// selected by `pick` (reporting `opened_wall == true`), or backtracks by
    /// one stack entry when no candidate exists (`opened_wall == false`).
    /// When the stack cannot unwind further, or generation is already
    /// complete, the step is a no-op that reports the current cell twice.
    /// The new state and the result are exactly `step_state` and
    /// `step_result` of the old state.
    pub fn step_with(&mut self, pick: usize) -> (s: Step)
        requires
            old(self)@.wf(),
        ensures
            final(self)@ == old(self)@.step_state(pick as int),
            s == old(self)@.step_result(pick as int),
            final(self)@.wf(),
    {
        let ghost v0 = self@;
        let from = self.current_coord();
        if self.complete() {
            return Step { from_coord: from, to_coord: from, opened_wall: false };
        }
        self.mark_current_cell();
        let ghost m = self@;
        let cands = self.candidate_dirs();
        if cands.len() == 0 {
            if self.stack.len() == 1 {
                return Step { from_coord: from, to_coord: from, opened_wall: false };
            }
            let _ = self.stack.pop();
            proof {
                assert(self@.stack =~= m.stack.drop_last());
                assert(self@ =~= m.popped());
                lemma_popped_wf(m);
            }
            let to = self.current_coord();
            return Step { from_coord: from, to_coord: to, opened_wall: false };
        }
        let k = cands.len();
        let d = cands[pick % k];
        proof {
            lemma_candidates_all(m);
            assert(m.is_candidate(d));
            assert(in_bounds(m.stack[m.stack.len() - 1], m.width, m.height));
        }
        let n = match neighbor(from, d, self.width, self.height) {
            Some(nc) => nc,
            // a candidate direction always leads to an in-bounds neighbour
            None => from,
        };
        self.stack.push(n);
        proof {
            assert(self@ =~= m.pushed(n));
            lemma_neighbor_sound(m.top(), d, m.width, m.height);
            assert(in_bounds(v0.stack[v0.stack.len() - 1], v0.width, v0.height));
            lemma_coord_index_bounded(v0.top(), v0.width, v0.height);
            assert(m.cell(m.top()).visited);
            lemma_pushed_wf(m, d);
        }
        Step { from_coord: from, to_coord: n, opened_wall: true }
    }

    /// One carving step driven by the process-wide random source: the
    /// candidate, if any, is chosen uniformly at random. The resulting state
    /// and step report are those of `step_with` for some draw `pick`.
    pub fn step(&mut self) -> (s: Step)
        requires
            old(self)@.wf(),
        ensures
            exists|pick: int|
                0 <= pick && final(self)@ == old(self)@.step_state(pick) && s == old(
                    self,
                )@.step_result(pick),
            final(self)@.wf(),
    {
        let k = self.candidate_count();
        let pick = if k > 0 {
            random_below(k)
        } else {
            0
        };
        let s = self.step_with(pick);
        proof {
            assert(0 <= pick as int && self@ == old(self)@.step_state(pick as int) && s == old(
                self,
            )@.step_result(pick as int));
        }
        s
    }

    /// Opens the matched wall pair between the grid-adjacent cells named by
    /// a step result: the wall on `from_coord` facing the direction of
    /// travel and the wall on `to_coord` facing the opposite way. Opening an
    /// already-open pair is a no-op. Visited flags, the stack and every
    /// other wall are untouched.
    pub fn open_walls(&mut self, step: Step)
        requires
            old(self)@.wf(),
            in_bounds(step.from_coord, old(self)@.width, old(self)@.height),
            in_bounds(step.to_coord, old(self)@.width, old(self)@.height),
            adjacent(step.from_coord, step.to_coord),
        ensures
            final(self)@ == old(self)@.with_pair_open(step.from_coord, step.to_coord),
            final(self)@.wf(),
            !final(self)@.cell(step.from_coord).wall_spec(
                dir_between(step.from_coord, step.to_coord),
            ),
            !final(self)@.cell(step.to_coord).wall_spec(
                dir_between(step.from_coord, step.to_coord).opposite_spec(),
            ),
    {
        let from = step.from_coord;
        let to = step.to_coord;
        let d = Direction::from_coords(from, to);
        proof {
            lemma_coord_index_bounded(from, self.width, self.height);
            lemma_coord_index_bounded(to, self.width, self.height);
            lemma_adjacent_symmetric(from, to);
            lemma_coord_index_distinct(from, to, self.width, self.height);
        }
        let idx_from = coord_to_idx(from, self.width);
        let idx_to = coord_to_idx(to, self.width);
        match d {
            Direction::Up => {
                self.cells[idx_from].wall_up = false;
                self.cells[idx_to].wall_down = false;
            },
            Direction::Down => {
                self.cells[idx_from].wall_down = false;
                self.cells[idx_to].wall_up = false;
            },
            Direction::Left => {
                self.cells[idx_from].wall_left = false;
                self.cells[idx_to].wall_right = false;
            },
            Direction::Right => {
                self.cells[idx_from].wall_right = false;
                self.cells[idx_to].wall_left = false;
            },
        }
        proof {
            assert(self@.cells =~= old(self)@.with_pair_open(from, to).cells);
            assert(self@ =~= old(self)@.with_pair_open(from, to));
            lemma_open_pair_wf(old(self)@, from, to);
        }
    }

    /// One full carving move with the random source's draw supplied by the
    /// caller: takes the step and, when the step carved, opens the reported
    /// wall pair, as a driver would.
    pub fn advance_with(&mut self, pick: usize) -> (s: Step)
        requires
            old(self)@.wf(),
        ensures
            s == old(self)@.step_result(pick as int),
            final(self)@ == old(self)@.advance_state(pick as int),
            final(self)@.wf(),
            crate::perfect::carve_inv(old(self)@) ==> crate::perfect::carve_inv(final(self)@),
    {
        let s = self.step_with(pick);
        if s.opened_wall {
            proof {
                lemma_step_opened_adjacent(old(self)@, pick as int);
            }
            self.open_walls(s);
        }
        proof {
            if crate::perfect::carve_inv(old(self)@) {
                crate::perfect::lemma_advance_preserves_carve_inv(old(self)@, pick as int);
            }
        }
        s
    }

    /// One full carving move driven by the process-wide random source: a
    /// step with a uniformly random candidate choice, with the reported wall
    /// pair opened when the step carved.
    pub fn advance(&mut self) -> (s: Step)
        requires
            old(self)@.wf(),
        ensures
            exists|pick: int|
                0 <= pick && s == old(self)@.step_result(pick) && final(self)@ == old(
                    self,
                )@.advance_state(pick),
            final(self)@.wf(),
            crate::perfect::carve_inv(old(self)@) ==> crate::perfect::carve_inv(final(self)@),
    {
        let k = self.candidate_count();
        let pick = if k > 0 {
            random_below(k)
        } else {
            0
        };
        let s = self.advance_with(pick);
        proof {
            assert(0 <= pick as int && s == old(self)@.step_result(pick as int) && self@ == old(
                self,
            )@.advance_state(pick as int));
        }
        s
    }

    fn mark_current_cell(&mut self)
        requires
            old(self)@.wf(),
        ensures
            final(self)@ == old(self)@.marked(),
            final(self)@.wf(),
    {
        let c = self.current_coord();
        proof {
            lemma_coord_index_bounded(c, self.width, self.height);
        }
        let idx = coord_to_idx(c, self.width);
        self.cells[idx].visited = true;
        proof {
            assert(self@ =~= old(self)@.marked());
            lemma_marked_wf(old(self)@);
        }
    }
}

/// Relies on rand::random_range over `0..n`: a value drawn uniformly from
/// the range. The call panics only on an empty range, which the
/// precondition rules out; nothing else is assumed of the drawn value.
#[verifier::external_body]
fn random_below(n: usize) -> (r: usize)
    requires
        n >= 1,
    ensures
        r < n,
{
    rand::random_range(0..n)
}

/// Marking the current cell preserves well-formedness: walls and the stack
/// are untouched, and the visited flags only grow.
/// Every direction in the candidate sequence is a candidate, and the
/// sequence never holds more than four directions.
pub proof fn lemma_candidates_all(v: CarverView)
    ensures
        forall|i: int|
            0 <= i < v.candidates().len() ==> v.is_candidate(#[trigger] v.candidates()[i]),
        v.candidates().len() <= 4,
{
}

/// Backtracking from a well-formed state with at least two stack entries
/// preserves well-formedness.
pub proof fn lemma_popped_wf(v: CarverView)
    requires
        v.wf(),
        v.stack.len() >= 2,
    ensures
        v.popped().wf(),
{
    let p = v.popped();
    assert(p.stack.len() == v.stack.len() - 1);
    assert forall|i: int| 0 <= i < p.stack.len() implies in_bounds(
        #[trigger] p.stack[i],
        p.width,
        p.height,
    ) by {
        assert(p.stack[i] == v.stack[i]);
    }
    assert forall|i: int| 0 <= i < p.stack.len() - 1 implies (#[trigger] p.cell(
        p.stack[i],
    )).visited by {
        assert(p.stack[i] == v.stack[i]);
        assert(v.cell(v.stack[i]).visited);
    }
    assert forall|i: int| 0 <= i < p.stack.len() - 1 implies adjacent(
        #[trigger] p.stack[i],
        p.stack[i + 1],
    ) by {
        assert(p.stack[i] == v.stack[i] && p.stack[i + 1] == v.stack[i + 1]);
        assert(adjacent(v.stack[i], v.stack[i + 1]));
    }
    assert forall|c: Coord, d: Direction|
        in_bounds(c, p.width, p.height) && has_neighbor(c, d, p.width, p.height) implies #[trigger] p.cell(
        c,
    ).wall_spec(d) == p.cell(neighbor_coord(c, d)).wall_spec(d.opposite_spec()) by {
        assert(v.cell(c).wall_spec(d) == v.cell(neighbor_coord(c, d)).wall_spec(
            d.opposite_spec(),
        ));
    }
}

/// Pushing the in-bounds, unvisited neighbour selected by a candidate
/// direction onto a well-formed state whose current cell is visited
/// preserves well-formedness.
pub proof fn lemma_pushed_wf(v: CarverView, d: Direction)
    requires
        v.wf(),
        v.is_candidate(d),
        v.cell(v.top()).visited,
    ensures
        v.pushed(neighbor_coord(v.top(), d)).wf(),
{
    let n = neighbor_coord(v.top(), d);
    let p = v.pushed(n);
    assert(in_bounds(v.stack[v.stack.len() - 1], v.width, v.height));
    lemma_neighbor_sound(v.top(), d, v.width, v.height);
    assert forall|i: int| 0 <= i < p.stack.len() implies in_bounds(
        #[trigger] p.stack[i],
        p.width,
        p.height,
    ) by {
        if i < v.stack.len() {
            assert(p.stack[i] == v.stack[i]);
        } else {
            assert(p.stack[i] == n);
        }
    }
    assert forall|i: int| 0 <= i < p.stack.len() - 1 implies (#[trigger] p.cell(
        p.stack[i],
    )).visited by {
        if i < v.stack.len() - 1 {
            assert(p.stack[i] == v.stack[i]);
            assert(v.cell(v.stack[i]).visited);
        } else {
            assert(p.stack[i] == v.top());
        }
    }
    assert forall|i: int| 0 <= i < p.stack.len() - 1 implies adjacent(
        #[trigger] p.stack[i],
        p.stack[i + 1],
    ) by {
        if i < v.stack.len() - 1 {
            assert(p.stack[i] == v.stack[i] && p.stack[i + 1] == v.stack[i + 1]);
            assert(adjacent(v.stack[i], v.stack[i + 1]));
        } else {
            assert(p.stack[i] == v.top() && p.stack[i + 1] == n);
        }
    }
    assert forall|c: Coord, d2: Direction|
        in_bounds(c, p.width, p.height) && has_neighbor(c, d2, p.width, p.height) implies #[trigger] p.cell(
        c,
    ).wall_spec(d2) == p.cell(neighbor_coord(c, d2)).wall_spec(d2.opposite_spec()) by {
        assert(v.cell(c).wall_spec(d2) == v.cell(neighbor_coord(c, d2)).wall_spec(
            d2.opposite_spec(),
        ));
    }
}

/// Opening the matched wall pair between two adjacent in-bounds cells
/// preserves well-formedness, leaves every visited flag and the stack
/// unchanged, and never re-closes a wall.
pub proof fn lemma_open_pair_wf(v: CarverView, from: Coord, to: Coord)
    requires
        v.wf(),
        in_bounds(from, v.width, v.height),
        in_bounds(to, v.width, v.height),
        adjacent(from, to),
    ensures
        v.with_pair_open(from, to).wf(),
        forall|c: Coord|
            in_bounds(c, v.width, v.height) ==> (#[trigger] v.with_pair_open(from, to).cell(
                c,
            )).visited == v.cell(c).visited,
        forall|c: Coord, e: Direction|
            in_bounds(c, v.width, v.height) && #[trigger] v.with_pair_open(from, to).cell(
                c,
            ).wall_spec(e) ==> v.cell(c).wall_spec(e),
{
    let d = dir_between(from, to);
    let w = v.with_pair_open(from, to);
    lemma_adjacent_symmetric(from, to);
    lemma_coord_index_bounded(from, v.width, v.height);
    lemma_coord_index_bounded(to, v.width, v.height);
    lemma_coord_index_distinct(from, to, v.width, v.height);
    assert forall|c: Coord| in_bounds(c, v.width, v.height) implies (#[trigger] w.cell(
        c,
    )).visited == v.cell(c).visited by {
        lemma_coord_index_bounded(c, v.width, v.height);
    }
    assert forall|c: Coord, e: Direction|
        in_bounds(c, v.width, v.height) && #[trigger] w.cell(c).wall_spec(e) implies v.cell(
        c,
    ).wall_spec(e) by {
        lemma_coord_index_bounded(c, v.width, v.height);
    }
    assert forall|i: int| 0 <= i < w.stack.len() - 1 implies (#[trigger] w.cell(
        w.stack[i],
    )).visited by {
        assert(v.cell(v.stack[i]).visited);
        lemma_coord_index_bounded(v.stack[i], v.width, v.height);
    }
    assert forall|c: Coord, e: Direction|
        in_bounds(c, w.width, w.height) && has_neighbor(c, e, w.width, w.height) implies #[trigger] w.cell(
        c,
    ).wall_spec(e) == w.cell(neighbor_coord(c, e)).wall_spec(e.opposite_spec()) by {
        let nc = neighbor_coord(c, e);
        lemma_neighbor_sound(c, e, v.width, v.height);
        lemma_coord_index_bounded(c, v.width, v.height);
        lemma_coord_index_bounded(nc, v.width, v.height);
        if c != from {
            lemma_coord_index_distinct(c, from, v.width, v.height);
        }
        if c != to {
            lemma_coord_index_distinct(c, to, v.width, v.height);
        }
        if nc != from {
            lemma_coord_index_distinct(nc, from, v.width, v.height);
        }
        if nc != to {
            lemma_coord_index_distinct(nc, to, v.width, v.height);
        }
        assert(v.cell(c).wall_spec(e) == v.cell(nc).wall_spec(e.opposite_spec()));
        if c == from && nc == to {
            assert(dir_between(from, to) == e);
        }
        if c == to && nc == from {
            assert(dir_between(to, from) == e);
        }
        if nc == from && c != to {
            assert(neighbor_coord(from, e.opposite_spec()) == c);
        }
        if nc == to && c != from {
            assert(neighbor_coord(to, e.opposite_spec()) == c);
        }
    }
}

/// A step that reports a carved wall connects the old current cell to an
/// in-bounds, grid-adjacent neighbour, and the step leaves the grid
/// dimensions unchanged.
pub proof fn lemma_step_opened_adjacent(v: CarverView, pick: int)
    requires
        v.wf(),
        pick >= 0,
        v.step_result(pick).opened_wall,
    ensures
        v.step_result(pick).from_coord == v.top(),
        in_bounds(v.step_result(pick).from_coord, v.width, v.height),
        in_bounds(v.step_result(pick).to_coord, v.width, v.height),
        adjacent(v.step_result(pick).from_coord, v.step_result(pick).to_coord),
        v.step_state(pick).width == v.width,
        v.step_state(pick).height == v.height,
{
    let m = v.marked();
    let cs = m.candidates();
    assert(!v.is_complete() && cs.len() > 0);
    let d = cs[pick % cs.len() as int];
    lemma_candidates_all(m);
    assert(m.is_candidate(d));
    assert(in_bounds(v.stack[v.stack.len() - 1], v.width, v.height));
    lemma_neighbor_sound(v.top(), d, v.width, v.height);
}

/// A fresh carver state is well formed and not complete, and its
/// termination measure starts at `2 * width * height - 1`.
pub proof fn lemma_initial_wf(width: usize, height: usize)
    requires
        width >= 1,
        height >= 1,
        width * height <= usize::MAX,
    ensures
        CarverView::initial(width, height).wf(),
        !CarverView::initial(width, height).is_complete(),
        CarverView::initial(width, height).measure() == 2 * (width * height) - 1,
{
    let v = CarverView::initial(width, height);
    assert(width * height >= 1) by (nonlinear_arith)
        requires
            width >= 1,
            height >= 1,
    ;
    assert forall|c: Coord, d: Direction|
        in_bounds(c, width, height) && has_neighbor(c, d, width, height) implies #[trigger] v.cell(
        c,
    ).wall_spec(d) == v.cell(neighbor_coord(c, d)).wall_spec(d.opposite_spec()) by {
        lemma_coord_index_bounded(c, width, height);
        lemma_neighbor_sound(c, d, width, height);
        lemma_coord_index_bounded(neighbor_coord(c, d), width, height);
    }
    lemma_unvisited_count_all(v.cells);
    assert(v.stack.len() == 1);
    assert(v.top() == (Coord { x: 0, y: 0 }));
    assert(v.top().x == 0 && v.top().y == 0);
    assert(0 * (width as int) + 0 == 0);
    assert(coord_index(v.top(), width) == v.top().y * width + v.top().x);
    assert(coord_index(v.top(), width) == 0);
    assert(!v.cells[0].visited);
    assert(unvisited_count(v.cells) == width * height);
    assert(v.measure() == 2 * (width * height) - 1);
}

/// The step transition preserves well-formedness.
pub proof fn lemma_step_state_wf(v: CarverView, pick: int)
    requires
        v.wf(),
        pick >= 0,
    ensures
        v.step_state(pick).wf(),
{
    if !v.is_complete() {
        let m = v.marked();
        let cs = m.candidates();
        lemma_marked_wf(v);
        if cs.len() == 0 {
            if m.stack.len() > 1 {
                lemma_popped_wf(m);
            }
        } else {
            let d = cs[pick % cs.len() as int];
            lemma_candidates_all(m);
            assert(m.is_candidate(d));
            assert(in_bounds(v.stack[v.stack.len() - 1], v.width, v.height));
            lemma_coord_index_bounded(v.top(), v.width, v.height);
            assert(m.cell(m.top()).visited);
            lemma_pushed_wf(m, d);
        }
    }
}

/// The combined step-and-open transition preserves well-formedness.
pub proof fn lemma_advance_state_wf(v: CarverView, pick: int)
    requires
        v.wf(),
        pick >= 0,
    ensures
        v.advance_state(pick).wf(),
{
    lemma_step_state_wf(v, pick);
    let s = v.step_result(pick);
    if s.opened_wall {
        lemma_step_opened_adjacent(v, pick);
        lemma_open_pair_wf(v.step_state(pick), s.from_coord, s.to_coord);
    }
}

pub proof fn lemma_marked_wf(v: CarverView)
    requires
        v.wf(),
    ensures
        v.marked().wf(),
{
    let m = v.marked();
    assert(in_bounds(v.top(), v.width, v.height));
    lemma_coord_index_bounded(v.top(), v.width, v.height);
    assert forall|i: int| 0 <= i < m.stack.len() - 1 implies (#[trigger] m.cell(
        m.stack[i],
    )).visited by {
        lemma_coord_index_bounded(v.stack[i], v.width, v.height);
        assert(v.cell(v.stack[i]).visited);
        if coord_index(v.stack[i], v.width) == coord_index(v.top(), v.width) {
            assert(m.cell(m.stack[i]) == v.cell(v.top()).visited_cell());
        } else {
            assert(m.cell(m.stack[i]) == v.cell(v.stack[i]));
        }
    }
    assert forall|c: Coord, d: Direction|
        in_bounds(c, m.width, m.height) && has_neighbor(c, d, m.width, m.height) implies #[trigger] m.cell(
        c,
    ).wall_spec(d) == m.cell(neighbor_coord(c, d)).wall_spec(d.opposite_spec()) by {
        lemma_neighbor_sound(c, d, v.width, v.height);
        lemma_coord_index_bounded(c, v.width, v.height);
        lemma_coord_index_bounded(neighbor_coord(c, d), v.width, v.height);
        assert(in_bounds(v.top(), v.width, v.height));
        lemma_coord_index_bounded(v.top(), v.width, v.height);
        assert(m.cell(c).wall_spec(d) == v.cell(c).wall_spec(d));
        assert(m.cell(neighbor_coord(c, d)).wall_spec(d.opposite_spec()) == v.cell(
            neighbor_coord(c, d),
        ).wall_spec(d.opposite_spec()));
        assert(v.cell(c).wall_spec(d) == v.cell(neighbor_coord(c, d)).wall_spec(
            d.opposite_spec(),
        ));
    }
}

} // verus!

