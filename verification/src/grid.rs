//! Coordinates, directions and cells of a rectangular maze grid.
//!
//! A grid of `width * height` cells is stored row-major: the cell at
//! coordinate `(x, y)` lives at index `y * width + x`. This module is the
//! single source of truth for that mapping and for direction arithmetic;
//! every other module goes through it.

use vstd::prelude::*;

verus! {

/// A cell position: `x` grows to the right, `y` grows upward.
#[derive(Clone, Copy, Debug, PartialEq, Eq, Structural)]
pub struct Coord {
    pub x: usize,
    pub y: usize,
}

/// One of the four axis-aligned directions between grid-adjacent cells.
#[derive(Clone, Copy, Debug, PartialEq, Eq, Structural)]
pub enum Direction {
    Up,
    Down,
    Left,
    Right,
}

/// One cell of the maze: a visited flag and four boundary walls.
/// A wall flag is `true` while the wall is present and `false` once it has
/// been opened; walls are never re-closed.
#[derive(Clone, Copy, Debug, PartialEq, Eq, Structural)]
pub struct Cell {
    pub visited: bool,
    pub wall_up: bool,
    pub wall_down: bool,
    pub wall_left: bool,
    pub wall_right: bool,
}

/// Row-major index of coordinate `c` in a grid of the given width.
pub open spec fn coord_index(c: Coord, width: usize) -> int {
    c.y * width + c.x
}

/// Whether `c` lies inside a `width * height` grid.
pub open spec fn in_bounds(c: Coord, width: usize, height: usize) -> bool {
    c.x < width && c.y < height
}

/// Whether moving one step from `c` toward `d` stays inside the grid.
pub open spec fn has_neighbor(c: Coord, d: Direction, width: usize, height: usize) -> bool {
    match d {
        Direction::Up => c.y + 1 < height,
        Direction::Down => c.y >= 1,
        Direction::Left => c.x >= 1,
        Direction::Right => c.x + 1 < width,
    }
}

/// The coordinate one step from `c` toward `d`.
/// Meaningful only when `has_neighbor` holds for `c` and `d`.
pub open spec fn neighbor_coord(c: Coord, d: Direction) -> Coord {
    match d {
        Direction::Up => Coord { x: c.x, y: (c.y + 1) as usize },
        Direction::Down => Coord { x: c.x, y: (c.y - 1) as usize },
        Direction::Left => Coord { x: (c.x - 1) as usize, y: c.y },
        Direction::Right => Coord { x: (c.x + 1) as usize, y: c.y },
    }
}

/// Whether `to` is one step from `from` along exactly one axis.
pub open spec fn adjacent(from: Coord, to: Coord) -> bool {
    ||| (to.x == from.x && to.y == from.y + 1)
    ||| (to.x == from.x && from.y == to.y + 1)
    ||| (from.x == to.x + 1 && to.y == from.y)
    ||| (to.x == from.x + 1 && to.y == from.y)
}

/// The direction of travel from `from` to its grid-adjacent neighbour `to`.
/// Meaningful only when `adjacent(from, to)` holds.
pub open spec fn dir_between(from: Coord, to: Coord) -> Direction {
    if to.x == from.x && to.y == from.y + 1 {
        Direction::Up
    } else if to.x == from.x && from.y == to.y + 1 {
        Direction::Down
    } else if from.x == to.x + 1 && to.y == from.y {
        Direction::Left
    } else {
        Direction::Right
    }
}

impl Direction {
    /// The direction pointing the opposite way.
    pub open spec fn opposite_spec(self) -> Direction {
        match self {
            Direction::Up => Direction::Down,
            Direction::Down => Direction::Up,
            Direction::Left => Direction::Right,
            Direction::Right => Direction::Left,
        }
    }

    /// The direction pointing the opposite way.
    pub fn opposite(self) -> (r: Direction)
        ensures
            r == self.opposite_spec(),
    {
        match self {
            Direction::Up => Direction::Down,
            Direction::Down => Direction::Up,
            Direction::Left => Direction::Right,
            Direction::Right => Direction::Left,
        }
    }

    /// The direction of travel from `from` to its adjacent neighbour `to`.
    pub fn from_coords(from: Coord, to: Coord) -> (r: Direction)
        requires
            adjacent(from, to),
        ensures
            r == dir_between(from, to),
            neighbor_coord(from, r) == to,
    {
        if to.x == from.x && to.y > from.y {
            Direction::Up
        } else if to.x == from.x {
            Direction::Down
        } else if to.x < from.x {
            Direction::Left
        } else {
            Direction::Right
        }
    }
}

impl Cell {
    /// Whether the wall of this cell facing `d` is still present.
    pub open spec fn wall_spec(self, d: Direction) -> bool {
        match d {
            Direction::Up => self.wall_up,
            Direction::Down => self.wall_down,
            Direction::Left => self.wall_left,
            Direction::Right => self.wall_right,
        }
    }

    /// This cell with the wall facing `d` opened.
    pub open spec fn with_wall_open(self, d: Direction) -> Cell {
        match d {
            Direction::Up => Cell { wall_up: false, ..self },
            Direction::Down => Cell { wall_down: false, ..self },
            Direction::Left => Cell { wall_left: false, ..self },
            Direction::Right => Cell { wall_right: false, ..self },
        }
    }

    /// This cell with its visited flag set.
    pub open spec fn visited_cell(self) -> Cell {
        Cell { visited: true, ..self }
    }

    /// A fresh cell: unvisited, all four walls present.
    pub fn fresh() -> (r: Cell)
        ensures
            !r.visited,
            r.wall_up && r.wall_down && r.wall_left && r.wall_right,
    {
        Cell { visited: false, wall_up: true, wall_down: true, wall_left: true, wall_right: true }
    }

    /// Whether the wall of this cell facing `d` is still present.
    pub fn wall(self, d: Direction) -> (r: bool)
        ensures
            r == self.wall_spec(d),
    {
        match d {
            Direction::Up => self.wall_up,
            Direction::Down => self.wall_down,
            Direction::Left => self.wall_left,
            Direction::Right => self.wall_right,
        }
    }
}

/// The neighbouring coordinate one step from `c` toward `d`, or `None` when
/// that step would leave the `width * height` grid. No wraparound.
pub fn neighbor(c: Coord, d: Direction, width: usize, height: usize) -> (r: Option<Coord>)
    requires
        in_bounds(c, width, height),
    ensures
        r == if has_neighbor(c, d, width, height) {
            Some(neighbor_coord(c, d))
        } else {
            Option::<Coord>::None
        },
{
    match d {
        Direction::Up => if c.y + 1 < height {
            Some(Coord { x: c.x, y: c.y + 1 })
        } else {
            None
        },
        Direction::Down => if c.y >= 1 {
            Some(Coord { x: c.x, y: c.y - 1 })
        } else {
            None
        },
        Direction::Left => if c.x >= 1 {
            Some(Coord { x: c.x - 1, y: c.y })
        } else {
            None
        },
        Direction::Right => if c.x + 1 < width {
            Some(Coord { x: c.x + 1, y: c.y })
        } else {
            None
        },
    }
}

/// A step toward `d` that stays in the grid lands on an in-bounds cell,
/// grid-adjacent to and distinct from the one it left, and `dir_between`
/// recovers the direction travelled.
pub proof fn lemma_neighbor_sound(c: Coord, d: Direction, width: usize, height: usize)
    requires
        in_bounds(c, width, height),
        has_neighbor(c, d, width, height),
    ensures
        in_bounds(neighbor_coord(c, d), width, height),
        adjacent(c, neighbor_coord(c, d)),
        neighbor_coord(c, d) != c,
        dir_between(c, neighbor_coord(c, d)) == d,
        neighbor_coord(neighbor_coord(c, d), d.opposite_spec()) == c,
{
}

/// Row-major index of `c` in a grid of the given width.
pub fn coord_to_idx(c: Coord, width: usize) -> (r: usize)
    requires
        c.y * width + c.x <= usize::MAX,
    ensures
        r == coord_index(c, width),
{
    c.y * width + c.x
}

/// Inverse of `coord_to_idx`: the coordinate stored at index `idx`.
pub fn idx_to_coord(idx: usize, width: usize) -> (r: Coord)
    requires
        width >= 1,
    ensures
        r.x < width,
        r == (Coord { x: (idx as int % width as int) as usize, y: (idx as int / width as int) as usize }),
        coord_index(r, width) == idx,
{
    let r = Coord { x: idx % width, y: idx / width };
    proof {
        vstd::arithmetic::div_mod::lemma_fundamental_div_mod(idx as int, width as int);
        assert(coord_index(r, width) == idx) by (nonlinear_arith)
            requires
                r.y == idx as int / width as int,
                r.x == idx as int % width as int,
                width >= 1,
                idx as int == width as int * (idx as int / width as int) + idx as int
                    % width as int,
        ;
    }
    r
}

/// The row-major mapping is injective on the cells of one grid: two
/// in-bounds coordinates with the same index are the same coordinate.
pub proof fn lemma_coord_index_injective(a: Coord, b: Coord, width: usize, height: usize)
    requires
        in_bounds(a, width, height),
        in_bounds(b, width, height),
        coord_index(a, width) == coord_index(b, width),
    ensures
        a == b,
{
    assert(a.y == b.y && a.x == b.x) by (nonlinear_arith)
        requires
            a.x < width,
            b.x < width,
            a.y * width + a.x == b.y * width + b.x,
    ;
}

/// Distinct in-bounds coordinates of one grid occupy distinct indices.
pub proof fn lemma_coord_index_distinct(a: Coord, b: Coord, width: usize, height: usize)
    requires
        in_bounds(a, width, height),
        in_bounds(b, width, height),
        a != b,
    ensures
        coord_index(a, width) != coord_index(b, width),
{
    if coord_index(a, width) == coord_index(b, width) {
        lemma_coord_index_injective(a, b, width, height);
    }
}

/// An in-bounds coordinate's index lies inside the cell array.
pub proof fn lemma_coord_index_bounded(c: Coord, width: usize, height: usize)
    requires
        in_bounds(c, width, height),
    ensures
        0 <= coord_index(c, width) < width * height,
{
    assert(c.y * width + c.x < width * height) by (nonlinear_arith)
        requires
            c.x < width,
            c.y < height,
    ;
}

/// Adjacent coordinates are distinct and each is the other's neighbour:
/// travelling from `from` toward `dir_between(from, to)` lands on `to`, and
/// travelling back the opposite way returns to `from`.
pub proof fn lemma_adjacent_symmetric(from: Coord, to: Coord)
    requires
        adjacent(from, to),
    ensures
        from != to,
        adjacent(to, from),
        neighbor_coord(from, dir_between(from, to)) == to,
        neighbor_coord(to, dir_between(from, to).opposite_spec()) == from,
        dir_between(to, from) == dir_between(from, to).opposite_spec(),
{
}

/// Two adjacent in-bounds cells are each other's neighbours: the move from
/// `from` toward `dir_between(from, to)` stays in the grid and lands on
/// `to`.
pub proof fn lemma_adjacent_has_neighbor(from: Coord, to: Coord, width: usize, height: usize)
    requires
        adjacent(from, to),
        in_bounds(from, width, height),
        in_bounds(to, width, height),
    ensures
        has_neighbor(from, dir_between(from, to), width, height),
        neighbor_coord(from, dir_between(from, to)) == to,
{
}

/// A walk across the grid: every coordinate is in bounds and consecutive
/// coordinates are grid-adjacent. Walls play no part.
pub open spec fn is_grid_path(p: Seq<Coord>, width: usize, height: usize) -> bool
    decreases p.len(),
{
    if p.len() == 0 {
        false
    } else if p.len() == 1 {
        in_bounds(p[0], width, height)
    } else {
        &&& in_bounds(p[0], width, height)
        &&& adjacent(p[0], p[1])
        &&& is_grid_path(p.drop_first(), width, height)
    }
}

/// A grid walk extended by one adjacent in-bounds cell is a grid walk.
pub proof fn lemma_grid_path_push(p: Seq<Coord>, c2: Coord, width: usize, height: usize)
    requires
        is_grid_path(p, width, height),
        in_bounds(c2, width, height),
        adjacent(p.last(), c2),
    ensures
        is_grid_path(p.push(c2), width, height),
    decreases p.len(),
{
    let p2 = p.push(c2);
    if p.len() == 1 {
        assert(p2.drop_first() =~= seq![c2]);
        assert(p2[0] == p[0] && p2[1] == c2);
        assert(adjacent(p2[0], p2[1]));
        assert(is_grid_path(p2.drop_first(), width, height));
        assert(is_grid_path(p2, width, height));
    } else {
        assert(p.drop_first().last() == p.last());
        lemma_grid_path_push(p.drop_first(), c2, width, height);
        assert(p2.drop_first() =~= p.drop_first().push(c2));
        assert(p2[0] == p[0] && p2[1] == p[1]);
        assert(p2.len() >= 2);
        assert(in_bounds(p2[0], width, height));
        assert(adjacent(p2[0], p2[1]));
        assert(is_grid_path(p2.drop_first(), width, height));
        assert(is_grid_path(p2, width, height));
    }
}

/// Two grid walks that meet end to start concatenate to a grid walk.
pub proof fn lemma_grid_path_concat(p: Seq<Coord>, q: Seq<Coord>, width: usize, height: usize)
    requires
        is_grid_path(p, width, height),
        is_grid_path(q, width, height),
        p.last() == q[0],
    ensures
        is_grid_path(p + q.drop_first(), width, height),
    decreases p.len(),
{
    let r = p + q.drop_first();
    if p.len() == 1 {
        assert(r =~= q);
    } else {
        lemma_grid_path_concat(p.drop_first(), q, width, height);
        assert(r.drop_first() =~= p.drop_first() + q.drop_first());
        assert(r[0] == p[0] && r[1] == p[1]);
    }
}

/// A grid walk read backwards is a grid walk.
pub proof fn lemma_grid_path_reverse(p: Seq<Coord>, width: usize, height: usize)
    requires
        is_grid_path(p, width, height),
    ensures
        is_grid_path(p.reverse(), width, height),
        p.reverse().len() == p.len(),
        p.reverse()[0] == p.last(),
        p.reverse().last() == p[0],
    decreases p.len(),
{
    if p.len() > 1 {
        lemma_grid_path_reverse(p.drop_first(), width, height);
        lemma_adjacent_symmetric(p[0], p[1]);
        lemma_grid_path_push(p.drop_first().reverse(), p[0], width, height);
        assert(p.reverse() =~= p.drop_first().reverse().push(p[0]));
    }
}

/// The canonical walk from `c` to the grid's origin: first along the
/// column down to the bottom row, then along the bottom row to the left.
pub open spec fn to_origin_path(c: Coord) -> Seq<Coord>
    decreases c.x + c.y,
{
    if c.y > 0 {
        seq![c] + to_origin_path(Coord { x: c.x, y: (c.y - 1) as usize })
    } else if c.x > 0 {
        seq![c] + to_origin_path(Coord { x: (c.x - 1) as usize, y: 0 })
    } else {
        seq![c]
    }
}

/// The canonical walk to the origin is a grid walk from `c` to the origin.
pub proof fn lemma_to_origin_path(c: Coord, width: usize, height: usize)
    requires
        in_bounds(c, width, height),
    ensures
        is_grid_path(to_origin_path(c), width, height),
        to_origin_path(c)[0] == c,
        to_origin_path(c).last() == (Coord { x: 0, y: 0 }),
    decreases c.x + c.y,
{
    let p = to_origin_path(c);
    if c.y > 0 {
        let c2 = Coord { x: c.x, y: (c.y - 1) as usize };
        lemma_to_origin_path(c2, width, height);
        assert(p.drop_first() =~= to_origin_path(c2));
        assert(adjacent(c, c2));
    } else if c.x > 0 {
        let c2 = Coord { x: (c.x - 1) as usize, y: 0 };
        lemma_to_origin_path(c2, width, height);
        assert(p.drop_first() =~= to_origin_path(c2));
        assert(adjacent(c, c2));
    }
}

/// The canonical walk from `a` to the grid's side hub, avoiding the
/// origin: cells in the leftmost column first step right, then the walk
/// descends its column and follows the bottom row to the hub cell beside
/// the origin. Meaningful for grids at least two cells wide.
pub open spec fn to_hub_path(a: Coord) -> Seq<Coord>
    decreases 2 * (a.x + a.y) + (if a.x == 0 {
        3int
    } else {
        0int
    }),
{
    if a.x == 1 && a.y == 0 {
        seq![a]
    } else if a.x == 0 {
        seq![a] + to_hub_path(Coord { x: 1, y: a.y })
    } else if a.y > 0 {
        seq![a] + to_hub_path(Coord { x: a.x, y: (a.y - 1) as usize })
    } else {
        seq![a] + to_hub_path(Coord { x: (a.x - 1) as usize, y: 0 })
    }
}

/// The hub walk is a grid walk from `a` to the cell right of the origin
/// that never touches the origin.
pub proof fn lemma_to_hub_path(a: Coord, width: usize, height: usize)
    requires
        in_bounds(a, width, height),
        width >= 2,
        a != (Coord { x: 0, y: 0 }),
    ensures
        is_grid_path(to_hub_path(a), width, height),
        to_hub_path(a)[0] == a,
        to_hub_path(a).last() == (Coord { x: 1, y: 0 }),
        forall|i: int|
            0 <= i < to_hub_path(a).len() ==> #[trigger] to_hub_path(a)[i] != (Coord {
                x: 0,
                y: 0,
            }),
    decreases 2 * (a.x + a.y) + (if a.x == 0 {
        3int
    } else {
        0int
    }),
{
    let p = to_hub_path(a);
    if a.x == 1 && a.y == 0 {
    } else {
        let c2 = if a.x == 0 {
            Coord { x: 1, y: a.y }
        } else if a.y > 0 {
            Coord { x: a.x, y: (a.y - 1) as usize }
        } else {
            Coord { x: (a.x - 1) as usize, y: 0 }
        };
        lemma_to_hub_path(c2, width, height);
        assert(p.drop_first() =~= to_hub_path(c2));
        assert(adjacent(a, c2));
        assert forall|i: int| 0 <= i < p.len() implies #[trigger] p[i] != (Coord {
            x: 0,
            y: 0,
        }) by {
            if i > 0 {
                assert(p[i] == to_hub_path(c2)[i - 1]);
            }
        }
    }
}

/// Between any two cells of the grid other than the origin there is a grid
/// walk that never touches the origin.
pub proof fn lemma_offorigin_walk(a: Coord, b: Coord, width: usize, height: usize)
    requires
        in_bounds(a, width, height),
        in_bounds(b, width, height),
        a != (Coord { x: 0, y: 0 }),
        b != (Coord { x: 0, y: 0 }),
        width >= 2 || height >= 2,
    ensures
        exists|p: Seq<Coord>|
            is_grid_path(p, width, height) && p[0] == a && p.last() == b && (forall|i: int|
                0 <= i < p.len() ==> #[trigger] p[i] != (Coord { x: 0, y: 0 })),
{
    if width >= 2 {
        lemma_to_hub_path(a, width, height);
        lemma_to_hub_path(b, width, height);
        let pa = to_hub_path(a);
        let pb = to_hub_path(b);
        lemma_grid_path_reverse(pb, width, height);
        let rb = pb.reverse();
        lemma_grid_path_concat(pa, rb, width, height);
        let p = pa + rb.drop_first();
        assert forall|i: int| 0 <= i < p.len() implies #[trigger] p[i] != (Coord {
            x: 0,
            y: 0,
        }) by {
            if i < pa.len() {
                assert(p[i] == pa[i]);
            } else {
                assert(p[i] == rb[i - pa.len() + 1]);
                assert(rb[i - pa.len() + 1] == pb[pb.len() - 1 - (i - pa.len() + 1)]);
            }
        }
        assert(is_grid_path(p, width, height) && p[0] == a && p.last() == b);
    } else {
        // a single column: walk vertically between the two cells, which
        // both sit strictly above the origin
        assert(a.x == 0 && b.x == 0 && a.y >= 1 && b.y >= 1);
        let p = column_walk(a.y, b.y);
        lemma_column_walk(a.y, b.y, width, height);
        assert(p[0] == a && p.last() == b);
    }
}

/// The vertical walk in the leftmost column from height `y0` to height
/// `y1`.
pub open spec fn column_walk(y0: usize, y1: usize) -> Seq<Coord>
    decreases (if y0 >= y1 {
        y0 - y1
    } else {
        y1 - y0
    }),
{
    if y0 == y1 {
        seq![Coord { x: 0, y: y0 }]
    } else if y0 > y1 {
        seq![Coord { x: 0, y: y0 }] + column_walk((y0 - 1) as usize, y1)
    } else {
        seq![Coord { x: 0, y: y0 }] + column_walk((y0 + 1) as usize, y1)
    }
}

/// The vertical walk is a grid walk between its two endpoints that stays
/// strictly above the origin when both endpoints do.
pub proof fn lemma_column_walk(y0: usize, y1: usize, width: usize, height: usize)
    requires
        width >= 1,
        1 <= y0 < height,
        1 <= y1 < height,
    ensures
        is_grid_path(column_walk(y0, y1), width, height),
        column_walk(y0, y1)[0] == (Coord { x: 0, y: y0 }),
        column_walk(y0, y1).last() == (Coord { x: 0, y: y1 }),
        forall|i: int|
            0 <= i < column_walk(y0, y1).len() ==> #[trigger] column_walk(y0, y1)[i] != (Coord {
                x: 0,
                y: 0,
            }),
    decreases (if y0 >= y1 {
        y0 - y1
    } else {
        y1 - y0
    }),
{
    let p = column_walk(y0, y1);
    if y0 != y1 {
        let y2: usize = if y0 > y1 {
            (y0 - 1) as usize
        } else {
            (y0 + 1) as usize
        };
        lemma_column_walk(y2, y1, width, height);
        assert(p.drop_first() =~= column_walk(y2, y1));
        assert(adjacent(Coord { x: 0, y: y0 }, Coord { x: 0, y: y2 }));
        assert forall|i: int| 0 <= i < p.len() implies #[trigger] p[i] != (Coord {
            x: 0,
            y: 0,
        }) by {
            if i > 0 {
                assert(p[i] == column_walk(y2, y1)[i - 1]);
            }
        }
    }
}

} // verus!
