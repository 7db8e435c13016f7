use mazes::Coord;
use mazes::Direction;
use mazes::grid;

fn c(x: usize, y: usize) -> Coord {
    Coord { x, y }
}

#[test]
fn coord_index_is_row_major() {
    assert_eq!(grid::coord_to_idx(c(0, 0), 4), 0);
    assert_eq!(grid::coord_to_idx(c(3, 0), 4), 3);
    assert_eq!(grid::coord_to_idx(c(0, 1), 4), 4);
    assert_eq!(grid::coord_to_idx(c(2, 3), 4), 14);
}

#[test]
fn idx_to_coord_inverts_coord_to_idx() {
    let width: usize = 7;
    let height: usize = 5;
    for y in 0..height {
        for x in 0..width {
            let idx = grid::coord_to_idx(c(x, y), width);
            assert_eq!(grid::idx_to_coord(idx, width), c(x, y));
        }
    }
}

#[test]
fn neighbor_moves_one_cell() {
    assert_eq!(grid::neighbor(c(1, 1), Direction::Up, 3, 3), Some(c(1, 2)));
    assert_eq!(grid::neighbor(c(1, 1), Direction::Down, 3, 3), Some(c(1, 0)));
    assert_eq!(grid::neighbor(c(1, 1), Direction::Left, 3, 3), Some(c(0, 1)));
    assert_eq!(grid::neighbor(c(1, 1), Direction::Right, 3, 3), Some(c(2, 1)));
}

#[test]
fn neighbor_stops_at_the_boundary() {
    assert_eq!(grid::neighbor(c(0, 0), Direction::Down, 3, 3), None);
    assert_eq!(grid::neighbor(c(0, 0), Direction::Left, 3, 3), None);
    assert_eq!(grid::neighbor(c(2, 2), Direction::Up, 3, 3), None);
    assert_eq!(grid::neighbor(c(2, 2), Direction::Right, 3, 3), None);
    assert_eq!(grid::neighbor(c(0, 0), Direction::Up, 1, 1), None);
}

#[test]
fn from_coords_recovers_each_direction() {
    assert_eq!(Direction::from_coords(c(1, 1), c(1, 2)), Direction::Up);
    assert_eq!(Direction::from_coords(c(1, 1), c(1, 0)), Direction::Down);
    assert_eq!(Direction::from_coords(c(1, 1), c(0, 1)), Direction::Left);
    assert_eq!(Direction::from_coords(c(1, 1), c(2, 1)), Direction::Right);
}

#[test]
fn opposite_swaps_axes_ends() {
    assert_eq!(Direction::Up.opposite(), Direction::Down);
    assert_eq!(Direction::Down.opposite(), Direction::Up);
    assert_eq!(Direction::Left.opposite(), Direction::Right);
    assert_eq!(Direction::Right.opposite(), Direction::Left);
}
