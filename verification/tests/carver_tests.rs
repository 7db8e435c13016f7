use mazes::Carver;
use mazes::CarverError;
use mazes::Cell;
use mazes::Coord;
use mazes::Direction;
use mazes::Step;
use mazes::grid;

fn c(x: usize, y: usize) -> Coord {
    Coord { x, y }
}

/// Runs the carver to completion, always picking the first candidate, and
/// returns every step result reported on the way.
fn run_first_candidate(carver: &mut Carver, bound: usize) -> Vec<Step> {
    let mut steps: Vec<Step> = Vec::new();
    let mut n: usize = 0;
    while !carver.complete() {
        assert!(n < bound, "generation did not finish within the step bound");
        steps.push(carver.advance_with(0));
        n += 1;
    }
    steps
}

fn count_open_wall_sides(carver: &Carver) -> usize {
    let mut open: usize = 0;
    for y in 0..carver.height() {
        for x in 0..carver.width() {
            let cell = carver.cell_at(c(x, y));
            for d in [Direction::Up, Direction::Down, Direction::Left, Direction::Right] {
                if !cell.wall(d) {
                    open += 1;
                }
            }
        }
    }
    open
}

fn assert_walls_symmetric(carver: &Carver) {
    for y in 0..carver.height() {
        for x in 0..carver.width() {
            let cell = carver.cell_at(c(x, y));
            for d in [Direction::Up, Direction::Down, Direction::Left, Direction::Right] {
                if let Some(n) = grid::neighbor(c(x, y), d, carver.width(), carver.height()) {
                    let other = carver.cell_at(n);
                    assert_eq!(cell.wall(d), other.wall(d.opposite()));
                }
            }
        }
    }
}

#[test]
fn zero_width_is_rejected() {
    assert!(matches!(Carver::new(0, 5), Err(CarverError::InvalidConfiguration)));
}

#[test]
fn zero_height_is_rejected() {
    assert!(matches!(Carver::new(5, 0), Err(CarverError::InvalidConfiguration)));
}

#[test]
fn one_by_one_completes_in_one_noop_step() {
    let mut carver = Carver::new(1, 1).unwrap();
    assert!(!carver.complete());
    let step = carver.step_with(0);
    assert_eq!(step.from_coord, c(0, 0));
    assert_eq!(step.to_coord, c(0, 0));
    assert!(!step.opened_wall);
    assert!(carver.complete());
    assert_eq!(count_open_wall_sides(&carver), 0);
}

#[test]
fn fresh_cells_are_unvisited_with_all_walls() {
    let carver = Carver::new(3, 2).unwrap();
    for y in 0..2 {
        for x in 0..3 {
            let cell = carver.cell_at(c(x, y));
            assert!(!cell.visited);
            assert!(cell.wall_up && cell.wall_down && cell.wall_left && cell.wall_right);
        }
    }
    assert!(!carver.complete());
}

#[test]
fn two_by_two_first_candidate_scenario() {
    let mut carver = Carver::new(2, 2).unwrap();
    let first = carver.step_with(0);
    assert_eq!(first.from_coord, c(0, 0));
    assert_eq!(first.to_coord, c(1, 0));
    assert!(first.opened_wall);
    carver.open_walls(first);

    let steps = run_first_candidate(&mut carver, 7);
    let opened: usize = 1 + steps.iter().filter(|s| s.opened_wall).count();
    assert_eq!(opened, 3, "a 2x2 maze opens exactly 3 wall pairs");
    for y in 0..2 {
        for x in 0..2 {
            assert!(carver.cell_at(c(x, y)).visited, "every cell is visited at completion");
        }
    }
    assert_eq!(count_open_wall_sides(&carver), 2 * 3);
    assert_walls_symmetric(&carver);
}

#[test]
fn step_marks_current_cell_visited() {
    let mut carver = Carver::new(2, 2).unwrap();
    assert!(!carver.cell_at(c(0, 0)).visited);
    carver.step_with(0);
    assert!(carver.cell_at(c(0, 0)).visited);
}

#[test]
fn step_alone_opens_no_walls() {
    let mut carver = Carver::new(3, 3).unwrap();
    carver.step_with(1);
    carver.step_with(0);
    assert_eq!(count_open_wall_sides(&carver), 0);
}

#[test]
fn open_walls_opens_matching_pair() {
    let mut carver = Carver::new(2, 1).unwrap();
    let step = carver.step_with(0);
    assert_eq!(step.to_coord, c(1, 0));
    carver.open_walls(step);
    assert!(!carver.cell_at(c(0, 0)).wall_right);
    assert!(!carver.cell_at(c(1, 0)).wall_left);
    assert!(carver.cell_at(c(0, 0)).wall_left);
    assert!(carver.cell_at(c(0, 0)).wall_up);
    assert!(carver.cell_at(c(0, 0)).wall_down);
    assert_eq!(count_open_wall_sides(&carver), 2);
}

#[test]
fn open_walls_is_idempotent() {
    let mut carver = Carver::new(2, 2).unwrap();
    let step = carver.step_with(0);
    carver.open_walls(step);
    let before: Vec<Cell> = (0..2)
        .flat_map(|y: usize| (0..2).map(move |x: usize| (x, y)))
        .map(|(x, y)| carver.cell_at(c(x, y)))
        .collect();
    carver.open_walls(step);
    let after: Vec<Cell> = (0..2)
        .flat_map(|y: usize| (0..2).map(move |x: usize| (x, y)))
        .map(|(x, y)| carver.cell_at(c(x, y)))
        .collect();
    assert_eq!(before, after);
}

#[test]
fn visited_cells_stay_visited() {
    let mut carver = Carver::new(3, 3).unwrap();
    let mut seen: Vec<Coord> = Vec::new();
    let mut n: usize = 0;
    while !carver.complete() {
        assert!(n < 17);
        carver.advance_with(n % 3);
        for &v in &seen {
            assert!(carver.cell_at(v).visited, "a visited cell was unmarked");
        }
        for y in 0..3 {
            for x in 0..3 {
                if carver.cell_at(c(x, y)).visited && !seen.contains(&c(x, y)) {
                    seen.push(c(x, y));
                }
            }
        }
        n += 1;
    }
    assert_eq!(seen.len(), 9);
}

#[test]
fn walls_stay_symmetric_throughout_a_run() {
    let mut carver = Carver::new(4, 3).unwrap();
    let mut n: usize = 0;
    while !carver.complete() {
        assert!(n < 23);
        carver.advance_with(n % 2);
        assert_walls_symmetric(&carver);
        n += 1;
    }
}

#[test]
fn deterministic_runs_report_identical_steps() {
    let picks = [0usize, 2, 1, 0, 3, 1, 2, 0, 1, 1, 0, 2, 3, 0, 1, 2, 0, 1, 0, 2, 1, 0, 3, 1, 0,
        2, 1, 0, 1, 2, 0];
    let mut a = Carver::new(4, 4).unwrap();
    let mut b = Carver::new(4, 4).unwrap();
    let mut steps_a: Vec<Step> = Vec::new();
    let mut steps_b: Vec<Step> = Vec::new();
    for &pick in &picks {
        if !a.complete() {
            steps_a.push(a.advance_with(pick));
        }
        if !b.complete() {
            steps_b.push(b.advance_with(pick));
        }
    }
    assert_eq!(steps_a, steps_b);
    for y in 0..4 {
        for x in 0..4 {
            assert_eq!(a.cell_at(c(x, y)), b.cell_at(c(x, y)));
        }
    }
}

#[test]
fn completes_within_the_step_bound() {
    // worst case is 2 * width * height - 1 moves
    for (w, h, picks) in [(3usize, 3usize, 1usize), (4, 2, 0), (2, 4, 2), (5, 5, 3)] {
        let mut carver = Carver::new(w, h).unwrap();
        let bound = 2 * w * h - 1;
        let mut n: usize = 0;
        while !carver.complete() {
            assert!(n < bound, "exceeded the termination bound");
            carver.advance_with((n * 7 + picks) % 4);
            n += 1;
        }
    }
}

#[test]
fn completed_maze_is_a_spanning_tree() {
    let w: usize = 5;
    let h: usize = 4;
    let mut carver = Carver::new(w, h).unwrap();
    run_first_candidate(&mut carver, 2 * w * h - 1);
    assert_eq!(count_open_wall_sides(&carver), 2 * (w * h - 1));
    assert_walls_symmetric(&carver);
    // every cell is reachable from the start cell through open walls
    let mut reached = vec![false; w * h];
    let mut queue = vec![c(0, 0)];
    reached[0] = true;
    while let Some(cur) = queue.pop() {
        let cell = carver.cell_at(cur);
        for d in [Direction::Up, Direction::Down, Direction::Left, Direction::Right] {
            if cell.wall(d) {
                continue;
            }
            if let Some(n) = grid::neighbor(cur, d, w, h) {
                let idx = grid::coord_to_idx(n, w);
                if !reached[idx] {
                    reached[idx] = true;
                    queue.push(n);
                }
            }
        }
    }
    assert!(reached.iter().all(|&r| r), "completed maze connects every cell");
}

#[test]
fn random_driver_completes_and_spans() {
    let w: usize = 6;
    let h: usize = 5;
    let mut carver = Carver::new(w, h).unwrap();
    let bound = 2 * w * h - 1;
    let mut n: usize = 0;
    while !carver.complete() {
        assert!(n < bound);
        let step = carver.step();
        if step.opened_wall {
            carver.open_walls(step);
        }
        n += 1;
    }
    assert_eq!(count_open_wall_sides(&carver), 2 * (w * h - 1));
    assert_walls_symmetric(&carver);
}

#[test]
fn step_direction_matches_the_coordinate_delta() {
    let mut carver = Carver::new(2, 1).unwrap();
    let step = carver.step_with(0);
    assert_eq!(step.direction(), Direction::Right);
    let back = Step { from_coord: step.to_coord, to_coord: step.from_coord, opened_wall: false };
    assert_eq!(back.direction(), Direction::Left);
}

#[test]
fn random_step_on_fresh_grid_carves_from_the_start_cell() {
    let mut carver = Carver::new(2, 2).unwrap();
    let step = carver.step();
    assert_eq!(step.from_coord, c(0, 0));
    assert!(step.opened_wall);
    assert!(step.to_coord == c(1, 0) || step.to_coord == c(0, 1));
}
