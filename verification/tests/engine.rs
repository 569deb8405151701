use array2d::Array2D;
use patrol::guard::guard_step;
use patrol::patrol::{fits, patrol, Direction, PatrolOutcome, PatrolStep, VisitDirections};
use patrol::visit::VisitRecord;

fn grid_of(lines: &[&str]) -> Array2D<char> {
    let rows: Vec<Vec<char>> = lines.iter().map(|line| line.chars().collect()).collect();
    Array2D::from_rows(&rows).unwrap()
}

fn poses(record: &VisitRecord) -> Vec<(usize, usize, Direction)> {
    let mut all = Vec::new();
    for row in 0..record.num_rows() {
        for column in 0..record.num_columns() {
            for direction in [Direction::Up, Direction::Right, Direction::Down, Direction::Left] {
                if record.contains((row, column), direction) {
                    all.push((row, column, direction));
                }
            }
        }
    }
    all
}

#[test]
fn heading_of_each_direction() {
    assert_eq!(Direction::Up.heading(), (-1, 0));
    assert_eq!(Direction::Down.heading(), (1, 0));
    assert_eq!(Direction::Left.heading(), (0, -1));
    assert_eq!(Direction::Right.heading(), (0, 1));
}

#[test]
fn turning_right_goes_round_clockwise() {
    assert_eq!(Direction::Up.turn_right(), Direction::Right);
    assert_eq!(Direction::Right.turn_right(), Direction::Down);
    assert_eq!(Direction::Down.turn_right(), Direction::Left);
    assert_eq!(Direction::Left.turn_right(), Direction::Up);
}

#[test]
fn flags_are_single_bits() {
    assert_eq!(VisitDirections::Up.bits(), 0b0001);
    assert_eq!(VisitDirections::Right.bits(), 0b0010);
    assert_eq!(VisitDirections::Down.bits(), 0b0100);
    assert_eq!(VisitDirections::Left.bits(), 0b1000);
    assert_eq!(VisitDirections::of(Direction::Up), VisitDirections::Up);
    assert_eq!(VisitDirections::of(Direction::Right), VisitDirections::Right);
    assert_eq!(VisitDirections::of(Direction::Down), VisitDirections::Down);
    assert_eq!(VisitDirections::of(Direction::Left), VisitDirections::Left);
}

#[test]
fn guard_turns_before_an_obstacle_only() {
    assert_eq!(guard_step(&'#', Direction::Up), PatrolStep::Face(Direction::Right));
    assert_eq!(guard_step(&'#', Direction::Left), PatrolStep::Face(Direction::Up));
    assert_eq!(guard_step(&'.', Direction::Up), PatrolStep::StepForward);
    assert_eq!(guard_step(&'^', Direction::Down), PatrolStep::StepForward);
    assert_eq!(guard_step(&'X', Direction::Right), PatrolStep::StepForward);
}

#[test]
fn small_grids_fit() {
    assert!(fits(&grid_of(&["...", "...", "..."])));
    assert!(fits(&grid_of(&[])));
    assert!(fits(&Array2D::filled_with('.', 0, usize::MAX)));
    assert!(fits(&Array2D::filled_with('.', usize::MAX, 0)));
}

#[test]
fn walk_straight_off_the_top() {
    let grid = grid_of(&["...", "...", "..."]);
    let (outcome, record) = patrol(&grid, (2, 1), Direction::Up, |_: &char, _: Direction| PatrolStep::StepForward);
    assert_eq!(outcome, PatrolOutcome::LeftBounds);
    assert_eq!(
        poses(&record),
        vec![(0, 1, Direction::Up), (1, 1, Direction::Up), (2, 1, Direction::Up)]
    );
    assert_eq!(record.count_nonempty_cells(), 3);
    assert_eq!(record.num_rows(), 3);
    assert_eq!(record.num_columns(), 3);
}

#[test]
fn leaves_at_once_when_facing_the_edge() {
    let grid = grid_of(&["#"]);
    for direction in [Direction::Up, Direction::Right, Direction::Down, Direction::Left] {
        let (outcome, record) = patrol(&grid, (0, 0), direction, guard_step);
        assert_eq!(outcome, PatrolOutcome::LeftBounds);
        assert_eq!(poses(&record), vec![(0, 0, direction)]);
    }
}

#[test]
fn leaves_through_the_left_and_bottom_edges() {
    let grid = grid_of(&["....", "....", "...."]);
    let (outcome, record) = patrol(&grid, (1, 2), Direction::Left, guard_step);
    assert_eq!(outcome, PatrolOutcome::LeftBounds);
    assert_eq!(
        poses(&record),
        vec![(1, 0, Direction::Left), (1, 1, Direction::Left), (1, 2, Direction::Left)]
    );
    let (outcome, record) = patrol(&grid, (1, 3), Direction::Down, guard_step);
    assert_eq!(outcome, PatrolOutcome::LeftBounds);
    assert_eq!(poses(&record), vec![(1, 3, Direction::Down), (2, 3, Direction::Down)]);
    let (outcome, record) = patrol(&grid, (0, 2), Direction::Right, guard_step);
    assert_eq!(outcome, PatrolOutcome::LeftBounds);
    assert_eq!(poses(&record), vec![(0, 2, Direction::Right), (0, 3, Direction::Right)]);
}

#[test]
fn spinning_in_place_is_a_loop() {
    let grid = grid_of(&["...", "...", "..."]);
    let (outcome, record) =
        patrol(&grid, (1, 1), Direction::Up, |_: &char, d: Direction| PatrolStep::Face(d.turn_right()));
    assert_eq!(outcome, PatrolOutcome::Loop);
    assert_eq!(
        poses(&record),
        vec![
            (1, 1, Direction::Up),
            (1, 1, Direction::Right),
            (1, 1, Direction::Down),
            (1, 1, Direction::Left)
        ]
    );
    assert_eq!(record.count_nonempty_cells(), 1);
}

#[test]
fn facing_the_same_way_again_is_a_loop_at_once() {
    let grid = grid_of(&["..", ".."]);
    let (outcome, record) = patrol(&grid, (1, 0), Direction::Up, |_: &char, d: Direction| PatrolStep::Face(d));
    assert_eq!(outcome, PatrolOutcome::Loop);
    assert_eq!(poses(&record), vec![(1, 0, Direction::Up)]);
}

#[test]
fn turn_is_checked_before_the_next_move() {
    // the guard turns at (1, 1) and leaves to the right: the turn is on record at the same cell
    let grid = grid_of(&[".#.", "...", "..."]);
    let (outcome, record) = patrol(&grid, (2, 1), Direction::Up, guard_step);
    assert_eq!(outcome, PatrolOutcome::LeftBounds);
    assert_eq!(
        poses(&record),
        vec![
            (1, 1, Direction::Up),
            (1, 1, Direction::Right),
            (1, 2, Direction::Right),
            (2, 1, Direction::Up)
        ]
    );
    assert_eq!(record.count_nonempty_cells(), 3);
}

#[test]
fn four_obstacles_keep_the_guard_going_round() {
    let grid = grid_of(&[".#...", "....#", "#....", "...#."]);
    let (outcome, record) = patrol(&grid, (2, 1), Direction::Up, guard_step);
    assert_eq!(outcome, PatrolOutcome::Loop);
    // the ring: up column 1, right along row 1, down column 3, left along row 2
    assert_eq!(
        poses(&record),
        vec![
            (1, 1, Direction::Up),
            (1, 1, Direction::Right),
            (1, 2, Direction::Right),
            (1, 3, Direction::Right),
            (1, 3, Direction::Down),
            (2, 1, Direction::Up),
            (2, 1, Direction::Left),
            (2, 2, Direction::Left),
            (2, 3, Direction::Down),
            (2, 3, Direction::Left),
        ]
    );
    assert_eq!(record.count_nonempty_cells(), 6);
}

#[test]
fn loop_is_found_at_the_first_repeat() {
    // the guard comes into the ring from below: the cells of its way in are on record,
    // and the walk stops when it stands at (2, 1) facing up a second time
    let grid = grid_of(&[".#...", "....#", "#....", "...#.", "....."]);
    let (outcome, record) = patrol(&grid, (4, 1), Direction::Up, guard_step);
    assert_eq!(outcome, PatrolOutcome::Loop);
    assert!(record.contains((4, 1), Direction::Up));
    assert!(record.contains((3, 1), Direction::Up));
    assert!(record.contains((2, 1), Direction::Up));
    assert!(record.contains((2, 1), Direction::Left));
    assert!(!record.contains((3, 1), Direction::Left));
    assert_eq!(poses(&record).len(), 12);
    assert_eq!(record.count_nonempty_cells(), 8);
}

#[test]
fn same_inputs_give_the_same_patrol() {
    let grid = grid_of(&[".#...", "....#", "#....", "...#.", "....."]);
    for start in [(4, 1), (4, 4), (0, 0), (2, 2)] {
        for direction in [Direction::Up, Direction::Right, Direction::Down, Direction::Left] {
            let (first_outcome, first) = patrol(&grid, start, direction, guard_step);
            let (second_outcome, second) = patrol(&grid, start, direction, guard_step);
            assert_eq!(first_outcome, second_outcome);
            assert_eq!(poses(&first), poses(&second));
            assert!(first.contains(start, direction));
        }
    }
}

#[test]
fn obstacle_under_the_guard_is_never_read() {
    let open = grid_of(&["...", "...", "..."]);
    let blocked = grid_of(&["...", ".#.", "..."]);
    let (open_outcome, open_record) = patrol(&open, (1, 1), Direction::Up, guard_step);
    let (blocked_outcome, blocked_record) = patrol(&blocked, (1, 1), Direction::Up, guard_step);
    assert_eq!(open_outcome, PatrolOutcome::LeftBounds);
    assert_eq!(blocked_outcome, PatrolOutcome::LeftBounds);
    assert_eq!(poses(&open_record), poses(&blocked_record));
}

#[test]
fn decision_sees_the_cell_ahead_and_the_heading() {
    // turn right before 'a' when going up, and before 'b' when going right
    let grid = grid_of(&["a..", "..b", "..."]);
    let decide = |cell: &char, d: Direction| match (*cell, d) {
        ('a', Direction::Up) => PatrolStep::Face(Direction::Right),
        ('b', Direction::Right) => PatrolStep::Face(Direction::Down),
        _ => PatrolStep::StepForward,
    };
    let (outcome, record) = patrol(&grid, (2, 0), Direction::Up, decide);
    assert_eq!(outcome, PatrolOutcome::LeftBounds);
    assert_eq!(
        poses(&record),
        vec![
            (1, 0, Direction::Up),
            (1, 0, Direction::Right),
            (1, 1, Direction::Right),
            (1, 1, Direction::Down),
            (2, 0, Direction::Up),
            (2, 1, Direction::Down),
        ]
    );
}
