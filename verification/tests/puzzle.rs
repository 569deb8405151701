use array2d::Array2D;
use patrol::guard::{find_start, guard_step, loop_obstacles, parse_grid, patrol_with_obstacle, InputError};
use patrol::patrol::{patrol, Direction, PatrolOutcome};

const CLASSIC: &str = "....#.....\n.........#\n..........\n..#.......\n.......#..\n..........\n.#..^.....\n........#.\n#.........\n......#...\n";

fn rows_of(grid: &Array2D<char>) -> Vec<String> {
    grid.as_rows().iter().map(|row| row.iter().collect()).collect()
}

#[test]
fn parse_reads_one_row_from_each_line() {
    let grid = parse_grid("ab\ncd\nef\n").unwrap();
    assert_eq!(grid.num_rows(), 3);
    assert_eq!(grid.num_columns(), 2);
    assert_eq!(rows_of(&grid), vec!["ab", "cd", "ef"]);
}

#[test]
fn parse_takes_a_last_line_without_line_feed() {
    let grid = parse_grid("ab\ncd").unwrap();
    assert_eq!(rows_of(&grid), vec!["ab", "cd"]);
    let grid = parse_grid("x").unwrap();
    assert_eq!(rows_of(&grid), vec!["x"]);
}

#[test]
fn parse_drops_the_carriage_return_of_a_line_ending() {
    let grid = parse_grid("ab\r\ncd\r\n").unwrap();
    assert_eq!(rows_of(&grid), vec!["ab", "cd"]);
    // a carriage return that no line feed follows stays
    let grid = parse_grid("ab\r\ncd").unwrap();
    assert_eq!(rows_of(&grid), vec!["ab", "cd"]);
    assert_eq!(parse_grid("ab\r\ncd\r"), Err(InputError::Ragged));
    let grid = parse_grid("abc\r\ncd\r").unwrap();
    assert_eq!(rows_of(&grid), vec!["abc", "cd\r"]);
}

#[test]
fn parse_agrees_with_the_lines_of_std() {
    for text in ["", "\n", "a", "a\n", "a\nb", "a\r\nb\r\n", "ab\n\r\ncd", "\n\n", "ab\ncd\r", "a\rb\nc\rd\n", "\r\n", "\r"] {
        let lines: Vec<Vec<char>> = text.lines().map(|line| line.chars().collect()).collect();
        match Array2D::from_rows(&lines) {
            Ok(expected) => assert_eq!(parse_grid(text), Ok(expected)),
            Err(_) => assert_eq!(parse_grid(text), Err(InputError::Ragged)),
        }
    }
}

#[test]
fn parse_of_nothing_is_a_table_without_rows() {
    let grid = parse_grid("").unwrap();
    assert_eq!(grid.num_rows(), 0);
    assert_eq!(grid.num_columns(), 0);
}

#[test]
fn parse_keeps_empty_lines_as_empty_rows() {
    let grid = parse_grid("\n\n\n").unwrap();
    assert_eq!(grid.num_rows(), 3);
    assert_eq!(grid.num_columns(), 0);
}

#[test]
fn parse_refuses_lines_of_different_lengths() {
    assert_eq!(parse_grid("abc\nde\n"), Err(InputError::Ragged));
    assert_eq!(parse_grid("ab\ncde\n"), Err(InputError::Ragged));
    assert_eq!(parse_grid("ab\n\ncd\n"), Err(InputError::Ragged));
    assert_eq!(parse_grid("\nab\n"), Err(InputError::Ragged));
}

#[test]
fn start_is_the_one_marked_cell() {
    let grid = parse_grid(CLASSIC).unwrap();
    assert_eq!(find_start(&grid), Ok((6, 4)));
    let grid = parse_grid("..\n.^\n").unwrap();
    assert_eq!(find_start(&grid), Ok((1, 1)));
    let grid = parse_grid("^").unwrap();
    assert_eq!(find_start(&grid), Ok((0, 0)));
}

#[test]
fn no_start_without_a_marker() {
    let grid = parse_grid("..#\n...\n").unwrap();
    assert_eq!(find_start(&grid), Err(InputError::NoStart));
    let grid = parse_grid("").unwrap();
    assert_eq!(find_start(&grid), Err(InputError::NoStart));
}

#[test]
fn no_start_with_two_markers() {
    let grid = parse_grid("^.#\n..^\n").unwrap();
    assert_eq!(find_start(&grid), Err(InputError::SeveralStarts));
    let grid = parse_grid("^^").unwrap();
    assert_eq!(find_start(&grid), Err(InputError::SeveralStarts));
}

#[test]
fn classic_map_part_one() {
    let grid = parse_grid(CLASSIC).unwrap();
    let start = find_start(&grid).unwrap();
    let (outcome, record) = patrol(&grid, start, Direction::Up, guard_step);
    assert_eq!(outcome, PatrolOutcome::LeftBounds);
    assert_eq!(record.count_nonempty_cells(), 41);
    assert_eq!(record.num_rows(), 10);
    assert_eq!(record.num_columns(), 10);
}

#[test]
fn classic_map_part_two() {
    let grid = parse_grid(CLASSIC).unwrap();
    let start = find_start(&grid).unwrap();
    let (_, baseline) = patrol(&grid, start, Direction::Up, guard_step);
    let found = loop_obstacles(&grid, start, Direction::Up, &baseline);
    assert_eq!(found.len(), 6);
    let places: Vec<(usize, usize)> = found.iter().map(|one| one.obstacle).collect();
    assert_eq!(places, vec![(6, 3), (7, 6), (7, 7), (8, 1), (8, 3), (9, 7)]);
    // the map itself is as it was
    assert_eq!(grid, parse_grid(CLASSIC).unwrap());
}

#[test]
fn small_map_with_a_handful_of_obstacles() {
    let grid = parse_grid("..#...\n.....#\n......\n......\n..^.#.\n#.....\n").unwrap();
    let start = find_start(&grid).unwrap();
    assert_eq!(start, (4, 2));
    let (outcome, record) = patrol(&grid, start, Direction::Up, guard_step);
    assert_eq!(outcome, PatrolOutcome::LeftBounds);
    // up to (1, 2), right to (1, 4), down to (3, 4), left along row 3 and out
    assert_eq!(
        record.visited_positions(),
        vec![(1, 2), (1, 3), (1, 4), (2, 2), (2, 4), (3, 0), (3, 1), (3, 2), (3, 3), (3, 4), (4, 2)]
    );
    assert_eq!(record.count_nonempty_cells(), 11);
    // only an obstacle at (3, 1) sends the guard up column 2 again
    let found = loop_obstacles(&grid, start, Direction::Up, &record);
    assert_eq!(found.len(), 1);
    assert_eq!(found[0].obstacle, (3, 1));
    assert_eq!(
        found[0].visited.visited_positions(),
        vec![(1, 2), (1, 3), (1, 4), (2, 2), (2, 4), (3, 2), (3, 3), (3, 4), (4, 2)]
    );
}

#[test]
fn looping_map_is_told_from_one_that_lets_the_guard_out() {
    let grid = parse_grid("..#...\n.....#\n......\n.#....\n..^.#.\n......\n").unwrap();
    let (outcome, record) = patrol(&grid, (4, 2), Direction::Up, guard_step);
    assert_eq!(outcome, PatrolOutcome::Loop);
    assert_eq!(record.count_nonempty_cells(), 9);
}

#[test]
fn only_visited_cells_are_tried() {
    let grid = parse_grid(CLASSIC).unwrap();
    let start = find_start(&grid).unwrap();
    let (_, baseline) = patrol(&grid, start, Direction::Up, guard_step);
    let candidates = baseline.visited_positions();
    assert_eq!(candidates.len(), 41);
    for position in &candidates {
        assert!(!baseline.is_empty(*position));
    }
    for row in 0..10 {
        for column in 0..10 {
            assert_eq!(candidates.contains(&(row, column)), !baseline.is_empty((row, column)));
        }
    }
    assert!(!candidates.contains(&(0, 0)));
    assert!(!candidates.contains(&(9, 9)));
    for one in loop_obstacles(&grid, start, Direction::Up, &baseline) {
        assert!(candidates.contains(&one.obstacle));
    }
    // an obstacle where the guard never comes by changes nothing, and is not tried
    let ring = parse_grid(".#...\n....#\n.....\n.^.#.\n").unwrap();
    let (outcome, baseline) = patrol(&ring, (3, 1), Direction::Up, guard_step);
    assert_eq!(outcome, PatrolOutcome::LeftBounds);
    assert!(baseline.is_empty((0, 0)));
    let (with_it, record) = patrol_with_obstacle(&ring, (3, 1), Direction::Up, (0, 0));
    assert_eq!(with_it, PatrolOutcome::LeftBounds);
    assert_eq!(record.visited_positions(), baseline.visited_positions());
    let found = loop_obstacles(&ring, (3, 1), Direction::Up, &baseline);
    let places: Vec<(usize, usize)> = found.iter().map(|one| one.obstacle).collect();
    assert_eq!(places, vec![(2, 0)]);
}

#[test]
fn the_start_cell_is_among_the_cells_tried() {
    let grid = parse_grid(CLASSIC).unwrap();
    let start = find_start(&grid).unwrap();
    let (_, baseline) = patrol(&grid, start, Direction::Up, guard_step);
    assert!(baseline.visited_positions().contains(&start));
    // an obstacle under the start is walked like any other
    let (outcome, record) = patrol_with_obstacle(&grid, start, Direction::Up, start);
    assert_eq!(outcome, PatrolOutcome::LeftBounds);
    assert!(record.contains(start, Direction::Up));
}

#[test]
fn obstacle_trial_leaves_the_map_alone() {
    let grid = parse_grid(CLASSIC).unwrap();
    let (outcome, record) = patrol_with_obstacle(&grid, (6, 4), Direction::Up, (6, 3));
    assert_eq!(outcome, PatrolOutcome::Loop);
    assert_eq!(grid.get(6, 3), Some(&'.'));
    assert_eq!(record.count_nonempty_cells(), 18);
    let (outcome, _) = patrol_with_obstacle(&grid, (6, 4), Direction::Up, (5, 4));
    assert_eq!(outcome, PatrolOutcome::LeftBounds);
}

#[test]
fn each_loop_comes_with_its_own_record() {
    let grid = parse_grid(CLASSIC).unwrap();
    let (_, baseline) = patrol(&grid, (6, 4), Direction::Up, guard_step);
    for one in loop_obstacles(&grid, (6, 4), Direction::Up, &baseline) {
        let (outcome, record) = patrol_with_obstacle(&grid, (6, 4), Direction::Up, one.obstacle);
        assert_eq!(outcome, PatrolOutcome::Loop);
        assert_eq!(record.visited_positions(), one.visited.visited_positions());
        assert!(one.visited.is_empty(one.obstacle));
    }
}
