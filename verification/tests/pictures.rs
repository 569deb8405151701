use patrol::guard::{guard_step, loop_obstacles, parse_grid};
use patrol::patrol::{patrol, Direction, PatrolOutcome};
use patrol::render::{arr_to_str, dash_line, display_movement, display_visited, movement_char, show_loop};
use patrol::visit::VisitRecord;

const CLASSIC: &str = "....#.....\n.........#\n..........\n..#.......\n.......#..\n..........\n.#..^.....\n........#.\n#.........\n......#...\n";

#[test]
fn table_as_text() {
    let grid = parse_grid("ab\ncd\nef").unwrap();
    assert_eq!(arr_to_str(&grid, |c: &char| *c), "ab\ncd\nef\n");
    assert_eq!(arr_to_str(&grid, |c: &char| c.to_ascii_uppercase()), "AB\nCD\nEF\n");
    assert_eq!(arr_to_str(&grid, |_: &char| '.'), "..\n..\n..\n");
}

#[test]
fn text_of_the_classic_map_is_the_map() {
    let grid = parse_grid(CLASSIC).unwrap();
    assert_eq!(arr_to_str(&grid, |c: &char| *c), CLASSIC);
}

#[test]
fn text_of_tables_without_cells() {
    let grid = parse_grid("").unwrap();
    assert_eq!(arr_to_str(&grid, |c: &char| *c), "");
    let grid = parse_grid("\n\n").unwrap();
    assert_eq!(arr_to_str(&grid, |c: &char| *c), "\n\n");
}

#[test]
fn line_of_dashes() {
    assert_eq!(dash_line(0), "");
    assert_eq!(dash_line(1), "-");
    assert_eq!(dash_line(10), "----------");
}

#[test]
fn sign_of_each_kind_of_movement() {
    let mut record = VisitRecord::new(2, 4);
    record.insert((0, 0), Direction::Up);
    record.insert((0, 1), Direction::Down);
    record.insert((0, 2), Direction::Left);
    record.insert((0, 3), Direction::Right);
    record.insert((1, 0), Direction::Up);
    record.insert((1, 0), Direction::Down);
    record.insert((1, 1), Direction::Left);
    record.insert((1, 1), Direction::Right);
    record.insert((1, 2), Direction::Up);
    record.insert((1, 2), Direction::Right);
    assert_eq!(movement_char(&record, (0, 0)), '|');
    assert_eq!(movement_char(&record, (0, 1)), '|');
    assert_eq!(movement_char(&record, (0, 2)), '-');
    assert_eq!(movement_char(&record, (0, 3)), '-');
    assert_eq!(movement_char(&record, (1, 0)), '|');
    assert_eq!(movement_char(&record, (1, 1)), '-');
    assert_eq!(movement_char(&record, (1, 2)), '+');
    let mut display = parse_grid("abcd\nefgh").unwrap();
    display_movement(&mut display, &record);
    assert_eq!(arr_to_str(&display, |c: &char| *c), "||--\n|-+h\n");
    let mut display = parse_grid("abcd\nefgh").unwrap();
    display_visited(&mut display, &record);
    assert_eq!(arr_to_str(&display, |c: &char| *c), "XXXX\nXXXh\n");
}

#[test]
fn record_smaller_than_the_picture() {
    let mut record = VisitRecord::new(1, 2);
    record.insert((0, 1), Direction::Up);
    let mut display = parse_grid("abc\ndef").unwrap();
    display_visited(&mut display, &record);
    assert_eq!(arr_to_str(&display, |c: &char| *c), "aXc\ndef\n");
}

#[test]
fn classic_map_with_the_visited_cells() {
    let grid = parse_grid(CLASSIC).unwrap();
    let (outcome, record) = patrol(&grid, (6, 4), Direction::Up, guard_step);
    assert_eq!(outcome, PatrolOutcome::LeftBounds);
    let mut display = grid.clone();
    display_visited(&mut display, &record);
    let expected = "....#.....\n....XXXXX#\n....X...X.\n..#.X...X.\n..XXXXX#X.\n..X.X.X.X.\n.#XXXXXXX.\n.XXXXXXX#.\n#XXXXXXX..\n......#X..\n";
    assert_eq!(arr_to_str(&display, |c: &char| *c), expected);
}

#[test]
fn classic_map_first_loop_picture() {
    let grid = parse_grid(CLASSIC).unwrap();
    let (_, baseline) = patrol(&grid, (6, 4), Direction::Up, guard_step);
    let found = loop_obstacles(&grid, (6, 4), Direction::Up, &baseline);
    assert_eq!(found[0].obstacle, (6, 3));
    let picture = show_loop(&grid, (6, 4), &found[0]);
    let expected = "....#.....\n....+---+#\n....|...|.\n..#.|...|.\n....|..#|.\n....|...|.\n.#.O^---+.\n........#.\n#.........\n......#...\n";
    assert_eq!(arr_to_str(&picture, |c: &char| *c), expected);
    // the map itself is as it was
    assert_eq!(arr_to_str(&grid, |c: &char| *c), CLASSIC);
}

#[test]
fn classic_map_last_loop_picture() {
    let grid = parse_grid(CLASSIC).unwrap();
    let (_, baseline) = patrol(&grid, (6, 4), Direction::Up, guard_step);
    let found = loop_obstacles(&grid, (6, 4), Direction::Up, &baseline);
    assert_eq!(found[5].obstacle, (9, 7));
    let picture = show_loop(&grid, (6, 4), &found[5]);
    let expected = "....#.....\n....+---+#\n....|...|.\n..#.|...|.\n..+-+-+#|.\n..|.|.|.|.\n.#+-^-+-+.\n.+----++#.\n#+----++..\n......#O..\n";
    assert_eq!(arr_to_str(&picture, |c: &char| *c), expected);
}
