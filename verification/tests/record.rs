use patrol::patrol::Direction;
use patrol::visit::VisitRecord;

#[test]
fn new_record_is_blank() {
    let record = VisitRecord::new(2, 3);
    assert_eq!(record.num_rows(), 2);
    assert_eq!(record.num_columns(), 3);
    assert_eq!(record.count_nonempty_cells(), 0);
    assert_eq!(record.visited_positions(), Vec::<(usize, usize)>::new());
    for row in 0..2 {
        for column in 0..3 {
            assert!(record.is_empty((row, column)));
            for direction in [Direction::Up, Direction::Right, Direction::Down, Direction::Left] {
                assert!(!record.contains((row, column), direction));
            }
        }
    }
}

#[test]
fn record_without_cells() {
    let record = VisitRecord::new(0, 5);
    assert_eq!(record.num_rows(), 0);
    assert_eq!(record.num_columns(), 5);
    assert_eq!(record.count_nonempty_cells(), 0);
    assert!(record.is_empty((0, 0)));
    let record = VisitRecord::new(4, 0);
    assert_eq!(record.num_rows(), 4);
    assert_eq!(record.num_columns(), 0);
    assert_eq!(record.visited_positions(), Vec::<(usize, usize)>::new());
}

#[test]
fn insert_records_one_pose() {
    let mut record = VisitRecord::new(2, 3);
    record.insert((1, 2), Direction::Left);
    assert!(record.contains((1, 2), Direction::Left));
    assert!(!record.contains((1, 2), Direction::Up));
    assert!(!record.contains((1, 2), Direction::Right));
    assert!(!record.contains((1, 2), Direction::Down));
    assert!(!record.contains((1, 1), Direction::Left));
    assert!(!record.contains((0, 2), Direction::Left));
    assert!(!record.is_empty((1, 2)));
    assert!(record.is_empty((1, 1)));
    assert_eq!(record.count_nonempty_cells(), 1);
}

#[test]
fn insert_twice_is_insert_once() {
    let mut once = VisitRecord::new(3, 3);
    once.insert((1, 1), Direction::Down);
    let mut twice = VisitRecord::new(3, 3);
    twice.insert((1, 1), Direction::Down);
    twice.insert((1, 1), Direction::Down);
    for row in 0..3 {
        for column in 0..3 {
            for direction in [Direction::Up, Direction::Right, Direction::Down, Direction::Left] {
                assert_eq!(
                    once.contains((row, column), direction),
                    twice.contains((row, column), direction)
                );
            }
        }
    }
    assert_eq!(twice.count_nonempty_cells(), 1);
    assert_eq!(twice.visited_positions(), vec![(1, 1)]);
}

#[test]
fn a_cell_holds_up_to_four_headings() {
    let mut record = VisitRecord::new(1, 1);
    let mut count = 0;
    for direction in [Direction::Left, Direction::Up, Direction::Down, Direction::Right] {
        record.insert((0, 0), direction);
        count += 1;
        let held = [Direction::Up, Direction::Right, Direction::Down, Direction::Left]
            .iter()
            .filter(|d| record.contains((0, 0), **d))
            .count();
        assert_eq!(held, count);
        assert_eq!(record.count_nonempty_cells(), 1);
    }
}

#[test]
fn count_never_goes_down() {
    let mut record = VisitRecord::new(3, 4);
    let inserts = [
        ((0, 0), Direction::Up),
        ((0, 0), Direction::Right),
        ((2, 3), Direction::Down),
        ((0, 0), Direction::Up),
        ((1, 1), Direction::Left),
        ((2, 3), Direction::Down),
        ((2, 0), Direction::Right),
    ];
    let expected = [1, 1, 2, 2, 3, 3, 4];
    let mut last = 0;
    for (i, (position, direction)) in inserts.iter().enumerate() {
        record.insert(*position, *direction);
        let now = record.count_nonempty_cells();
        assert!(now >= last);
        assert_eq!(now, expected[i]);
        last = now;
    }
}

#[test]
fn insert_off_the_table_changes_nothing() {
    let mut record = VisitRecord::new(2, 2);
    record.insert((2, 0), Direction::Up);
    record.insert((0, 2), Direction::Up);
    record.insert((7, 9), Direction::Left);
    assert_eq!(record.count_nonempty_cells(), 0);
    assert!(!record.contains((2, 0), Direction::Up));
    assert!(!record.contains((0, 2), Direction::Up));
    assert!(record.is_empty((7, 9)));
}

#[test]
fn positions_come_in_reading_order() {
    let mut record = VisitRecord::new(3, 3);
    record.insert((2, 1), Direction::Up);
    record.insert((0, 2), Direction::Left);
    record.insert((1, 0), Direction::Down);
    record.insert((0, 0), Direction::Right);
    record.insert((2, 1), Direction::Left);
    assert_eq!(record.visited_positions(), vec![(0, 0), (0, 2), (1, 0), (2, 1)]);
    assert_eq!(record.count_nonempty_cells(), 4);
}
