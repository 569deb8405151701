//! The four headings, what a decision rule may answer, how a walk can end,
//! and the flag that records one heading in a cell.

use crate::table::{char_get, char_num_columns, char_num_rows, char_rows, char_width, grid_ok, inside};
use crate::visit::VisitRecord;
use crate::walk::{
    lemma_patrol_leaves, lemma_patrol_loops, lemma_patrol_moves, lemma_patrol_records, lemma_patrol_starts,
    patrol_result, under_way, Pose,
};
use array2d::Array2D;
use vstd::prelude::*;

verus! {

/// What the decision rule answers when asked about the cell ahead.
#[derive(Clone, Copy, Debug, PartialEq, Eq, Structural)]
pub enum PatrolStep {
    /// Stay in place and face this way.
    Face(Direction),
    /// Move into the cell ahead.
    StepForward,
}

/// How a walk ended.
#[derive(Clone, Copy, Debug, PartialEq, Eq, Structural)]
pub enum PatrolOutcome {
    /// The cell ahead was off the grid.
    LeftBounds,
    /// The guard stood in a cell, facing a way, in which it had stood before.
    Loop,
}

/// The four headings, in the order of a clockwise turn.
#[derive(Clone, Copy, Debug, PartialEq, Eq, Structural)]
pub enum Direction {
    Up,
    Right,
    Down,
    Left,
}

/// One flag for each heading; a cell of a visit record is a union of them.
#[derive(Clone, Copy, Debug, PartialEq, Eq, Structural)]
pub enum VisitDirections {
    Up,
    Right,
    Down,
    Left,
}

impl Direction {
    /// How the row changes with one step this way.
    pub open spec fn row_delta(self) -> int {
        match self {
            Direction::Up => -1,
            Direction::Down => 1,
            Direction::Left => 0,
            Direction::Right => 0,
        }
    }

    /// How the column changes with one step this way.
    pub open spec fn column_delta(self) -> int {
        match self {
            Direction::Up => 0,
            Direction::Down => 0,
            Direction::Left => -1,
            Direction::Right => 1,
        }
    }

    /// The heading after a quarter turn clockwise.
    pub open spec fn turned(self) -> Direction {
        match self {
            Direction::Up => Direction::Right,
            Direction::Right => Direction::Down,
            Direction::Down => Direction::Left,
            Direction::Left => Direction::Up,
        }
    }

    /// The place of this heading in the clockwise order, from 0 for `Up`.
    pub open spec fn ordinal(self) -> int {
        match self {
            Direction::Up => 0,
            Direction::Right => 1,
            Direction::Down => 2,
            Direction::Left => 3,
        }
    }

    /// The change of row and of column that one step this way makes.
    pub fn heading(self) -> (delta: (isize, isize))
        ensures
            delta.0 == self.row_delta(),
            delta.1 == self.column_delta(),
    {
        match self {
            Direction::Up => (-1, 0),
            Direction::Down => (1, 0),
            Direction::Left => (0, -1),
            Direction::Right => (0, 1),
        }
    }

    /// A quarter turn clockwise.
    pub fn turn_right(self) -> (next: Direction)
        ensures
            next == self.turned(),
    {
        match self {
            Direction::Up => Direction::Right,
            Direction::Right => Direction::Down,
            Direction::Down => Direction::Left,
            Direction::Left => Direction::Up,
        }
    }
}

impl VisitDirections {
    /// The bit that stands for this flag in a cell of a visit record.
    pub open spec fn spec_bits(self) -> u8 {
        match self {
            VisitDirections::Up => 1,
            VisitDirections::Right => 2,
            VisitDirections::Down => 4,
            VisitDirections::Left => 8,
        }
    }

    /// The flag that records this heading.
    pub open spec fn spec_of(direction: Direction) -> VisitDirections {
        match direction {
            Direction::Up => VisitDirections::Up,
            Direction::Right => VisitDirections::Right,
            Direction::Down => VisitDirections::Down,
            Direction::Left => VisitDirections::Left,
        }
    }

    /// The bit that stands for this flag in a cell of a visit record.
    #[verifier::when_used_as_spec(spec_bits)]
    pub fn bits(self) -> (bit: u8)
        ensures
            bit == self.spec_bits(),
    {
        match self {
            VisitDirections::Up => 1,
            VisitDirections::Right => 2,
            VisitDirections::Down => 4,
            VisitDirections::Left => 8,
        }
    }

    /// The flag that records this heading.
    #[verifier::when_used_as_spec(spec_of)]
    pub fn of(direction: Direction) -> (flag: VisitDirections)
        ensures
            flag == Self::spec_of(direction),
    {
        match direction {
            Direction::Up => VisitDirections::Up,
            Direction::Right => VisitDirections::Right,
            Direction::Down => VisitDirections::Down,
            Direction::Left => VisitDirections::Left,
        }
    }
}

/// Whether the grid is small enough for a record of its shape: whether its
/// cells are no more than one allocation of bytes can hold.
pub fn fits(arr: &Array2D<char>) -> (ok: bool)
    ensures
        ok == (char_rows(*arr).len() * char_width(*arr) <= isize::MAX),
{
    let num_rows = char_num_rows(arr);
    let num_columns = char_num_columns(arr);
    match num_rows.checked_mul(num_columns) {
        Some(cells) => cells <= isize::MAX as usize,
        None => false,
    }
}

/// Walks the guard over the grid from `position`, facing `direction`, until
/// it leaves the grid or comes into a pose a second time, and hands back how
/// the walk ended and the record of its poses.
///
/// In each pose the guard first looks the pose up in the record: if it is
/// there, the walk ends in a loop and the pose is not recorded again.
/// Otherwise the pose is recorded. If the cell ahead is off the grid, the
/// walk ends there. Otherwise `step` is asked about the cell ahead, and the
/// guard turns in place or moves ahead as it answers.
///
/// The result is that of some walk that `step` permits; where `step` is a
/// function of the cell ahead and the heading, it is what that function
/// alone determines.
pub fn patrol<F>(arr: &Array2D<char>, position: (usize, usize), direction: Direction, step: F) -> (out: (
    PatrolOutcome,
    VisitRecord,
)) where F: Fn(&char, Direction) -> PatrolStep
    requires
        grid_ok(*arr),
        inside(char_rows(*arr), position.0 as int, position.1 as int),
        forall|row: int, column: int, facing: Direction|
            inside(char_rows(*arr), row, column) ==> #[trigger] call_requires(
                step,
                (&char_rows(*arr)[row][column], facing),
            ),
    ensures
        out.1.wf(),
        out.1.height() == char_rows(*arr).len(),
        out.1.width() == char_width(*arr),
        patrol_result(step, char_rows(*arr), Pose::at(position, direction), out.0, out.1@),
{
    let num_rows = char_num_rows(arr);
    let num_columns = char_num_columns(arr);
    let mut visited_arr = VisitRecord::new(num_rows, num_columns);
    let mut here = position;
    let mut facing = direction;
    let ghost grid = char_rows(*arr);
    let ghost start = Pose::at(position, direction);
    let ghost mut trail: Seq<Pose> = Seq::empty();
    proof {
        lemma_patrol_starts(step, grid, start);
    }
    loop
        invariant
            grid_ok(*arr),
            grid == char_rows(*arr),
            start == Pose::at(position, direction),
            grid.len() == num_rows,
            num_columns == char_width(*arr),
            visited_arr.wf(),
            visited_arr.height() == num_rows,
            visited_arr.width() == num_columns,
            visited_arr@ == trail.to_set(),
            here.0 < num_rows,
            here.1 < num_columns,
            under_way(step, grid, start, trail, Pose::at(here, facing)),
            forall|row: int, column: int, facing: Direction|
                inside(grid, row, column) ==> #[trigger] call_requires(step, (&grid[row][column], facing)),
        decreases 4 * (grid.len() * num_columns) - trail.len(),
    {
        let ghost pose = Pose::at(here, facing);
        // a pose that is on record already closes a loop
        if visited_arr.contains(here, facing) {
            proof {
                lemma_patrol_loops(step, grid, start, trail, pose);
            }
            return (PatrolOutcome::Loop, visited_arr);
        }
        // mark the current position as visited with the current direction
        visited_arr.insert(here, facing);
        proof {
            lemma_patrol_records(step, grid, num_columns as nat, start, trail, pose);
        }

        let d = facing.heading();
        let next_step_position = match (here.0.checked_add_signed(d.0), here.1.checked_add_signed(d.1)) {
            (Some(new_row), Some(new_column)) => (new_row, new_column),
            _ => {
                proof {
                    lemma_patrol_leaves(step, grid, start, trail, pose);
                }
                return (PatrolOutcome::LeftBounds, visited_arr);
            },
        };

        let next_step_cell = match char_get(arr, next_step_position.0, next_step_position.1) {
            None => {
                proof {
                    lemma_patrol_leaves(step, grid, start, trail, pose);
                }
                return (PatrolOutcome::LeftBounds, visited_arr);
            },
            Some(c) => c,
        };

        let answer = step(next_step_cell, facing);
        match answer {
            PatrolStep::Face(d) => facing = d,
            PatrolStep::StepForward => here = next_step_position,
        }
        proof {
            lemma_patrol_moves(step, grid, start, trail, pose, answer);
            trail = trail.push(pose);
        }
    }
}

} // verus!
