//! The guard of the puzzle: its map is a text of one line for each row, it
//! starts at the one cell marked `^` facing up, turns right before an
//! obstacle `#` and walks on otherwise.

use crate::patrol::{patrol, Direction, PatrolOutcome, PatrolStep};
use crate::table::{
    char_clone, char_get, char_num_columns, char_num_rows, char_rows, char_set, char_width, chars_from_rows,
    chars_wf, first_width, grid_ok, inside, rectangular, rows_view, with_cell,
};
use crate::visit::{cell_of, comes_before, VisitRecord};
use crate::walk::{escapes, obeys, outcome_of, pose_at, poses_of, reaches, walking, Pose, Rule};
use array2d::Array2D;
use vstd::prelude::*;
use vstd::std_specs::iter::IteratorSpec;

verus! {

/// Marks the cell in which the guard starts.
pub const IN_START_CHAR: char = '^';

/// Marks a cell that the guard cannot enter.
pub const IN_OBSTACLE_CHAR: char = '#';

/// The guard faces up when it starts.
pub const START_DIRECTION: Direction = Direction::Up;

/// Why a text is not a map for the guard.
#[derive(Clone, Copy, Debug, PartialEq, Eq, Structural)]
pub enum InputError {
    /// The lines are not all of one length.
    Ragged,
    /// No cell holds the start marker.
    NoStart,
    /// More than one cell holds the start marker.
    SeveralStarts,
}

/// What the guard does: it turns right before an obstacle and steps ahead
/// otherwise.
pub open spec fn guard_rule(next_cell: char, facing: Direction) -> PatrolStep {
    if next_cell == IN_OBSTACLE_CHAR {
        PatrolStep::Face(facing.turned())
    } else {
        PatrolStep::StepForward
    }
}

/// The guard's rule as a value.
pub open spec fn the_guard_rule() -> Rule {
    |next_cell: char, facing: Direction| guard_rule(next_cell, facing)
}

/// The guard's decision about the cell ahead.
pub fn guard_step(next_char: &char, current_direction: Direction) -> (step: PatrolStep)
    ensures
        step == guard_rule(*next_char, current_direction),
{
    if *next_char == IN_OBSTACLE_CHAR {
        PatrolStep::Face(current_direction.turn_right())
    } else {
        PatrolStep::StepForward
    }
}

/// The number of characters before the first line feed, or in all of the
/// text where it holds none.
pub open spec fn line_end(text: Seq<char>) -> nat
    decreases text.len(),
{
    if text.len() == 0 || text[0] == '\n' {
        0
    } else {
        1 + line_end(text.skip(1))
    }
}

/// A line without the carriage return at its end, if it has one there.
pub open spec fn without_cr(line: Seq<char>) -> Seq<char> {
    if line.len() > 0 && line.last() == '\r' {
        line.drop_last()
    } else {
        line
    }
}

/// The lines of a text. A line ends with a line feed, or with a carriage
/// return and a line feed, which are not part of it; the last line needs no
/// line ending, and is then taken as it stands.
pub open spec fn lines_of(text: Seq<char>) -> Seq<Seq<char>>
    decreases text.len(),
{
    if text.len() == 0 {
        Seq::empty()
    } else {
        let end = line_end(text);
        if end >= text.len() {
            seq![text]
        } else {
            seq![without_cr(text.take(end as int))] + lines_of(text.skip(end as int + 1))
        }
    }
}

proof fn lemma_line_end_after(line: Seq<char>, rest: Seq<char>)
    requires
        forall|i: int| 0 <= i < line.len() ==> line[i] != '\n',
    ensures
        line_end(line + rest) == line.len() + line_end(rest),
    decreases line.len(),
{
    if line.len() == 0 {
        assert(line + rest =~= rest);
    } else {
        assert((line + rest)[0] == line[0]);
        assert((line + rest).skip(1) =~= line.skip(1) + rest);
        lemma_line_end_after(line.skip(1), rest);
    }
}

proof fn lemma_lines_at_line_feed(line: Seq<char>, rest: Seq<char>)
    requires
        forall|i: int| 0 <= i < line.len() ==> line[i] != '\n',
        rest.len() > 0,
        rest[0] == '\n',
    ensures
        lines_of(line + rest) == seq![without_cr(line)] + lines_of(rest.skip(1)),
{
    let text = line + rest;
    lemma_line_end_after(line, rest);
    assert(text.take(line.len() as int) =~= line);
    assert(text.skip(line.len() as int + 1) =~= rest.skip(1));
}

proof fn lemma_lines_at_end(line: Seq<char>)
    requires
        forall|i: int| 0 <= i < line.len() ==> line[i] != '\n',
    ensures
        lines_of(line) == (if line.len() == 0 {
            Seq::<Seq<char>>::empty()
        } else {
            seq![line]
        }),
{
    lemma_line_end_after(line, Seq::empty());
    assert(line + Seq::<char>::empty() =~= line);
}

/// What reading `text` as a map gives: its lines as the rows of a table, or
/// the reason why they make none.
pub open spec fn parsed(text: Seq<char>) -> Result<Seq<Seq<char>>, InputError> {
    let lines = lines_of(text);
    if rectangular(lines, first_width(lines)) {
        Ok(lines)
    } else {
        Err(InputError::Ragged)
    }
}

/// Reads a map from a text, one row from each line.
pub fn parse_grid(text: &str) -> (out: Result<Array2D<char>, InputError>)
    ensures
        match out {
            Ok(grid) => chars_wf(grid) && parsed(text@) == Ok::<Seq<Seq<char>>, InputError>(char_rows(grid))
                && char_width(grid) == first_width(char_rows(grid)),
            Err(error) => parsed(text@) == Err::<Seq<Seq<char>>, InputError>(error),
        },
{
    broadcast use vstd::string::group_string_axioms;

    let mut rows: Vec<Vec<char>> = Vec::new();
    let mut line: Vec<char> = Vec::new();
    let mut chars = text.chars();
    assert(rows_view(rows@) + lines_of(line@ + chars.remaining()) =~= lines_of(text@)) by {
        assert(line@ + chars.remaining() =~= text@);
    }
    loop
        invariant_except_break
            lines_of(text@) == rows_view(rows@) + lines_of(line@ + chars.remaining()),
            forall|i: int| 0 <= i < line@.len() ==> line@[i] != '\n',
            chars.decrease() is Some,
        ensures
            lines_of(text@) == rows_view(rows@),
        decreases chars.decrease()->0,
    {
        let ghost before = chars.remaining();
        let ghost done = rows_view(rows@);
        let ghost begun = line@;
        match chars.next() {
            Some(c) => {
                if c == '\n' {
                    let n = line.len();
                    if n > 0 && line[n - 1] == '\r' {
                        line.pop();
                    }
                    rows.push(line);
                    line = Vec::new();
                    proof {
                        lemma_lines_at_line_feed(begun, before);
                        assert(line@ + chars.remaining() =~= before.skip(1));
                        assert(rows_view(rows@) =~= done.push(without_cr(begun)));
                        assert(done + (seq![without_cr(begun)] + lines_of(before.skip(1))) =~= done.push(
                            without_cr(begun),
                        ) + lines_of(before.skip(1)));
                    }
                } else {
                    line.push(c);
                    proof {
                        assert(line@ + chars.remaining() =~= begun + before);
                    }
                }
            },
            None => {
                proof {
                    assert(begun + before =~= begun);
                    lemma_lines_at_end(begun);
                }
                if line.len() > 0 {
                    rows.push(line);
                    proof {
                        assert(rows_view(rows@) =~= done.push(begun));
                        assert(done + seq![begun] =~= done.push(begun));
                    }
                } else {
                    proof {
                        assert(done + Seq::<Seq<char>>::empty() =~= done);
                    }
                }
                break ;
            },
        }
    }
    match chars_from_rows(&rows) {
        Ok(grid) => Ok(grid),
        Err(_) => Err(InputError::Ragged),
    }
}

/// No cell before `(row, column)` in the order of reading holds the start
/// marker, but for `but`.
spec fn no_start_before(grid: Seq<Seq<char>>, row: int, column: int, but: Option<(usize, usize)>) -> bool {
    forall|r: int, c: int|
        inside(grid, r, c) && comes_before((r, c), (row, column)) && #[trigger] grid[r][c] == IN_START_CHAR
            ==> but == Some((r as usize, c as usize))
}

/// `found`, if it names a cell, names one before `(row, column)` in the
/// order of reading that holds the start marker.
spec fn start_if_any(grid: Seq<Seq<char>>, row: int, column: int, found: Option<(usize, usize)>) -> bool {
    match found {
        Some(position) => {
            &&& inside(grid, position.0 as int, position.1 as int)
            &&& comes_before((position.0 as int, position.1 as int), (row, column))
            &&& grid[position.0 as int][position.1 as int] == IN_START_CHAR
        },
        None => true,
    }
}

/// Where the guard starts: the one cell that holds the start marker. A map
/// without such a cell, or with more than one, has no start.
pub fn find_start(grid: &Array2D<char>) -> (out: Result<(usize, usize), InputError>)
    requires
        chars_wf(*grid),
    ensures
        match out {
            Ok(position) => {
                &&& inside(char_rows(*grid), position.0 as int, position.1 as int)
                &&& char_rows(*grid)[position.0 as int][position.1 as int] == IN_START_CHAR
                &&& forall|r: int, c: int|
                    inside(char_rows(*grid), r, c) && #[trigger] char_rows(*grid)[r][c] == IN_START_CHAR ==> r
                        == position.0 && c == position.1
            },
            Err(InputError::NoStart) => forall|r: int, c: int|
                inside(char_rows(*grid), r, c) ==> #[trigger] char_rows(*grid)[r][c] != IN_START_CHAR,
            Err(InputError::SeveralStarts) => exists|r: int, c: int, s: int, d: int|
                inside(char_rows(*grid), r, c) && inside(char_rows(*grid), s, d) && (r != s || c != d)
                    && #[trigger] char_rows(*grid)[r][c] == IN_START_CHAR && #[trigger] char_rows(
                    *grid,
                )[s][d] == IN_START_CHAR,
            Err(_) => false,
        },
{
    let num_rows = char_num_rows(grid);
    let num_columns = char_num_columns(grid);
    let ghost cells = char_rows(*grid);
    let mut found: Option<(usize, usize)> = None;
    let mut row: usize = 0;
    while row < num_rows
        invariant
            chars_wf(*grid),
            cells == char_rows(*grid),
            num_rows == cells.len(),
            num_columns == char_width(*grid),
            row <= num_rows,
            no_start_before(cells, row as int, 0, found),
            start_if_any(cells, row as int, 0, found),
        decreases num_rows - row,
    {
        let mut column: usize = 0;
        while column < num_columns
            invariant
                chars_wf(*grid),
                cells == char_rows(*grid),
                num_rows == cells.len(),
                num_columns == char_width(*grid),
                row < num_rows,
                column <= num_columns,
                no_start_before(cells, row as int, column as int, found),
                start_if_any(cells, row as int, column as int, found),
            decreases num_columns - column,
        {
            assert(cells[row as int].len() == num_columns);
            match char_get(grid, row, column) {
                Some(cell) => {
                    if *cell == IN_START_CHAR {
                        match found {
                            Some(first) => {
                                assert(inside(cells, first.0 as int, first.1 as int) && inside(
                                    cells,
                                    row as int,
                                    column as int,
                                ) && (first.0 as int != row as int || first.1 as int != column as int)
                                    && cells[first.0 as int][first.1 as int] == IN_START_CHAR
                                    && cells[row as int][column as int] == IN_START_CHAR);
                                return Err(InputError::SeveralStarts);
                            },
                            None => {
                                found = Some((row, column));
                            },
                        }
                    }
                },
                None => {},
            }
            column += 1;
        }
        row += 1;
    }
    match found {
        Some(position) => {
            assert forall|r: int, c: int|
                inside(cells, r, c) && #[trigger] cells[r][c] == IN_START_CHAR implies r == position.0 && c
                == position.1 by {
                assert(comes_before((r, c), (row as int, 0)));
            }
            Ok(position)
        },
        None => {
            assert forall|r: int, c: int| inside(cells, r, c) implies #[trigger] cells[r][c] != IN_START_CHAR by {
                assert(comes_before((r, c), (row as int, 0)));
            }
            Err(InputError::NoStart)
        },
    }
}

/// The map with one more obstacle, at `(row, column)`.
pub open spec fn with_obstacle(grid: Seq<Seq<char>>, row: int, column: int) -> Seq<Seq<char>> {
    with_cell(grid, row, column, IN_OBSTACLE_CHAR)
}

/// With one more obstacle at `(row, column)`, the guard that starts in
/// `start` never leaves the map.
pub open spec fn obstacle_loops(grid: Seq<Seq<char>>, start: Pose, row: int, column: int) -> bool {
    outcome_of(with_obstacle(grid, row, column), the_guard_rule(), start) == PatrolOutcome::Loop
}

proof fn lemma_obstacle_keeps_shape(grid: Seq<Seq<char>>, width: nat, row: int, column: int)
    requires
        rectangular(grid, width),
        inside(grid, row, column),
    ensures
        rectangular(with_obstacle(grid, row, column), width),
        with_obstacle(grid, row, column).len() == grid.len(),
        forall|r: int, c: int| inside(with_obstacle(grid, row, column), r, c) <==> inside(grid, r, c),
{
    let changed = with_obstacle(grid, row, column);
    assert forall|r: int| 0 <= r < changed.len() implies (#[trigger] changed[r]).len() == width by {
        assert(grid[r].len() == width);
    }
    assert forall|r: int, c: int| inside(changed, r, c) <==> inside(grid, r, c) by {
        if 0 <= r < grid.len() {
            assert(changed[r].len() == grid[r].len());
        }
    }
}

/// The guard's patrol of the map with one more obstacle, at `obstacle`. The
/// map itself stays as it is: the obstacle stands in a copy.
pub fn patrol_with_obstacle(
    grid: &Array2D<char>,
    start_position: (usize, usize),
    start_direction: Direction,
    obstacle: (usize, usize),
) -> (out: (PatrolOutcome, VisitRecord))
    requires
        grid_ok(*grid),
        inside(char_rows(*grid), start_position.0 as int, start_position.1 as int),
        inside(char_rows(*grid), obstacle.0 as int, obstacle.1 as int),
    ensures
        out.0 == outcome_of(
            with_obstacle(char_rows(*grid), obstacle.0 as int, obstacle.1 as int),
            the_guard_rule(),
            Pose::at(start_position, start_direction),
        ),
        out.1@ == poses_of(
            with_obstacle(char_rows(*grid), obstacle.0 as int, obstacle.1 as int),
            the_guard_rule(),
            Pose::at(start_position, start_direction),
        ),
        out.1.wf(),
        out.1.height() == char_rows(*grid).len(),
        out.1.width() == char_width(*grid),
{
    let mut arr_with_new_obstacle = char_clone(grid);
    let _ = char_set(&mut arr_with_new_obstacle, obstacle.0, obstacle.1, IN_OBSTACLE_CHAR);
    proof {
        lemma_obstacle_keeps_shape(char_rows(*grid), char_width(*grid), obstacle.0 as int, obstacle.1 as int);
        assert(obeys(guard_step, char_rows(arr_with_new_obstacle), the_guard_rule()));
    }
    patrol(&arr_with_new_obstacle, start_position, start_direction, guard_step)
}

/// The guard never stands in the cell at `(row, column)`.
pub open spec fn off_the_path(grid: Seq<Seq<char>>, start: Pose, row: int, column: int) -> bool {
    forall|facing: Direction| !#[trigger] reaches(grid, the_guard_rule(), start, Pose { row, column, facing })
}

proof fn lemma_obstacle_keeps_cells(grid: Seq<Seq<char>>, row: int, column: int)
    requires
        inside(grid, row, column),
    ensures
        forall|r: int, c: int| inside(with_obstacle(grid, row, column), r, c) <==> inside(grid, r, c),
        forall|r: int, c: int|
            inside(grid, r, c) && (r != row || c != column) ==> with_obstacle(grid, row, column)[r][c] == grid[r][c],
        with_obstacle(grid, row, column)[row][column] == IN_OBSTACLE_CHAR,
{
    let changed = with_obstacle(grid, row, column);
    assert forall|r: int, c: int| inside(changed, r, c) <==> inside(grid, r, c) by {
        if 0 <= r < grid.len() {
            assert(changed[r].len() == grid[r].len());
        }
    }
}

/// With an obstacle off its path the guard walks as it does without: as long
/// as it is on one of the two maps it is on both, in the same pose.
proof fn lemma_same_walk(grid: Seq<Seq<char>>, start: Pose, row: int, column: int, steps: nat)
    requires
        inside(grid, row, column),
        off_the_path(grid, start, row, column),
        walking(grid, the_guard_rule(), start, steps) || walking(
            with_obstacle(grid, row, column),
            the_guard_rule(),
            start,
            steps,
        ),
    ensures
        pose_at(with_obstacle(grid, row, column), the_guard_rule(), start, steps) == pose_at(
            grid,
            the_guard_rule(),
            start,
            steps,
        ),
        walking(grid, the_guard_rule(), start, steps),
        walking(with_obstacle(grid, row, column), the_guard_rule(), start, steps),
    decreases steps,
{
    let rule = the_guard_rule();
    let changed = with_obstacle(grid, row, column);
    lemma_obstacle_keeps_cells(grid, row, column);
    assert forall|k: nat| k < steps implies !(#[trigger] pose_at(grid, rule, start, k)).leaving(grid) by {
        lemma_same_walk(grid, start, row, column, k);
        assert(!pose_at(grid, rule, start, k).leaving(grid) || !pose_at(changed, rule, start, k).leaving(changed));
    }
    assert forall|k: nat| k < steps implies !(#[trigger] pose_at(changed, rule, start, k)).leaving(changed) by {
        lemma_same_walk(grid, start, row, column, k);
        assert(!pose_at(grid, rule, start, k).leaving(grid));
    }
    if steps > 0 {
        let before = (steps - 1) as nat;
        let pose = pose_at(grid, rule, start, before);
        lemma_same_walk(grid, start, row, column, before);
        assert(pose_at(changed, rule, start, before) == pose);
        assert(!pose.leaving(grid));
        if pose.row_ahead() == row && pose.column_ahead() == column && grid[row][column] != IN_OBSTACLE_CHAR {
            let next = pose_at(grid, rule, start, steps);
            assert(next == Pose { row, column, facing: pose.facing });
            assert(walking(grid, rule, start, steps));
            assert(reaches(grid, rule, start, next));
        }
    }
}

/// The guard that faces the edge of the map at some time does so for a first
/// time.
proof fn lemma_first_edge(grid: Seq<Seq<char>>, rule: Rule, start: Pose, steps: nat) -> (first: nat)
    requires
        pose_at(grid, rule, start, steps).leaving(grid),
    ensures
        first <= steps,
        walking(grid, rule, start, first),
        pose_at(grid, rule, start, first).leaving(grid),
    decreases steps,
{
    if walking(grid, rule, start, steps) {
        steps
    } else {
        let earlier = choose|k: nat| k < steps && (#[trigger] pose_at(grid, rule, start, k)).leaving(grid);
        lemma_first_edge(grid, rule, start, earlier)
    }
}

/// One more obstacle in a cell in which the guard never stands changes
/// nothing: the patrol ends as it does without, with the same poses on
/// record. So the cells of the patrol without a new obstacle are the only
/// ones worth trying.
pub proof fn lemma_obstacle_off_the_path(grid: Seq<Seq<char>>, start: Pose, row: int, column: int)
    requires
        inside(grid, row, column),
        off_the_path(grid, start, row, column),
    ensures
        outcome_of(with_obstacle(grid, row, column), the_guard_rule(), start) == outcome_of(
            grid,
            the_guard_rule(),
            start,
        ),
        poses_of(with_obstacle(grid, row, column), the_guard_rule(), start) == poses_of(
            grid,
            the_guard_rule(),
            start,
        ),
{
    let rule = the_guard_rule();
    let changed = with_obstacle(grid, row, column);
    lemma_obstacle_keeps_cells(grid, row, column);
    if escapes(grid, rule, start) {
        let steps = choose|steps: nat| (#[trigger] pose_at(grid, rule, start, steps)).leaving(grid);
        let first = lemma_first_edge(grid, rule, start, steps);
        lemma_same_walk(grid, start, row, column, first);
        assert(pose_at(changed, rule, start, first).leaving(changed));
    }
    if escapes(changed, rule, start) {
        let steps = choose|steps: nat| (#[trigger] pose_at(changed, rule, start, steps)).leaving(changed);
        let first = lemma_first_edge(changed, rule, start, steps);
        lemma_same_walk(grid, start, row, column, first);
        assert(pose_at(grid, rule, start, first).leaving(grid));
    }
    assert forall|pose: Pose| reaches(changed, rule, start, pose) <==> reaches(grid, rule, start, pose) by {
        if reaches(changed, rule, start, pose) {
            let steps = choose|steps: nat|
                walking(changed, rule, start, steps) && #[trigger] pose_at(changed, rule, start, steps) == pose;
            lemma_same_walk(grid, start, row, column, steps);
            assert(pose_at(grid, rule, start, steps) == pose);
        }
        if reaches(grid, rule, start, pose) {
            let steps = choose|steps: nat|
                walking(grid, rule, start, steps) && #[trigger] pose_at(grid, rule, start, steps) == pose;
            lemma_same_walk(grid, start, row, column, steps);
            assert(pose_at(changed, rule, start, steps) == pose);
        }
    }
    assert(poses_of(changed, rule, start) =~= poses_of(grid, rule, start));
}

/// One obstacle that keeps the guard on the map for ever, and the record of
/// the guard's patrol with it.
pub struct LoopFound {
    pub obstacle: (usize, usize),
    pub visited: VisitRecord,
}

/// `found` names, in the order of reading, the cells on the record
/// `baseline` in which one more obstacle makes the guard loop, each once and
/// each with the record of the patrol that its obstacle leads to.
pub open spec fn loops_listed(grid: Seq<Seq<char>>, start: Pose, baseline: &VisitRecord, found: Seq<LoopFound>) -> bool {
    &&& forall|i: int, j: int|
        0 <= i < j < found.len() ==> comes_before(
            cell_of((#[trigger] found[i]).obstacle),
            cell_of((#[trigger] found[j]).obstacle),
        )
    &&& forall|row: int, column: int|
        (exists|i: int| 0 <= i < found.len() && cell_of((#[trigger] found[i]).obstacle) == (row, column)) <==> (
        #[trigger] baseline.seen_at(row, column) && obstacle_loops(grid, start, row, column))
    &&& forall|i: int|
        0 <= i < found.len() ==> {
            let at = cell_of((#[trigger] found[i]).obstacle);
            &&& found[i].visited.wf()
            &&& found[i].visited.height() == grid.len()
            &&& found[i].visited.width() == first_width(grid)
            &&& found[i].visited@ == poses_of(with_obstacle(grid, at.0, at.1), the_guard_rule(), start)
        }
}

/// Where the guard leaves the map as it is, the search misses nothing: a
/// cell in which one more obstacle makes the guard loop is a cell of the
/// patrol without it, and so is on the list.
pub proof fn lemma_search_is_complete(
    grid: Seq<Seq<char>>,
    start: Pose,
    baseline: &VisitRecord,
    found: Seq<LoopFound>,
    row: int,
    column: int,
)
    requires
        baseline@ == poses_of(grid, the_guard_rule(), start),
        outcome_of(grid, the_guard_rule(), start) == PatrolOutcome::LeftBounds,
        loops_listed(grid, start, baseline, found),
        inside(grid, row, column),
        obstacle_loops(grid, start, row, column),
    ensures
        baseline.seen_at(row, column),
        exists|i: int| 0 <= i < found.len() && cell_of((#[trigger] found[i]).obstacle) == (row, column),
{
    if !baseline.seen_at(row, column) {
        assert forall|facing: Direction| !#[trigger] reaches(
            grid,
            the_guard_rule(),
            start,
            Pose { row, column, facing },
        ) by {
            assert(!baseline@.contains(Pose { row, column, facing }));
        }
        lemma_obstacle_off_the_path(grid, start, row, column);
    }
}

/// `found` names, in the order of reading, those of the first `tried`
/// candidates whose obstacle makes the guard loop, each with the record of
/// that patrol.
#[verifier::opaque]
spec fn loops_up_to(
    grid: Seq<Seq<char>>,
    start: Pose,
    baseline: &VisitRecord,
    candidates: Seq<(usize, usize)>,
    tried: int,
    found: Seq<LoopFound>,
) -> bool {
    &&& forall|i: int|
        0 <= i < found.len() ==> {
            let at = cell_of((#[trigger] found[i]).obstacle);
            &&& baseline.seen_at(at.0, at.1)
            &&& obstacle_loops(grid, start, at.0, at.1)
            &&& found[i].visited.wf()
            &&& found[i].visited.height() == grid.len()
            &&& found[i].visited.width() == first_width(grid)
            &&& found[i].visited@ == poses_of(with_obstacle(grid, at.0, at.1), the_guard_rule(), start)
            &&& tried < candidates.len() ==> comes_before(at, cell_of(candidates[tried]))
        }
    &&& forall|i: int, j: int|
        0 <= i < j < found.len() ==> comes_before(
            cell_of((#[trigger] found[i]).obstacle),
            cell_of((#[trigger] found[j]).obstacle),
        )
    &&& forall|k: int|
        0 <= k < tried && obstacle_loops(grid, start, cell_of(#[trigger] candidates[k]).0, cell_of(candidates[k]).1)
            ==> exists|i: int| 0 <= i < found.len() && (#[trigger] found[i]).obstacle == candidates[k]
}

/// Tries one more obstacle in each cell that the guard passed through on its
/// patrol of the map as it is, and in no other, and lists those with which
/// the guard never leaves the map.
///
/// `baseline` is the record of the patrol without a new obstacle. The cells
/// come in the order of reading, each with the record of the patrol that its
/// obstacle leads to.
pub fn loop_obstacles(
    grid: &Array2D<char>,
    start_position: (usize, usize),
    start_direction: Direction,
    baseline: &VisitRecord,
) -> (found: Vec<LoopFound>)
    requires
        grid_ok(*grid),
        inside(char_rows(*grid), start_position.0 as int, start_position.1 as int),
        baseline.wf(),
        baseline.height() == char_rows(*grid).len(),
        baseline.width() == char_width(*grid),
    ensures
        loops_listed(char_rows(*grid), Pose::at(start_position, start_direction), baseline, found@),
{
    let candidates = baseline.visited_positions();
    let ghost cells = char_rows(*grid);
    let ghost start = Pose::at(start_position, start_direction);
    let mut found: Vec<LoopFound> = Vec::new();
    let mut tried: usize = 0;
    proof {
        assert(first_width(cells) == char_width(*grid)) by {
            assert(cells[0].len() == char_width(*grid));
        }
        assert(loops_up_to(cells, start, baseline, candidates@, 0, found@)) by {
            reveal(loops_up_to);
        }
    }
    while tried < candidates.len()
        invariant
            grid_ok(*grid),
            cells == char_rows(*grid),
            start == Pose::at(start_position, start_direction),
            inside(cells, start_position.0 as int, start_position.1 as int),
            first_width(cells) == char_width(*grid),
            baseline.wf(),
            baseline.height() == cells.len(),
            baseline.width() == char_width(*grid),
            baseline.listed_by(candidates@),
            tried <= candidates.len(),
            loops_up_to(cells, start, baseline, candidates@, tried as int, found@),
        decreases candidates.len() - tried,
    {
        let new_obstacle_position = candidates[tried];
        let ghost at = cell_of(new_obstacle_position);
        proof {
            lemma_candidate_covered(baseline, candidates@, tried as int);
            assert(cells[at.0].len() == char_width(*grid));
        }
        let patrol_result = patrol_with_obstacle(grid, start_position, start_direction, new_obstacle_position);
        let ghost before = found@;
        match patrol_result.0 {
            PatrolOutcome::Loop => {
                found.push(LoopFound { obstacle: new_obstacle_position, visited: patrol_result.1 });
            },
            PatrolOutcome::LeftBounds => {},
        }
        proof {
            if patrol_result.0 == PatrolOutcome::Loop {
                assert(found@.drop_last() =~= before);
            }
            lemma_loops_step(cells, start, baseline, candidates@, tried as int, before, found@);
        }
        tried += 1;
    }
    proof {
        lemma_loops_done(cells, start, baseline, candidates@, found@);
    }
    found
}

proof fn lemma_candidate_covered(baseline: &VisitRecord, candidates: Seq<(usize, usize)>, index: int)
    requires
        baseline.wf(),
        baseline.listed_by(candidates),
        0 <= index < candidates.len(),
    ensures
        baseline.seen_at(cell_of(candidates[index]).0, cell_of(candidates[index]).1),
        baseline.covers(cell_of(candidates[index]).0, cell_of(candidates[index]).1),
{
    let listed = candidates.map_values(|position: (usize, usize)| cell_of(position));
    let at = cell_of(candidates[index]);
    assert(listed[index] == at);
    assert(listed.to_set().contains(at));
    assert(baseline.seen_cells().contains(at));
    baseline.lemma_recorded_poses_covered();
}

proof fn lemma_loops_step(
    grid: Seq<Seq<char>>,
    start: Pose,
    baseline: &VisitRecord,
    candidates: Seq<(usize, usize)>,
    tried: int,
    before: Seq<LoopFound>,
    after: Seq<LoopFound>,
)
    requires
        0 <= tried < candidates.len(),
        baseline.wf(),
        baseline.listed_by(candidates),
        loops_up_to(grid, start, baseline, candidates, tried, before),
        obstacle_loops(grid, start, cell_of(candidates[tried]).0, cell_of(candidates[tried]).1) ==> {
            &&& after.len() == before.len() + 1
            &&& after.drop_last() == before
            &&& after.last().obstacle == candidates[tried]
            &&& after.last().visited.wf()
            &&& after.last().visited.height() == grid.len()
            &&& after.last().visited.width() == first_width(grid)
            &&& after.last().visited@ == poses_of(
                with_obstacle(grid, cell_of(candidates[tried]).0, cell_of(candidates[tried]).1),
                the_guard_rule(),
                start,
            )
        },
        !obstacle_loops(grid, start, cell_of(candidates[tried]).0, cell_of(candidates[tried]).1) ==> after
            == before,
    ensures
        loops_up_to(grid, start, baseline, candidates, tried + 1, after),
{
    reveal(loops_up_to);
    lemma_candidate_covered(baseline, candidates, tried);
    assert forall|i: int| 0 <= i < after.len() implies {
        let at = cell_of((#[trigger] after[i]).obstacle);
        &&& baseline.seen_at(at.0, at.1)
        &&& obstacle_loops(grid, start, at.0, at.1)
        &&& after[i].visited.wf()
        &&& after[i].visited.height() == grid.len()
        &&& after[i].visited.width() == first_width(grid)
        &&& after[i].visited@ == poses_of(with_obstacle(grid, at.0, at.1), the_guard_rule(), start)
        &&& tried + 1 < candidates.len() ==> comes_before(at, cell_of(candidates[tried + 1]))
    } by {
        if i < before.len() {
            assert(after[i] == before[i]);
        }
        if tried + 1 < candidates.len() {
            assert(comes_before(cell_of(candidates[tried]), cell_of(candidates[tried + 1])));
        }
    }
    assert forall|i: int, j: int| 0 <= i < j < after.len() implies comes_before(
        cell_of((#[trigger] after[i]).obstacle),
        cell_of((#[trigger] after[j]).obstacle),
    ) by {
        assert(after[i] == before[i]);
        if j < before.len() {
            assert(after[j] == before[j]);
        }
    }
    assert forall|k: int|
        0 <= k < tried + 1 && obstacle_loops(
            grid,
            start,
            cell_of(#[trigger] candidates[k]).0,
            cell_of(candidates[k]).1,
        ) implies exists|i: int| 0 <= i < after.len() && (#[trigger] after[i]).obstacle == candidates[k] by {
        if k < tried {
            let i = choose|i: int| 0 <= i < before.len() && (#[trigger] before[i]).obstacle == candidates[k];
            assert(after[i] == before[i]);
        } else {
            assert(after[before.len() as int].obstacle == candidates[k]);
        }
    }
}

proof fn lemma_loops_done(
    grid: Seq<Seq<char>>,
    start: Pose,
    baseline: &VisitRecord,
    candidates: Seq<(usize, usize)>,
    found: Seq<LoopFound>,
)
    requires
        baseline.listed_by(candidates),
        loops_up_to(grid, start, baseline, candidates, candidates.len() as int, found),
    ensures
        loops_listed(grid, start, baseline, found),
{
    reveal(loops_up_to);
    let listed = candidates.map_values(|position: (usize, usize)| cell_of(position));
    assert forall|row: int, column: int| #[trigger]
        baseline.seen_at(row, column) && obstacle_loops(grid, start, row, column) implies exists|i: int|
        0 <= i < found.len() && cell_of((#[trigger] found[i]).obstacle) == (row, column) by {
        assert(baseline.seen_cells().contains((row, column)));
        assert(listed.to_set().contains((row, column)));
        let k = choose|k: int| 0 <= k < listed.len() && listed[k] == (row, column);
        assert(cell_of(candidates[k]) == (row, column));
        let i = choose|i: int| 0 <= i < found.len() && (#[trigger] found[i]).obstacle == candidates[k];
        assert(cell_of(found[i].obstacle) == (row, column));
    }
}

} // verus!
