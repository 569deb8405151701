//! What the patrols look like on paper: a table as text, the cells of a
//! patrol marked on the map, and the line that parts one answer from the
//! next.

use crate::guard::{LoopFound, IN_START_CHAR};
use crate::patrol::Direction;
use crate::table::{char_clone, char_get, char_num_columns, char_num_rows, char_rows, char_set, char_width, chars_wf, inside, with_cell};
use crate::visit::{comes_before, VisitRecord};
use crate::walk::Pose;
use array2d::Array2D;
use vstd::prelude::*;

verus! {

/// Marks a cell that the guard passed through.
pub const OUT_VISITED_CHAR: char = 'X';

/// Marks the obstacle that was added.
pub const OUT_NEW_OBSTACLE: char = 'O';

/// Marks a cell that the guard passed through sideways only.
pub const OUT_MOVEMENT_HORIZONTAL: char = '-';

/// Marks a cell that the guard passed through up or down only.
pub const OUT_MOVEMENT_VERTICAL: char = '|';

/// Marks a cell that the guard passed through both ways.
pub const OUT_MOVEMENT_HORIZONTAL_AND_VERTICAL: char = '+';

/// `String::push`: puts one character behind the others.
#[verifier::external_body]
fn push_char(text: &mut String, c: char)
    ensures
        final(text)@ == old(text)@.push(c),
{
    text.push(c)
}

/// The rows as one text, each row followed by a line feed.
pub open spec fn text_of(rows: Seq<Seq<char>>) -> Seq<char>
    decreases rows.len(),
{
    if rows.len() == 0 {
        Seq::empty()
    } else {
        text_of(rows.drop_last()) + rows.last().push('\n')
    }
}

/// `shown` is a table of the shape of `rows` in which each cell holds
/// something that `f` can give for the cell of `rows` in its place.
pub open spec fn shows<F: Fn(&char) -> char>(f: F, rows: Seq<Seq<char>>, shown: Seq<Seq<char>>) -> bool {
    &&& shown.len() == rows.len()
    &&& forall|r: int| 0 <= r < rows.len() ==> (#[trigger] shown[r]).len() == rows[r].len()
    &&& forall|r: int, c: int| inside(rows, r, c) ==> call_ensures(f, (&rows[r][c],), #[trigger] shown[r][c])
}

/// The table as text: row by row, each cell as the character that `f` gives
/// for it, and a line feed after each row.
pub fn arr_to_str<F>(arr: &Array2D<char>, f: F) -> (s: String) where F: Fn(&char) -> char
    requires
        chars_wf(*arr),
        forall|r: int, c: int|
            inside(char_rows(*arr), r, c) ==> call_requires(f, (&#[trigger] char_rows(*arr)[r][c],)),
    ensures
        exists|shown: Seq<Seq<char>>| shows(f, char_rows(*arr), shown) && s@ == text_of(shown),
{
    let num_rows = char_num_rows(arr);
    let num_columns = char_num_columns(arr);
    let ghost rows = char_rows(*arr);
    let mut s = String::new();
    let ghost mut shown: Seq<Seq<char>> = Seq::empty();
    let mut row: usize = 0;
    while row < num_rows
        invariant
            chars_wf(*arr),
            rows == char_rows(*arr),
            num_rows == rows.len(),
            num_columns == char_width(*arr),
            row <= num_rows,
            shown.len() == row,
            shows(f, rows.take(row as int), shown),
            s@ == text_of(shown),
            forall|r: int, c: int| inside(rows, r, c) ==> call_requires(f, (&#[trigger] rows[r][c],)),
        decreases num_rows - row,
    {
        let ghost done = s@;
        let ghost mut line: Seq<char> = Seq::empty();
        let mut column: usize = 0;
        assert(rows[row as int].len() == num_columns);
        while column < num_columns
            invariant
                chars_wf(*arr),
                rows == char_rows(*arr),
                row < num_rows,
                num_rows == rows.len(),
                num_columns == char_width(*arr),
                rows[row as int].len() == num_columns,
                column <= num_columns,
                line.len() == column,
                s@ == done + line,
                forall|c: int| 0 <= c < column ==> call_ensures(f, (&rows[row as int][c],), #[trigger] line[c]),
                forall|r: int, c: int| inside(rows, r, c) ==> call_requires(f, (&#[trigger] rows[r][c],)),
            decreases num_columns - column,
        {
            match char_get(arr, row, column) {
                Some(cell) => {
                    let c = f(cell);
                    push_char(&mut s, c);
                    proof {
                        line = line.push(c);
                        assert(s@ =~= done + line);
                    }
                },
                None => {},
            }
            column += 1;
        }
        push_char(&mut s, '\n');
        proof {
            let before = shown;
            shown = shown.push(line);
            assert(shown.drop_last() =~= before);
            assert(s@ =~= text_of(before) + line.push('\n'));
            assert forall|r: int, c: int| inside(rows.take(row + 1), r, c) implies call_ensures(
                f,
                (&rows.take(row + 1)[r][c],),
                #[trigger] shown[r][c],
            ) by {
                if r < row {
                    assert(inside(rows.take(row as int), r, c));
                    assert(shown[r] == before[r]);
                }
            }
        }
        row += 1;
    }
    proof {
        assert(rows.take(row as int) =~= rows);
    }
    s
}

/// A line of `width` dashes.
pub fn dash_line(width: usize) -> (s: String)
    ensures
        s@ == Seq::new(width as nat, |i: int| '-'),
{
    let mut s = String::new();
    let mut n: usize = 0;
    while n < width
        invariant
            n <= width,
            s@ == Seq::new(n as nat, |i: int| '-'),
        decreases width - n,
    {
        push_char(&mut s, '-');
        n += 1;
        proof {
            assert(s@ =~= Seq::new(n as nat, |i: int| '-'));
        }
    }
    s
}

/// The sign for the ways in which the guard passed through a cell: up or
/// down, sideways, or both.
pub open spec fn movement_glyph(record: &VisitRecord, row: int, column: int) -> char {
    let vertical = record@.contains(Pose { row, column, facing: Direction::Up }) || record@.contains(
        Pose { row, column, facing: Direction::Down },
    );
    let horizontal = record@.contains(Pose { row, column, facing: Direction::Left }) || record@.contains(
        Pose { row, column, facing: Direction::Right },
    );
    if vertical && horizontal {
        OUT_MOVEMENT_HORIZONTAL_AND_VERTICAL
    } else if vertical {
        OUT_MOVEMENT_VERTICAL
    } else {
        OUT_MOVEMENT_HORIZONTAL
    }
}

/// The table in which each cell that is on record and comes before
/// `(row, column)` in the order of reading holds its sign, and every other
/// cell what it held.
pub open spec fn marked_up_to(
    rows: Seq<Seq<char>>,
    record: &VisitRecord,
    sign: spec_fn(int, int) -> char,
    row: int,
    column: int,
) -> Seq<Seq<char>> {
    Seq::new(
        rows.len(),
        |r: int|
            Seq::new(
                rows[r].len(),
                |c: int|
                    if record.seen_at(r, c) && comes_before((r, c), (row, column)) {
                        sign(r, c)
                    } else {
                        rows[r][c]
                    },
            ),
    )
}

/// The table in which each cell that is on record holds its sign, and every
/// other cell what it held.
pub open spec fn marked(rows: Seq<Seq<char>>, record: &VisitRecord, sign: spec_fn(int, int) -> char) -> Seq<
    Seq<char>,
> {
    Seq::new(
        rows.len(),
        |r: int| Seq::new(rows[r].len(), |c: int| if record.seen_at(r, c) { sign(r, c) } else { rows[r][c] }),
    )
}

/// The map with the sign of its movement in each cell that is on record.
pub open spec fn movement_shown(rows: Seq<Seq<char>>, record: &VisitRecord) -> Seq<Seq<char>> {
    marked(rows, record, sign_of(record, true))
}

/// The map with the visited sign in each cell that is on record.
pub open spec fn visits_shown(rows: Seq<Seq<char>>, record: &VisitRecord) -> Seq<Seq<char>> {
    marked(rows, record, sign_of(record, false))
}

proof fn lemma_marked_start(rows: Seq<Seq<char>>, record: &VisitRecord, sign: spec_fn(int, int) -> char)
    ensures
        marked_up_to(rows, record, sign, 0, 0) == rows,
{
    let begun = marked_up_to(rows, record, sign, 0, 0);
    assert forall|r: int| 0 <= r < rows.len() implies #[trigger] begun[r] == rows[r] by {
        assert(begun[r] =~= rows[r]);
    }
    assert(begun =~= rows);
}

proof fn lemma_marked_step(
    rows: Seq<Seq<char>>,
    record: &VisitRecord,
    sign: spec_fn(int, int) -> char,
    row: int,
    column: int,
)
    requires
        inside(rows, row, column),
    ensures
        record.seen_at(row, column) ==> marked_up_to(rows, record, sign, row, column + 1) == with_cell(
            marked_up_to(rows, record, sign, row, column),
            row,
            column,
            sign(row, column),
        ),
        !record.seen_at(row, column) ==> marked_up_to(rows, record, sign, row, column + 1) == marked_up_to(
            rows,
            record,
            sign,
            row,
            column,
        ),
{
    let before = marked_up_to(rows, record, sign, row, column);
    let after = marked_up_to(rows, record, sign, row, column + 1);
    let wanted = if record.seen_at(row, column) {
        with_cell(before, row, column, sign(row, column))
    } else {
        before
    };
    assert forall|r: int| 0 <= r < rows.len() implies #[trigger] after[r] == wanted[r] by {
        assert(after[r] =~= wanted[r]);
    }
    assert(after =~= wanted);
}

proof fn lemma_marked_row_done(
    rows: Seq<Seq<char>>,
    record: &VisitRecord,
    sign: spec_fn(int, int) -> char,
    row: int,
)
    requires
        record.wf(),
    ensures
        marked_up_to(rows, record, sign, row, record.width() as int) == marked_up_to(rows, record, sign, row + 1, 0),
{
    record.lemma_recorded_poses_covered();
    let before = marked_up_to(rows, record, sign, row, record.width() as int);
    let after = marked_up_to(rows, record, sign, row + 1, 0);
    assert forall|r: int| 0 <= r < rows.len() implies #[trigger] after[r] == before[r] by {
        assert(after[r] =~= before[r]);
    }
    assert(after =~= before);
}

proof fn lemma_marked_done(rows: Seq<Seq<char>>, record: &VisitRecord, sign: spec_fn(int, int) -> char)
    requires
        record.wf(),
    ensures
        marked_up_to(rows, record, sign, record.height() as int, 0) == marked(rows, record, sign),
{
    record.lemma_recorded_poses_covered();
    let before = marked_up_to(rows, record, sign, record.height() as int, 0);
    let after = marked(rows, record, sign);
    assert forall|r: int| 0 <= r < rows.len() implies #[trigger] after[r] == before[r] by {
        assert(after[r] =~= before[r]);
    }
    assert(after =~= before);
}

/// Whether every cell of the record is a cell of the table with these rows.
pub open spec fn holds_record(rows: Seq<Seq<char>>, width: nat, record: &VisitRecord) -> bool {
    record.height() <= rows.len() && record.width() <= width
}

/// The sign that a cell on record gets: that of its movement, or the visited
/// sign.
pub open spec fn sign_of(record: &VisitRecord, movement: bool) -> spec_fn(int, int) -> char {
    |r: int, c: int|
        if movement {
            movement_glyph(record, r, c)
        } else {
            OUT_VISITED_CHAR
        }
}

/// Writes its sign into each cell of `display_arr` that is on record.
fn mark_record(display_arr: &mut Array2D<char>, visit_arr: &VisitRecord, movement: bool)
    requires
        chars_wf(*old(display_arr)),
        visit_arr.wf(),
        holds_record(char_rows(*old(display_arr)), char_width(*old(display_arr)), visit_arr),
    ensures
        chars_wf(*final(display_arr)),
        char_width(*final(display_arr)) == char_width(*old(display_arr)),
        char_rows(*final(display_arr)) == marked(
            char_rows(*old(display_arr)),
            visit_arr,
            sign_of(visit_arr, movement),
        ),
{
    let num_rows = visit_arr.num_rows();
    let num_columns = visit_arr.num_columns();
    let ghost rows = char_rows(*display_arr);
    let ghost width = char_width(*display_arr);
    let ghost sign = sign_of(visit_arr, movement);
    proof {
        lemma_marked_start(rows, visit_arr, sign);
    }
    let mut row: usize = 0;
    while row < num_rows
        invariant
            visit_arr.wf(),
            num_rows == visit_arr.height(),
            num_columns == visit_arr.width(),
            holds_record(rows, width, visit_arr),
            crate::table::rectangular(rows, width),
            char_width(*display_arr) == width,
            sign == sign_of(visit_arr, movement),
            row <= num_rows,
            char_rows(*display_arr) == marked_up_to(rows, visit_arr, sign, row as int, 0),
        decreases num_rows - row,
    {
        let mut column: usize = 0;
        while column < num_columns
            invariant
                visit_arr.wf(),
                num_rows == visit_arr.height(),
                num_columns == visit_arr.width(),
                holds_record(rows, width, visit_arr),
                crate::table::rectangular(rows, width),
                char_width(*display_arr) == width,
                sign == sign_of(visit_arr, movement),
                row < num_rows,
                column <= num_columns,
                char_rows(*display_arr) == marked_up_to(rows, visit_arr, sign, row as int, column as int),
            decreases num_columns - column,
        {
            proof {
                assert(rows[row as int].len() == width);
                lemma_marked_step(rows, visit_arr, sign, row as int, column as int);
            }
            if !visit_arr.is_empty((row, column)) {
                let sign_char = if movement {
                    movement_char(visit_arr, (row, column))
                } else {
                    OUT_VISITED_CHAR
                };
                assert(chars_wf(*display_arr)) by {
                    lemma_marked_shape(rows, width, visit_arr, sign, row as int, column as int);
                }
                let _ = char_set(display_arr, row, column, sign_char);
            }
            column += 1;
        }
        proof {
            lemma_marked_row_done(rows, visit_arr, sign, row as int);
        }
        row += 1;
    }
    proof {
        lemma_marked_done(rows, visit_arr, sign);
        lemma_marked_shape(rows, width, visit_arr, sign, row as int, 0);
    }
}

/// The sign for the ways in which the guard passed through the cell at
/// `position`.
pub fn movement_char(visit_arr: &VisitRecord, position: (usize, usize)) -> (sign: char)
    requires
        visit_arr.wf(),
    ensures
        sign == movement_glyph(visit_arr, position.0 as int, position.1 as int),
{
    let is_vertical = visit_arr.contains(position, Direction::Up) || visit_arr.contains(position, Direction::Down);
    let is_horizontal = visit_arr.contains(position, Direction::Left) || visit_arr.contains(
        position,
        Direction::Right,
    );
    if is_vertical && is_horizontal {
        OUT_MOVEMENT_HORIZONTAL_AND_VERTICAL
    } else if is_vertical {
        OUT_MOVEMENT_VERTICAL
    } else {
        OUT_MOVEMENT_HORIZONTAL
    }
}

/// Writes into each cell of `display_arr` that the guard passed through the
/// sign of its movement there, and leaves the other cells as they are.
pub fn display_movement(display_arr: &mut Array2D<char>, visit_arr: &VisitRecord)
    requires
        chars_wf(*old(display_arr)),
        visit_arr.wf(),
        holds_record(char_rows(*old(display_arr)), char_width(*old(display_arr)), visit_arr),
    ensures
        chars_wf(*final(display_arr)),
        char_width(*final(display_arr)) == char_width(*old(display_arr)),
        char_rows(*final(display_arr)) == movement_shown(char_rows(*old(display_arr)), visit_arr),
{
    mark_record(display_arr, visit_arr, true)
}

/// Writes the visited sign into each cell of `display_arr` that the guard
/// passed through, and leaves the other cells as they are.
pub fn display_visited(display_arr: &mut Array2D<char>, visit_arr: &VisitRecord)
    requires
        chars_wf(*old(display_arr)),
        visit_arr.wf(),
        holds_record(char_rows(*old(display_arr)), char_width(*old(display_arr)), visit_arr),
    ensures
        chars_wf(*final(display_arr)),
        char_width(*final(display_arr)) == char_width(*old(display_arr)),
        char_rows(*final(display_arr)) == visits_shown(char_rows(*old(display_arr)), visit_arr),
{
    mark_record(display_arr, visit_arr, false)
}

/// The picture of one obstacle that makes the guard loop: the map with the
/// signs of the guard's movement, the new obstacle, and the start marker back
/// in its place.
pub fn show_loop(grid: &Array2D<char>, start_position: (usize, usize), found: &LoopFound) -> (display_arr: Array2D<
    char,
>)
    requires
        chars_wf(*grid),
        found.visited.wf(),
        holds_record(char_rows(*grid), char_width(*grid), &found.visited),
        inside(char_rows(*grid), found.obstacle.0 as int, found.obstacle.1 as int),
        inside(char_rows(*grid), start_position.0 as int, start_position.1 as int),
    ensures
        chars_wf(display_arr),
        char_width(display_arr) == char_width(*grid),
        char_rows(display_arr) == with_cell(
            with_cell(
                movement_shown(char_rows(*grid), &found.visited),
                found.obstacle.0 as int,
                found.obstacle.1 as int,
                OUT_NEW_OBSTACLE,
            ),
            start_position.0 as int,
            start_position.1 as int,
            IN_START_CHAR,
        ),
{
    let mut display_arr = char_clone(grid);
    display_movement(&mut display_arr, &found.visited);
    let ghost moved = char_rows(display_arr);
    proof {
        assert forall|r: int, c: int| inside(moved, r, c) <==> inside(char_rows(*grid), r, c) by {
            if 0 <= r < moved.len() {
                assert(moved[r].len() == char_rows(*grid)[r].len());
            }
        }
    }
    // mark the new obstacle
    let _ = char_set(&mut display_arr, found.obstacle.0, found.obstacle.1, OUT_NEW_OBSTACLE);
    let ghost blocked = char_rows(display_arr);
    proof {
        assert forall|r: int| 0 <= r < blocked.len() implies (#[trigger] blocked[r]).len() == char_width(*grid) by {
            assert(moved[r].len() == char_width(*grid));
        }
    }
    // show the start
    let _ = char_set(&mut display_arr, start_position.0, start_position.1, IN_START_CHAR);
    proof {
        let shown = char_rows(display_arr);
        assert forall|r: int| 0 <= r < shown.len() implies (#[trigger] shown[r]).len() == char_width(*grid) by {
            assert(blocked[r].len() == char_width(*grid));
        }
    }
    display_arr
}

proof fn lemma_marked_shape(
    rows: Seq<Seq<char>>,
    width: nat,
    record: &VisitRecord,
    sign: spec_fn(int, int) -> char,
    row: int,
    column: int,
)
    requires
        crate::table::rectangular(rows, width),
    ensures
        crate::table::rectangular(marked_up_to(rows, record, sign, row, column), width),
        forall|r: int, c: int| inside(marked_up_to(rows, record, sign, row, column), r, c) <==> inside(rows, r, c),
{
    let shown = marked_up_to(rows, record, sign, row, column);
    assert forall|r: int| 0 <= r < shown.len() implies (#[trigger] shown[r]).len() == width by {
        assert(rows[r].len() == width);
    }
}

} // verus!
