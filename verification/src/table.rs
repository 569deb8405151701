//! The two-dimensional tables that the walk reads and fills are `Array2D`
//! values of the `array2d` crate. This module says what the verified code
//! takes on trust about them: what a table holds, and what each of the
//! crate's functions that the library calls does to it.
//!
//! The tables come in two kinds: of characters, for maps, and of bytes, for
//! records. What is taken on trust is stated for each kind by itself.

use array2d::Array2D;
use vstd::prelude::*;

verus! {

/// `array2d::Array2D`, a table of fixed shape. Nothing inside it is visible
/// to the proofs: what a table holds is what the names below say.
#[verifier::external_type_specification]
#[verifier::external_body]
#[verifier::reject_recursive_types(T)]
pub struct ExArray2D<T>(Array2D<T>);

/// `array2d::Error`, what the crate's functions report when a table cannot
/// be made or a cell is not there. It is only ever told from success.
#[verifier::external_type_specification]
#[verifier::external_body]
pub struct ExTableError(array2d::Error);

/// The rows of a table of characters, from the top down, each from left to
/// right: what `Array2D::as_rows` lists.
pub uninterp spec fn char_rows(table: Array2D<char>) -> Seq<Seq<char>>;

/// The number of columns that a table of characters was made with: what
/// `Array2D::num_columns` reports, also of a table without rows.
pub uninterp spec fn char_width(table: Array2D<char>) -> nat;

/// The rows of a table of bytes, from the top down, each from left to right:
/// what `Array2D::as_rows` lists.
pub uninterp spec fn byte_rows(table: Array2D<u8>) -> Seq<Seq<u8>>;

/// The number of columns that a table of bytes was made with: what
/// `Array2D::num_columns` reports, also of a table without rows.
pub uninterp spec fn byte_width(table: Array2D<u8>) -> nat;

/// Every row is as long as the table is wide.
pub open spec fn rectangular<T>(rows: Seq<Seq<T>>, width: nat) -> bool {
    forall|r: int| 0 <= r < rows.len() ==> (#[trigger] rows[r]).len() == width
}

/// A table of characters that holds as many cells as its rows and columns
/// call for. Every table that this library makes is one.
pub open spec fn chars_wf(table: Array2D<char>) -> bool {
    rectangular(char_rows(table), char_width(table))
}

/// A table of characters that a patrol can run on: rectangular, and with no
/// more cells than one allocation can hold.
pub open spec fn grid_ok(table: Array2D<char>) -> bool {
    chars_wf(table) && char_rows(table).len() * char_width(table) <= isize::MAX
}

/// A table of bytes that holds as many cells as its rows and columns call for.
pub open spec fn bytes_wf(table: Array2D<u8>) -> bool {
    rectangular(byte_rows(table), byte_width(table))
}

/// Rows of characters as plain sequences.
pub open spec fn rows_view(rows: Seq<Vec<char>>) -> Seq<Seq<char>> {
    rows.map_values(|row: Vec<char>| row@)
}

/// The length of the first row, and 0 where there is none.
pub open spec fn first_width<T>(rows: Seq<Seq<T>>) -> nat {
    if rows.len() == 0 {
        0
    } else {
        rows[0].len()
    }
}

/// Whether `(row, column)` names a cell of a table with these rows.
pub open spec fn inside<T>(rows: Seq<Seq<T>>, row: int, column: int) -> bool {
    0 <= row < rows.len() && 0 <= column < rows[row].len()
}

/// The rows after the cell at `(row, column)` has been overwritten.
pub open spec fn with_cell<T>(rows: Seq<Seq<T>>, row: int, column: int, value: T) -> Seq<Seq<T>> {
    rows.update(row, rows[row].update(column, value))
}

/// `Array2D::num_rows` on a table of characters: the number of its rows.
#[verifier::external_body]
pub(crate) fn char_num_rows(table: &Array2D<char>) -> (n: usize)
    ensures
        n == char_rows(*table).len(),
{
    table.num_rows()
}

/// `Array2D::num_columns` on a table of characters: the width it was made with.
#[verifier::external_body]
pub(crate) fn char_num_columns(table: &Array2D<char>) -> (n: usize)
    ensures
        n == char_width(*table),
{
    table.num_columns()
}

/// `Array2D::get` on a table of characters: the cell at `(row, column)`, or
/// `None` where the table has no such cell.
#[verifier::external_body]
pub(crate) fn char_get(table: &Array2D<char>, row: usize, column: usize) -> (cell: Option<&char>)
    requires
        chars_wf(*table),
    ensures
        cell is Some <==> inside(char_rows(*table), row as int, column as int),
        cell is Some ==> *cell->0 == char_rows(*table)[row as int][column as int],
{
    table.get(row, column)
}

/// `Array2D::set` on a table of characters: overwrites the cell at
/// `(row, column)` and leaves the others alone; outside the table it changes
/// nothing and reports an error.
#[verifier::external_body]
pub(crate) fn char_set(table: &mut Array2D<char>, row: usize, column: usize, value: char) -> (done:
    Result<(), array2d::Error>)
    requires
        chars_wf(*old(table)),
    ensures
        done is Ok <==> inside(char_rows(*old(table)), row as int, column as int),
        done is Ok ==> char_rows(*final(table)) == with_cell(
            char_rows(*old(table)),
            row as int,
            column as int,
            value,
        ),
        done is Err ==> char_rows(*final(table)) == char_rows(*old(table)),
        char_width(*final(table)) == char_width(*old(table)),
{
    table.set(row, column, value)
}

/// `Clone::clone` on a table of characters: a table of the same shape with
/// the same cells.
#[verifier::external_body]
pub(crate) fn char_clone(table: &Array2D<char>) -> (copy: Array2D<char>)
    ensures
        char_rows(copy) == char_rows(*table),
        char_width(copy) == char_width(*table),
{
    table.clone()
}

/// `Array2D::from_rows` on rows of characters: a table that holds the rows as
/// given, as wide as the first of them, where all rows are of one length, and
/// an error where they are not.
#[verifier::external_body]
pub(crate) fn chars_from_rows(rows: &Vec<Vec<char>>) -> (made: Result<Array2D<char>, array2d::Error>)
    ensures
        made is Ok <==> rectangular(rows_view(rows@), first_width(rows_view(rows@))),
        made is Ok ==> char_rows(made->Ok_0) == rows_view(rows@),
        made is Ok ==> char_width(made->Ok_0) == first_width(rows_view(rows@)),
{
    Array2D::from_rows(rows)
}

/// `Array2D::num_rows` on a table of bytes: the number of its rows.
#[verifier::external_body]
pub(crate) fn byte_num_rows(table: &Array2D<u8>) -> (n: usize)
    ensures
        n == byte_rows(*table).len(),
{
    table.num_rows()
}

/// `Array2D::num_columns` on a table of bytes: the width it was made with.
#[verifier::external_body]
pub(crate) fn byte_num_columns(table: &Array2D<u8>) -> (n: usize)
    ensures
        n == byte_width(*table),
{
    table.num_columns()
}

/// `Array2D::get` on a table of bytes: the cell at `(row, column)`, or `None`
/// where the table has no such cell.
#[verifier::external_body]
pub(crate) fn byte_get(table: &Array2D<u8>, row: usize, column: usize) -> (cell: Option<&u8>)
    requires
        bytes_wf(*table),
    ensures
        cell is Some <==> inside(byte_rows(*table), row as int, column as int),
        cell is Some ==> *cell->0 == byte_rows(*table)[row as int][column as int],
{
    table.get(row, column)
}

/// `Array2D::set` on a table of bytes: overwrites the cell at `(row, column)`
/// and leaves the others alone; outside the table it changes nothing and
/// reports an error.
#[verifier::external_body]
pub(crate) fn byte_set(table: &mut Array2D<u8>, row: usize, column: usize, value: u8) -> (done:
    Result<(), array2d::Error>)
    requires
        bytes_wf(*old(table)),
    ensures
        done is Ok <==> inside(byte_rows(*old(table)), row as int, column as int),
        done is Ok ==> byte_rows(*final(table)) == with_cell(
            byte_rows(*old(table)),
            row as int,
            column as int,
            value,
        ),
        done is Err ==> byte_rows(*final(table)) == byte_rows(*old(table)),
        byte_width(*final(table)) == byte_width(*old(table)),
{
    table.set(row, column, value)
}

/// `Array2D::filled_with` on a byte: a table of the given shape with that
/// byte in every cell. The call multiplies the two sizes and allocates as
/// many bytes, so the product has to fit.
#[verifier::external_body]
pub(crate) fn bytes_filled_with(value: u8, num_rows: usize, num_columns: usize) -> (made: Array2D<u8>)
    requires
        num_rows * num_columns <= isize::MAX,
    ensures
        byte_rows(made) == Seq::new(num_rows as nat, |r: int| Seq::new(num_columns as nat, |c: int| value)),
        byte_width(made) == num_columns,
{
    Array2D::filled_with(value, num_rows, num_columns)
}

} // verus!
