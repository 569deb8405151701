//! The record of a walk: for each cell of the grid, the headings in which the
//! guard has stood there.

use crate::patrol::{Direction, VisitDirections};
use crate::table::{
    byte_get, byte_num_columns, byte_num_rows, byte_rows, byte_set, byte_width, bytes_filled_with,
    bytes_wf, inside,
};
use crate::walk::Pose;
use array2d::Array2D;
use vstd::prelude::*;
use vstd::arithmetic::div_mod::lemma_fundamental_div_mod_converse;
use vstd::seq_lib::seq_to_set_is_finite;
use vstd::set_lib::lemma_len_subset;

verus! {

/// A table of the grid's shape that holds a set of headings in each cell.
/// Headings are only ever added.
pub struct VisitRecord {
    cells: Array2D<u8>,
}

/// Whether the union of flags `mask` holds the flag of `facing`.
pub open spec fn mask_has(mask: u8, facing: Direction) -> bool {
    mask & VisitDirections::spec_of(facing).spec_bits() != 0
}

/// `first` comes before `second` when cells are read row by row, each row
/// from left to right.
pub open spec fn comes_before(first: (int, int), second: (int, int)) -> bool {
    first.0 < second.0 || (first.0 == second.0 && first.1 < second.1)
}

/// A position as a pair of integers.
pub open spec fn cell_of(position: (usize, usize)) -> (int, int) {
    (position.0 as int, position.1 as int)
}

proof fn lemma_mask_merge(mask: u8, added: Direction, asked: Direction)
    requires
        mask < 16,
    ensures
        (mask | VisitDirections::spec_of(added).spec_bits()) < 16,
        mask_has(mask | VisitDirections::spec_of(added).spec_bits(), asked) <==> (asked == added || mask_has(
            mask,
            asked,
        )),
{
    let b = VisitDirections::spec_of(added).spec_bits();
    let c = VisitDirections::spec_of(asked).spec_bits();
    assert((mask | b) < 16) by (bit_vector)
        requires
            mask < 16,
            b == 1 || b == 2 || b == 4 || b == 8,
    ;
    if asked == added {
        assert((mask | b) & b != 0) by (bit_vector)
            requires
                b == 1 || b == 2 || b == 4 || b == 8,
        ;
    } else {
        assert(((mask | b) & c != 0) == (mask & c != 0)) by (bit_vector)
            requires
                b == 1 || b == 2 || b == 4 || b == 8,
                c == 1 || c == 2 || c == 4 || c == 8,
                b != c,
        ;
    }
}

proof fn lemma_mask_empty(mask: u8)
    requires
        mask < 16,
    ensures
        mask == 0 <==> (forall|facing: Direction| !mask_has(mask, facing)),
{
    assert(mask == 0 <==> (mask & 1 == 0 && mask & 2 == 0 && mask & 4 == 0 && mask & 8 == 0)) by (bit_vector)
        requires
            mask < 16,
    ;
    if mask != 0 {
        if mask & 1 != 0 {
            assert(mask_has(mask, Direction::Up));
        } else if mask & 2 != 0 {
            assert(mask_has(mask, Direction::Right));
        } else if mask & 4 != 0 {
            assert(mask_has(mask, Direction::Down));
        } else {
            assert(mask_has(mask, Direction::Left));
        }
    }
}

impl View for VisitRecord {
    type V = Set<Pose>;

    /// The poses on record.
    closed spec fn view(&self) -> Set<Pose> {
        Set::new(|pose: Pose| self.has(pose))
    }
}

impl VisitRecord {
    /// The flags of each cell, row by row.
    spec fn masks(&self) -> Seq<Seq<u8>> {
        byte_rows(self.cells)
    }

    /// The number of rows.
    pub closed spec fn height(&self) -> nat {
        byte_rows(self.cells).len()
    }

    /// The number of columns.
    pub closed spec fn width(&self) -> nat {
        byte_width(self.cells)
    }

    /// The record is a table with rows of one length, small enough to have
    /// been allocated, and its cells hold nothing but flags of headings.
    pub closed spec fn wf(&self) -> bool {
        &&& bytes_wf(self.cells)
        &&& self.height() * self.width() <= isize::MAX
        &&& forall|row: int, column: int|
            inside(self.masks(), row, column) ==> (#[trigger] self.masks()[row][column]) < 16
    }

    spec fn has(&self, pose: Pose) -> bool {
        inside(self.masks(), pose.row, pose.column) && mask_has(self.masks()[pose.row][pose.column], pose.facing)
    }

    /// `(row, column)` names a cell of the record.
    pub open spec fn covers(&self, row: int, column: int) -> bool {
        0 <= row < self.height() && 0 <= column < self.width()
    }

    /// The guard has stood in the cell at `(row, column)`.
    pub open spec fn seen_at(&self, row: int, column: int) -> bool {
        exists|facing: Direction| self@.contains(Pose { row, column, facing })
    }

    /// The cells in which the guard has stood.
    pub open spec fn seen_cells(&self) -> Set<(int, int)> {
        Set::new(|cell: (int, int)| self.seen_at(cell.0, cell.1))
    }

    /// `list` names the cells in which the guard has stood, each once, in the
    /// order of reading: row by row, each row from left to right.
    pub open spec fn listed_by(&self, list: Seq<(usize, usize)>) -> bool {
        &&& list.map_values(|position: (usize, usize)| cell_of(position)).to_set() == self.seen_cells()
        &&& forall|i: int, j: int|
            0 <= i < j < list.len() ==> comes_before(cell_of(#[trigger] list[i]), cell_of(#[trigger] list[j]))
    }

    /// What is on record once the guard has stood at `position` facing
    /// `direction`: the poses that were, and this one if it is on the table.
    pub open spec fn with_pose(&self, position: (usize, usize), direction: Direction) -> Set<Pose> {
        if self.covers(position.0 as int, position.1 as int) {
            self@.insert(Pose::at(position, direction))
        } else {
            self@
        }
    }

    /// To put a pose on record a second time changes nothing: a record holds
    /// a pose once or not at all.
    pub proof fn lemma_insert_twice(&self, once: &VisitRecord, position: (usize, usize), direction: Direction)
        requires
            once@ == self.with_pose(position, direction),
            once.height() == self.height(),
            once.width() == self.width(),
        ensures
            once.with_pose(position, direction) == once@,
    {
        assert(once.with_pose(position, direction) =~= once@);
    }

    /// Every pose on record is on the table.
    pub proof fn lemma_recorded_poses_covered(&self)
        requires
            self.wf(),
        ensures
            forall|pose: Pose| #[trigger] self@.contains(pose) ==> self.covers(pose.row, pose.column),
            forall|row: int, column: int| #[trigger] self.seen_at(row, column) ==> self.covers(row, column),
    {
        assert forall|row: int, column: int| #[trigger] self.seen_at(row, column) implies self.covers(
            row,
            column,
        ) by {
            let facing = choose|facing: Direction| self@.contains(Pose { row, column, facing });
            assert(self.has(Pose { row, column, facing }));
        }
    }

    proof fn lemma_seen_is_nonzero(&self, row: int, column: int)
        requires
            self.wf(),
        ensures
            self.seen_at(row, column) <==> inside(self.masks(), row, column) && self.masks()[row][column] != 0,
    {
        if inside(self.masks(), row, column) {
            let mask = self.masks()[row][column];
            lemma_mask_empty(mask);
            if mask != 0 {
                let facing = choose|facing: Direction| mask_has(mask, facing);
                assert(self@.contains(Pose { row, column, facing }));
            }
        }
        if self.seen_at(row, column) {
            let facing = choose|facing: Direction| self@.contains(Pose { row, column, facing });
            assert(self.has(Pose { row, column, facing }));
        }
    }

    /// A record of the given shape with nothing on it.
    pub fn new(num_rows: usize, num_columns: usize) -> (record: VisitRecord)
        requires
            num_rows * num_columns <= isize::MAX,
        ensures
            record.wf(),
            record.height() == num_rows,
            record.width() == num_columns,
            record@ == Set::<Pose>::empty(),
    {
        let record = VisitRecord { cells: bytes_filled_with(0, num_rows, num_columns) };
        proof {
            assert(forall|facing: Direction| !mask_has(0u8, facing)) by {
                assert(0u8 & 1 == 0 && 0u8 & 2 == 0 && 0u8 & 4 == 0 && 0u8 & 8 == 0) by (bit_vector);
            }
            assert(record@ =~= Set::<Pose>::empty());
        }
        record
    }

    /// The number of rows.
    pub fn num_rows(&self) -> (n: usize)
        ensures
            n == self.height(),
    {
        byte_num_rows(&self.cells)
    }

    /// The number of columns.
    pub fn num_columns(&self) -> (n: usize)
        ensures
            n == self.width(),
    {
        byte_num_columns(&self.cells)
    }

    /// Whether the guard has stood at `position` facing `direction`.
    pub fn contains(&self, position: (usize, usize), direction: Direction) -> (found: bool)
        requires
            self.wf(),
        ensures
            found == self@.contains(Pose::at(position, direction)),
    {
        match byte_get(&self.cells, position.0, position.1) {
            Some(mask) => *mask & VisitDirections::of(direction).bits() != 0,
            None => false,
        }
    }

    /// Puts on record that the guard has stood at `position` facing
    /// `direction`. A pose that is on record already stays there once; a
    /// position off the table changes nothing.
    pub fn insert(&mut self, position: (usize, usize), direction: Direction)
        requires
            old(self).wf(),
        ensures
            final(self).wf(),
            final(self).height() == old(self).height(),
            final(self).width() == old(self).width(),
            final(self)@ == old(self).with_pose(position, direction),
            old(self)@.contains(Pose::at(position, direction)) ==> final(self)@ == old(self)@,
            old(self).seen_cells().subset_of(final(self).seen_cells()),
            old(self).seen_cells().len() <= final(self).seen_cells().len(),
    {
        let bit = VisitDirections::of(direction).bits();
        let ghost before = *self;
        let ghost merged = before.masks()[position.0 as int][position.1 as int] | bit;
        match byte_get(&self.cells, position.0, position.1) {
            Some(mask) => {
                let with_bit: u8 = *mask | bit;
                let _ = byte_set(&mut self.cells, position.0, position.1, with_bit);
            },
            None => {},
        }
        proof {
            let row = position.0 as int;
            let column = position.1 as int;
            if before.covers(row, column) {
                let mask = before.masks()[row][column];
                assert forall|r: int, c: int| inside(self.masks(), r, c) implies (#[trigger] self.masks()[r][c])
                    < 16 by {
                    if r == row && c == column {
                        lemma_mask_merge(mask, direction, direction);
                    } else {
                        assert(inside(before.masks(), r, c));
                        assert(self.masks()[r][c] == before.masks()[r][c]);
                    }
                }
                let added = Pose::at(position, direction);
                assert forall|pose: Pose| #[trigger]
                    self@.contains(pose) <==> before@.insert(added).contains(pose) by {
                    assert(self@.contains(pose) == self.has(pose));
                    assert(before@.insert(added).contains(pose) == (pose == added || before.has(pose)));
                    if pose.row == row && pose.column == column {
                        lemma_mask_merge(mask, direction, pose.facing);
                        assert(self.masks()[row][column] == merged);
                    } else if inside(before.masks(), pose.row, pose.column) {
                        assert(self.masks()[pose.row][pose.column] == before.masks()[pose.row][pose.column]);
                    }
                }
                assert(self@ =~= before@.insert(Pose::at(position, direction)));
            } else {
                assert(self@ =~= before@);
            }
            assert forall|cell: (int, int)| before.seen_cells().contains(cell) implies self.seen_cells().contains(
                cell,
            ) by {
                let facing = choose|facing: Direction|
                    before@.contains(Pose { row: cell.0, column: cell.1, facing });
                assert(self@.contains(Pose { row: cell.0, column: cell.1, facing }));
            }
            self.lemma_seen_cells_finite();
            lemma_len_subset(before.seen_cells(), self.seen_cells());
            if before@.contains(Pose::at(position, direction)) {
                before.lemma_recorded_poses_covered();
                assert(before@.insert(Pose::at(position, direction)) =~= before@);
            }
        }
    }

    /// Whether the guard has never stood at `position`.
    pub fn is_empty(&self, position: (usize, usize)) -> (vacant: bool)
        requires
            self.wf(),
        ensures
            vacant == !self.seen_at(position.0 as int, position.1 as int),
    {
        proof {
            self.lemma_seen_is_nonzero(position.0 as int, position.1 as int);
        }
        match byte_get(&self.cells, position.0, position.1) {
            Some(mask) => *mask == 0,
            None => true,
        }
    }

    /// The cells in which the guard has stood are finitely many: no more
    /// than the table has.
    pub proof fn lemma_seen_cells_finite(&self)
        requires
            self.wf(),
        ensures
            self.seen_cells().finite(),
            self.seen_cells().len() <= self.height() * self.width(),
    {
        let height = self.height() as int;
        let width = self.width() as int;
        let all = Seq::new((height * width) as nat, |k: int| (k / width, k % width));
        self.lemma_recorded_poses_covered();
        assert forall|cell: (int, int)| self.seen_cells().contains(cell) implies all.to_set().contains(cell) by {
            assert(self.seen_at(cell.0, cell.1));
            let k = cell.0 * width + cell.1;
            assert(0 <= k < height * width) by (nonlinear_arith)
                requires
                    0 <= cell.0 < height,
                    0 <= cell.1 < width,
                    k == cell.0 * width + cell.1,
            ;
            lemma_fundamental_div_mod_converse(k, width, cell.0, cell.1);
            assert(all[k] == cell);
        }
        seq_to_set_is_finite(all);
        lemma_len_subset(self.seen_cells(), all.to_set());
        all.lemma_cardinality_of_set();
    }

    /// A list of the cells in which the guard has stood is as long as they
    /// are many.
    pub proof fn lemma_listing_counts(&self, list: Seq<(usize, usize)>)
        requires
            self.listed_by(list),
        ensures
            self.seen_cells().finite(),
            self.seen_cells().len() == list.len(),
    {
        let cells = list.map_values(|position: (usize, usize)| cell_of(position));
        assert forall|i: int, j: int| 0 <= i < cells.len() && 0 <= j < cells.len() && i != j implies cells[i]
            != cells[j] by {
            if i < j {
                assert(comes_before(cell_of(list[i]), cell_of(list[j])));
            } else {
                assert(comes_before(cell_of(list[j]), cell_of(list[i])));
            }
        }
        seq_to_set_is_finite(cells);
        cells.unique_seq_to_set();
    }

    /// `list` names, in the order of reading, the cells before `(row, column)`
    /// in which the guard has stood.
    spec fn listed_up_to(&self, list: Seq<(usize, usize)>, row: int, column: int) -> bool {
        &&& forall|i: int|
            0 <= i < list.len() ==> {
                let cell = cell_of(#[trigger] list[i]);
                self.seen_at(cell.0, cell.1) && comes_before(cell, (row, column))
            }
        &&& forall|i: int, j: int|
            0 <= i < j < list.len() ==> comes_before(cell_of(#[trigger] list[i]), cell_of(#[trigger] list[j]))
        &&& forall|r: int, c: int| #[trigger]
            self.seen_at(r, c) && comes_before((r, c), (row, column)) ==> exists|i: int|
                0 <= i < list.len() && cell_of(#[trigger] list[i]) == (r, c)
    }

    proof fn lemma_listing_step(&self, list: Seq<(usize, usize)>, position: (usize, usize))
        requires
            self.listed_up_to(list, position.0 as int, position.1 as int),
        ensures
            self.seen_at(position.0 as int, position.1 as int) ==> self.listed_up_to(
                list.push(position),
                position.0 as int,
                position.1 + 1,
            ),
            !self.seen_at(position.0 as int, position.1 as int) ==> self.listed_up_to(
                list,
                position.0 as int,
                position.1 + 1,
            ),
    {
        let row = position.0 as int;
        let column = position.1 as int;
        if self.seen_at(row, column) {
            let longer = list.push(position);
            assert forall|r: int, c: int| #[trigger]
                self.seen_at(r, c) && comes_before((r, c), (row, column + 1)) implies exists|i: int|
                0 <= i < longer.len() && cell_of(#[trigger] longer[i]) == (r, c) by {
                if r == row && c == column {
                    assert(cell_of(longer[list.len() as int]) == (r, c));
                } else {
                    let i = choose|i: int| 0 <= i < list.len() && cell_of(#[trigger] list[i]) == (r, c);
                    assert(cell_of(longer[i]) == (r, c));
                }
            }
        }
    }

    proof fn lemma_listing_row_done(&self, list: Seq<(usize, usize)>, row: int)
        requires
            self.wf(),
            self.listed_up_to(list, row, self.width() as int),
        ensures
            self.listed_up_to(list, row + 1, 0),
    {
        self.lemma_recorded_poses_covered();
    }

    proof fn lemma_listing_done(&self, list: Seq<(usize, usize)>)
        requires
            self.wf(),
            self.listed_up_to(list, self.height() as int, 0),
        ensures
            self.listed_by(list),
    {
        let cells = list.map_values(|position: (usize, usize)| cell_of(position));
        self.lemma_recorded_poses_covered();
        assert forall|cell: (int, int)| cells.to_set().contains(cell) <==> self.seen_cells().contains(cell) by {
            if cells.to_set().contains(cell) {
                let i = choose|i: int| 0 <= i < cells.len() && cells[i] == cell;
                assert(cell_of(list[i]) == cell);
            }
            if self.seen_cells().contains(cell) {
                assert(self.seen_at(cell.0, cell.1));
                let i = choose|i: int| 0 <= i < list.len() && cell_of(#[trigger] list[i]) == (cell.0, cell.1);
                assert(cells[i] == cell);
            }
        }
        assert(cells.to_set() =~= self.seen_cells());
    }

    /// The cells in which the guard has stood, in the order of reading.
    pub fn visited_positions(&self) -> (list: Vec<(usize, usize)>)
        requires
            self.wf(),
        ensures
            self.listed_by(list@),
    {
        let num_rows = self.num_rows();
        let num_columns = self.num_columns();
        let mut list: Vec<(usize, usize)> = Vec::new();
        let mut row: usize = 0;
        while row < num_rows
            invariant
                self.wf(),
                num_rows == self.height(),
                num_columns == self.width(),
                row <= num_rows,
                self.listed_up_to(list@, row as int, 0),
            decreases num_rows - row,
        {
            let mut column: usize = 0;
            while column < num_columns
                invariant
                    self.wf(),
                    num_rows == self.height(),
                    num_columns == self.width(),
                    row < num_rows,
                    column <= num_columns,
                    self.listed_up_to(list@, row as int, column as int),
                decreases num_columns - column,
            {
                proof {
                    self.lemma_listing_step(list@, (row, column));
                }
                if !self.is_empty((row, column)) {
                    list.push((row, column));
                }
                column += 1;
            }
            proof {
                self.lemma_listing_row_done(list@, row as int);
            }
            row += 1;
        }
        proof {
            self.lemma_listing_done(list@);
        }
        list
    }

    /// The number of cells in which the guard has stood.
    pub fn count_nonempty_cells(&self) -> (count: usize)
        requires
            self.wf(),
        ensures
            self.seen_cells().finite(),
            count == self.seen_cells().len(),
    {
        let list = self.visited_positions();
        proof {
            self.lemma_listing_counts(list@);
        }
        list.len()
    }
}

} // verus!
