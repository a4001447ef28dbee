//! The constraint board: 81 cells, and for every row, column and box the
//! set of digits already used there, kept in step with the cells.
//!
//! The model of a `Board` is its `Grid`. A board is changed only through
//! `set`, `unchecked_set` and `unset`, which update a cell and the three
//! sets around it together.

use vstd::prelude::*;
use vstd::set_lib::*;
use crate::bitset::{complement, BitSet};
use crate::error::SuDoKuError;
use crate::grid::{candidates, digits, digits_outside, Grid, Kind};

verus! {

/// A 9x9 board with its row, column and box records. The grid of every
/// board is well formed.
#[derive(Debug)]
pub struct Board {
    inner: [u8; 81],
    mat: [BitSet; 9],
    x: [BitSet; 9],
    y: [BitSet; 9],
}

/// The grid that the cells and the records of a board make.
spec fn grid_of(inner: [u8; 81], x: [BitSet; 9], y: [BitSet; 9], mat: [BitSet; 9]) -> Grid {
    Grid {
        cells: inner@,
        rows: Seq::new(9, |i: int| x@[i]@),
        cols: Seq::new(9, |i: int| y@[i]@),
        boxes: Seq::new(9, |i: int| mat@[i]@),
    }
}

impl View for Board {
    type V = Grid;

    closed spec fn view(&self) -> Grid {
        grid_of(self.inner, self.x, self.y, self.mat)
    }
}

/// Writes `val` to the cell (`row`, `col`) of the cells and records of a
/// board.
fn write_cell(
    inner: &mut [u8; 81],
    x: &mut [BitSet; 9],
    y: &mut [BitSet; 9],
    mat: &mut [BitSet; 9],
    row: usize,
    col: usize,
    val: u8,
)
    requires
        grid_of(*old(inner), *old(x), *old(y), *old(mat)).wf(),
        row < 9,
        col < 9,
        1 <= val <= 9,
    ensures
        grid_of(*final(inner), *final(x), *final(y), *final(mat)) == grid_of(
            *old(inner),
            *old(x),
            *old(y),
            *old(mat),
        ).place(row as int, col as int, val),
        grid_of(*final(inner), *final(x), *final(y), *final(mat)).wf(),
    no_unwind
{
    let ghost before_grid = grid_of(*inner, *x, *y, *mat);
    let pos: usize = row * 9 + col;
    let mat_id: usize = row / 3 * 3 + col / 3;
    let before: u8 = inner[pos];
    proof {
        assert(before_grid.cells[pos as int] <= 9);
    }
    if before != 0 {
        let _ = x[row].remove(before);
        let _ = y[col].remove(before);
        let _ = mat[mat_id].remove(before);
    }
    inner[pos] = val;
    let _ = x[row].set(val);
    let _ = y[col].set(val);
    let _ = mat[mat_id].set(val);
    proof {
        let now = grid_of(*inner, *x, *y, *mat);
        let after = before_grid.place(row as int, col as int, val);
        assert(now.cells =~= after.cells);
        assert(now.rows =~= after.rows);
        assert(now.cols =~= after.cols);
        assert(now.boxes =~= after.boxes);
        before_grid.lemma_place_wf(row as int, col as int, val);
    }
}

/// Blanks the cell (`row`, `col`) of the cells and records of a board.
fn blank_cell(
    inner: &mut [u8; 81],
    x: &mut [BitSet; 9],
    y: &mut [BitSet; 9],
    mat: &mut [BitSet; 9],
    row: usize,
    col: usize,
)
    requires
        grid_of(*old(inner), *old(x), *old(y), *old(mat)).wf(),
        row < 9,
        col < 9,
    ensures
        grid_of(*final(inner), *final(x), *final(y), *final(mat)) == grid_of(
            *old(inner),
            *old(x),
            *old(y),
            *old(mat),
        ).clear(row as int, col as int),
        grid_of(*final(inner), *final(x), *final(y), *final(mat)).wf(),
    no_unwind
{
    let ghost before_grid = grid_of(*inner, *x, *y, *mat);
    let pos: usize = row * 9 + col;
    let mat_id: usize = row / 3 * 3 + col / 3;
    let before: u8 = inner[pos];
    proof {
        assert(before_grid.cells[pos as int] <= 9);
    }
    if before != 0 {
        let _ = x[row].remove(before);
        let _ = y[col].remove(before);
        let _ = mat[mat_id].remove(before);
        inner[pos] = 0;
    }
    proof {
        let now = grid_of(*inner, *x, *y, *mat);
        let after = before_grid.clear(row as int, col as int);
        assert(now.cells =~= after.cells);
        assert(now.rows =~= after.rows);
        assert(now.cols =~= after.cols);
        assert(now.boxes =~= after.boxes);
        before_grid.lemma_clear_wf(row as int, col as int);
    }
}

/// The 81 cells that a list of digits fills, row by row: the first 81
/// entries of the list, and blank cells where the list ends before the
/// board does.
pub open spec fn padded(digits: Seq<u8>) -> Seq<u8> {
    Seq::new(
        81,
        |i: int|
            if i < digits.len() {
                digits[i]
            } else {
                0u8
            },
    )
}

/// With zero left out of `banned`, the values of `0..10` outside `banned`
/// are zero followed by the candidates.
proof fn lemma_complement_of_ten(banned: Set<int>)
    requires
        !banned.contains(0),
    ensures
        complement(banned, 10) == seq![0u8] + candidates(banned),
{
    let lacks = |key: u8| !banned.contains(key as int);
    let outside = |digit: u8| !banned.contains(digit as int);
    assert(lacks =~= outside);
    let all = Seq::new(10nat, |i: int| i as u8);
    let nine = Seq::new(9nat, |i: int| (i + 1) as u8);
    assert(all =~= seq![0u8] + nine);
    Seq::filter_distributes_over_add(seq![0u8], nine, lacks);
    assert(seq![0u8].filter(lacks) =~= seq![0u8]) by {
        assert(seq![0u8] =~= Seq::<u8>::empty().push(0u8));
        Seq::<u8>::empty().lemma_filter_push(0u8, lacks);
        reveal(Seq::filter);
    }
    assert(digits_outside(banned, 9) == nine.filter(outside));
}

impl Board {
    /// What holds of every board: its grid is well formed.
    #[verifier::type_invariant]
    pub open spec fn well_formed(self) -> bool {
        self@.wf()
    }

    /// A set of digits with nine members is the set of all digits.
    proof fn lemma_nine_is_all(used: Set<int>)
        requires
            used.subset_of(digits()),
        ensures
            used.finite(),
            used.len() <= 9,
            used.len() == 9 <==> used == digits(),
    {
        lemma_int_range(1, 10);
        lemma_len_subset(used, digits());
        if used.len() == 9 {
            lemma_subset_equality(used, digits());
        }
    }

    /// A board without a digit.
    pub fn new() -> (board: Board)
        ensures
            board@ == Grid::empty(),
            board@.valid(),
    {
        let board = Board {
            inner: [0u8;81],
            mat: [BitSet::new();9],
            x: [BitSet::new();9],
            y: [BitSet::new();9],
        };
        proof {
            assert(board@.cells =~= Grid::empty().cells);
            assert(board@.rows =~= Grid::empty().rows);
            assert(board@.cols =~= Grid::empty().cols);
            assert(board@.boxes =~= Grid::empty().boxes);
            Grid::lemma_empty_valid();
        }
        board
    }

    /// The board that holds the first 81 entries of `vec`, row by row: zero
    /// leaves a cell blank, a digit of `1..=9` fills it. Entries that a
    /// shorter `vec` lacks count as zero.
    pub fn from_vec(vec: Vec<u8>) -> (board: Board)
        requires
            forall|i: int| 0 <= i < vec.len() && i < 81 ==> vec[i] <= 9,
        ensures
            board@.wf(),
            board@.in_sync(),
            board@.cells == padded(vec@),
    {
        let mut board = Board::new();
        let mut pos: usize = 0;
        while pos < 81
            invariant
                pos <= 81,
                board@.wf(),
                board@.in_sync(),
                forall|i: int| 0 <= i < vec.len() && i < 81 ==> vec[i] <= 9,
                forall|i: int|
                    0 <= i < 81 ==> #[trigger] board@.cells[i] == (if i < pos && i < vec.len() {
                        vec[i]
                    } else {
                        0u8
                    }),
            decreases 81 - pos,
        {
            let val: u8 = if pos < vec.len() {
                vec[pos]
            } else {
                0
            };
            if val != 0 {
                let x: usize = pos / 9;
                let y: usize = pos % 9;
                proof {
                    assert(board@.cells[pos as int] == 0);
                    board@.lemma_place_in_sync(x as int, y as int, val);
                }
                board.unchecked_set(x, y, val);
            }
            pos += 1;
        }
        proof {
            assert(board@.cells =~= padded(vec@));
        }
        board
    }

    /// The union of the records around the cell (`x`, `y`), without the
    /// cell's own digit.
    fn cross(&self, x: usize, y: usize) -> (cross: BitSet)
        requires
            x < 9,
            y < 9,
        ensures
            cross@ == self@.forbidden(x as int, y as int),
    {
        let pos: usize = x * 9 + y;
        let mat_id: usize = x / 3 * 3 + y / 3;
        let mut cross = self.x[x] | self.y[y] | self.mat[mat_id];
        let this: u8 = self.inner[pos];
        if this != 0 {
            proof {
                use_type_invariant(self);
                assert(self@.cells[pos as int] <= 9);
            }
            let _ = cross.remove(this);
        }
        proof {
            let g = self@;
            assert(g.used(Kind::Row, x as int) == self.x@[x as int]@);
            assert(g.used(Kind::Column, y as int) == self.y@[y as int]@);
            assert(g.used(Kind::Block, mat_id as int) == self.mat@[mat_id as int]@);
        }
        cross
    }

    /// Writes `val` to the cell (`x`, `y`) without checking its arguments:
    /// the digit that the cell held leaves the records of its row, column
    /// and box, and `val` enters them.
    pub fn unchecked_set(&mut self, x: usize, y: usize, val: u8)
        requires
            x < 9,
            y < 9,
            1 <= val <= 9,
        ensures
            final(self)@ == old(self)@.place(x as int, y as int, val),
            final(self)@.wf(),
            old(self)@.valid() && old(self)@.allows(x as int, y as int, val as int)
                ==> final(self)@.valid(),
    {
        proof {
            use_type_invariant(&*self);
            if self@.valid() && self@.allows(x as int, y as int, val as int) {
                self@.lemma_place_valid(x as int, y as int, val);
            }
        }
        write_cell(&mut self.inner, &mut self.x, &mut self.y, &mut self.mat, x, y, val);
    }

    /// The digit of the cell (`x`, `y`), or `None` for a blank cell, without
    /// checking the coordinates.
    pub fn unchecked_get(&self, x: usize, y: usize) -> (digit: Option<u8>)
        requires
            x < 9,
            y < 9,
        ensures
            digit == (if self@.cell(x as int, y as int) == 0 {
                None::<u8>
            } else {
                Some(self@.cell(x as int, y as int))
            }),
    {
        let pos: usize = x * 9 + y;
        let val: u8 = self.inner[pos];
        if val == 0 {
            None
        } else {
            Some(val)
        }
    }

    /// Writes `val` to the cell (`x`, `y`). A row or column of 9 or more is
    /// refused as out of bound, and otherwise a digit outside `1..=9` as
    /// invalid; a refused call leaves the board as it was.
    pub fn set(&mut self, x: usize, y: usize, val: u8) -> (res: Result<(), SuDoKuError>)
        ensures
            final(self)@.wf(),
            x >= 9 || y >= 9 ==> res == Err::<(), SuDoKuError>(SuDoKuError::OutOfBound)
                && final(self)@ == old(self)@,
            x < 9 && y < 9 && !(1 <= val <= 9) ==> res == Err::<(), SuDoKuError>(
                SuDoKuError::InvalidValue,
            ) && final(self)@ == old(self)@,
            x < 9 && y < 9 && 1 <= val <= 9 ==> res is Ok && final(self)@ == old(self)@.place(
                x as int,
                y as int,
                val,
            ),
            old(self)@.valid() && (res is Ok ==> old(self)@.allows(x as int, y as int, val as int))
                ==> final(self)@.valid(),
    {
        proof {
            use_type_invariant(&*self);
        }
        if x >= 9 || y >= 9 {
            return Err(SuDoKuError::OutOfBound);
        }
        if val > 9 || val < 1 {
            return Err(SuDoKuError::InvalidValue);
        }
        self.unchecked_set(x, y, val);
        Ok(())
    }

    /// The digit of the cell (`x`, `y`), or `None` for a blank cell. A row or
    /// column of 9 or more is refused as out of bound.
    pub fn get(&self, x: usize, y: usize) -> (res: Result<Option<u8>, SuDoKuError>)
        ensures
            x >= 9 || y >= 9 ==> res == Err::<Option<u8>, SuDoKuError>(SuDoKuError::OutOfBound),
            x < 9 && y < 9 ==> res == Ok::<Option<u8>, SuDoKuError>(
                if self@.cell(x as int, y as int) == 0 {
                    None::<u8>
                } else {
                    Some(self@.cell(x as int, y as int))
                },
            ),
    {
        if x >= 9 || y >= 9 {
            return Err(SuDoKuError::OutOfBound);
        }
        Ok(self.unchecked_get(x, y))
    }

    /// Whether (`x`, `y`) is a cell of the board that holds no digit.
    pub fn is_empty(&self, x: usize, y: usize) -> (blank: bool)
        ensures
            blank == (x < 9 && y < 9 && self@.cell(x as int, y as int) == 0),
    {
        match self.get(x, y) {
            Ok(digit) => digit.is_none(),
            Err(_) => false,
        }
    }

    /// Blanks the cell (`x`, `y`): its digit leaves the records of its row,
    /// column and box. A blank cell is left as it is.
    pub fn unset(&mut self, x: usize, y: usize)
        requires
            x < 9,
            y < 9,
        ensures
            final(self)@ == old(self)@.clear(x as int, y as int),
            final(self)@.wf(),
            old(self)@.valid() ==> final(self)@.valid(),
    {
        proof {
            use_type_invariant(&*self);
            if self@.valid() {
                self@.lemma_clear_valid(x as int, y as int);
            }
        }
        blank_cell(&mut self.inner, &mut self.x, &mut self.y, &mut self.mat, x, y);
    }

    /// The digits that the cell (`x`, `y`) may take, in ascending order:
    /// those of `1..=9` that its row, column and box do not hold elsewhere.
    pub fn avaliable_val(&self, x: usize, y: usize) -> (free: Vec<u8>)
        requires
            x < 9,
            y < 9,
        ensures
            free@ == self@.available(x as int, y as int),
    {
        let cross = self.cross(x, y);
        let mut free = cross.reverse(10);
        proof {
            use_type_invariant(self);
            self@.lemma_available_count(x as int, y as int);
            lemma_complement_of_ten(cross@);
        }
        free.remove(0);
        proof {
            assert(free@ =~= candidates(cross@));
        }
        free
    }

    /// The number of digits that the cell (`x`, `y`) may take.
    pub fn avaliable_count(&self, x: usize, y: usize) -> (n: usize)
        requires
            x < 9,
            y < 9,
        ensures
            n == self@.available(x as int, y as int).len(),
            n == 9 - self@.forbidden(x as int, y as int).len(),
            n <= 9,
    {
        let cross = self.cross(x, y);
        proof {
            use_type_invariant(self);
            self@.lemma_available_count(x as int, y as int);
        }
        9 - cross.count()
    }

    /// Whether every row, column and box has all nine digits recorded. A
    /// board that has is filled without a blank cell and without a digit
    /// twice in a group; a board that is filled so has, if its records are in
    /// step with its cells.
    pub fn is_win(&self) -> (won: bool)
        ensures
            won == self@.all_full(),
            won ==> self@.is_solution(),
            self@.in_sync() ==> won == self@.is_solution(),
    {
        proof {
            use_type_invariant(self);
            self@.lemma_won_is_solved();
        }
        let mut i: usize = 0;
        while i < 9
            invariant
                i <= 9,
                self@.wf(),
                self@.all_full() ==> self@.is_solution(),
                self@.in_sync() ==> (self@.all_full() <==> self@.is_solution()),
                forall|kind: Kind, index: int|
                    0 <= index < i ==> #[trigger] self@.used(kind, index) == digits(),
            decreases 9 - i,
        {
            proof {
                let g = self@;
                assert(g.used(Kind::Row, i as int) == self.x@[i as int]@);
                assert(g.used(Kind::Column, i as int) == self.y@[i as int]@);
                assert(g.used(Kind::Block, i as int) == self.mat@[i as int]@);
                assert forall|kind: Kind| #[trigger] g.used(kind, i as int).subset_of(digits()) by {
                    assert forall|digit: int| g.used(kind, i as int).contains(digit) implies digits().contains(
                        digit,
                    ) by {}
                }
                Self::lemma_nine_is_all(g.used(Kind::Row, i as int));
                Self::lemma_nine_is_all(g.used(Kind::Column, i as int));
                Self::lemma_nine_is_all(g.used(Kind::Block, i as int));
            }
            if self.x[i].count() != 9 || self.y[i].count() != 9 || self.mat[i].count() != 9 {
                return false;
            }
            i += 1;
        }
        true
    }
}

impl Clone for Board {
    fn clone(&self) -> (copy: Board)
        ensures
            copy@ == self@,
    {
        proof {
            use_type_invariant(self);
        }
        let copy = Board { inner: self.inner, mat: self.mat, x: self.x, y: self.y };
        proof {
            assert(copy@.rows =~= self@.rows);
            assert(copy@.cols =~= self@.cols);
            assert(copy@.boxes =~= self@.boxes);
        }
        copy
    }
}

impl Default for Board {
    fn default() -> (board: Board)
        ensures
            board@ == Grid::empty(),
            board@.valid(),
    {
        Board::new()
    }
}

} // verus!
