//! The mathematical model of a board.
//!
//! A `Grid` holds the 81 cells of a board, row by row, and beside them the
//! set of digits recorded as used in each row, column and box. The sets are
//! state of their own: they follow the cells through `place` and `clear`, and
//! the predicates `wf`, `in_sync` and `duplicate_free` say how closely.

use vstd::prelude::*;
use vstd::set_lib::*;

verus! {

/// The three kinds of group that may hold each digit once.
pub enum Kind {
    /// A row of nine cells.
    Row,
    /// A column of nine cells.
    Column,
    /// A 3x3 box.
    Block,
}

/// Whether (`row`, `col`) names a cell.
pub open spec fn in_grid(row: int, col: int) -> bool {
    0 <= row < 9 && 0 <= col < 9
}

/// The index of the box around the cell (`row`, `col`).
pub open spec fn box_of(row: int, col: int) -> int {
    row / 3 * 3 + col / 3
}

/// The index of the group of `kind` around the cell (`row`, `col`).
pub open spec fn group_of(kind: Kind, row: int, col: int) -> int {
    match kind {
        Kind::Row => row,
        Kind::Column => col,
        Kind::Block => box_of(row, col),
    }
}

/// Whether two different cells lie in one row, one column or one box.
pub open spec fn peers(row: int, col: int, other_row: int, other_col: int) -> bool {
    &&& in_grid(row, col)
    &&& in_grid(other_row, other_col)
    &&& (row != other_row || col != other_col)
    &&& (row == other_row || col == other_col || box_of(row, col) == box_of(other_row, other_col))
}

/// The digits `1..=9`.
pub open spec fn digits() -> Set<int> {
    set_int_range(1, 10)
}

/// A set of used digits after the digit `before` of a cell gave way to
/// `digit`. A `before` of zero stands for a blank cell.
pub open spec fn swapped(used: Set<int>, before: u8, digit: u8) -> Set<int> {
    (if before != 0 {
        used.remove(before as int)
    } else {
        used
    }).insert(digit as int)
}

/// A set of used digits after a cell that held `before` was blanked.
pub open spec fn dropped(used: Set<int>, before: u8) -> Set<int> {
    if before != 0 {
        used.remove(before as int)
    } else {
        used
    }
}

/// The digits of `1..=top` outside `banned`, in ascending order.
pub open spec fn digits_outside(banned: Set<int>, top: nat) -> Seq<u8> {
    Seq::new(top, |i: int| (i + 1) as u8).filter(|digit: u8| !banned.contains(digit as int))
}

/// The digits of `1..=9` outside `banned`, in ascending order.
pub open spec fn candidates(banned: Set<int>) -> Seq<u8> {
    digits_outside(banned, 9)
}

/// `digits_outside` holds, in ascending order and once each, exactly the
/// digits of `1..=top` that `banned` lacks; with those of `1..=top` that
/// `banned` has they are `top` digits.
pub proof fn lemma_digits_outside(banned: Set<int>, top: nat)
    requires
        top <= 9,
    ensures
        ({
            let found = digits_outside(banned, top);
            &&& found.len() <= top
            &&& forall|i: int|
                0 <= i < found.len() ==> 1 <= #[trigger] found[i] <= top && !banned.contains(
                    found[i] as int,
                )
            &&& forall|i: int, j: int| 0 <= i < j < found.len() ==> found[i] < found[j]
            &&& forall|digit: u8|
                1 <= digit <= top && !banned.contains(digit as int) ==> found.contains(digit)
            &&& banned.intersect(set_int_range(1, top as int + 1)).finite()
            &&& found.len() + banned.intersect(set_int_range(1, top as int + 1)).len() == top
        }),
    decreases top,
{
    let found = digits_outside(banned, top);
    let lacks = |digit: u8| !banned.contains(digit as int);
    if top == 0 {
        assert(Seq::new(0nat, |i: int| (i + 1) as u8) =~= Seq::<u8>::empty());
        reveal(Seq::filter);
        assert(banned.intersect(set_int_range(1, 1)) =~= Set::<int>::empty());
    } else {
        let less = (top - 1) as nat;
        lemma_digits_outside(banned, less);
        let shorter = Seq::new(less, |i: int| (i + 1) as u8);
        let longer = Seq::new(top, |i: int| (i + 1) as u8);
        let last = top as u8;
        let before = digits_outside(banned, less);
        assert(longer =~= shorter.push(last));
        shorter.lemma_filter_push(last, lacks);
        let low = banned.intersect(set_int_range(1, top as int));
        let high = banned.intersect(set_int_range(1, top as int + 1));
        if banned.contains(top as int) {
            assert(found == before);
            assert(high =~= low.insert(top as int));
        } else {
            assert(found == before.push(last));
            assert(high =~= low);
            assert(found[found.len() - 1] == last);
        }
        assert forall|digit: u8|
            1 <= digit <= top && !banned.contains(digit as int) implies found.contains(digit) by {
            if digit == last {
                assert(found[found.len() - 1] == digit);
            } else {
                assert(before.contains(digit));
                let i = choose|i: int| 0 <= i < before.len() && before[i] == digit;
                assert(found[i] == digit);
            }
        }
    }
}

/// The candidates outside `banned` are ascending, hold each digit of `1..=9`
/// that `banned` lacks and nothing else, and are `9 - banned.len()` many
/// where `banned` is a set of digits.
pub proof fn lemma_candidates(banned: Set<int>)
    ensures
        forall|i: int, j: int|
            0 <= i < j < candidates(banned).len() ==> candidates(banned)[i] < candidates(banned)[j],
        forall|digit: u8|
            candidates(banned).contains(digit) <==> 1 <= digit <= 9 && !banned.contains(
                digit as int,
            ),
        candidates(banned).len() <= 9,
        banned.subset_of(digits()) ==> banned.finite() && candidates(banned).len() + banned.len()
            == 9,
{
    lemma_digits_outside(banned, 9);
    if banned.subset_of(digits()) {
        assert(banned.intersect(set_int_range(1, 10)) =~= banned);
    }
}

/// The cells of a board, row by row, with zero for a blank cell, and the
/// digits recorded as used in each row, column and box.
pub struct Grid {
    pub cells: Seq<u8>,
    pub rows: Seq<Set<int>>,
    pub cols: Seq<Set<int>>,
    pub boxes: Seq<Set<int>>,
}

impl Grid {
    /// The grid without a digit.
    pub open spec fn empty() -> Grid {
        Grid {
            cells: Seq::new(81, |i: int| 0u8),
            rows: Seq::new(9, |i: int| Set::<int>::empty()),
            cols: Seq::new(9, |i: int| Set::<int>::empty()),
            boxes: Seq::new(9, |i: int| Set::<int>::empty()),
        }
    }

    /// The content of the cell (`row`, `col`): a digit, or zero for blank.
    pub open spec fn cell(self, row: int, col: int) -> u8 {
        self.cells[row * 9 + col]
    }

    /// The digits recorded as used in group `index` of `kind`.
    pub open spec fn used(self, kind: Kind, index: int) -> Set<int> {
        match kind {
            Kind::Row => self.rows[index],
            Kind::Column => self.cols[index],
            Kind::Block => self.boxes[index],
        }
    }

    /// Whether some cell of group `index` of `kind` holds `digit`.
    pub open spec fn holds(self, kind: Kind, index: int, digit: int) -> bool {
        exists|row: int, col: int|
            in_grid(row, col) && group_of(kind, row, col) == index && #[trigger] self.cell(
                row,
                col,
            ) == digit
    }

    /// Whether the digit of the cell (`row`, `col`) is recorded in the cell's
    /// group of `kind`.
    pub open spec fn recorded(self, kind: Kind, row: int, col: int) -> bool {
        self.used(kind, group_of(kind, row, col)).contains(self.cell(row, col) as int)
    }

    /// The shape every grid of a board has: 81 cells of at most 9, nine sets
    /// for each kind of group, and in each set only digits that some cell of
    /// the group holds.
    pub open spec fn wf(self) -> bool {
        &&& self.cells.len() == 81
        &&& self.rows.len() == 9
        &&& self.cols.len() == 9
        &&& self.boxes.len() == 9
        &&& forall|i: int| 0 <= i < 81 ==> #[trigger] self.cells[i] <= 9
        &&& forall|kind: Kind, index: int, digit: int|
            0 <= index < 9 && #[trigger] self.used(kind, index).contains(digit)
                ==> 1 <= digit <= 9 && self.holds(kind, index, digit)
    }

    /// Whether the digit of every filled cell is recorded in the cell's row,
    /// column and box.
    pub open spec fn in_sync(self) -> bool {
        forall|kind: Kind, row: int, col: int|
            in_grid(row, col) && self.cell(row, col) != 0 ==> #[trigger] self.recorded(
                kind,
                row,
                col,
            )
    }

    /// Whether no digit stands twice in a row, a column or a box.
    pub open spec fn duplicate_free(self) -> bool {
        forall|row: int, col: int, other_row: int, other_col: int|
            #[trigger] peers(row, col, other_row, other_col) && self.cell(row, col) != 0
                ==> self.cell(row, col) != self.cell(other_row, other_col)
    }

    /// Whether the grid obeys the rules so far: it is well formed, its sets
    /// record every digit, and no digit stands twice in a group.
    pub open spec fn valid(self) -> bool {
        self.wf() && self.in_sync() && self.duplicate_free()
    }

    /// Whether every row, column and box has all nine digits recorded.
    pub open spec fn all_full(self) -> bool {
        forall|kind: Kind, index: int|
            0 <= index < 9 ==> #[trigger] self.used(kind, index) == digits()
    }

    /// Whether every cell is filled and no digit stands twice in a group.
    pub open spec fn is_solution(self) -> bool {
        &&& self.duplicate_free()
        &&& forall|row: int, col: int| in_grid(row, col) ==> #[trigger] self.cell(row, col) != 0
    }

    /// The digits that the groups of the cell (`row`, `col`) rule out for it:
    /// those recorded in its row, column or box, but for the cell's own.
    pub open spec fn forbidden(self, row: int, col: int) -> Set<int> {
        let around = self.used(Kind::Row, row).union(self.used(Kind::Column, col)).union(
            self.used(Kind::Block, box_of(row, col)),
        );
        dropped(around, self.cell(row, col))
    }

    /// Whether `digit` is a digit that the cell (`row`, `col`) may take.
    pub open spec fn allows(self, row: int, col: int, digit: int) -> bool {
        1 <= digit <= 9 && !self.forbidden(row, col).contains(digit)
    }

    /// The digits that the cell (`row`, `col`) may take, in ascending order.
    pub open spec fn available(self, row: int, col: int) -> Seq<u8> {
        candidates(self.forbidden(row, col))
    }

    /// The grid after `digit` was written to the cell (`row`, `col`): what
    /// the cell held before leaves the records of its three groups, and
    /// `digit` enters them.
    pub open spec fn place(self, row: int, col: int, digit: u8) -> Grid {
        let before = self.cell(row, col);
        let b = box_of(row, col);
        Grid {
            cells: self.cells.update(row * 9 + col, digit),
            rows: self.rows.update(row, swapped(self.rows[row], before, digit)),
            cols: self.cols.update(col, swapped(self.cols[col], before, digit)),
            boxes: self.boxes.update(b, swapped(self.boxes[b], before, digit)),
        }
    }

    /// The grid after the cell (`row`, `col`) was blanked: what it held
    /// leaves the records of its three groups. A blank cell changes nothing.
    pub open spec fn clear(self, row: int, col: int) -> Grid {
        let before = self.cell(row, col);
        let b = box_of(row, col);
        Grid {
            cells: self.cells.update(row * 9 + col, 0u8),
            rows: self.rows.update(row, dropped(self.rows[row], before)),
            cols: self.cols.update(col, dropped(self.cols[col], before)),
            boxes: self.boxes.update(b, dropped(self.boxes[b], before)),
        }
    }

    /// What `place` does to the record of one group.
    pub proof fn lemma_place_used(self, row: int, col: int, digit: u8, kind: Kind, index: int)
        requires
            self.wf(),
            in_grid(row, col),
            0 <= index < 9,
        ensures
            self.place(row, col, digit).used(kind, index) == (if index == group_of(kind, row, col) {
                swapped(self.used(kind, index), self.cell(row, col), digit)
            } else {
                self.used(kind, index)
            }),
    {
    }

    /// What `clear` does to the record of one group.
    pub proof fn lemma_clear_used(self, row: int, col: int, kind: Kind, index: int)
        requires
            self.wf(),
            in_grid(row, col),
            0 <= index < 9,
        ensures
            self.clear(row, col).used(kind, index) == (if index == group_of(kind, row, col) {
                dropped(self.used(kind, index), self.cell(row, col))
            } else {
                self.used(kind, index)
            }),
    {
    }

    /// What `place` does to the cells.
    pub proof fn lemma_place_cell(self, row: int, col: int, digit: u8, r: int, c: int)
        requires
            self.wf(),
            in_grid(row, col),
            in_grid(r, c),
        ensures
            self.place(row, col, digit).cell(r, c) == (if r == row && c == col {
                digit
            } else {
                self.cell(r, c)
            }),
    {
    }

    /// What `clear` does to the cells.
    pub proof fn lemma_clear_cell(self, row: int, col: int, r: int, c: int)
        requires
            self.wf(),
            in_grid(row, col),
            in_grid(r, c),
        ensures
            self.clear(row, col).cell(r, c) == (if r == row && c == col {
                0u8
            } else {
                self.cell(r, c)
            }),
    {
    }

    /// The empty grid is valid.
    pub proof fn lemma_empty_valid()
        ensures
            Grid::empty().valid(),
    {
        let g = Grid::empty();
        assert forall|kind: Kind, index: int, digit: int|
            0 <= index < 9 implies !(#[trigger] g.used(kind, index).contains(
            digit,
        )) by {}
    }

    /// Writing a digit of `1..=9` keeps a grid well formed.
    pub proof fn lemma_place_wf(self, row: int, col: int, digit: u8)
        requires
            self.wf(),
            in_grid(row, col),
            1 <= digit <= 9,
        ensures
            self.place(row, col, digit).wf(),
    {
        let after = self.place(row, col, digit);
        let before = self.cell(row, col);
        assert forall|kind: Kind, index: int, d: int|
            0 <= index < 9 && #[trigger] after.used(kind, index).contains(
                d,
            ) implies 1 <= d <= 9 && after.holds(kind, index, d) by {
            self.lemma_place_used(row, col, digit, kind, index);
            if index == group_of(kind, row, col) && d == digit {
                self.lemma_place_cell(row, col, digit, row, col);
                assert(after.cell(row, col) == d);
            } else {
                assert(self.used(kind, index).contains(d));
                assert(self.holds(kind, index, d));
                let (r, c) = choose|r: int, c: int|
                    in_grid(r, c) && group_of(kind, r, c) == index && #[trigger] self.cell(r, c)
                        == d;
                self.lemma_place_cell(row, col, digit, r, c);
                assert(after.cell(r, c) == d);
            }
        }
    }

    /// Blanking a cell keeps a grid well formed.
    pub proof fn lemma_clear_wf(self, row: int, col: int)
        requires
            self.wf(),
            in_grid(row, col),
        ensures
            self.clear(row, col).wf(),
    {
        let after = self.clear(row, col);
        assert forall|kind: Kind, index: int, d: int|
            0 <= index < 9 && #[trigger] after.used(kind, index).contains(
                d,
            ) implies 1 <= d <= 9 && after.holds(kind, index, d) by {
            self.lemma_clear_used(row, col, kind, index);
            assert(self.used(kind, index).contains(d));
            assert(self.holds(kind, index, d));
            let (r, c) = choose|r: int, c: int|
                in_grid(r, c) && group_of(kind, r, c) == index && #[trigger] self.cell(r, c) == d;
            self.lemma_clear_cell(row, col, r, c);
            assert(after.cell(r, c) == d);
        }
    }

    /// Two cells of one group are peers, or one cell.
    pub proof fn lemma_group_peers(kind: Kind, row: int, col: int, other_row: int, other_col: int)
        requires
            in_grid(row, col),
            in_grid(other_row, other_col),
            group_of(kind, row, col) == group_of(kind, other_row, other_col),
        ensures
            0 <= group_of(kind, row, col) < 9,
            (row == other_row && col == other_col) || peers(row, col, other_row, other_col),
    {
    }

    /// Peers share a group of some kind.
    pub proof fn lemma_peers_share(row: int, col: int, other_row: int, other_col: int) -> (kind:
        Kind)
        requires
            peers(row, col, other_row, other_col),
        ensures
            group_of(kind, row, col) == group_of(kind, other_row, other_col),
            0 <= group_of(kind, row, col) < 9,
    {
        if row == other_row {
            Kind::Row
        } else if col == other_col {
            Kind::Column
        } else {
            Kind::Block
        }
    }

    /// Writing a digit into a blank cell keeps the records in step with the
    /// cells.
    pub proof fn lemma_place_in_sync(self, row: int, col: int, digit: u8)
        requires
            self.wf(),
            self.in_sync(),
            in_grid(row, col),
            1 <= digit <= 9,
            self.cell(row, col) == 0,
        ensures
            self.place(row, col, digit).in_sync(),
    {
        let after = self.place(row, col, digit);
        assert forall|kind: Kind, r: int, c: int|
            in_grid(r, c) && after.cell(r, c) != 0 implies #[trigger] after.recorded(
            kind,
            r,
            c,
        ) by {
            Self::lemma_group_peers(kind, r, c, r, c);
            self.lemma_place_cell(row, col, digit, r, c);
            self.lemma_place_used(row, col, digit, kind, group_of(kind, r, c));
            if !(r == row && c == col) {
                assert(self.recorded(kind, r, c));
            }
        }
    }

    /// In a valid grid a digit is forbidden to a cell exactly where a peer of
    /// the cell holds it.
    pub proof fn lemma_forbidden_by_peer(self, row: int, col: int, digit: int)
        requires
            self.valid(),
            in_grid(row, col),
            1 <= digit <= 9,
        ensures
            self.forbidden(row, col).contains(digit) <==> exists|r: int, c: int| #[trigger]
                peers(row, col, r, c) && self.cell(r, c) == digit,
    {
        let own = self.cell(row, col);
        if self.forbidden(row, col).contains(digit) {
            let kind = if self.used(Kind::Row, row).contains(digit) {
                Kind::Row
            } else if self.used(Kind::Column, col).contains(digit) {
                Kind::Column
            } else {
                Kind::Block
            };
            let index = group_of(kind, row, col);
            Self::lemma_group_peers(kind, row, col, row, col);
            assert(self.used(kind, index).contains(digit));
            assert(self.holds(kind, index, digit));
            let (r, c) = choose|r: int, c: int|
                in_grid(r, c) && group_of(kind, r, c) == index && #[trigger] self.cell(r, c)
                    == digit;
            Self::lemma_group_peers(kind, row, col, r, c);
            assert(peers(row, col, r, c) && self.cell(r, c) == digit);
        }
        if exists|r: int, c: int| #[trigger] peers(row, col, r, c) && self.cell(r, c) == digit {
            let (r, c) = choose|r: int, c: int| #[trigger]
                peers(row, col, r, c) && self.cell(r, c) == digit;
            let kind = Self::lemma_peers_share(row, col, r, c);
            assert(self.recorded(kind, r, c));
            assert(self.used(kind, group_of(kind, row, col)).contains(digit));
            assert(peers(r, c, row, col));
            assert(own != digit);
        }
    }

    /// Writing a digit that the cell allows keeps a grid valid.
    pub proof fn lemma_place_valid(self, row: int, col: int, digit: u8)
        requires
            self.valid(),
            in_grid(row, col),
            self.allows(row, col, digit as int),
        ensures
            self.place(row, col, digit).valid(),
    {
        let after = self.place(row, col, digit);
        let before = self.cell(row, col);
        self.lemma_place_wf(row, col, digit);
        self.lemma_forbidden_by_peer(row, col, digit as int);
        assert forall|kind: Kind, r: int, c: int|
            in_grid(r, c) && after.cell(r, c) != 0 implies #[trigger] after.recorded(
            kind,
            r,
            c,
        ) by {
            Self::lemma_group_peers(kind, r, c, r, c);
            self.lemma_place_cell(row, col, digit, r, c);
            self.lemma_place_used(row, col, digit, kind, group_of(kind, r, c));
            if !(r == row && c == col) {
                assert(self.recorded(kind, r, c));
                if group_of(kind, r, c) == group_of(kind, row, col) {
                    Self::lemma_group_peers(kind, row, col, r, c);
                    assert(peers(row, col, r, c));
                }
            }
        }
        assert forall|r: int, c: int, r2: int, c2: int| #[trigger]
            peers(r, c, r2, c2) && after.cell(r, c) != 0 implies after.cell(r, c) != after.cell(
            r2,
            c2,
        ) by {
            self.lemma_place_cell(row, col, digit, r, c);
            self.lemma_place_cell(row, col, digit, r2, c2);
            if r == row && c == col {
                assert(peers(row, col, r2, c2));
            } else if r2 == row && c2 == col {
                assert(peers(row, col, r, c));
            }
        }
    }

    /// Blanking a cell keeps a grid valid.
    pub proof fn lemma_clear_valid(self, row: int, col: int)
        requires
            self.valid(),
            in_grid(row, col),
        ensures
            self.clear(row, col).valid(),
    {
        let after = self.clear(row, col);
        self.lemma_clear_wf(row, col);
        assert forall|kind: Kind, r: int, c: int|
            in_grid(r, c) && after.cell(r, c) != 0 implies #[trigger] after.recorded(
            kind,
            r,
            c,
        ) by {
            Self::lemma_group_peers(kind, r, c, r, c);
            self.lemma_clear_cell(row, col, r, c);
            self.lemma_clear_used(row, col, kind, group_of(kind, r, c));
            assert(self.recorded(kind, r, c));
            if group_of(kind, r, c) == group_of(kind, row, col) {
                Self::lemma_group_peers(kind, row, col, r, c);
                assert(peers(row, col, r, c));
            }
        }
        assert forall|r: int, c: int, r2: int, c2: int| #[trigger]
            peers(r, c, r2, c2) && after.cell(r, c) != 0 implies after.cell(r, c) != after.cell(
            r2,
            c2,
        ) by {
            self.lemma_clear_cell(row, col, r, c);
            self.lemma_clear_cell(row, col, r2, c2);
        }
    }

    /// In a valid grid the digits available to a cell are exactly the digits
    /// of `1..=9` that no peer of the cell holds; the cell's own digit, if it
    /// has one, is among them.
    pub proof fn lemma_available_by_peers(self, row: int, col: int)
        requires
            self.valid(),
            in_grid(row, col),
        ensures
            forall|digit: u8|
                self.available(row, col).contains(digit) <==> 1 <= digit <= 9 && forall|
                    r: int,
                    c: int,
                | #[trigger] peers(row, col, r, c) ==> self.cell(r, c) != digit,
            self.cell(row, col) != 0 ==> self.available(row, col).contains(self.cell(row, col)),
    {
        lemma_candidates(self.forbidden(row, col));
        assert forall|digit: u8|
            self.available(row, col).contains(digit) <==> 1 <= digit <= 9 && forall|
                r: int,
                c: int,
            | #[trigger] peers(row, col, r, c) ==> self.cell(r, c) != digit by {
            if 1 <= digit <= 9 {
                self.lemma_forbidden_by_peer(row, col, digit as int);
            }
        }
        assert(self.cells[row * 9 + col] <= 9);
    }

    /// The digits available to a cell of a well-formed grid are as many as
    /// the nine digits less those forbidden to the cell.
    pub proof fn lemma_available_count(self, row: int, col: int)
        requires
            self.wf(),
            in_grid(row, col),
        ensures
            self.forbidden(row, col).finite(),
            self.forbidden(row, col).subset_of(digits()),
            self.available(row, col).len() == 9 - self.forbidden(row, col).len(),
    {
        Self::lemma_group_peers(Kind::Block, row, col, row, col);
        assert forall|digit: int| self.forbidden(row, col).contains(digit) implies digits().contains(
            digit,
        ) by {
            assert(self.used(Kind::Row, row).contains(digit) || self.used(
                Kind::Column,
                col,
            ).contains(digit) || self.used(Kind::Block, box_of(row, col)).contains(digit));
        }
        lemma_candidates(self.forbidden(row, col));
    }

    /// Whatever a well-formed grid records, the digit of a filled cell is
    /// available to that cell.
    pub proof fn lemma_own_digit_available(self, row: int, col: int)
        requires
            self.wf(),
            in_grid(row, col),
            self.cell(row, col) != 0,
        ensures
            self.available(row, col).contains(self.cell(row, col)),
    {
        let own = self.cell(row, col);
        lemma_candidates(self.forbidden(row, col));
        assert(self.cells[row * 9 + col] <= 9);
        assert(!self.forbidden(row, col).contains(own as int));
        assert(candidates(self.forbidden(row, col)).contains(own));
    }

    /// A digit written to a blank cell that allowed it can be taken back or
    /// exchanged as if it had never been written, and does not change what
    /// the cell itself is forbidden.
    pub proof fn lemma_place_undo(self, row: int, col: int, digit: u8)
        requires
            self.wf(),
            in_grid(row, col),
            self.cell(row, col) == 0,
            self.allows(row, col, digit as int),
        ensures
            self.place(row, col, digit).clear(row, col) == self,
            forall|other: u8|
                self.place(row, col, digit).place(row, col, other) == #[trigger] self.place(
                    row,
                    col,
                    other,
                ),
            self.place(row, col, digit).forbidden(row, col) == self.forbidden(row, col),
    {
        let after = self.place(row, col, digit);
        let back = after.clear(row, col);
        let b = box_of(row, col);
        assert(!self.rows[row].contains(digit as int));
        assert(!self.cols[col].contains(digit as int));
        assert(!self.boxes[b].contains(digit as int));
        assert(back.cells =~= self.cells);
        assert(back.rows =~~= self.rows);
        assert(back.cols =~~= self.cols);
        assert(back.boxes =~~= self.boxes);
        assert forall|other: u8|
            after.place(row, col, other) == #[trigger] self.place(row, col, other) by {
            let twice = after.place(row, col, other);
            let once = self.place(row, col, other);
            assert(twice.cells =~= once.cells);
            assert(twice.rows =~~= once.rows);
            assert(twice.cols =~~= once.cols);
            assert(twice.boxes =~~= once.boxes);
        }
        assert(after.forbidden(row, col) =~= self.forbidden(row, col));
    }

    /// Blanking a blank cell changes nothing.
    pub proof fn lemma_clear_blank(self, row: int, col: int)
        requires
            self.wf(),
            in_grid(row, col),
            self.cell(row, col) == 0,
        ensures
            self.clear(row, col) == self,
    {
        let after = self.clear(row, col);
        assert(after.cells =~= self.cells);
        assert(after.rows =~~= self.rows);
        assert(after.cols =~~= self.cols);
        assert(after.boxes =~~= self.boxes);
    }

    /// Two well-formed grids with the same cells, each with its records in
    /// step with its cells, are one grid.
    pub proof fn lemma_in_sync_unique(self, other: Grid)
        requires
            self.wf(),
            self.in_sync(),
            other.wf(),
            other.in_sync(),
            self.cells == other.cells,
        ensures
            self == other,
    {
        assert forall|kind: Kind, index: int| 0 <= index < 9 implies #[trigger] self.used(
            kind,
            index,
        ) =~= other.used(kind, index) by {
            Self::lemma_same_cells_same_used(self, other, kind, index);
            Self::lemma_same_cells_same_used(other, self, kind, index);
        }
        assert forall|index: int| 0 <= index < 9 implies self.rows[index] == other.rows[index] by {
            assert(self.used(Kind::Row, index) == other.used(Kind::Row, index));
        }
        assert forall|index: int| 0 <= index < 9 implies self.cols[index] == other.cols[index] by {
            assert(self.used(Kind::Column, index) == other.used(Kind::Column, index));
        }
        assert forall|index: int| 0 <= index < 9 implies self.boxes[index]
            == other.boxes[index] by {
            assert(self.used(Kind::Block, index) == other.used(Kind::Block, index));
        }
        assert(self.rows =~= other.rows);
        assert(self.cols =~= other.cols);
        assert(self.boxes =~= other.boxes);
    }

    proof fn lemma_same_cells_same_used(a: Grid, b: Grid, kind: Kind, index: int)
        requires
            a.wf(),
            b.wf(),
            b.in_sync(),
            a.cells == b.cells,
            0 <= index < 9,
        ensures
            a.used(kind, index).subset_of(b.used(kind, index)),
    {
        assert forall|digit: int| a.used(kind, index).contains(digit) implies b.used(
            kind,
            index,
        ).contains(digit) by {
            assert(a.holds(kind, index, digit));
            let (r, c) = choose|r: int, c: int|
                in_grid(r, c) && group_of(kind, r, c) == index && #[trigger] a.cell(r, c) == digit;
            assert(b.cell(r, c) == digit);
            assert(b.recorded(kind, r, c));
        }
    }
}

/// The cell at place `at` of group `index` of `kind`, the places of a group
/// counted from zero, row by row.
pub open spec fn member(kind: Kind, index: int, at: int) -> (int, int) {
    match kind {
        Kind::Row => (index, at),
        Kind::Column => (at, index),
        Kind::Block => (index / 3 * 3 + at / 3, index % 3 * 3 + at % 3),
    }
}

/// The place of the cell (`row`, `col`) in its group of `kind`.
pub open spec fn place_in(kind: Kind, row: int, col: int) -> int {
    match kind {
        Kind::Row => col,
        Kind::Column => row,
        Kind::Block => row % 3 * 3 + col % 3,
    }
}

/// Whether `f` maps some number of `0..n` to `k`.
spec fn reaches(f: spec_fn(int) -> int, n: int, k: int) -> bool {
    exists|i: int| 0 <= i < n && #[trigger] f(i) == k
}

/// A function that maps `0..n` into `0..n` and no two numbers to one maps
/// onto `0..n`.
proof fn lemma_onto(f: spec_fn(int) -> int, n: int)
    requires
        0 <= n,
        forall|i: int| 0 <= i < n ==> 0 <= #[trigger] f(i) < n,
        forall|i: int, j: int|
            0 <= i < n && 0 <= j < n && #[trigger] f(i) == #[trigger] f(j) ==> i == j,
    ensures
        forall|k: int| 0 <= k < n ==> #[trigger] reaches(f, n, k),
{
    let from = set_int_range(0, n);
    let to = from.map(f);
    lemma_int_range(0, n);
    assert(vstd::relations::injective_on(f, from));
    lemma_map_size(from, to, f);
    assert(to.subset_of(from));
    lemma_subset_equality(to, from);
    assert forall|k: int| 0 <= k < n implies #[trigger] reaches(f, n, k) by {
        assert(from.contains(k));
        assert(to.contains(k));
        let i = choose|i: int| from.contains(i) && k == f(i);
        assert(0 <= i < n && f(i) == k);
    }
}

impl Grid {
    /// The digit at place `at` of group `index` of `kind`.
    pub open spec fn digit_at(self, kind: Kind, index: int, at: int) -> u8 {
        self.cell(member(kind, index, at).0, member(kind, index, at).1)
    }

    /// A place of group `index` of `kind` that holds `digit`.
    pub open spec fn place_of(self, kind: Kind, index: int, digit: int) -> int {
        choose|at: int| 0 <= at < 9 && self.digit_at(kind, index, at) == digit
    }

    proof fn lemma_members(kind: Kind, index: int, at: int)
        requires
            0 <= index < 9,
            0 <= at < 9,
        ensures
            in_grid(member(kind, index, at).0, member(kind, index, at).1),
            group_of(kind, member(kind, index, at).0, member(kind, index, at).1) == index,
            place_in(kind, member(kind, index, at).0, member(kind, index, at).1) == at,
    {
    }

    proof fn lemma_places(kind: Kind, row: int, col: int)
        requires
            in_grid(row, col),
        ensures
            0 <= group_of(kind, row, col) < 9,
            0 <= place_in(kind, row, col) < 9,
            member(kind, group_of(kind, row, col), place_in(kind, row, col)) == (row, col),
    {
    }

    /// In a group with all nine digits recorded, every place holds a digit
    /// and no two places hold the same.
    proof fn lemma_full_group(self, kind: Kind, index: int)
        requires
            self.wf(),
            0 <= index < 9,
            self.used(kind, index) == digits(),
        ensures
            forall|at: int| 0 <= at < 9 ==> #[trigger] self.digit_at(kind, index, at) != 0,
            forall|at: int, other: int|
                0 <= at < 9 && 0 <= other < 9 && at != other ==> #[trigger] self.digit_at(
                    kind,
                    index,
                    at,
                ) != #[trigger] self.digit_at(kind, index, other),
    {
        let f = |j: int| self.place_of(kind, index, j + 1);
        assert forall|j: int| 0 <= j < 9 implies 0 <= #[trigger] f(j) < 9 && self.digit_at(
            kind,
            index,
            f(j),
        ) == j + 1 by {
            assert(self.used(kind, index).contains(j + 1));
            assert(self.holds(kind, index, j + 1));
            let (r, c) = choose|r: int, c: int|
                in_grid(r, c) && group_of(kind, r, c) == index && #[trigger] self.cell(r, c) == j
                    + 1;
            Self::lemma_places(kind, r, c);
            assert(self.digit_at(kind, index, place_in(kind, r, c)) == j + 1);
        }
        lemma_onto(f, 9);
        assert forall|at: int| 0 <= at < 9 implies 1 <= #[trigger] self.digit_at(kind, index, at)
            <= 9 && f(self.digit_at(kind, index, at) - 1) == at by {
            assert(reaches(f, 9, at));
            let j = choose|j: int| 0 <= j < 9 && #[trigger] f(j) == at;
            assert(self.digit_at(kind, index, f(j)) == j + 1);
        }
    }

    /// In a group whose places hold nine different digits, all nine digits
    /// are recorded once the records are in step with the cells.
    proof fn lemma_solved_group(self, kind: Kind, index: int)
        requires
            self.wf(),
            self.in_sync(),
            self.is_solution(),
            0 <= index < 9,
        ensures
            self.used(kind, index) == digits(),
    {
        let f = |at: int| self.digit_at(kind, index, at) - 1;
        assert forall|at: int| 0 <= at < 9 implies 0 <= #[trigger] f(at) < 9 by {
            Self::lemma_members(kind, index, at);
            let (r, c) = member(kind, index, at);
            assert(self.cell(r, c) != 0);
            assert(self.cells[r * 9 + c] <= 9);
        }
        assert forall|at: int, other: int|
            0 <= at < 9 && 0 <= other < 9 && #[trigger] f(at) == #[trigger] f(other) implies at
            == other by {
            Self::lemma_members(kind, index, at);
            Self::lemma_members(kind, index, other);
            let (r, c) = member(kind, index, at);
            let (r2, c2) = member(kind, index, other);
            if at != other {
                Self::lemma_group_peers(kind, r, c, r2, c2);
                assert(peers(r, c, r2, c2));
                assert(self.cell(r, c) != 0);
            }
        }
        lemma_onto(f, 9);
        assert forall|digit: int| digits().contains(digit) implies self.used(kind, index).contains(
            digit,
        ) by {
            assert(reaches(f, 9, digit - 1));
            let at = choose|at: int| 0 <= at < 9 && #[trigger] f(at) == digit - 1;
            Self::lemma_members(kind, index, at);
            let (r, c) = member(kind, index, at);
            assert(self.cell(r, c) == digit);
            assert(self.recorded(kind, r, c));
        }
        assert(self.used(kind, index) =~= digits());
    }

    /// A grid with all nine digits recorded in every row, column and box has
    /// no blank cell and no digit twice in a group. Where the records are in
    /// step with the cells, the converse holds too.
    pub proof fn lemma_won_is_solved(self)
        requires
            self.wf(),
        ensures
            self.all_full() ==> self.is_solution(),
            self.in_sync() ==> (self.all_full() <==> self.is_solution()),
    {
        if self.all_full() {
            assert forall|row: int, col: int| in_grid(row, col) implies #[trigger] self.cell(
                row,
                col,
            ) != 0 by {
                Self::lemma_places(Kind::Row, row, col);
                self.lemma_full_group(Kind::Row, row);
                assert(self.digit_at(Kind::Row, row, col) != 0);
            }
            assert forall|row: int, col: int, other_row: int, other_col: int|
                #[trigger] peers(row, col, other_row, other_col) && self.cell(row, col)
                    != 0 implies self.cell(row, col) != self.cell(other_row, other_col) by {
                let kind = Self::lemma_peers_share(row, col, other_row, other_col);
                let index = group_of(kind, row, col);
                Self::lemma_places(kind, row, col);
                Self::lemma_places(kind, other_row, other_col);
                self.lemma_full_group(kind, index);
                let at = place_in(kind, row, col);
                let other = place_in(kind, other_row, other_col);
                assert(at != other);
                assert(self.digit_at(kind, index, at) != self.digit_at(kind, index, other));
            }
        }
        if self.in_sync() && self.is_solution() {
            assert forall|kind: Kind, index: int| 0 <= index < 9 implies #[trigger] self.used(
                kind,
                index,
            ) == digits() by {
                self.lemma_solved_group(kind, index);
            }
        }
    }
}

/// One change of a grid: a digit written to a cell, or a cell blanked.
pub enum Move {
    Write { row: int, col: int, digit: u8 },
    Blank { row: int, col: int },
}

impl Move {
    /// Whether the move names a cell of the grid and, if it writes, a digit
    /// of `1..=9`.
    pub open spec fn in_range(self) -> bool {
        match self {
            Move::Write { row, col, digit } => in_grid(row, col) && 1 <= digit <= 9,
            Move::Blank { row, col } => in_grid(row, col),
        }
    }
}

impl Grid {
    /// The grid after one move.
    pub open spec fn step(self, m: Move) -> Grid {
        match m {
            Move::Write { row, col, digit } => self.place(row, col, digit),
            Move::Blank { row, col } => self.clear(row, col),
        }
    }

    /// The grid after a sequence of moves.
    pub open spec fn play(self, moves: Seq<Move>) -> Grid
        decreases moves.len(),
    {
        if moves.len() == 0 {
            self
        } else {
            self.play(moves.drop_last()).step(moves.last())
        }
    }

    /// Whether the grid allows the move: a digit is written only where the
    /// cell allows it. Blanking a cell is always allowed.
    pub open spec fn permits(self, m: Move) -> bool {
        match m {
            Move::Write { row, col, digit } => self.allows(row, col, digit as int),
            Move::Blank { row, col } => true,
        }
    }

    /// Whether every move of the sequence is allowed at the moment it is
    /// made.
    pub open spec fn permits_all(self, moves: Seq<Move>) -> bool
        decreases moves.len(),
    {
        if moves.len() == 0 {
            true
        } else {
            self.permits_all(moves.drop_last()) && self.play(moves.drop_last()).permits(
                moves.last(),
            )
        }
    }

    /// Whatever moves are made on a well-formed grid, it stays well formed,
    /// and every filled cell has its own digit among those available to it.
    pub proof fn lemma_play_wf(self, moves: Seq<Move>)
        requires
            self.wf(),
            forall|i: int| 0 <= i < moves.len() ==> (#[trigger] moves[i]).in_range(),
        ensures
            self.play(moves).wf(),
            forall|row: int, col: int|
                in_grid(row, col) && #[trigger] self.play(moves).cell(row, col) != 0
                    ==> self.play(moves).available(row, col).contains(
                    self.play(moves).cell(row, col),
                ),
        decreases moves.len(),
    {
        if moves.len() > 0 {
            self.lemma_play_wf(moves.drop_last());
            let before = self.play(moves.drop_last());
            match moves.last() {
                Move::Write { row, col, digit } => before.lemma_place_wf(row, col, digit),
                Move::Blank { row, col } => before.lemma_clear_wf(row, col),
            }
        }
        let after = self.play(moves);
        assert forall|row: int, col: int|
            in_grid(row, col) && #[trigger] after.cell(row, col) != 0 implies after.available(
            row,
            col,
        ).contains(after.cell(row, col)) by {
            after.lemma_own_digit_available(row, col);
        }
    }

    /// Whatever moves are made on a valid grid, each allowed at the moment
    /// it is made, the grid stays valid: the digits available to a cell are
    /// the digits of `1..=9` that no peer of the cell holds, and the cell's
    /// own digit is among them.
    pub proof fn lemma_play_valid(self, moves: Seq<Move>)
        requires
            self.valid(),
            forall|i: int| 0 <= i < moves.len() ==> (#[trigger] moves[i]).in_range(),
            self.permits_all(moves),
        ensures
            self.play(moves).valid(),
            forall|row: int, col: int, digit: u8, r: int, c: int|
                #![trigger self.play(moves).available(row, col).contains(digit), peers(row, col, r, c)]
                self.play(moves).available(row, col).contains(digit) && peers(row, col, r, c)
                    ==> self.play(moves).cell(r, c) != digit,
            forall|row: int, col: int|
                in_grid(row, col) && #[trigger] self.play(moves).cell(row, col) != 0
                    ==> self.play(moves).available(row, col).contains(
                    self.play(moves).cell(row, col),
                ),
        decreases moves.len(),
    {
        if moves.len() > 0 {
            self.lemma_play_valid(moves.drop_last());
            let before = self.play(moves.drop_last());
            match moves.last() {
                Move::Write { row, col, digit } => before.lemma_place_valid(row, col, digit),
                Move::Blank { row, col } => before.lemma_clear_valid(row, col),
            }
        }
        let after = self.play(moves);
        assert forall|row: int, col: int, digit: u8, r: int, c: int|
            #![trigger after.available(row, col).contains(digit), peers(row, col, r, c)]
            after.available(row, col).contains(digit) && peers(row, col, r, c) implies after.cell(
            r,
            c,
        ) != digit by {
            after.lemma_available_by_peers(row, col);
        }
        assert forall|row: int, col: int|
            in_grid(row, col) && #[trigger] after.cell(row, col) != 0 implies after.available(
            row,
            col,
        ).contains(after.cell(row, col)) by {
            after.lemma_own_digit_available(row, col);
        }
    }
}

} // verus!
