//! What a completion means by the rules of the game: on a valid grid, the
//! lists of digits that complete it are the solutions of the puzzle that the
//! grid poses.

use vstd::prelude::*;
use crate::grid::{in_grid, peers, Grid};
use crate::search::{
    completes, fill, is_search_order, legal_upto, lemma_fill_shape, lemma_search_order_is_path,
    lemma_search_order_unique,
};
use crate::solver::{single_completion, solvable};

verus! {

/// Whether the 81 cells `full` solve the puzzle that `g` poses: every cell
/// holds a digit of `1..=9`, no digit stands twice in a row, a column or a
/// box, and every digit of `g` stands where it stood.
pub open spec fn solves(g: Grid, full: Seq<u8>) -> bool {
    &&& full.len() == 81
    &&& forall|i: int| 0 <= i < 81 ==> 1 <= #[trigger] full[i] <= 9
    &&& forall|i: int| 0 <= i < 81 && g.cells[i] != 0 ==> #[trigger] full[i] == g.cells[i]
    &&& forall|row: int, col: int, other_row: int, other_col: int| #[trigger]
        peers(row, col, other_row, other_col) ==> full[row * 9 + col] != full[other_row * 9
            + other_col]
}

/// Whether the puzzle that `g` poses has a solution.
pub open spec fn has_solution(g: Grid) -> bool {
    exists|full: Seq<u8>| #[trigger] solves(g, full)
}

/// Whether the puzzle that `g` poses has one solution at most.
pub open spec fn one_solution_at_most(g: Grid) -> bool {
    forall|a: Seq<u8>, b: Seq<u8>| #[trigger] solves(g, a) && #[trigger] solves(g, b) ==> a == b
}

/// The digits that the cells `full` hold in the cells of `order`.
pub open spec fn digits_in(full: Seq<u8>, order: Seq<(int, int)>) -> Seq<u8> {
    Seq::new(order.len(), |i: int| full[order[i].0 * 9 + order[i].1])
}

/// Whether every filled cell of `g` holds what `full` holds there.
pub open spec fn within(g: Grid, full: Seq<u8>) -> bool {
    forall|i: int| 0 <= i < 81 && g.cells[i] != 0 ==> #[trigger] g.cells[i] == full[i]
}

/// Writing digits that are allowed when they are written keeps a valid
/// grid valid.
pub proof fn lemma_fill_valid(base: Grid, order: Seq<(int, int)>, digits: Seq<u8>, n: int)
    requires
        base.valid(),
        is_search_order(base, order),
        0 <= n <= order.len(),
        digits.len() == order.len(),
        legal_upto(base, order, digits, n),
    ensures
        fill(base, order, digits, n).valid(),
    decreases n,
{
    if n > 0 {
        lemma_fill_valid(base, order, digits, n - 1);
        let before = fill(base, order, digits, n - 1);
        assert(before.allows(order[n - 1].0, order[n - 1].1, digits[n - 1] as int));
        before.lemma_place_valid(order[n - 1].0, order[n - 1].1, digits[n - 1]);
    }
}

/// A list of digits that completes a valid grid leaves a valid grid that
/// solves it: no cell is blank and no digit stands twice in a group.
pub proof fn lemma_completion_solves(base: Grid, order: Seq<(int, int)>, digits: Seq<u8>)
    requires
        base.valid(),
        is_search_order(base, order),
        completes(base, order, digits),
    ensures
        fill(base, order, digits, order.len() as int).valid(),
        fill(base, order, digits, order.len() as int).is_solution(),
        solves(base, fill(base, order, digits, order.len() as int).cells),
        digits_in(fill(base, order, digits, order.len() as int).cells, order) == digits,
{
    let n = order.len() as int;
    let end = fill(base, order, digits, n);
    lemma_fill_valid(base, order, digits, n);
    lemma_search_order_is_path(base, order);
    assert forall|i: int| 0 <= i < n implies 1 <= #[trigger] digits[i] <= 9 by {
        assert(fill(base, order, digits, i).allows(order[i].0, order[i].1, digits[i] as int));
    }
    lemma_fill_shape(base, order, digits, n);
    assert forall|row: int, col: int| in_grid(row, col) implies #[trigger] end.cell(row, col)
        != 0 by {
        if base.cell(row, col) == 0 {
            let i = choose|i: int| 0 <= i < order.len() && #[trigger] order[i] == (row, col);
            assert(end.cell(order[i].0, order[i].1) == digits[i]);
        }
    }
    assert forall|i: int| 0 <= i < 81 implies 1 <= #[trigger] end.cells[i] <= 9 by {
        assert(in_grid(i / 9, i % 9));
        assert(end.cell(i / 9, i % 9) != 0);
    }
    assert forall|i: int| 0 <= i < 81 && base.cells[i] != 0 implies #[trigger] end.cells[i]
        == base.cells[i] by {
        assert(in_grid(i / 9, i % 9));
        assert(end.cell(i / 9, i % 9) == base.cell(i / 9, i % 9));
    }
    assert forall|row: int, col: int, other_row: int, other_col: int| #[trigger]
        peers(row, col, other_row, other_col) implies end.cells[row * 9 + col] != end.cells[other_row
        * 9 + other_col] by {
        assert(end.cell(row, col) != 0);
        assert(end.cell(row, col) != end.cell(other_row, other_col));
    }
    assert(digits_in(end.cells, order) =~= digits) by {
        assert forall|i: int| 0 <= i < n implies digits_in(end.cells, order)[i] == digits[i] by {
            assert(end.cell(order[i].0, order[i].1) == digits[i]);
        }
    }
}

proof fn lemma_solution_fills(base: Grid, order: Seq<(int, int)>, full: Seq<u8>, n: int)
    requires
        base.valid(),
        is_search_order(base, order),
        solves(base, full),
        0 <= n <= order.len(),
    ensures
        legal_upto(base, order, digits_in(full, order), n),
        fill(base, order, digits_in(full, order), n).valid(),
        within(fill(base, order, digits_in(full, order), n), full),
    decreases n,
{
    let digits = digits_in(full, order);
    if n > 0 {
        lemma_solution_fills(base, order, full, n - 1);
        let before = fill(base, order, digits, n - 1);
        let (row, col) = order[n - 1];
        let digit = digits[n - 1];
        assert(in_grid(order[n - 1].0, order[n - 1].1));
        assert(digit == full[row * 9 + col]);
        before.lemma_forbidden_by_peer(row, col, digit as int);
        if before.forbidden(row, col).contains(digit as int) {
            let (r, c) = choose|r: int, c: int| #[trigger]
                peers(row, col, r, c) && before.cell(r, c) == digit;
            assert(before.cells[r * 9 + c] == full[r * 9 + c]);
        }
        assert(before.allows(row, col, digit as int));
        before.lemma_place_valid(row, col, digit);
        let after = fill(base, order, digits, n);
        assert forall|i: int| 0 <= i < 81 && after.cells[i] != 0 implies #[trigger] after.cells[i]
            == full[i] by {
            if i != row * 9 + col {
                assert(before.cells[i] != 0 ==> before.cells[i] == full[i]);
            }
        }
        assert forall|i: int| 0 <= i < n implies (#[trigger] fill(base, order, digits, i)).allows(
            order[i].0,
            order[i].1,
            digits[i] as int,
        ) by {
            if i < n - 1 {
                assert(legal_upto(base, order, digits, n - 1));
            }
        }
    }
}

/// The digits that a solution of a valid grid holds in the blank cells of
/// the grid complete it.
pub proof fn lemma_solution_completes(base: Grid, order: Seq<(int, int)>, full: Seq<u8>)
    requires
        base.valid(),
        is_search_order(base, order),
        solves(base, full),
    ensures
        completes(base, order, digits_in(full, order)),
        fill(base, order, digits_in(full, order), order.len() as int).cells == full,
{
    let n = order.len() as int;
    let digits = digits_in(full, order);
    lemma_solution_fills(base, order, full, n);
    lemma_completion_solves(base, order, digits);
    let end = fill(base, order, digits, n);
    assert forall|i: int| 0 <= i < 81 implies end.cells[i] == full[i] by {
        assert(in_grid(i / 9, i % 9));
        assert(end.cell(i / 9, i % 9) != 0);
    }
    assert(end.cells =~= full);
}

/// A valid grid can be completed by the search exactly where the puzzle
/// that it poses has a solution.
pub proof fn lemma_solvable_by_the_rules(g: Grid, order: Seq<(int, int)>)
    requires
        g.valid(),
        is_search_order(g, order),
    ensures
        solvable(g) <==> has_solution(g),
{
    if solvable(g) {
        let (found_order, digits) = choose|found_order: Seq<(int, int)>, digits: Seq<u8>|
            is_search_order(g, found_order) && #[trigger] completes(g, found_order, digits);
        lemma_completion_solves(g, found_order, digits);
        assert(solves(g, fill(g, found_order, digits, found_order.len() as int).cells));
    }
    if exists|full: Seq<u8>| #[trigger] solves(g, full) {
        let full = choose|full: Seq<u8>| #[trigger] solves(g, full);
        lemma_solution_completes(g, order, full);
    }
}

/// A valid grid has one completion at most exactly where the puzzle that it
/// poses has one solution at most.
pub proof fn lemma_single_by_the_rules(g: Grid, order: Seq<(int, int)>)
    requires
        g.valid(),
        is_search_order(g, order),
    ensures
        single_completion(g) <==> one_solution_at_most(g),
{
    if single_completion(g) {
        assert forall|a: Seq<u8>, b: Seq<u8>| #[trigger] solves(g, a) && #[trigger] solves(
            g,
            b,
        ) implies a == b by {
            lemma_solution_completes(g, order, a);
            lemma_solution_completes(g, order, b);
            assert(digits_in(a, order) == digits_in(b, order));
        }
    }
    if one_solution_at_most(g) {
        assert forall|other: Seq<(int, int)>, a: Seq<u8>, b: Seq<u8>|
            is_search_order(g, other) && #[trigger] completes(g, other, a) && #[trigger] completes(
                g,
                other,
                b,
            ) implies a == b by {
            lemma_search_order_unique(g, order, other);
            lemma_completion_solves(g, order, a);
            lemma_completion_solves(g, order, b);
            let n = order.len() as int;
            assert(solves(g, fill(g, order, a, n).cells));
            assert(solves(g, fill(g, order, b, n).cells));
            assert(fill(g, order, a, n).cells == fill(g, order, b, n).cells);
        }
    }
}

} // verus!
