//! The depth-first solver: a backtracking walk over the blank cells of a
//! board, in an order fixed when the search starts, and a test for a single
//! solution that resumes the walk from the solution it found first.

use vstd::prelude::*;
use crate::board::Board;
use crate::error::SuDoKuError;
use crate::grid::{in_grid, lemma_candidates, Grid};
use crate::search::{
    agree, ahead, beyond, completes, coords, digits_at, fill, filled, in_walk, is_search_order,
    lemma_ahead_back, lemma_ahead_forward, lemma_beyond_back, lemma_beyond_forward,
    lemma_choice_is_least, lemma_measure_back, lemma_measure_forward, lemma_search_order_is_path,
    lemma_search_order_unique, lemma_slots_back, lemma_slots_forward, lemma_walk_back,
    lemma_walk_choice, lemma_walk_done, lemma_walk_forward, lemma_walk_stuck, lex_less,
    next_candidate, search_queue, slots_follow, stuck, trail_counts, walk_measure, Slot,
};
use crate::solution::{
    has_solution, lemma_completion_solves, lemma_single_by_the_rules, lemma_solvable_by_the_rules,
    one_solution_at_most,
};

verus! {

/// Whether the blank cells of `g` can be filled, in search order, each with
/// a digit that its row, column and box allow at that moment.
pub open spec fn solvable(g: Grid) -> bool {
    exists|order: Seq<(int, int)>, digits: Seq<u8>|
        is_search_order(g, order) && #[trigger] completes(g, order, digits)
}

/// Whether `digits` completes `g` along `order` and no completion comes
/// before it in the order of the dictionary.
pub open spec fn is_first_completion(g: Grid, order: Seq<(int, int)>, digits: Seq<u8>) -> bool {
    &&& completes(g, order, digits)
    &&& forall|other: Seq<u8>| #[trigger]
        completes(g, order, other) ==> other == digits || lex_less(digits, other)
}

/// Whether `digits` is the completion of `g` that follows `prior` in the
/// order of the dictionary.
pub open spec fn is_next_completion(
    g: Grid,
    order: Seq<(int, int)>,
    prior: Seq<u8>,
    digits: Seq<u8>,
) -> bool {
    &&& completes(g, order, digits)
    &&& lex_less(prior, digits)
    &&& forall|other: Seq<u8>| #[trigger]
        completes(g, order, other) && lex_less(prior, other) ==> other == digits || lex_less(
            digits,
            other,
        )
}

/// Whether `g` has a blank cell.
pub open spec fn has_blank(g: Grid) -> bool {
    exists|row: int, col: int| in_grid(row, col) && #[trigger] g.cell(row, col) == 0
}

/// Whether no two different lists of digits complete `g`.
pub open spec fn single_completion(g: Grid) -> bool {
    forall|order: Seq<(int, int)>, a: Seq<u8>, b: Seq<u8>|
        is_search_order(g, order) && #[trigger] completes(g, order, a) && #[trigger] completes(
            g,
            order,
            b,
        ) ==> a == b
}

/// What `unique` answers for a board with the grid `g`: an error where `g`
/// cannot be completed; else whether `g` has a blank cell and one
/// completion. A grid without a blank cell is its own only completion and
/// still counts as not unique, since the search has no cell to try again.
pub open spec fn unique_outcome(g: Grid) -> Result<bool, SuDoKuError> {
    if !solvable(g) {
        Err(SuDoKuError::NotSolveable)
    } else {
        Ok(has_blank(g) && single_completion(g))
    }
}

/// What `unique` answers is decided by the grid of the board alone: asked
/// of two boards with one grid, or twice of copies of one board, it answers
/// the same.
pub proof fn lemma_unique_repeats(first: Grid, second: Grid)
    requires
        first == second,
    ensures
        unique_outcome(first) == unique_outcome(second),
{
}

/// What `unique` answers for a board with the valid grid `g`, by the rules
/// of the game: an error where the puzzle that `g` poses has no solution;
/// else whether `g` has a blank cell and the puzzle one solution only.
pub open spec fn unique_by_the_rules(g: Grid) -> Result<bool, SuDoKuError> {
    if !has_solution(g) {
        Err(SuDoKuError::NotSolveable)
    } else {
        Ok(has_blank(g) && one_solution_at_most(g))
    }
}

/// The trail of `n` cells before any digit is written.
pub open spec fn blank_trail(n: nat) -> Seq<u8> {
    Seq::new(n, |i: int| 0u8)
}

/// A solver that remembers the slots of its last successful search.
#[derive(Debug)]
pub struct DfsSolver {
    path: Option<Vec<Slot>>,
}

/// A copy of a list of slots.
fn copy_slots(slots: &Vec<Slot>) -> (copy: Vec<Slot>)
    ensures
        copy@ == slots@,
{
    let mut copy: Vec<Slot> = Vec::with_capacity(slots.len());
    let mut i: usize = 0;
    while i < slots.len()
        invariant
            i <= slots.len(),
            copy@ == slots@.take(i as int),
        decreases slots.len() - i,
    {
        copy.push(slots[i]);
        proof {
            assert(slots@.take(i as int).push(slots@[i as int]) =~= slots@.take(i + 1));
        }
        i += 1;
    }
    proof {
        assert(slots@.take(slots.len() as int) =~= slots@);
    }
    copy
}

impl DfsSolver {
    /// The slots that the solver remembers, if its last search succeeded.
    pub closed spec fn trail(&self) -> Option<Seq<Slot>> {
        match self.path {
            Some(slots) => Some(slots@),
            None => None,
        }
    }

    /// A solver that remembers nothing.
    pub fn new() -> (solver: DfsSolver)
        ensures
            solver.trail() is None,
    {
        DfsSolver { path: None }
    }

    /// Whether the first search of `unique` found `first` and its second
    /// search ended with `found`, as far as that decides the answer.
    proof fn lemma_second_search(g: Grid, order: Seq<(int, int)>, first: Seq<u8>, found: bool)
        requires
            is_search_order(g, order),
            is_first_completion(g, order, first),
            order.len() > 0,
            found ==> exists|second: Seq<u8>| #[trigger]
                completes(g, order, second) && lex_less(first, second),
            !found ==> forall|other: Seq<u8>| #[trigger]
                completes(g, order, other) ==> !lex_less(first, other),
        ensures
            unique_outcome(g) == Ok::<bool, SuDoKuError>(!found),
    {
        assert(solvable(g));
        assert(g.cell(order[0].0, order[0].1) == 0);
        assert(has_blank(g));
        if found {
            let second = choose|second: Seq<u8>| #[trigger]
                completes(g, order, second) && lex_less(first, second);
            assert(first != second);
        } else {
            assert forall|other_order: Seq<(int, int)>, a: Seq<u8>, b: Seq<u8>|
                is_search_order(g, other_order) && #[trigger] completes(g, other_order, a)
                    && #[trigger] completes(g, other_order, b) implies a == b by {
                lemma_search_order_unique(g, order, other_order);
            }
        }
    }

    /// The walk of the search. It starts at slot `start_cur` of `queue`
    /// and, for the slot where it stands, writes the least available digit
    /// above the cell's own and moves on; where there is none it blanks the
    /// cell and moves back, or gives up at the first slot. It succeeds when
    /// it has passed the last slot, and remembers the slots if it does.
    ///
    /// `base` is the grid before the search wrote to it, `order` the cells
    /// of `queue`, and `start` the digits that the board holds in them when
    /// the walk starts. A completion that comes out is the first that lies
    /// ahead of the start; where none comes out, none lies ahead.
    fn solve_do(
        &mut self,
        board: &mut Board,
        queue: Vec<Slot>,
        start_cur: usize,
        Ghost(base): Ghost<Grid>,
        Ghost(order): Ghost<Seq<(int, int)>>,
        Ghost(start): Ghost<Seq<u8>>,
    ) -> (res: Result<Vec<Slot>, SuDoKuError>)
        requires
            order == coords(queue@),
            in_walk(base, order, old(board)@, start, start_cur as int),
            slots_follow(base, order, queue@, start, filled(start, start_cur as int)),
            start_cur < order.len() || order.len() == 0,
        ensures
            final(board)@.wf(),
            order.len() == 0 ==> res is Ok,
            match res {
                Ok(slots) => {
                    let digits = digits_at(final(board)@, order);
                    &&& final(self).trail() == Some(slots@)
                    &&& order == coords(slots@)
                    &&& completes(base, order, digits)
                    &&& final(board)@ == fill(base, order, digits, order.len() as int)
                    &&& slots_follow(base, order, slots@, digits, order.len() as int)
                    &&& order.len() == 0 ==> final(board)@ == old(board)@
                    &&& order.len() > 0 ==> ahead(digits, start, start_cur as int)
                    &&& forall|other: Seq<u8>| #[trigger]
                        completes(base, order, other) && ahead(other, start, start_cur as int)
                            ==> other == digits || lex_less(digits, other)
                },
                Err(e) => {
                    &&& e == SuDoKuError::NotSolveable
                    &&& final(self).trail() is None
                    &&& final(board)@ == stuck(base, order)
                    &&& forall|other: Seq<u8>| #[trigger]
                        completes(base, order, other) ==> !ahead(other, start, start_cur as int)
                },
            },
    {
        let mut queue = queue;
        let ghost mut trail = start;
        let n: usize = queue.len();
        let mut cur: usize = start_cur;
        while cur < n
            invariant
                n == queue.len(),
                n == order.len(),
                cur <= n,
                start_cur < n || n == 0,
                start.len() == n,
                coords(queue@) == order,
                in_walk(base, order, board@, trail, cur as int),
                slots_follow(base, order, queue@, trail, filled(trail, cur as int)),
                beyond(trail, start, start_cur as int, cur as int),
                forall|other: Seq<u8>| #[trigger]
                    completes(base, order, other) && ahead(other, start, start_cur as int) ==> (cur
                        == n && other == trail) || ahead(other, trail, cur as int),
            decreases walk_measure(trail_counts(trail), cur as int),
        {
            let slot = queue[cur];
            let x: usize = slot.0;
            let y: usize = slot.1;
            let ghost now = board@;
            proof {
                assert(order[cur as int] == (x as int, y as int));
                lemma_walk_choice(base, order, now, trail, cur as int);
            }
            let free = board.avaliable_val(x, y);
            let own: u8 = match board.unchecked_get(x, y) {
                Some(digit) => digit,
                None => 0,
            };
            proof {
                lemma_candidates(now.forbidden(x as int, y as int));
            }
            let choice = next_candidate(&free, own);
            proof {
                lemma_choice_is_least(now, x as int, y as int, own, choice);
            }
            match choice {
                Some(k) => {
                    let digit: u8 = free[k];
                    proof {
                        let next = trail.update(cur as int, digit);
                        lemma_walk_forward(base, order, now, trail, cur as int, digit);
                        lemma_beyond_forward(trail, start, start_cur as int, cur as int, digit);
                        assert forall|other: Seq<u8>| #[trigger]
                            completes(base, order, other) && ahead(
                                other,
                                start,
                                start_cur as int,
                            ) implies (cur + 1 == n && other == next) || ahead(
                            other,
                            next,
                            cur + 1,
                        ) by {
                            lemma_ahead_forward(base, order, now, trail, cur as int, digit, other);
                        }
                        lemma_measure_forward(trail_counts(trail), trail_counts(next), cur as int);
                        lemma_slots_forward(base, order, now, queue@, trail, cur as int, k);
                    }
                    board.unchecked_set(x, y, digit);
                    queue[cur] = (x, y, k + 1);
                    proof {
                        trail = trail.update(cur as int, digit);
                        assert(coords(queue@) =~= order);
                    }
                    cur += 1;
                },
                None => {
                    if cur == 0 {
                        proof {
                            lemma_walk_stuck(base, order, now, trail);
                            assert forall|other: Seq<u8>| #[trigger]
                                completes(base, order, other) implies !ahead(
                                other,
                                start,
                                start_cur as int,
                            ) by {
                                if ahead(other, start, start_cur as int) {
                                    lemma_ahead_back(base, order, now, trail, 0, other);
                                }
                            }
                        }
                        self.path = None;
                        return Err(SuDoKuError::NotSolveable);
                    }
                    proof {
                        let next = trail.update(cur as int, 0);
                        lemma_walk_back(base, order, now, trail, cur as int);
                        lemma_beyond_back(trail, start, start_cur as int, cur as int);
                        assert forall|other: Seq<u8>| #[trigger]
                            completes(base, order, other) && ahead(
                                other,
                                start,
                                start_cur as int,
                            ) implies ahead(other, next, cur - 1) by {
                            lemma_ahead_back(base, order, now, trail, cur as int, other);
                        }
                        lemma_measure_back(
                            trail_counts(trail),
                            cur as int,
                            trail_counts(next),
                            cur - 1,
                        );
                        lemma_slots_back(base, order, now, queue@, trail, cur as int);
                    }
                    board.unset(x, y);
                    queue[cur] = (x, y, 0);
                    proof {
                        trail = trail.update(cur as int, 0);
                        assert(coords(queue@) =~= order);
                    }
                    cur -= 1;
                },
            }
        }
        proof {
            lemma_walk_done(base, order, board@, trail);
            if n > 0 {
                assert(ahead(trail, start, start_cur as int));
            }
            assert forall|other: Seq<u8>| #[trigger]
                completes(base, order, other) && ahead(
                    other,
                    start,
                    start_cur as int,
                ) implies other == trail || lex_less(trail, other) by {
                if other != trail {
                    let k = choose|k: int|
                        0 <= k <= n && k < other.len() && #[trigger] agree(other, trail, k)
                            && other[k] > trail[k];
                    assert(agree(trail, other, k));
                }
            }
        }
        self.path = Some(copy_slots(&queue));
        Ok(queue)
    }

    /// Completes the board if that can be done: the blank cells are visited
    /// in search order, and the board is left with the first completion in
    /// the order of the dictionary. The slots of the search are returned,
    /// each with the place of its digit among the digits that were
    /// available to its cell. A board that cannot be completed is left
    /// stuck, and the search is reported as not solvable.
    pub fn solve(&mut self, board: &mut Board) -> (res: Result<Vec<Slot>, SuDoKuError>)
        ensures
            final(board)@.wf(),
            res is Ok <==> solvable(old(board)@),
            old(board)@.valid() ==> (res is Ok <==> has_solution(old(board)@)),
            match res {
                Ok(slots) => {
                    let order = coords(slots@);
                    let digits = digits_at(final(board)@, order);
                    &&& final(self).trail() == Some(slots@)
                    &&& is_search_order(old(board)@, order)
                    &&& is_first_completion(old(board)@, order, digits)
                    &&& final(board)@ == fill(old(board)@, order, digits, order.len() as int)
                    &&& slots_follow(old(board)@, order, slots@, digits, order.len() as int)
                    &&& old(board)@.valid() ==> final(board)@.valid()
                        && final(board)@.is_solution() && final(board)@.all_full()
                },
                Err(e) => {
                    &&& e == SuDoKuError::NotSolveable
                    &&& final(self).trail() is None
                    &&& exists|order: Seq<(int, int)>| #[trigger]
                        is_search_order(old(board)@, order) && final(board)@ == stuck(
                            old(board)@,
                            order,
                        )
                },
            },
    {
        proof {
            use_type_invariant(&*board);
        }
        self.path = None;
        let queue = search_queue(board);
        let ghost base = board@;
        let ghost order = coords(queue@);
        let ghost start = blank_trail(queue.len() as nat);
        proof {
            lemma_search_order_is_path(base, order);
            if base.valid() {
                lemma_solvable_by_the_rules(base, order);
            }
        }
        let res = self.solve_do(board, queue, 0, Ghost(base), Ghost(order), Ghost(start));
        proof {
            assert forall|other: Seq<u8>| #[trigger] completes(base, order, other) implies (
            order.len() == 0 || ahead(other, start, 0)) by {
                if order.len() > 0 {
                    assert(fill(base, order, other, 0).allows(
                        order[0].0,
                        order[0].1,
                        other[0] as int,
                    ));
                    assert(agree(other, start, 0));
                }
            }
            if res is Ok {
                let digits = digits_at(board@, order);
                assert forall|other: Seq<u8>| #[trigger]
                    completes(base, order, other) implies other == digits || lex_less(
                    digits,
                    other,
                ) by {
                    if order.len() == 0 {
                        assert(other =~= digits);
                    }
                }
                if base.valid() {
                    lemma_completion_solves(base, order, digits);
                    board@.lemma_won_is_solved();
                }
            } else {
                assert forall|other_order: Seq<(int, int)>, digits: Seq<u8>|
                    is_search_order(base, other_order) implies !#[trigger] completes(
                    base,
                    other_order,
                    digits,
                ) by {
                    lemma_search_order_unique(base, order, other_order);
                }
                assert(is_search_order(base, order));
            }
        }
        res
    }

    /// Whether the board has a blank cell and can be completed in one way
    /// only. The board is completed first; the search is resumed from that
    /// completion and looks for the next one. Where there is none the
    /// answer is `true` and the board is left stuck; where there is one the
    /// answer is `false` and the board holds it. A board that cannot be
    /// completed at all is reported as not solvable.
    pub fn unique(&mut self, board: &mut Board) -> (res: Result<bool, SuDoKuError>)
        ensures
            final(board)@.wf(),
            res == unique_outcome(old(board)@),
            old(board)@.valid() ==> res == unique_by_the_rules(old(board)@),
            exists|order: Seq<(int, int)>| #[trigger]
                is_search_order(old(board)@, order) && match res {
                    Ok(true) => final(board)@ == stuck(old(board)@, order),
                    Ok(false) => if order.len() == 0 {
                        final(board)@ == old(board)@
                    } else {
                        let digits = digits_at(final(board)@, order);
                        &&& final(board)@ == fill(old(board)@, order, digits, order.len() as int)
                        &&& exists|first: Seq<u8>| #[trigger]
                            is_first_completion(old(board)@, order, first) && is_next_completion(
                                old(board)@,
                                order,
                                first,
                                digits,
                            )
                    },
                    Err(_) => final(board)@ == stuck(old(board)@, order),
                },
    {
        proof {
            use_type_invariant(&*board);
        }
        let ghost base = board@;
        let first = self.solve(board);
        proof {
            if base.valid() {
                let order = choose|order: Seq<(int, int)>| is_search_order(base, order);
                lemma_solvable_by_the_rules(base, order);
                lemma_single_by_the_rules(base, order);
            }
        }
        match first {
            Err(e) => Err(e),
            Ok(slots) => {
                let ghost order = coords(slots@);
                let ghost found = digits_at(board@, order);
                let n: usize = slots.len();
                let cur: usize = if n == 0 {
                    0
                } else {
                    n - 1
                };
                proof {
                    lemma_search_order_is_path(base, order);
                    assert forall|i: int| 0 <= i < found.len() implies 1 <= #[trigger] found[i]
                        <= 9 by {
                        assert(fill(base, order, found, i).allows(
                            order[i].0,
                            order[i].1,
                            found[i] as int,
                        ));
                    }
                    if n == 0 {
                        assert(!has_blank(base));
                        assert(solvable(base));
                    }
                }
                let second = self.solve_do(board, slots, cur, Ghost(base), Ghost(order), Ghost(found));
                proof {
                    if n > 0 {
                        assert forall|other: Seq<u8>| other.len() == n implies (lex_less(
                            found,
                            other,
                        ) <==> ahead(other, found, cur as int)) by {
                            if lex_less(found, other) {
                                let k = choose|k: int|
                                    0 <= k < found.len() && k < other.len() && #[trigger] agree(
                                        found,
                                        other,
                                        k,
                                    ) && found[k] < other[k];
                                assert(agree(other, found, k));
                            }
                            if ahead(other, found, cur as int) {
                                let k = choose|k: int|
                                    0 <= k <= cur && k < other.len() && #[trigger] agree(
                                        other,
                                        found,
                                        k,
                                    ) && other[k] > found[k];
                                assert(agree(found, other, k));
                            }
                        }
                        if second is Ok {
                            let digits = digits_at(board@, order);
                            assert(completes(base, order, digits) && lex_less(found, digits));
                            assert(is_next_completion(base, order, found, digits));
                        }
                        Self::lemma_second_search(base, order, found, second is Ok);
                    }
                }
                Ok(second.is_err())
            },
        }
    }
}

impl Clone for DfsSolver {
    fn clone(&self) -> (copy: DfsSolver)
        ensures
            copy.trail() == self.trail(),
    {
        match &self.path {
            Some(slots) => DfsSolver { path: Some(copy_slots(slots)) },
            None => DfsSolver { path: None },
        }
    }
}

impl Default for DfsSolver {
    fn default() -> (solver: DfsSolver)
        ensures
            solver.trail() is None,
    {
        DfsSolver::new()
    }
}

} // verus!
