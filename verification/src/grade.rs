//! The difficulty grader: a backtracking walk that does not stop at the
//! first completion but goes on, and counts how often it finds a cell with
//! no candidate left to try.

use vstd::prelude::*;
use crate::board::Board;
use crate::grid::{in_grid, lemma_candidates, Grid};
use crate::search::{
    coords, is_search_order, lemma_measure_back, lemma_measure_forward, lemma_search_order_unique,
    search_queue, slot_counts, walk_measure, Slot,
};

verus! {

/// The number of dead ends beyond which the grader stops counting.
pub const COMPLEXITY_CAP: usize = 100_000;

/// The result of grading. `dfs_complexity` counts the dead ends of the walk,
/// and shows how hard a completion is to find; `empty_slot_count` is the
/// number of cells that were blank.
#[derive(Copy, Clone, Debug)]
pub struct Score {
    pub dfs_complexity: usize,
    pub empty_slot_count: usize,
}

/// A grader of boards. It does not ask that a board has one completion; a
/// board with several has, on average, the greater complexity.
#[derive(Copy, Clone, Debug)]
pub struct Grade {}

/// A moment of the grader's walk: the grid, for each slot of the order how
/// many candidates of its cell were tried, the slot where the walk stands,
/// the dead ends counted so far, and whether the walk has ended.
pub struct Walk {
    pub grid: Grid,
    pub tried: Seq<int>,
    pub cur: int,
    pub dead_ends: int,
    pub halted: bool,
}

/// The walk before its first step. A walk over no cell has ended at once.
pub open spec fn walk_start(g: Grid, order: Seq<(int, int)>) -> Walk {
    Walk {
        grid: g,
        tried: Seq::new(order.len(), |i: int| 0int),
        cur: 0,
        dead_ends: 0,
        halted: order.len() == 0,
    }
}

/// One step of the walk.
///
/// Where the cell of the slot has a candidate that was not tried, the next
/// one is written and counted as tried, and the walk moves on; from the
/// last slot it moves on by dropping back to the slot before, with the last
/// cell blank again, so that it goes on after a completion. Where all
/// candidates were tried, the walk has found a dead end: at the first slot
/// it ends; elsewhere it blanks the cell, forgets what was tried there and
/// moves back, and ends if it has counted more dead ends than the cap.
pub open spec fn walk_step(order: Seq<(int, int)>, w: Walk) -> Walk {
    if w.halted {
        w
    } else {
        let (row, col) = order[w.cur];
        let free = w.grid.available(row, col);
        let k = w.tried[w.cur];
        if k < free.len() {
            let written = w.grid.place(row, col, free[k]);
            let tried = w.tried.update(w.cur, k + 1);
            if w.cur + 1 < order.len() {
                Walk { grid: written, tried, cur: w.cur + 1, dead_ends: w.dead_ends, halted: false }
            } else {
                Walk {
                    grid: written.clear(row, col),
                    tried,
                    cur: if w.cur >= 1 {
                        w.cur - 1
                    } else {
                        0
                    },
                    dead_ends: w.dead_ends,
                    halted: false,
                }
            }
        } else if w.cur == 0 {
            Walk {
                grid: w.grid,
                tried: w.tried,
                cur: w.cur,
                dead_ends: w.dead_ends + 1,
                halted: true,
            }
        } else {
            Walk {
                grid: w.grid.clear(row, col),
                tried: w.tried.update(w.cur, 0),
                cur: w.cur - 1,
                dead_ends: w.dead_ends + 1,
                halted: w.dead_ends + 1 > COMPLEXITY_CAP,
            }
        }
    }
}

/// The walk after `steps` steps from `w`.
pub open spec fn walk(order: Seq<(int, int)>, w: Walk, steps: nat) -> Walk
    decreases steps,
{
    if steps == 0 {
        w
    } else {
        walk_step(order, walk(order, w, (steps - 1) as nat))
    }
}

/// Whether grading a board with the grid `g` ends in the walk `end`.
pub open spec fn graded(g: Grid, end: Walk) -> bool {
    exists|order: Seq<(int, int)>, steps: nat|
        is_search_order(g, order) && #[trigger] walk(order, walk_start(g, order), steps) == end
            && end.halted && end.tried.len() == order.len()
}

/// A walk that has ended stays as it is.
pub proof fn lemma_walk_settles(order: Seq<(int, int)>, w: Walk, steps: nat, later: nat)
    requires
        walk(order, w, steps).halted,
        steps <= later,
    ensures
        walk(order, w, later) == walk(order, w, steps),
    decreases later,
{
    if steps < later {
        lemma_walk_settles(order, w, steps, (later - 1) as nat);
    }
}

/// Grading ends in one walk only.
pub proof fn lemma_graded_once(g: Grid, a: Walk, b: Walk)
    requires
        graded(g, a),
        graded(g, b),
    ensures
        a == b,
{
    let (order_a, steps_a) = choose|order: Seq<(int, int)>, steps: nat|
        is_search_order(g, order) && #[trigger] walk(order, walk_start(g, order), steps) == a
            && a.halted && a.tried.len() == order.len();
    let (order_b, steps_b) = choose|order: Seq<(int, int)>, steps: nat|
        is_search_order(g, order) && #[trigger] walk(order, walk_start(g, order), steps) == b
            && b.halted && b.tried.len() == order.len();
    lemma_search_order_unique(g, order_a, order_b);
    if steps_a <= steps_b {
        lemma_walk_settles(order_a, walk_start(g, order_a), steps_a, steps_b);
    } else {
        lemma_walk_settles(order_a, walk_start(g, order_a), steps_b, steps_a);
    }
}

impl Grade {
    /// A grader.
    pub fn new() -> Grade {
        Grade {}
    }

    /// Grades a board: walks through its blank cells in search order, as
    /// `walk_step` says, until the walk ends, and reports the dead ends
    /// counted and the number of cells that were blank. The count is at
    /// most one above the cap, and zero for a board without a blank cell
    /// only. The board is left as the walk left it.
    pub fn grade(self, target: &mut Board) -> (score: Score)
        ensures
            final(target)@.wf(),
            score.dfs_complexity <= COMPLEXITY_CAP + 1,
            score.dfs_complexity == 0 <==> score.empty_slot_count == 0,
            exists|end: Walk| #[trigger]
                graded(old(target)@, end) && end.grid == final(target)@ && end.dead_ends
                    == score.dfs_complexity && end.tried.len() == score.empty_slot_count,
    {
        proof {
            use_type_invariant(&*target);
        }
        let mut queue: Vec<Slot> = search_queue(target);
        let ghost base = target@;
        let ghost order = coords(queue@);
        let ghost start = walk_start(base, order);
        let ghost mut steps: nat = 0;
        let n: usize = queue.len();
        let mut cur: usize = 0;
        let mut dfs_complexity: usize = 0;
        proof {
            assert(slot_counts(queue@) =~= start.tried);
        }
        while cur < n && dfs_complexity <= COMPLEXITY_CAP
            invariant
                n == queue.len(),
                n == order.len(),
                coords(queue@) == order,
                base == old(target)@,
                is_search_order(base, order),
                start == walk_start(base, order),
                target@.wf(),
                forall|i: int| 0 <= i < n ==> 0 <= (#[trigger] queue[i]).2 <= 9,
                cur < n || n == 0,
                n == 0 ==> dfs_complexity == 0,
                dfs_complexity <= COMPLEXITY_CAP + 1,
                walk(order, start, steps) == (Walk {
                    grid: target@,
                    tried: slot_counts(queue@),
                    cur: cur as int,
                    dead_ends: dfs_complexity as int,
                    halted: n == 0 || dfs_complexity > COMPLEXITY_CAP,
                }),
            decreases walk_measure(slot_counts(queue@), cur as int),
        {
            let slot = queue[cur];
            let x: usize = slot.0;
            let y: usize = slot.1;
            let ind: usize = slot.2;
            let ghost before = walk(order, start, steps);
            let ghost counts = slot_counts(queue@);
            proof {
                assert(order[cur as int] == (x as int, y as int));
                assert(in_grid(order[cur as int].0, order[cur as int].1));
                assert(counts[cur as int] == ind);
                assert(walk(order, start, steps + 1) == walk_step(order, before));
            }
            let free = target.avaliable_val(x, y);
            proof {
                lemma_candidates(target@.forbidden(x as int, y as int));
            }
            if ind < free.len() {
                let digit: u8 = free[ind];
                proof {
                    assert(free@.contains(digit));
                }
                target.unchecked_set(x, y, digit);
                queue[cur] = (x, y, ind + 1);
                proof {
                    assert(slot_counts(queue@) =~= counts.update(cur as int, ind + 1));
                    assert(coords(queue@) =~= order);
                }
                if cur + 1 < n {
                    proof {
                        lemma_measure_forward(counts, slot_counts(queue@), cur as int);
                    }
                    cur += 1;
                } else {
                    proof {
                        lemma_measure_back(
                            counts,
                            cur as int,
                            slot_counts(queue@),
                            if cur >= 1 {
                                cur - 1
                            } else {
                                0
                            },
                        );
                    }
                    if cur >= 1 {
                        cur -= 1;
                    }
                    target.unset(x, y);
                }
            } else {
                dfs_complexity += 1;
                if cur == 0 {
                    proof {
                        steps = steps + 1;
                        let end = walk(order, start, steps);
                        assert(end == (Walk {
                            grid: target@,
                            tried: counts,
                            cur: 0,
                            dead_ends: dfs_complexity as int,
                            halted: true,
                        }));
                        assert(graded(base, end));
                    }
                    return Score { dfs_complexity, empty_slot_count: n };
                }
                target.unset(x, y);
                queue[cur] = (x, y, 0);
                proof {
                    assert(slot_counts(queue@) =~= counts.update(cur as int, 0));
                    assert(coords(queue@) =~= order);
                    lemma_measure_back(counts, cur as int, slot_counts(queue@), cur - 1);
                }
                cur -= 1;
            }
            proof {
                steps = steps + 1;
            }
        }
        proof {
            assert(graded(base, walk(order, start, steps)));
        }
        Score { dfs_complexity, empty_slot_count: n }
    }
}

impl Default for Grade {
    fn default() -> Grade {
        Grade::new()
    }
}

} // verus!
