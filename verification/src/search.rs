//! What the solver and the grader share: the order in which the blank cells
//! of a board are visited, what it means to complete a board along that
//! order, and the measure that makes a backtracking walk end.

use vstd::prelude::*;
use crate::board::Board;
use crate::grid::{in_grid, lemma_candidates, Grid};

verus! {

/// The bookkeeping of one blank cell during a search: its row, its column,
/// and how many of its candidates were tried so far.
pub type Slot = (usize, usize, usize);

/// The cells that a list of slots names.
pub open spec fn coords(slots: Seq<Slot>) -> Seq<(int, int)> {
    Seq::new(slots.len(), |i: int| (slots[i].0 as int, slots[i].1 as int))
}

/// The rank of a blank cell in the search order: cells with fewer available
/// digits come first, and among equals the cell that comes first row by row.
pub open spec fn sort_key(g: Grid, row: int, col: int) -> int {
    g.available(row, col).len() * 81 + row * 9 + col
}

/// Whether `order` lists different blank cells of `g`.
pub open spec fn is_path(g: Grid, order: Seq<(int, int)>) -> bool {
    &&& forall|i: int|
        0 <= i < order.len() ==> in_grid((#[trigger] order[i]).0, order[i].1) && g.cell(
            order[i].0,
            order[i].1,
        ) == 0
    &&& forall|i: int, j: int| 0 <= i < j < order.len() ==> #[trigger] order[i] != #[trigger] order[j]
}

/// Whether `order` is the order in which a search visits `g`: every blank
/// cell once, ascending by the number of digits available to it in `g`, and
/// row by row among cells with the same number.
pub open spec fn is_search_order(g: Grid, order: Seq<(int, int)>) -> bool {
    &&& forall|i: int|
        0 <= i < order.len() ==> in_grid((#[trigger] order[i]).0, order[i].1) && g.cell(
            order[i].0,
            order[i].1,
        ) == 0
    &&& forall|row: int, col: int|
        in_grid(row, col) && #[trigger] g.cell(row, col) == 0 ==> exists|i: int|
            0 <= i < order.len() && #[trigger] order[i] == (row, col)
    &&& forall|i: int, j: int|
        0 <= i < j < order.len() ==> sort_key(g, (#[trigger] order[i]).0, order[i].1) < sort_key(
            g,
            (#[trigger] order[j]).0,
            order[j].1,
        )
}

/// `base` with the first `n` cells of `order` filled, in turn, with the
/// first `n` of `digits`.
pub open spec fn fill(base: Grid, order: Seq<(int, int)>, digits: Seq<u8>, n: int) -> Grid
    decreases n,
{
    if n <= 0 {
        base
    } else {
        fill(base, order, digits, n - 1).place(order[n - 1].0, order[n - 1].1, digits[n - 1])
    }
}

/// Whether each of the first `n` of `digits` was allowed to its cell at the
/// moment it was written, the cells of `order` before it being filled.
pub open spec fn legal_upto(base: Grid, order: Seq<(int, int)>, digits: Seq<u8>, n: int) -> bool {
    forall|i: int|
        0 <= i < n ==> (#[trigger] fill(base, order, digits, i)).allows(
            order[i].0,
            order[i].1,
            digits[i] as int,
        )
}

/// Whether `digits` completes `base` along `order`: one digit for each cell
/// of `order`, each allowed at the moment it is written.
pub open spec fn completes(base: Grid, order: Seq<(int, int)>, digits: Seq<u8>) -> bool {
    digits.len() == order.len() && legal_upto(base, order, digits, order.len() as int)
}

/// Whether `a` and `b` hold the same values below index `k`.
pub open spec fn agree(a: Seq<u8>, b: Seq<u8>, k: int) -> bool {
    forall|i: int| 0 <= i < k ==> a[i] == b[i]
}

/// Whether `a` comes before `b` in the order of the dictionary.
pub open spec fn lex_less(a: Seq<u8>, b: Seq<u8>) -> bool {
    exists|k: int| 0 <= k < a.len() && k < b.len() && #[trigger] agree(a, b, k) && a[k] < b[k]
}

/// Whether `digits` lies beyond the point that a walk has reached: the walk
/// stands at cell `cur` of its order with the digits `trail` written, and
/// `digits` first departs from `trail` at or before `cur`, upwards.
pub open spec fn ahead(digits: Seq<u8>, trail: Seq<u8>, cur: int) -> bool {
    exists|k: int|
        0 <= k <= cur && k < digits.len() && #[trigger] agree(digits, trail, k) && digits[k]
            > trail[k]
}

/// How many cells of the order a walk at `cur` has filled.
pub open spec fn filled(trail: Seq<u8>, cur: int) -> int {
    if 0 <= cur < trail.len() && trail[cur] != 0 {
        cur + 1
    } else {
        cur
    }
}

/// The state of a walk: `now` is `base` with the cells of `order` before
/// `cur` filled with the digits of `trail`, each allowed when it was
/// written; the cell at `cur` is blank or filled; the cells behind it are
/// blank.
pub open spec fn in_walk(
    base: Grid,
    order: Seq<(int, int)>,
    now: Grid,
    trail: Seq<u8>,
    cur: int,
) -> bool {
    &&& base.wf()
    &&& is_path(base, order)
    &&& trail.len() == order.len()
    &&& 0 <= cur <= order.len()
    &&& forall|i: int|
        0 <= i < trail.len() ==> (#[trigger] trail[i]) <= 9 && (i < cur ==> trail[i] != 0) && (i
            > cur ==> trail[i] == 0)
    &&& now == fill(base, order, trail, filled(trail, cur))
    &&& legal_upto(base, order, trail, filled(trail, cur))
}

/// Whether slot `i` counts as tried the candidates of its cell up to the
/// digit that the trail has there: the digits that were available to the
/// cell when it was filled, up to and with its own.
pub open spec fn slot_marks(
    base: Grid,
    order: Seq<(int, int)>,
    slots: Seq<Slot>,
    trail: Seq<u8>,
    i: int,
) -> bool {
    let free = fill(base, order, trail, i).available(order[i].0, order[i].1);
    1 <= slots[i].2 <= free.len() && free[slots[i].2 - 1] == trail[i]
}

/// Whether the slots carry the cells of `order`, the first `upto` of them
/// the place of their digit among the digits that were available to their
/// cell, and the others no candidate as tried.
pub open spec fn slots_follow(
    base: Grid,
    order: Seq<(int, int)>,
    slots: Seq<Slot>,
    trail: Seq<u8>,
    upto: int,
) -> bool {
    &&& coords(slots) == order
    &&& forall|i: int| 0 <= i < upto ==> #[trigger] slot_marks(base, order, slots, trail, i)
    &&& forall|i: int| upto <= i < slots.len() ==> (#[trigger] slots[i]).2 == 0
}

/// The board on which a search gives up: the first cell of the order holds
/// the greatest digit available to it, if there is one, and the other blank
/// cells are blank again.
pub open spec fn stuck(base: Grid, order: Seq<(int, int)>) -> Grid {
    if order.len() == 0 || base.available(order[0].0, order[0].1).len() == 0 {
        base
    } else {
        base.place(order[0].0, order[0].1, base.available(order[0].0, order[0].1).last())
    }
}

/// The weight of a sequence of small numbers read as a number in base 11,
/// the first entry counting most.
pub open spec fn rank(s: Seq<int>) -> int
    decreases s.len(),
{
    if s.len() == 0 {
        0
    } else {
        11 * rank(s.drop_last()) + s.last()
    }
}

/// The greatest rank of a sequence of `n` entries of at most 10.
pub open spec fn ceiling(n: nat) -> int
    decreases n,
{
    if n == 0 {
        0
    } else {
        11 * ceiling((n - 1) as nat) + 10
    }
}

/// How far a walk has come: the counts before `cur` as they are, the count
/// at `cur` raised by one, and zero behind it.
pub open spec fn progress(counts: Seq<int>, cur: int) -> Seq<int> {
    Seq::new(
        counts.len(),
        |i: int|
            if i < cur {
                counts[i]
            } else if i == cur {
                counts[i] + 1
            } else {
                0
            },
    )
}

/// The steps that a walk at `cur` has left at most.
pub open spec fn steps_left(counts: Seq<int>, cur: int) -> int {
    ceiling(counts.len()) - rank(progress(counts, cur))
}

/// The rank of a sequence of entries of at most 10 is at most the ceiling
/// of its length.
pub proof fn lemma_rank_bound(s: Seq<int>)
    requires
        forall|i: int| 0 <= i < s.len() ==> 0 <= #[trigger] s[i] <= 10,
    ensures
        0 <= rank(s) <= ceiling(s.len()),
    decreases s.len(),
{
    if s.len() > 0 {
        lemma_rank_bound(s.drop_last());
    }
}

/// A sequence that first departs from another one upwards has the greater
/// rank.
pub proof fn lemma_rank_grows(a: Seq<int>, b: Seq<int>, k: int)
    requires
        a.len() == b.len(),
        0 <= k < a.len(),
        forall|i: int| 0 <= i < k ==> a[i] == b[i],
        a[k] < b[k],
        forall|i: int| 0 <= i < a.len() ==> 0 <= #[trigger] a[i] <= 10,
        forall|i: int| 0 <= i < b.len() ==> 0 <= #[trigger] b[i] <= 10,
    ensures
        rank(a) < rank(b),
    decreases a.len(),
{
    if k == a.len() - 1 {
        assert(a.drop_last() =~= b.drop_last());
    } else {
        lemma_rank_grows(a.drop_last(), b.drop_last(), k);
    }
}

/// A walk that departs upwards from where it stood, at or before its old
/// place and at or before its new one, has fewer steps left.
pub proof fn lemma_steps_shrink(old_counts: Seq<int>, old_cur: int, counts: Seq<int>, cur: int, k: int)
    requires
        old_counts.len() == counts.len(),
        0 <= k < counts.len(),
        forall|i: int| 0 <= i < counts.len() ==> 0 <= #[trigger] old_counts[i] <= 9,
        forall|i: int| 0 <= i < counts.len() ==> 0 <= #[trigger] counts[i] <= 9,
        forall|i: int| 0 <= i < k ==> progress(old_counts, old_cur)[i] == progress(counts, cur)[i],
        progress(old_counts, old_cur)[k] < progress(counts, cur)[k],
    ensures
        0 <= steps_left(counts, cur) < steps_left(old_counts, old_cur),
{
    lemma_rank_grows(progress(old_counts, old_cur), progress(counts, cur), k);
    lemma_rank_bound(progress(counts, cur));
}

/// `fill` reads no more than the first `n` digits.
pub proof fn lemma_fill_agree(base: Grid, order: Seq<(int, int)>, a: Seq<u8>, b: Seq<u8>, n: int)
    requires
        agree(a, b, n),
    ensures
        fill(base, order, a, n) == fill(base, order, b, n),
    decreases n,
{
    if n > 0 {
        assert(agree(a, b, n - 1));
        lemma_fill_agree(base, order, a, b, n - 1);
    }
}

/// Filling the first `n` cells of a path with digits of `1..=9` gives a
/// well-formed grid that holds those digits in those cells and is `base`
/// elsewhere.
pub proof fn lemma_fill_shape(base: Grid, order: Seq<(int, int)>, digits: Seq<u8>, n: int)
    requires
        base.wf(),
        is_path(base, order),
        0 <= n <= order.len(),
        digits.len() == order.len(),
        forall|i: int| 0 <= i < n ==> 1 <= #[trigger] digits[i] <= 9,
    ensures
        fill(base, order, digits, n).wf(),
        forall|i: int|
            0 <= i < n ==> fill(base, order, digits, n).cell(
                (#[trigger] order[i]).0,
                order[i].1,
            ) == digits[i],
        forall|i: int|
            n <= i < order.len() ==> fill(base, order, digits, n).cell(
                (#[trigger] order[i]).0,
                order[i].1,
            ) == 0,
        forall|row: int, col: int|
            in_grid(row, col) && base.cell(row, col) != 0 ==> #[trigger] fill(
                base,
                order,
                digits,
                n,
            ).cell(row, col) == base.cell(row, col),
    decreases n,
{
    if n > 0 {
        lemma_fill_shape(base, order, digits, n - 1);
        let before = fill(base, order, digits, n - 1);
        let (row, col) = order[n - 1];
        before.lemma_place_wf(row, col, digits[n - 1]);
        assert forall|r: int, c: int| in_grid(r, c) && base.cell(r, c) != 0 implies #[trigger] fill(
            base,
            order,
            digits,
            n,
        ).cell(r, c) == base.cell(r, c) by {
            before.lemma_place_cell(row, col, digits[n - 1], r, c);
        }
        assert forall|i: int| 0 <= i < order.len() implies fill(base, order, digits, n).cell(
            (#[trigger] order[i]).0,
            order[i].1,
        ) == (if i < n {
            digits[i]
        } else {
            0u8
        }) by {
            before.lemma_place_cell(row, col, digits[n - 1], order[i].0, order[i].1);
            if i != n - 1 {
                if i < n - 1 {
                    assert(order[i] != order[n - 1]);
                } else {
                    assert(order[n - 1] != order[i]);
                }
            }
        }
    }
}

/// A search order is a path.
pub proof fn lemma_search_order_is_path(g: Grid, order: Seq<(int, int)>)
    requires
        is_search_order(g, order),
    ensures
        is_path(g, order),
{
    assert forall|i: int, j: int| 0 <= i < j < order.len() implies #[trigger] order[i]
        != #[trigger] order[j] by {
        assert(sort_key(g, order[i].0, order[i].1) < sort_key(g, order[j].0, order[j].1));
    }
}

proof fn lemma_search_order_prefix(g: Grid, a: Seq<(int, int)>, b: Seq<(int, int)>, n: int)
    requires
        is_search_order(g, a),
        is_search_order(g, b),
        0 <= n <= a.len(),
    ensures
        n <= b.len(),
        forall|i: int| 0 <= i < n ==> a[i] == b[i],
    decreases n,
{
    if n > 0 {
        lemma_search_order_prefix(g, a, b, n - 1);
        let i = n - 1;
        let (row, col) = a[i];
        assert(g.cell(row, col) == 0);
        let j = choose|j: int| 0 <= j < b.len() && #[trigger] b[j] == (row, col);
        if j < i {
            assert(a[j] == b[j]);
            assert(sort_key(g, a[j].0, a[j].1) < sort_key(g, a[i].0, a[i].1));
        }
        let (row2, col2) = b[i];
        assert(g.cell(row2, col2) == 0);
        let j2 = choose|j2: int| 0 <= j2 < a.len() && #[trigger] a[j2] == (row2, col2);
        if j2 < i {
            assert(a[j2] == b[j2]);
            assert(sort_key(g, b[j2].0, b[j2].1) < sort_key(g, b[i].0, b[i].1));
        }
        if j > i {
            assert(sort_key(g, b[i].0, b[i].1) < sort_key(g, b[j].0, b[j].1));
            if j2 > i {
                assert(sort_key(g, a[i].0, a[i].1) < sort_key(g, a[j2].0, a[j2].1));
            }
        }
    }
}

/// A grid has one search order.
pub proof fn lemma_search_order_unique(g: Grid, a: Seq<(int, int)>, b: Seq<(int, int)>)
    requires
        is_search_order(g, a),
        is_search_order(g, b),
    ensures
        a == b,
{
    lemma_search_order_prefix(g, a, b, a.len() as int);
    lemma_search_order_prefix(g, b, a, b.len() as int);
    assert(a =~= b);
}

/// The digits that `g` holds in the cells of `order`.
pub open spec fn digits_at(g: Grid, order: Seq<(int, int)>) -> Seq<u8> {
    Seq::new(order.len(), |i: int| g.cell(order[i].0, order[i].1))
}

/// The index of the first entry of an ascending list that is greater than
/// `now`, found by halving the list.
pub fn next_candidate(free: &Vec<u8>, now: u8) -> (at: Option<usize>)
    requires
        forall|i: int, j: int| 0 <= i < j < free.len() ==> free[i] < free[j],
    ensures
        match at {
            Some(k) => k < free.len() && free[k as int] > now && forall|i: int|
                0 <= i < k ==> free[i] <= now,
            None => forall|i: int| 0 <= i < free.len() ==> free[i] <= now,
        },
{
    let mut lo: usize = 0;
    let mut hi: usize = free.len();
    while lo < hi
        invariant
            lo <= hi <= free.len(),
            forall|i: int, j: int| 0 <= i < j < free.len() ==> free[i] < free[j],
            forall|i: int| 0 <= i < lo ==> free[i] <= now,
            forall|i: int| hi <= i < free.len() ==> free[i] > now,
        decreases hi - lo,
    {
        let mid: usize = lo + (hi - lo) / 2;
        if free[mid] > now {
            hi = mid;
        } else {
            lo = mid + 1;
        }
    }
    if lo < free.len() {
        Some(lo)
    } else {
        None
    }
}

/// The position of the cell of a slot, counted row by row.
pub open spec fn position(slot: Slot) -> int {
    slot.0 * 9 + slot.1
}

/// Whether `blanks` lists blank cells of `g` row by row, each with the
/// number of digits available to it.
spec fn is_blank_list(g: Grid, blanks: Seq<Slot>) -> bool {
    &&& forall|j: int|
        0 <= j < blanks.len() ==> {
            let slot = #[trigger] blanks[j];
            &&& in_grid(slot.0 as int, slot.1 as int)
            &&& g.cell(slot.0 as int, slot.1 as int) == 0
            &&& slot.2 == g.available(slot.0 as int, slot.1 as int).len()
            &&& slot.2 <= 9
        }
    &&& forall|j: int, k: int|
        0 <= j < k < blanks.len() ==> position(#[trigger] blanks[j]) < position(
            #[trigger] blanks[k],
        )
}

/// Whether entry `from` of `blanks` has its turn before the pass for
/// `count` comes to entry `upto`.
spec fn taken(blanks: Seq<Slot>, from: int, count: int, upto: int) -> bool {
    blanks[from].2 < count || (blanks[from].2 == count && from < upto)
}

/// Whether `queue` is sorted and holds the entries of `blanks` that have
/// had their turn and no others, `source` telling for each slot of the
/// queue which entry it is, and `target` for each such entry where it went.
spec fn gathered(
    g: Grid,
    blanks: Seq<Slot>,
    queue: Seq<Slot>,
    source: Seq<int>,
    target: Seq<int>,
    count: int,
    upto: int,
) -> bool {
    &&& source.len() == queue.len()
    &&& target.len() == blanks.len()
    &&& forall|i: int|
        0 <= i < queue.len() ==> {
            let from = #[trigger] source[i];
            &&& 0 <= from < blanks.len()
            &&& queue[i] == (blanks[from].0, blanks[from].1, 0usize)
            &&& taken(blanks, from, count, upto)
        }
    &&& forall|from: int|
        0 <= from < blanks.len() && taken(blanks, from, count, upto) ==> {
            let i = #[trigger] target[from];
            0 <= i < queue.len() && source[i] == from
        }
    &&& forall|i: int, k: int|
        0 <= i < k < queue.len() ==> sort_key(g, (#[trigger] queue[i]).0 as int, queue[i].1 as int)
            < sort_key(g, (#[trigger] queue[k]).0 as int, queue[k].1 as int)
}

/// The blank cells of the board, row by row, each with the number of digits
/// available to it. The ghost result tells where each position of the board
/// stands in the list.
fn blank_cells(board: &Board) -> (res: (Vec<Slot>, Ghost<Seq<int>>))
    ensures
        is_blank_list(board@, res.0@),
        res.1@.len() == 81,
        forall|row: int, col: int|
            in_grid(row, col) && board@.cell(row, col) == 0 ==> {
                let j = #[trigger] res.1@[row * 9 + col];
                0 <= j < res.0.len() && res.0[j].0 == row && res.0[j].1 == col
            },
{
    proof {
        use_type_invariant(board);
    }
    let mut blanks: Vec<Slot> = Vec::with_capacity(81);
    let ghost mut place: Seq<int> = Seq::new(81, |i: int| -1);
    let mut pos: usize = 0;
    while pos < 81
        invariant
            pos <= 81,
            place.len() == 81,
            is_blank_list(board@, blanks@),
            forall|j: int| 0 <= j < blanks.len() ==> position(#[trigger] blanks[j]) < pos,
            forall|row: int, col: int|
                in_grid(row, col) && row * 9 + col < pos && board@.cell(row, col) == 0 ==> {
                    let j = #[trigger] place[row * 9 + col];
                    0 <= j < blanks.len() && blanks[j].0 == row && blanks[j].1 == col
                },
        decreases 81 - pos,
    {
        let x: usize = pos / 9;
        let y: usize = pos % 9;
        if board.is_empty(x, y) {
            let count: usize = board.avaliable_count(x, y);
            proof {
                place = place.update(pos as int, blanks.len() as int);
            }
            blanks.push((x, y, count));
        }
        pos += 1;
    }
    (blanks, Ghost(place))
}

/// The order in which a search visits the board: its blank cells, those
/// with the fewest available digits first, and row by row among cells with
/// the same number. No candidate of any slot counts as tried.
pub fn search_queue(board: &Board) -> (queue: Vec<Slot>)
    ensures
        is_search_order(board@, coords(queue@)),
        forall|i: int| 0 <= i < queue.len() ==> (#[trigger] queue[i]).2 == 0,
{
    let (blanks, Ghost(place)) = blank_cells(board);
    let mut queue: Vec<Slot> = Vec::with_capacity(81);
    let ghost g = board@;
    let ghost mut source: Seq<int> = Seq::empty();
    let ghost mut target: Seq<int> = Seq::new(blanks.len() as nat, |j: int| -1);
    let mut count: usize = 0;
    while count <= 9
        invariant
            count <= 10,
            is_blank_list(g, blanks@),
            gathered(g, blanks@, queue@, source, target, count as int, 0),
        decreases 10 - count,
    {
        let mut j: usize = 0;
        while j < blanks.len()
            invariant
                j <= blanks.len(),
                count <= 9,
                is_blank_list(g, blanks@),
                gathered(g, blanks@, queue@, source, target, count as int, j as int),
            decreases blanks.len() - j,
        {
            let slot = blanks[j];
            if slot.2 == count {
                proof {
                    assert forall|i: int| 0 <= i < queue.len() implies sort_key(
                        g,
                        (#[trigger] queue[i]).0 as int,
                        queue[i].1 as int,
                    ) < sort_key(g, slot.0 as int, slot.1 as int) by {
                        let from = source[i];
                        assert(queue[i] == (blanks[from].0, blanks[from].1, 0usize));
                        if blanks[from].2 == count {
                            assert(position(blanks[from]) < position(blanks[j as int]));
                        }
                    }
                    source = source.push(j as int);
                    target = target.update(j as int, queue.len() as int);
                }
                queue.push((slot.0, slot.1, 0));
            }
            j += 1;
        }
        count += 1;
    }
    proof {
        let order = coords(queue@);
        assert forall|row: int, col: int|
            in_grid(row, col) && #[trigger] g.cell(row, col) == 0 implies exists|i: int|
            0 <= i < order.len() && #[trigger] order[i] == (row, col) by {
            let j = place[row * 9 + col];
            assert(blanks[j].2 <= 9);
            let i = target[j];
            assert(source[i] == j);
            assert(order[i] == (row, col));
        }
        assert forall|i: int| 0 <= i < order.len() implies in_grid(
            (#[trigger] order[i]).0,
            order[i].1,
        ) && g.cell(order[i].0, order[i].1) == 0 by {
            let j = source[i];
            assert(queue[i] == (blanks[j].0, blanks[j].1, 0usize));
        }
        assert forall|i: int, k: int| 0 <= i < k < order.len() implies sort_key(
            g,
            (#[trigger] order[i]).0,
            order[i].1,
        ) < sort_key(g, (#[trigger] order[k]).0, order[k].1) by {
            assert(sort_key(g, queue[i].0 as int, queue[i].1 as int) < sort_key(
                g,
                queue[k].0 as int,
                queue[k].1 as int,
            ));
        }
        assert forall|i: int| 0 <= i < queue.len() implies (#[trigger] queue[i]).2 == 0 by {
            let j = source[i];
            assert(queue[i] == (blanks[j].0, blanks[j].1, 0usize));
        }
    }
    queue
}

/// Whether a walk that set out at cell `start_cur` with the digits `start`
/// written has come to a point beyond it: either it has only gone back so
/// far, or its trail departs from `start` upwards.
pub open spec fn beyond(trail: Seq<u8>, start: Seq<u8>, start_cur: int, cur: int) -> bool {
    ||| (cur <= start_cur && agree(trail, start, cur + 1))
    ||| ahead(
        trail,
        start,
        if cur < start_cur {
            cur
        } else {
            start_cur
        },
    )
}

/// At the cell where a walk stands, the board forbids what the board
/// forbade before the cell was filled.
pub proof fn lemma_walk_choice(
    base: Grid,
    order: Seq<(int, int)>,
    now: Grid,
    trail: Seq<u8>,
    cur: int,
)
    requires
        in_walk(base, order, now, trail, cur),
        cur < order.len(),
    ensures
        now.wf(),
        fill(base, order, trail, cur).wf(),
        fill(base, order, trail, cur).cell(order[cur].0, order[cur].1) == 0,
        now.cell(order[cur].0, order[cur].1) == trail[cur],
        now.forbidden(order[cur].0, order[cur].1) == fill(base, order, trail, cur).forbidden(
            order[cur].0,
            order[cur].1,
        ),
        trail[cur] != 0 ==> now == fill(base, order, trail, cur).place(
            order[cur].0,
            order[cur].1,
            trail[cur],
        ) && fill(base, order, trail, cur).allows(order[cur].0, order[cur].1, trail[cur] as int),
        trail[cur] == 0 ==> now == fill(base, order, trail, cur),
{
    let before = fill(base, order, trail, cur);
    let (row, col) = order[cur];
    lemma_fill_shape(base, order, trail, cur);
    assert(in_grid(order[cur].0, order[cur].1));
    if trail[cur] != 0 {
        assert(now == before.place(row, col, trail[cur]));
        assert(before.allows(row, col, trail[cur] as int));
        before.lemma_place_undo(row, col, trail[cur]);
        before.lemma_place_wf(row, col, trail[cur]);
        before.lemma_place_cell(row, col, trail[cur], row, col);
    }
}

/// A walk that writes an allowed digit to its cell and steps on is a walk.
pub proof fn lemma_walk_forward(
    base: Grid,
    order: Seq<(int, int)>,
    now: Grid,
    trail: Seq<u8>,
    cur: int,
    digit: u8,
)
    requires
        in_walk(base, order, now, trail, cur),
        cur < order.len(),
        now.allows(order[cur].0, order[cur].1, digit as int),
    ensures
        in_walk(
            base,
            order,
            now.place(order[cur].0, order[cur].1, digit),
            trail.update(cur, digit),
            cur + 1,
        ),
        forall|i: int|
            0 <= i <= cur ==> #[trigger] fill(base, order, trail.update(cur, digit), i) == fill(
                base,
                order,
                trail,
                i,
            ),
{
    let before = fill(base, order, trail, cur);
    let (row, col) = order[cur];
    let next = trail.update(cur, digit);
    lemma_walk_choice(base, order, now, trail, cur);
    assert forall|i: int| 0 <= i <= cur implies #[trigger] fill(base, order, next, i) == fill(
        base,
        order,
        trail,
        i,
    ) by {
        assert(agree(next, trail, i));
        lemma_fill_agree(base, order, next, trail, i);
    }
    if trail[cur] != 0 {
        before.lemma_place_undo(row, col, trail[cur]);
    }
    assert(fill(base, order, next, cur) == before);
    assert(fill(base, order, next, cur + 1) == before.place(row, col, digit));
    assert(now.place(row, col, digit) == before.place(row, col, digit));
    assert(filled(next, cur + 1) == cur + 1);
    assert forall|i: int| 0 <= i < cur + 1 implies (#[trigger] fill(base, order, next, i)).allows(
        order[i].0,
        order[i].1,
        next[i] as int,
    ) by {
        if i < cur {
            assert(fill(base, order, trail, i).allows(order[i].0, order[i].1, trail[i] as int));
        }
    }
}

/// A walk that blanks its cell and steps back is a walk.
pub proof fn lemma_walk_back(
    base: Grid,
    order: Seq<(int, int)>,
    now: Grid,
    trail: Seq<u8>,
    cur: int,
)
    requires
        in_walk(base, order, now, trail, cur),
        0 < cur < order.len(),
    ensures
        in_walk(
            base,
            order,
            now.clear(order[cur].0, order[cur].1),
            trail.update(cur, 0),
            cur - 1,
        ),
        forall|i: int|
            0 <= i <= cur ==> #[trigger] fill(base, order, trail.update(cur, 0), i) == fill(
                base,
                order,
                trail,
                i,
            ),
{
    let before = fill(base, order, trail, cur);
    let (row, col) = order[cur];
    let next = trail.update(cur, 0);
    lemma_walk_choice(base, order, now, trail, cur);
    assert forall|i: int| 0 <= i <= cur implies #[trigger] fill(base, order, next, i) == fill(
        base,
        order,
        trail,
        i,
    ) by {
        assert(agree(next, trail, i));
        lemma_fill_agree(base, order, next, trail, i);
    }
    if trail[cur] == 0 {
        before.lemma_clear_blank(row, col);
    } else {
        before.lemma_place_undo(row, col, trail[cur]);
    }
    assert(now.clear(row, col) == before);
    assert(filled(next, cur - 1) == cur);
    assert forall|i: int| 0 <= i < cur implies (#[trigger] fill(base, order, next, i)).allows(
        order[i].0,
        order[i].1,
        next[i] as int,
    ) by {
        assert(fill(base, order, trail, i).allows(order[i].0, order[i].1, trail[i] as int));
    }
}

/// A completion that lies ahead of a walk still lies ahead, or is reached,
/// when the walk writes the least digit that its cell allows above the
/// cell's own.
pub proof fn lemma_ahead_forward(
    base: Grid,
    order: Seq<(int, int)>,
    now: Grid,
    trail: Seq<u8>,
    cur: int,
    digit: u8,
    other: Seq<u8>,
)
    requires
        in_walk(base, order, now, trail, cur),
        cur < order.len(),
        completes(base, order, other),
        ahead(other, trail, cur),
        digit > trail[cur],
        forall|d: u8|
            d > trail[cur] && #[trigger] now.allows(order[cur].0, order[cur].1, d as int) ==> d
                >= digit,
    ensures
        (cur + 1 == order.len() && other == trail.update(cur, digit)) || ahead(
            other,
            trail.update(cur, digit),
            cur + 1,
        ),
{
    let next = trail.update(cur, digit);
    let k = choose|k: int|
        0 <= k <= cur && k < other.len() && #[trigger] agree(other, trail, k) && other[k]
            > trail[k];
    if k < cur {
        assert(agree(other, next, k));
    } else {
        lemma_walk_choice(base, order, now, trail, cur);
        lemma_fill_agree(base, order, other, trail, cur);
        assert(fill(base, order, other, cur).allows(order[cur].0, order[cur].1, other[cur] as int));
        assert(now.allows(order[cur].0, order[cur].1, other[cur] as int));
        assert(agree(other, next, cur));
        if other[cur] == digit {
            assert(agree(other, next, cur + 1));
            if cur + 1 == order.len() {
                assert(other =~= next);
            } else {
                assert(fill(base, order, other, cur + 1).allows(
                    order[cur + 1].0,
                    order[cur + 1].1,
                    other[cur + 1] as int,
                ));
            }
        }
    }
}

/// A completion that lies ahead of a walk still lies ahead when the walk
/// finds that its cell allows no digit above the cell's own, and steps
/// back; at the first cell no completion lies ahead of such a walk.
pub proof fn lemma_ahead_back(
    base: Grid,
    order: Seq<(int, int)>,
    now: Grid,
    trail: Seq<u8>,
    cur: int,
    other: Seq<u8>,
)
    requires
        in_walk(base, order, now, trail, cur),
        cur < order.len(),
        completes(base, order, other),
        ahead(other, trail, cur),
        forall|d: u8| #[trigger] now.allows(order[cur].0, order[cur].1, d as int) ==> d <= trail[cur],
    ensures
        cur > 0,
        ahead(other, trail.update(cur, 0), cur - 1),
{
    let next = trail.update(cur, 0);
    let k = choose|k: int|
        0 <= k <= cur && k < other.len() && #[trigger] agree(other, trail, k) && other[k]
            > trail[k];
    if k < cur {
        assert(agree(other, next, k));
    } else {
        lemma_walk_choice(base, order, now, trail, cur);
        lemma_fill_agree(base, order, other, trail, cur);
        assert(fill(base, order, other, cur).allows(order[cur].0, order[cur].1, other[cur] as int));
        assert(now.allows(order[cur].0, order[cur].1, other[cur] as int));
    }
}

/// A walk beyond its start is beyond it after a step forward.
pub proof fn lemma_beyond_forward(
    trail: Seq<u8>,
    start: Seq<u8>,
    start_cur: int,
    cur: int,
    digit: u8,
)
    requires
        trail.len() == start.len(),
        0 <= cur < trail.len(),
        0 <= start_cur < trail.len(),
        beyond(trail, start, start_cur, cur),
        digit > trail[cur],
    ensures
        beyond(trail.update(cur, digit), start, start_cur, cur + 1),
        ahead(trail.update(cur, digit), start, start_cur),
{
    let next = trail.update(cur, digit);
    let low = if cur < start_cur {
        cur
    } else {
        start_cur
    };
    if cur <= start_cur && agree(trail, start, cur + 1) {
        assert(agree(next, start, cur));
    } else {
        let k = choose|k: int|
            0 <= k <= low && k < trail.len() && #[trigger] agree(trail, start, k) && trail[k]
                > start[k];
        assert(agree(next, start, k));
    }
}

/// A walk beyond its start is beyond it after a step back.
pub proof fn lemma_beyond_back(trail: Seq<u8>, start: Seq<u8>, start_cur: int, cur: int)
    requires
        trail.len() == start.len(),
        0 < cur < trail.len(),
        0 <= start_cur < trail.len(),
        beyond(trail, start, start_cur, cur),
    ensures
        beyond(trail.update(cur, 0), start, start_cur, cur - 1),
{
    let next = trail.update(cur, 0);
    let low = if cur < start_cur {
        cur
    } else {
        start_cur
    };
    if cur <= start_cur && agree(trail, start, cur + 1) {
        assert(agree(next, start, cur));
    } else {
        let k = choose|k: int|
            0 <= k <= low && k < trail.len() && #[trigger] agree(trail, start, k) && trail[k]
                > start[k];
        assert(agree(next, start, k));
        if k == cur {
            assert(agree(next, start, cur));
        }
    }
}

/// A walk that stands at its first cell and finds no digit above the
/// cell's own has left the board stuck.
pub proof fn lemma_walk_stuck(base: Grid, order: Seq<(int, int)>, now: Grid, trail: Seq<u8>)
    requires
        in_walk(base, order, now, trail, 0),
        0 < order.len(),
        forall|d: u8| #[trigger] now.allows(order[0].0, order[0].1, d as int) ==> d <= trail[0],
    ensures
        now == stuck(base, order),
{
    let (row, col) = order[0];
    let free = base.available(row, col);
    lemma_walk_choice(base, order, now, trail, 0);
    lemma_candidates(base.forbidden(row, col));
    if trail[0] == 0 {
        if free.len() > 0 {
            assert(free.contains(free[0]));
            assert(now.allows(row, col, free[0] as int));
        }
    } else {
        assert(free.contains(trail[0]));
        let at = choose|i: int| 0 <= i < free.len() && free[i] == trail[0];
        if at < free.len() - 1 {
            assert(free.contains(free[free.len() - 1]));
            assert(now.allows(row, col, free[free.len() - 1] as int));
        }
    }
}

/// A walk that has passed its last cell has completed the board.
pub proof fn lemma_walk_done(base: Grid, order: Seq<(int, int)>, now: Grid, trail: Seq<u8>)
    requires
        in_walk(base, order, now, trail, order.len() as int),
    ensures
        completes(base, order, trail),
        now == fill(base, order, trail, order.len() as int),
        trail == digits_at(now, order),
        now.wf(),
{
    lemma_fill_shape(base, order, trail, order.len() as int);
    assert(trail =~= digits_at(now, order));
}

/// What a walk at `cur` has left to do, as a number that falls with every
/// step: zero once the walk has passed its last cell.
pub open spec fn walk_measure(counts: Seq<int>, cur: int) -> int {
    if cur < counts.len() {
        steps_left(counts, cur) + 1
    } else {
        0
    }
}

/// The digits of a trail as numbers.
pub open spec fn trail_counts(trail: Seq<u8>) -> Seq<int> {
    Seq::new(trail.len(), |i: int| trail[i] as int)
}

/// The counts of tried candidates that a list of slots carries.
pub open spec fn slot_counts(slots: Seq<Slot>) -> Seq<int> {
    Seq::new(slots.len(), |i: int| slots[i].2 as int)
}

/// A step forward, which raises the count at `cur`, lowers the measure.
pub proof fn lemma_measure_forward(before: Seq<int>, after: Seq<int>, cur: int)
    requires
        before.len() == after.len(),
        0 <= cur < before.len(),
        forall|i: int| 0 <= i < before.len() ==> 0 <= #[trigger] before[i] <= 9,
        forall|i: int| 0 <= i < after.len() ==> 0 <= #[trigger] after[i] <= 9,
        forall|i: int| 0 <= i < cur ==> before[i] == after[i],
        before[cur] < after[cur],
    ensures
        0 <= walk_measure(after, cur + 1) < walk_measure(before, cur),
{
    lemma_rank_bound(progress(before, cur));
    if cur + 1 < before.len() {
        if before[cur] + 1 < after[cur] {
            lemma_steps_shrink(before, cur, after, cur + 1, cur);
        } else {
            lemma_steps_shrink(before, cur, after, cur + 1, cur + 1);
        }
    }
}

/// A move back to an earlier cell, with the counts up to that cell as they
/// were, lowers the measure. So does a move that stays and raises the count
/// of its cell.
pub proof fn lemma_measure_back(before: Seq<int>, cur: int, after: Seq<int>, back: int)
    requires
        before.len() == after.len(),
        0 <= back <= cur < before.len(),
        forall|i: int| 0 <= i < before.len() ==> 0 <= #[trigger] before[i] <= 9,
        forall|i: int| 0 <= i < after.len() ==> 0 <= #[trigger] after[i] <= 9,
        forall|i: int| 0 <= i < back ==> before[i] == after[i],
        back < cur ==> before[back] == after[back],
        back == cur ==> before[back] < after[back],
    ensures
        0 <= walk_measure(after, back) < walk_measure(before, cur),
{
    lemma_steps_shrink(before, cur, after, back, back);
}

/// The digit that `next_candidate` finds is the least that the cell allows
/// above its own; where it finds none, the cell allows none.
pub proof fn lemma_choice_is_least(g: Grid, row: int, col: int, now: u8, at: Option<usize>)
    requires
        match at {
            Some(k) => k < g.available(row, col).len() && g.available(row, col)[k as int] > now
                && forall|i: int| 0 <= i < k ==> g.available(row, col)[i] <= now,
            None => forall|i: int|
                0 <= i < g.available(row, col).len() ==> g.available(row, col)[i] <= now,
        },
    ensures
        match at {
            Some(k) => {
                let digit = g.available(row, col)[k as int];
                &&& g.allows(row, col, digit as int)
                &&& forall|d: u8| d > now && #[trigger] g.allows(row, col, d as int) ==> d >= digit
            },
            None => forall|d: u8| #[trigger] g.allows(row, col, d as int) ==> d <= now,
        },
{
    let free = g.available(row, col);
    lemma_candidates(g.forbidden(row, col));
    match at {
        Some(k) => {
            assert(free.contains(free[k as int]));
            assert forall|d: u8| d > now && #[trigger] g.allows(row, col, d as int) implies d
                >= free[k as int] by {
                assert(free.contains(d));
                let j = choose|j: int| 0 <= j < free.len() && free[j] == d;
                if j < k {
                    assert(free[j] <= now);
                }
            }
        },
        None => {
            assert forall|d: u8| #[trigger] g.allows(row, col, d as int) implies d <= now by {
                assert(free.contains(d));
            }
        },
    }
}

/// The slots follow a walk that steps forward, once the slot of its cell
/// has the place of the digit written.
pub proof fn lemma_slots_forward(
    base: Grid,
    order: Seq<(int, int)>,
    now: Grid,
    slots: Seq<Slot>,
    trail: Seq<u8>,
    cur: int,
    k: usize,
)
    requires
        in_walk(base, order, now, trail, cur),
        cur < order.len(),
        slots_follow(base, order, slots, trail, filled(trail, cur)),
        k < now.available(order[cur].0, order[cur].1).len(),
        k < usize::MAX,
    ensures
        slots_follow(
            base,
            order,
            slots.update(cur, (slots[cur].0, slots[cur].1, (k + 1) as usize)),
            trail.update(cur, now.available(order[cur].0, order[cur].1)[k as int]),
            cur + 1,
        ),
{
    let (row, col) = order[cur];
    let free = now.available(row, col);
    let digit = free[k as int];
    let next = trail.update(cur, digit);
    let after = slots.update(cur, (slots[cur].0, slots[cur].1, (k + 1) as usize));
    lemma_candidates(now.forbidden(row, col));
    assert(free.contains(digit));
    lemma_walk_choice(base, order, now, trail, cur);
    lemma_walk_forward(base, order, now, trail, cur, digit);
    assert(coords(after) =~= order) by {
        assert(coords(slots)[cur] == order[cur]);
    }
    assert forall|i: int| 0 <= i < cur + 1 implies #[trigger] slot_marks(
        base,
        order,
        after,
        next,
        i,
    ) by {
        assert(fill(base, order, next, i) == fill(base, order, trail, i));
        if i < cur {
            assert(slot_marks(base, order, slots, trail, i));
        }
    }
    assert forall|i: int| cur + 1 <= i < after.len() implies (#[trigger] after[i]).2 == 0 by {
        assert(slots[i].2 == 0);
    }
}

/// The slots follow a walk that steps back, once the slot of the cell it
/// leaves counts no candidate as tried.
pub proof fn lemma_slots_back(
    base: Grid,
    order: Seq<(int, int)>,
    now: Grid,
    slots: Seq<Slot>,
    trail: Seq<u8>,
    cur: int,
)
    requires
        in_walk(base, order, now, trail, cur),
        0 < cur < order.len(),
        slots_follow(base, order, slots, trail, filled(trail, cur)),
    ensures
        slots_follow(
            base,
            order,
            slots.update(cur, (slots[cur].0, slots[cur].1, 0usize)),
            trail.update(cur, 0),
            cur,
        ),
{
    let next = trail.update(cur, 0);
    let after = slots.update(cur, (slots[cur].0, slots[cur].1, 0usize));
    lemma_walk_back(base, order, now, trail, cur);
    assert(coords(after) =~= order) by {
        assert(coords(slots)[cur] == order[cur]);
    }
    assert forall|i: int| 0 <= i < cur implies #[trigger] slot_marks(
        base,
        order,
        after,
        next,
        i,
    ) by {
        assert(fill(base, order, next, i) == fill(base, order, trail, i));
        assert(slot_marks(base, order, slots, trail, i));
    }
    assert forall|i: int| cur <= i < after.len() implies (#[trigger] after[i]).2 == 0 by {
        if i > cur {
            assert(slots[i].2 == 0);
        }
    }
}

} // verus!
