//! The mathematical model of the grid: cells, units, candidate lists and
//! the rules as functions on boards.

use vstd::prelude::*;

verus! {

/// Mathematical model of the puzzle state: the value of every cell (0 for
/// unassigned) and its candidate list, both row-major.
pub struct Board {
    pub vals: Seq<u8>,
    pub cands: Seq<Seq<u8>>,
}

/// Index of the cell in row `y` and column `x`.
pub open spec fn idx(y: int, x: int) -> int {
    9 * y + x
}

/// A digit that a cell can hold.
pub open spec fn is_digit(d: u8) -> bool {
    1 <= d <= 9
}

/// Values in range, candidates are digits, and an assigned cell has none.
pub open spec fn board_wf(b: Board) -> bool {
    &&& b.vals.len() == 81
    &&& b.cands.len() == 81
    &&& forall|i: int| 0 <= i < 81 ==> #[trigger] b.vals[i] <= 9
    &&& forall|i: int, j: int|
        0 <= i < 81 && 0 <= j < b.cands[i].len() ==> is_digit(#[trigger] b.cands[i][j])
    &&& forall|i: int| 0 <= i < 81 && #[trigger] b.vals[i] != 0 ==> b.cands[i].len() == 0
}

/// The three kinds of unit a cell belongs to.
#[derive(Clone, Copy, PartialEq, Eq, Debug)]
pub enum Unit {
    Row,
    Column,
    Box,
}

/// First row (or column) of the band (or stack) holding row (or column) `y`.
pub open spec fn band(y: int) -> int {
    (y / 3) * 3
}

/// Index of the `k`-th cell (0..9) of the given unit of cell (`y`, `x`);
/// a box is walked row by row.
pub open spec fn unit_cell(unit: Unit, y: int, x: int, k: int) -> int {
    match unit {
        Unit::Row => idx(y, k),
        Unit::Column => idx(k, x),
        Unit::Box => idx(band(y) + k / 3, band(x) + k % 3),
    }
}

/// Digit `d` is assigned somewhere in the given unit of cell (`y`, `x`).
pub open spec fn unit_has(vals: Seq<u8>, unit: Unit, y: int, x: int, d: u8) -> bool {
    exists|k: int| 0 <= k < 9 && vals[#[trigger] unit_cell(unit, y, x, k)] == d
}

/// Digit `d` is assigned in the row, the column or the box of cell (`y`, `x`).
pub open spec fn excluded(vals: Seq<u8>, y: int, x: int, d: u8) -> bool {
    unit_has(vals, Unit::Row, y, x, d) || unit_has(vals, Unit::Column, y, x, d) || unit_has(
        vals,
        Unit::Box,
        y,
        x,
        d,
    )
}

/// The assigned values among the first `n` cells of a unit, in order.
pub open spec fn placed(vals: Seq<u8>, unit: Unit, y: int, x: int, n: nat) -> Seq<u8>
    decreases n,
{
    if n == 0 {
        Seq::empty()
    } else {
        let v = vals[unit_cell(unit, y, x, n - 1)];
        let p = placed(vals, unit, y, x, (n - 1) as nat);
        if v != 0 {
            p.push(v)
        } else {
            p
        }
    }
}

/// The candidate lists of the unassigned cells among the first `n` cells of
/// a unit, concatenated in order.
pub open spec fn pool(b: Board, unit: Unit, y: int, x: int, n: nat) -> Seq<u8>
    decreases n,
{
    if n == 0 {
        Seq::empty()
    } else {
        let c = unit_cell(unit, y, x, n - 1);
        let p = pool(b, unit, y, x, (n - 1) as nat);
        if b.vals[c] == 0 {
            p + b.cands[c]
        } else {
            p
        }
    }
}

/// Row `y` and column `x` lie on the grid.
pub open spec fn valid_pos(y: int, x: int) -> bool {
    0 <= y < 9 && 0 <= x < 9
}

/// The board with digit `d` placed in cell `i` and that cell's candidates cleared.
pub open spec fn assign(b: Board, i: int, d: u8) -> Board {
    Board { vals: b.vals.update(i, d), cands: b.cands.update(i, Seq::empty()) }
}

/// The digits 1..=`n`, in increasing order, that no unit of cell (`y`, `x`) holds.
pub open spec fn cands_upto(vals: Seq<u8>, y: int, x: int, n: nat) -> Seq<u8>
    decreases n,
{
    if n == 0 {
        Seq::empty()
    } else {
        let p = cands_upto(vals, y, x, (n - 1) as nat);
        if !excluded(vals, y, x, n as u8) {
            p.push(n as u8)
        } else {
            p
        }
    }
}

/// The candidates that cell (`y`, `x`) should have for the assigned values `vals`.
pub open spec fn fresh_cands(vals: Seq<u8>, y: int, x: int) -> Seq<u8> {
    if vals[idx(y, x)] != 0 {
        Seq::empty()
    } else {
        cands_upto(vals, y, x, 9)
    }
}

/// Entry `i` (row-major) of the candidate table for `vals`.
pub open spec fn table_entry(vals: Seq<u8>, i: int) -> Seq<u8> {
    fresh_cands(vals, i / 9, i % 9)
}

/// The board with values `vals` and every candidate list freshly computed.
pub open spec fn recomputed(vals: Seq<u8>) -> Board {
    Board { vals, cands: Seq::new(81, |i: int| table_entry(vals, i)) }
}

/// How many times `d` occurs in `s`.
pub open spec fn occurrences(s: Seq<u8>, d: u8) -> nat
    decreases s.len(),
{
    if s.len() == 0 {
        0
    } else {
        occurrences(s.drop_last(), d) + if s.last() == d {
            1nat
        } else {
            0nat
        }
    }
}

/// The first digit of `c`, from position `j` on, that occurs exactly once in `peers`.
pub open spec fn first_unique(c: Seq<u8>, peers: Seq<u8>, j: nat) -> Option<u8>
    decreases c.len() - j,
{
    if j >= c.len() {
        None
    } else if occurrences(peers, c[j as int]) == 1 {
        Some(c[j as int])
    } else {
        first_unique(c, peers, j + 1)
    }
}

/// The sole-candidate rule at cell (`y`, `x`).
pub open spec fn sole_step(b: Board, y: int, x: int) -> Board {
    let i = idx(y, x);
    if b.cands[i].len() == 1 {
        assign(b, i, b.cands[i][0])
    } else {
        b
    }
}

/// The hidden-single rule for `unit` at cell (`y`, `x`).
pub open spec fn hidden_step(b: Board, unit: Unit, y: int, x: int) -> Board {
    let i = idx(y, x);
    match first_unique(b.cands[i], pool(b, unit, y, x, 9), 0) {
        Some(d) => assign(b, i, d),
        None => b,
    }
}

/// A rule at cell (`y`, `x`): the sole-candidate rule for `None`, hidden
/// singles in the given unit otherwise.
pub open spec fn rule_step(b: Board, rule: Option<Unit>, y: int, x: int) -> Board {
    match rule {
        None => sole_step(b, y, x),
        Some(unit) => hidden_step(b, unit, y, x),
    }
}

/// The rule applied to the first `n` cells of row `y`, left to right.
pub open spec fn sweep_row(b: Board, rule: Option<Unit>, y: int, n: nat) -> Board
    decreases n,
{
    if n == 0 {
        b
    } else {
        rule_step(sweep_row(b, rule, y, (n - 1) as nat), rule, y, n - 1)
    }
}

/// The rule applied to every cell of the first `n` rows, in row-major order.
pub open spec fn sweep(b: Board, rule: Option<Unit>, n: nat) -> Board
    decreases n,
{
    if n == 0 {
        b
    } else {
        sweep_row(sweep(b, rule, (n - 1) as nat), rule, n - 1, 9)
    }
}

/// The values only grow: an assigned cell keeps its digit.
pub open spec fn keeps_assigned(before: Seq<u8>, after: Seq<u8>) -> bool {
    &&& after.len() == before.len()
    &&& forall|i: int| 0 <= i < before.len() && before[i] != 0 ==> #[trigger] after[i] == before[i]
}

/// `b1` is `b0` with some unassigned cells given one of their candidates of
/// `b0`, and those cells' candidates cleared.
pub open spec fn refines(b0: Board, b1: Board) -> bool {
    &&& b1.vals.len() == 81
    &&& b1.cands.len() == 81
    &&& forall|i: int|
        0 <= i < 81 ==> (b1.vals[i] == b0.vals[i] && b1.cands[i] == b0.cands[i]) || (b0.vals[i]
            == 0 && b0.cands[i].contains(#[trigger] b1.vals[i]) && b1.cands[i] == Seq::<u8>::empty())
}

/// The candidate lists are those that the assigned values give.
pub open spec fn fresh(b: Board) -> bool {
    b == recomputed(b.vals)
}

/// A rule followed by a recomputation of the candidates.
pub open spec fn after_rule(b: Board, rule: Option<Unit>) -> Board {
    recomputed(sweep(b, rule, 9).vals)
}

/// One elimination pass: the sole-candidate rule, then hidden singles by row,
/// by column and by box, each followed by a recomputation; the pass stops as
/// soon as every cell is assigned.
pub open spec fn pass(b: Board) -> Board {
    let b1 = after_rule(b, None);
    if complete(b1.vals) {
        b1
    } else {
        let b2 = after_rule(b1, Some(Unit::Row));
        if complete(b2.vals) {
            b2
        } else {
            let b3 = after_rule(b2, Some(Unit::Column));
            if complete(b3.vals) {
                b3
            } else {
                after_rule(b3, Some(Unit::Box))
            }
        }
    }
}

/// `k` elimination passes in a row.
pub open spec fn passes(b: Board, k: nat) -> Board
    decreases k,
{
    if k == 0 {
        b
    } else {
        pass(passes(b, (k - 1) as nat))
    }
}

/// The built-in puzzle, row-major, 0 for unassigned.
pub open spec fn builtin_puzzle() -> Seq<u8> {
    seq![
        0, 0, 0, 0, 6, 0, 5, 0, 0,
        0, 0, 2, 0, 0, 0, 0, 0, 4,
        0, 1, 0, 3, 0, 0, 0, 9, 0,
        0, 3, 4, 5, 0, 0, 0, 0, 6,
        0, 0, 0, 0, 0, 0, 0, 0, 0,
        2, 0, 0, 0, 0, 9, 8, 1, 0,
        0, 5, 0, 0, 0, 8, 0, 3, 0,
        3, 0, 0, 0, 0, 0, 9, 0, 0,
        0, 0, 6, 0, 1, 0, 0, 0, 0,
    ]
}

/// Cells (`y`, `x`) and (`y2`, `x2`) lie in the same unit of the given kind.
pub open spec fn same_unit(unit: Unit, y: int, x: int, y2: int, x2: int) -> bool {
    match unit {
        Unit::Row => y == y2,
        Unit::Column => x == x2,
        Unit::Box => y / 3 == y2 / 3 && x / 3 == x2 / 3,
    }
}

/// `sol` is a complete grid holding every digit exactly once in every row,
/// column and box, and it agrees with the assigned cells of `vals`.
pub open spec fn solves(sol: Seq<u8>, vals: Seq<u8>) -> bool {
    &&& sol.len() == 81
    &&& forall|i: int| 0 <= i < 81 ==> is_digit(#[trigger] sol[i])
    &&& forall|i: int| 0 <= i < 81 && #[trigger] vals[i] != 0 ==> sol[i] == vals[i]
    &&& forall|unit: Unit, y: int, x: int, y2: int, x2: int|
        valid_pos(y, x) && valid_pos(y2, x2) && #[trigger] same_unit(unit, y, x, y2, x2) && (y
            != y2 || x != x2) ==> sol[idx(y, x)] != sol[idx(y2, x2)]
    &&& forall|unit: Unit, y: int, x: int, d: u8|
        valid_pos(y, x) && is_digit(d) ==> #[trigger] unit_has(sol, unit, y, x, d)
}

/// What a sweep keeps true of a board it works on when the grid has a
/// solution: assigned cells agree with it and, for hidden singles, a digit
/// placed during the sweep is no longer a candidate of an unassigned cell of
/// the same unit.
pub open spec fn on_track(b: Board, c: Board, rule: Option<Unit>, sol: Seq<u8>) -> bool {
    &&& board_wf(c)
    &&& refines(b, c)
    &&& forall|i: int| 0 <= i < 81 && #[trigger] c.vals[i] != 0 ==> sol[i] == c.vals[i]
    &&& rule matches Some(unit) ==> placed_not_candidate(b, c, unit)
}

/// No unassigned cell of `c` keeps as candidate a digit placed in its unit
/// since `b`.
pub open spec fn placed_not_candidate(b: Board, c: Board, unit: Unit) -> bool {
    forall|y: int, x: int, y2: int, x2: int|
        valid_pos(y, x) && valid_pos(y2, x2) && same_unit(unit, y, x, y2, x2) && b.vals[idx(y, x)]
            == 0 && #[trigger] c.vals[idx(y, x)] != 0 && #[trigger] c.vals[idx(y2, x2)] == 0
            ==> !c.cands[idx(y2, x2)].contains(c.vals[idx(y, x)])
}

/// No digit is assigned twice in a row, a column or a box.
pub open spec fn no_repeats(vals: Seq<u8>) -> bool {
    forall|unit: Unit, y: int, x: int, y2: int, x2: int|
        valid_pos(y, x) && valid_pos(y2, x2) && #[trigger] same_unit(unit, y, x, y2, x2) && (y
            != y2 || x != x2) && vals[idx(y, x)] != 0 ==> vals[idx(y, x)] != vals[idx(y2, x2)]
}

/// Every cell is assigned.
pub open spec fn complete(vals: Seq<u8>) -> bool {
    forall|i: int| 0 <= i < 81 ==> #[trigger] vals[i] != 0
}

} // verus!
