//! Facts about the model: candidates are exact, rules only fill cells
//! with candidates, and on a solvable grid they follow the solution.

use vstd::prelude::*;
use crate::model::{after_rule, complete, pass, passes, Board, Unit, assign, band, board_wf, cands_upto, excluded, first_unique, fresh, fresh_cands, idx, is_digit, keeps_assigned, no_repeats, occurrences, on_track, placed, pool, recomputed, refines, rule_step, same_unit, solves, sweep, sweep_row, table_entry, unit_cell, unit_has, valid_pos};

verus! {

/// Whether digit `d` (nonzero) lies in `placed` is whether a cell among the
/// first `n` of the unit holds it.
pub proof fn lemma_placed_contains(vals: Seq<u8>, unit: Unit, y: int, x: int, n: nat, d: u8)
    requires
        d != 0,
    ensures
        placed(vals, unit, y, x, n).contains(d) <==> exists|k: int|
            0 <= k < n && vals[#[trigger] unit_cell(unit, y, x, k)] == d,
    decreases n,
{
    if n > 0 {
        lemma_placed_contains(vals, unit, y, x, (n - 1) as nat, d);
        let p = placed(vals, unit, y, x, (n - 1) as nat);
        let v = vals[unit_cell(unit, y, x, n - 1)];
        if v != 0 {
            assert(p.push(v).contains(d) <==> (p.contains(d) || v == d)) by {
                if p.push(v).contains(d) {
                    let j = choose|j: int| 0 <= j < p.push(v).len() && p.push(v)[j] == d;
                    if j < p.len() {
                        assert(p[j] == d);
                    }
                }
                if p.contains(d) {
                    let j = choose|j: int| 0 <= j < p.len() && p[j] == d;
                    assert(p.push(v)[j] == d);
                }
                if v == d {
                    assert(p.push(v)[p.len() as int] == d);
                }
            }
        }
        if exists|k: int| 0 <= k < n && vals[#[trigger] unit_cell(unit, y, x, k)] == d {
            let k = choose|k: int| 0 <= k < n && vals[#[trigger] unit_cell(unit, y, x, k)] == d;
            if k < n - 1 {
            } else {
                assert(v == d);
            }
        }
    }
}

/// The table entry of cell (`y`, `x`) is its fresh candidate list.
pub proof fn lemma_table_entry(vals: Seq<u8>, y: int, x: int)
    requires
        valid_pos(y, x),
    ensures
        table_entry(vals, idx(y, x)) == fresh_cands(vals, y, x),
{
    assert(idx(y, x) / 9 == y && idx(y, x) % 9 == x);
}

/// The three units of cell (`y`, `x`), as `excluded` names them, are those
/// that `placed` walks for the row's first column and the column's first row.
pub proof fn lemma_units_of_cell(vals: Seq<u8>, y: int, x: int, d: u8)
    requires
        valid_pos(y, x),
    ensures
        unit_has(vals, Unit::Row, y, x, d) == unit_has(vals, Unit::Row, y, 0, d),
        unit_has(vals, Unit::Column, y, x, d) == unit_has(vals, Unit::Column, 0, x, d),
{
    if unit_has(vals, Unit::Row, y, x, d) {
        let k = choose|k: int| 0 <= k < 9 && vals[#[trigger] unit_cell(Unit::Row, y, x, k)] == d;
        assert(unit_cell(Unit::Row, y, 0, k) == unit_cell(Unit::Row, y, x, k));
    }
    if unit_has(vals, Unit::Row, y, 0, d) {
        let k = choose|k: int| 0 <= k < 9 && vals[#[trigger] unit_cell(Unit::Row, y, 0, k)] == d;
        assert(unit_cell(Unit::Row, y, 0, k) == unit_cell(Unit::Row, y, x, k));
    }
    if unit_has(vals, Unit::Column, y, x, d) {
        let k = choose|k: int|
            0 <= k < 9 && vals[#[trigger] unit_cell(Unit::Column, y, x, k)] == d;
        assert(unit_cell(Unit::Column, 0, x, k) == unit_cell(Unit::Column, y, x, k));
    }
    if unit_has(vals, Unit::Column, 0, x, d) {
        let k = choose|k: int|
            0 <= k < 9 && vals[#[trigger] unit_cell(Unit::Column, 0, x, k)] == d;
        assert(unit_cell(Unit::Column, 0, x, k) == unit_cell(Unit::Column, y, x, k));
    }
}

/// A digit that `first_unique` picks is one of the candidates.
pub proof fn lemma_first_unique_in(c: Seq<u8>, peers: Seq<u8>, j: nat)
    ensures
        first_unique(c, peers, j) matches Some(d) ==> c.contains(d),
    decreases c.len() - j,
{
    if j < c.len() && occurrences(peers, c[j as int]) != 1 {
        lemma_first_unique_in(c, peers, j + 1);
    }
}

/// One rule step keeps `refines` from the start of the sweep.
proof fn lemma_step_refines(b0: Board, b1: Board, rule: Option<Unit>, y: int, x: int)
    requires
        board_wf(b0),
        board_wf(b1),
        refines(b0, b1),
        valid_pos(y, x),
    ensures
        board_wf(rule_step(b1, rule, y, x)),
        refines(b0, rule_step(b1, rule, y, x)),
{
    let i = idx(y, x);
    let c = b1.cands[i];
    let found = match rule {
        None => if c.len() == 1 {
            Some(c[0])
        } else {
            None
        },
        Some(unit) => first_unique(c, pool(b1, unit, y, x, 9), 0),
    };
    if let Some(unit) = rule {
        lemma_first_unique_in(c, pool(b1, unit, y, x, 9), 0);
    }
    if let Some(d) = found {
        if rule is None {
            assert(c[0] == d);
        }
        assert(c.contains(d));
        let j = choose|j: int| 0 <= j < c.len() && c[j] == d;
        assert(is_digit(b1.cands[i][j]));
        let b2 = assign(b1, i, d);
        assert(rule_step(b1, rule, y, x) == b2);
        if b1.vals[i] == b0.vals[i] && b1.cands[i] == b0.cands[i] {
        } else {
            let v = b1.vals[i];
            let k = choose|k: int| 0 <= k < b0.cands[i].len() && b0.cands[i][k] == v;
            assert(is_digit(b0.cands[i][k]));
        }
        assert(b1.vals[i] == 0 && b0.vals[i] == 0 && b0.cands[i] == c);
        assert forall|i2: int| 0 <= i2 < 81 implies (b2.vals[i2] == b0.vals[i2] && b2.cands[i2]
            == b0.cands[i2]) || (b0.vals[i2] == 0 && b0.cands[i2].contains(#[trigger] b2.vals[i2])
            && b2.cands[i2] == Seq::<u8>::empty()) by {
            if i2 != i {
                assert(b2.vals[i2] == b1.vals[i2] && b2.cands[i2] == b1.cands[i2]);
                assert(refines(b0, b1));
            }
        }
        assert forall|i2: int, j2: int|
            0 <= i2 < 81 && 0 <= j2 < b2.cands[i2].len() implies is_digit(
            #[trigger] b2.cands[i2][j2],
        ) by {
            assert(b2.cands[i2][j2] == b1.cands[i2][j2]);
        }
    } else {
        assert(rule_step(b1, rule, y, x) == b1);
    }
}

proof fn lemma_sweep_row_refines(b0: Board, b1: Board, rule: Option<Unit>, y: int, n: nat)
    requires
        board_wf(b0),
        board_wf(b1),
        refines(b0, b1),
        0 <= y < 9,
        n <= 9,
    ensures
        board_wf(sweep_row(b1, rule, y, n)),
        refines(b0, sweep_row(b1, rule, y, n)),
    decreases n,
{
    if n > 0 {
        lemma_sweep_row_refines(b0, b1, rule, y, (n - 1) as nat);
        lemma_step_refines(b0, sweep_row(b1, rule, y, (n - 1) as nat), rule, y, n - 1);
    }
}

/// A sweep of any rule keeps the board well formed, and only gives unassigned
/// cells one of the candidates they had before the sweep.
pub proof fn lemma_sweep_refines(b: Board, rule: Option<Unit>, n: nat)
    requires
        board_wf(b),
        n <= 9,
    ensures
        board_wf(sweep(b, rule, n)),
        refines(b, sweep(b, rule, n)),
    decreases n,
{
    if n > 0 {
        lemma_sweep_refines(b, rule, (n - 1) as nat);
        lemma_sweep_row_refines(b, sweep(b, rule, (n - 1) as nat), rule, n - 1, 9);
    } else {
        assert(refines(b, b));
    }
}

/// An unassigned cell's freshly computed candidates are exactly the digits
/// 1..=9 that its row, its column and its box do not hold.
pub proof fn lemma_candidates_exact(vals: Seq<u8>, y: int, x: int, d: u8)
    requires
        valid_pos(y, x),
        vals[idx(y, x)] == 0,
    ensures
        fresh_cands(vals, y, x).contains(d) <==> is_digit(d) && !excluded(vals, y, x, d),
{
    lemma_cands_upto_contains(vals, y, x, 9, d);
}

proof fn lemma_cands_upto_contains(vals: Seq<u8>, y: int, x: int, n: nat, d: u8)
    requires
        n <= 9,
    ensures
        cands_upto(vals, y, x, n).contains(d) <==> 1 <= d <= n && !excluded(vals, y, x, d),
    decreases n,
{
    if n > 0 {
        lemma_cands_upto_contains(vals, y, x, (n - 1) as nat, d);
        let p = cands_upto(vals, y, x, (n - 1) as nat);
        let v = n as u8;
        if !excluded(vals, y, x, v) {
            if p.push(v).contains(d) {
                let j = choose|j: int| 0 <= j < p.push(v).len() && p.push(v)[j] == d;
                if j < p.len() {
                    assert(p[j] == d);
                }
            }
            if p.contains(d) {
                let j = choose|j: int| 0 <= j < p.len() && p[j] == d;
                assert(p.push(v)[j] == d);
            }
            if d == v {
                assert(p.push(v)[p.len() as int] == d);
            }
        }
    }
}

/// Recomputing the candidates a second time, with no rule applied in
/// between, gives the same values and the same candidate table.
pub proof fn lemma_recompute_idempotent(b: Board)
    ensures
        recomputed(recomputed(b.vals).vals) == recomputed(b.vals),
        fresh(recomputed(b.vals)),
{
}

/// Every digit that a rule places, starting from freshly computed candidates,
/// is a digit that the cell's row, column and box did not hold when the rule
/// began, and every assigned cell keeps its digit.
pub proof fn lemma_rule_sound(b: Board, rule: Option<Unit>)
    requires
        board_wf(b),
        fresh(b),
    ensures
        keeps_assigned(b.vals, sweep(b, rule, 9).vals),
        forall|y: int, x: int|
            valid_pos(y, x) && b.vals[idx(y, x)] == 0 && #[trigger] sweep(b, rule, 9).vals[idx(y, x)]
                != 0 ==> {
                let d = sweep(b, rule, 9).vals[idx(y, x)];
                is_digit(d) && !excluded(b.vals, y, x, d)
            },
{
    let s = sweep(b, rule, 9);
    lemma_sweep_refines(b, rule, 9);
    assert forall|y: int, x: int|
        valid_pos(y, x) && b.vals[idx(y, x)] == 0 && #[trigger] s.vals[idx(y, x)] != 0 implies {
        let d = s.vals[idx(y, x)];
        is_digit(d) && !excluded(b.vals, y, x, d)
    } by {
        let i = idx(y, x);
        let d = s.vals[i];
        lemma_table_entry(b.vals, y, x);
        lemma_candidates_exact(b.vals, y, x, d);
        assert(b.cands[i] == table_entry(b.vals, i));
    }
}

/// Keeping assigned cells is transitive.
pub proof fn lemma_keeps_trans(a: Seq<u8>, b: Seq<u8>, c: Seq<u8>)
    requires
        keeps_assigned(a, b),
        keeps_assigned(b, c),
    ensures
        keeps_assigned(a, c),
{
    assert forall|i: int| 0 <= i < a.len() && a[i] != 0 implies #[trigger] c[i] == a[i] by {
        assert(b[i] == a[i]);
    }
}

/// Assigning cells lowers the number of unassigned ones, which stays the
/// same only when nothing changed.
pub proof fn lemma_keeps_count(a: Seq<u8>, b: Seq<u8>)
    requires
        keeps_assigned(a, b),
    ensures
        occurrences(b, 0) <= occurrences(a, 0),
        occurrences(b, 0) == occurrences(a, 0) ==> b == a,
    decreases a.len(),
{
    if a.len() > 0 {
        let a1 = a.drop_last();
        let b1 = b.drop_last();
        assert forall|i: int| 0 <= i < a1.len() && a1[i] != 0 implies #[trigger] b1[i] == a1[i] by {
            assert(a[i] != 0);
        }
        lemma_keeps_count(a1, b1);
        if occurrences(b, 0) == occurrences(a, 0) {
            assert(b =~= b1.push(b.last()));
            assert(a =~= a1.push(a.last()));
        }
    } else {
        assert(b =~= a);
    }
}

/// The `k`-th cell of a unit of cell (`y`, `x`) is a cell of that unit, and
/// every cell of that unit is its `k`-th cell for some `k`.
proof fn lemma_unit_cell_pos(unit: Unit, y: int, x: int, k: int) -> (r: (int, int))
    requires
        valid_pos(y, x),
        0 <= k < 9,
    ensures
        valid_pos(r.0, r.1),
        unit_cell(unit, y, x, k) == idx(r.0, r.1),
        same_unit(unit, y, x, r.0, r.1),
{
    match unit {
        Unit::Row => (y, k),
        Unit::Column => (k, x),
        Unit::Box => (band(y) + k / 3, band(x) + k % 3),
    }
}

proof fn lemma_unit_index(unit: Unit, y: int, x: int, y2: int, x2: int) -> (k: int)
    requires
        valid_pos(y, x),
        valid_pos(y2, x2),
        same_unit(unit, y, x, y2, x2),
    ensures
        0 <= k < 9,
        unit_cell(unit, y, x, k) == idx(y2, x2),
{
    match unit {
        Unit::Row => x2,
        Unit::Column => y2,
        Unit::Box => 3 * (y2 - band(y)) + (x2 - band(x)),
    }
}

proof fn lemma_occ_concat(a: Seq<u8>, b: Seq<u8>, d: u8)
    ensures
        occurrences(a + b, d) == occurrences(a, d) + occurrences(b, d),
    decreases b.len(),
{
    if b.len() > 0 {
        assert((a + b).drop_last() =~= a + b.drop_last());
        lemma_occ_concat(a, b.drop_last(), d);
    } else {
        assert(a + b =~= a);
    }
}

proof fn lemma_occ_pos(s: Seq<u8>, d: u8)
    ensures
        s.contains(d) ==> occurrences(s, d) >= 1,
    decreases s.len(),
{
    if s.len() > 0 && s.contains(d) && s.last() != d {
        let j = choose|j: int| 0 <= j < s.len() && s[j] == d;
        assert(s.drop_last()[j] == d);
        lemma_occ_pos(s.drop_last(), d);
    }
}

proof fn lemma_pool_one(b: Board, unit: Unit, y: int, x: int, n: nat, k0: int, d: u8)
    requires
        0 <= k0 < n,
        b.vals[unit_cell(unit, y, x, k0)] == 0,
    ensures
        occurrences(pool(b, unit, y, x, n), d) >= occurrences(b.cands[unit_cell(unit, y, x, k0)], d),
    decreases n,
{
    let p = pool(b, unit, y, x, (n - 1) as nat);
    let c = unit_cell(unit, y, x, n - 1);
    if b.vals[c] == 0 {
        lemma_occ_concat(p, b.cands[c], d);
    }
    if k0 < n - 1 {
        lemma_pool_one(b, unit, y, x, (n - 1) as nat, k0, d);
    }
}

proof fn lemma_pool_two(b: Board, unit: Unit, y: int, x: int, n: nat, k0: int, k1: int, d: u8)
    requires
        0 <= k0 < n,
        0 <= k1 < n,
        k0 != k1,
        b.vals[unit_cell(unit, y, x, k0)] == 0,
        b.vals[unit_cell(unit, y, x, k1)] == 0,
    ensures
        occurrences(pool(b, unit, y, x, n), d) >= occurrences(b.cands[unit_cell(unit, y, x, k0)], d)
            + occurrences(b.cands[unit_cell(unit, y, x, k1)], d),
    decreases n,
{
    let p = pool(b, unit, y, x, (n - 1) as nat);
    let c = unit_cell(unit, y, x, n - 1);
    if b.vals[c] == 0 {
        lemma_occ_concat(p, b.cands[c], d);
    }
    if k0 == n - 1 {
        lemma_pool_one(b, unit, y, x, (n - 1) as nat, k1, d);
    } else if k1 == n - 1 {
        lemma_pool_one(b, unit, y, x, (n - 1) as nat, k0, d);
    } else {
        lemma_pool_two(b, unit, y, x, (n - 1) as nat, k0, k1, d);
    }
}

/// An unassigned cell of a fresh board has its solution digit among its candidates.
proof fn lemma_solution_is_candidate(b: Board, sol: Seq<u8>, y: int, x: int)
    requires
        board_wf(b),
        fresh(b),
        solves(sol, b.vals),
        valid_pos(y, x),
        b.vals[idx(y, x)] == 0,
    ensures
        b.cands[idx(y, x)].contains(sol[idx(y, x)]),
{
    let i = idx(y, x);
    let d = sol[i];
    lemma_table_entry(b.vals, y, x);
    assert(b.cands[i] == table_entry(b.vals, i));
    lemma_candidates_exact(b.vals, y, x, d);
    assert forall|unit: Unit| !unit_has(b.vals, unit, y, x, d) by {
        if unit_has(b.vals, unit, y, x, d) {
            let k = choose|k: int| 0 <= k < 9 && b.vals[#[trigger] unit_cell(unit, y, x, k)] == d;
            let (y2, x2) = lemma_unit_cell_pos(unit, y, x, k);
            assert(b.vals[idx(y2, x2)] != 0);
            assert(sol[idx(y2, x2)] == d);
            assert(sol[idx(y, x)] != sol[idx(y2, x2)]);
        }
    }
}

proof fn lemma_step_on_track(b: Board, c: Board, rule: Option<Unit>, sol: Seq<u8>, y: int, x: int)
    requires
        board_wf(b),
        fresh(b),
        solves(sol, b.vals),
        on_track(b, c, rule, sol),
        valid_pos(y, x),
    ensures
        on_track(b, rule_step(c, rule, y, x), rule, sol),
{
    lemma_step_refines(b, c, rule, y, x);
    let i = idx(y, x);
    let ci = c.cands[i];
    match rule {
        None => {
            if ci.len() == 1 {
                assert(ci.contains(ci[0]));
                assert(c.vals[i] == 0);
                assert(ci == b.cands[i]);
                lemma_solution_is_candidate(b, sol, y, x);
                let j = choose|j: int| 0 <= j < ci.len() && ci[j] == sol[i];
                assert(j == 0);
            }
        },
        Some(unit) => {
            let pl = pool(c, unit, y, x, 9);
            lemma_first_unique_in(ci, pl, 0);
            if let Some(d) = first_unique(ci, pl, 0) {
                lemma_first_unique_found(ci, pl, 0);
                assert(c.vals[i] == 0);
                assert(ci == b.cands[i]);
                let ki = lemma_unit_index(unit, y, x, y, x);
                lemma_occ_pos(ci, d);
                // The solution digit of the cell is `d`.
                if sol[i] != d {
                    let ci0 = choose|j: int| 0 <= j < ci.len() && ci[j] == d;
                    assert(is_digit(c.cands[i][ci0]));
                    assert(unit_has(sol, unit, y, x, d));
                    let k = choose|k: int| 0 <= k < 9 && sol[#[trigger] unit_cell(unit, y, x, k)] == d;
                    let (y2, x2) = lemma_unit_cell_pos(unit, y, x, k);
                    let m = idx(y2, x2);
                    if c.vals[m] != 0 {
                        if b.vals[m] != 0 {
                            assert(unit_has(b.vals, unit, y, x, d));
                            lemma_table_entry(b.vals, y, x);
                            assert(b.cands[i] == table_entry(b.vals, i));
                            lemma_candidates_exact(b.vals, y, x, d);
                        } else {
                            assert(same_unit(unit, y2, x2, y, x));
                            assert(c.vals[idx(y2, x2)] != 0);
                            assert(!c.cands[idx(y, x)].contains(c.vals[idx(y2, x2)]));
                        }
                    } else {
                        lemma_solution_is_candidate(b, sol, y2, x2);
                        assert(c.cands[m] == b.cands[m]);
                        lemma_occ_pos(c.cands[m], d);
                        assert(k != ki);
                        lemma_pool_two(c, unit, y, x, 9, ki, k, d);
                    }
                }
                let c2 = assign(c, i, d);
                assert forall|ya: int, xa: int, yb: int, xb: int|
                    valid_pos(ya, xa) && valid_pos(yb, xb) && same_unit(
                        unit,
                        ya,
                        xa,
                        yb,
                        xb,
                    ) && b.vals[idx(ya, xa)] == 0 && #[trigger] c2.vals[idx(ya, xa)] != 0
                        && #[trigger] c2.vals[idx(yb, xb)] == 0 implies !c2.cands[idx(
                    yb,
                    xb,
                )].contains(c2.vals[idx(ya, xa)]) by {
                    let ja = idx(ya, xa);
                    let jb = idx(yb, xb);
                    assert(jb != i);
                    assert(c2.cands[jb] == c.cands[jb]);
                    if ja == i {
                        assert(ya == y && xa == x);
                        let kb = lemma_unit_index(unit, y, x, yb, xb);
                        assert(kb != ki);
                        if c.cands[jb].contains(d) {
                            lemma_occ_pos(c.cands[jb], d);
                            lemma_pool_two(c, unit, y, x, 9, ki, kb, d);
                        }
                    } else {
                        assert(c2.vals[ja] == c.vals[ja]);
                        assert(c.vals[idx(ya, xa)] != 0 && c.vals[idx(yb, xb)] == 0);
                    }
                }
            }
        },
    }
}

proof fn lemma_first_unique_found(c: Seq<u8>, peers: Seq<u8>, j: nat)
    ensures
        first_unique(c, peers, j) matches Some(d) ==> occurrences(peers, d) == 1,
    decreases c.len() - j,
{
    if j < c.len() && occurrences(peers, c[j as int]) != 1 {
        lemma_first_unique_found(c, peers, j + 1);
    }
}

proof fn lemma_sweep_row_on_track(
    b: Board,
    c: Board,
    rule: Option<Unit>,
    sol: Seq<u8>,
    y: int,
    n: nat,
)
    requires
        board_wf(b),
        fresh(b),
        solves(sol, b.vals),
        on_track(b, c, rule, sol),
        0 <= y < 9,
        n <= 9,
    ensures
        on_track(b, sweep_row(c, rule, y, n), rule, sol),
    decreases n,
{
    if n > 0 {
        lemma_sweep_row_on_track(b, c, rule, sol, y, (n - 1) as nat);
        lemma_step_on_track(b, sweep_row(c, rule, y, (n - 1) as nat), rule, sol, y, n - 1);
    }
}

proof fn lemma_sweep_on_track(b: Board, rule: Option<Unit>, sol: Seq<u8>, n: nat)
    requires
        board_wf(b),
        fresh(b),
        solves(sol, b.vals),
        n <= 9,
    ensures
        on_track(b, sweep(b, rule, n), rule, sol),
    decreases n,
{
    if n > 0 {
        lemma_sweep_on_track(b, rule, sol, (n - 1) as nat);
        lemma_sweep_row_on_track(b, sweep(b, rule, (n - 1) as nat), rule, sol, n - 1, 9);
    } else {
        assert(refines(b, b));
    }
}

/// A grid that has a solution repeats no digit in a unit.
pub proof fn lemma_solvable_no_repeats(sol: Seq<u8>, vals: Seq<u8>)
    requires
        solves(sol, vals),
    ensures
        no_repeats(vals),
{
    assert forall|unit: Unit, y: int, x: int, y2: int, x2: int|
        valid_pos(y, x) && valid_pos(y2, x2) && #[trigger] same_unit(unit, y, x, y2, x2) && (y
            != y2 || x != x2) && vals[idx(y, x)] != 0 implies vals[idx(y, x)] != vals[idx(
        y2,
        x2,
    )] by {
        assert(sol[idx(y, x)] == vals[idx(y, x)]);
        if vals[idx(y2, x2)] != 0 {
            assert(sol[idx(y2, x2)] == vals[idx(y2, x2)]);
        }
    }
}

/// On a grid that has a solution, with freshly computed candidates, every
/// digit that a rule places is the solution's digit for that cell. So the
/// grid after the rule still has that solution, and no rule places a digit
/// that the cell's row, column or box holds, at the time or later.
pub proof fn lemma_rule_follows_solution(b: Board, rule: Option<Unit>, sol: Seq<u8>)
    requires
        board_wf(b),
        fresh(b),
        solves(sol, b.vals),
    ensures
        solves(sol, sweep(b, rule, 9).vals),
        no_repeats(sweep(b, rule, 9).vals),
{
    lemma_sweep_on_track(b, rule, sol, 9);
    lemma_solvable_no_repeats(sol, sweep(b, rule, 9).vals);
}


/// A freshly computed board over in-range values is well formed.
pub proof fn lemma_recomputed_wf(vals: Seq<u8>)
    requires
        vals.len() == 81,
        forall|i: int| 0 <= i < 81 ==> #[trigger] vals[i] <= 9,
    ensures
        board_wf(recomputed(vals)),
        fresh(recomputed(vals)),
{
    let b = recomputed(vals);
    assert forall|i: int, j: int| 0 <= i < 81 && 0 <= j < b.cands[i].len() implies is_digit(
        #[trigger] b.cands[i][j],
    ) by {
        let y = i / 9;
        let x = i % 9;
        assert(i == idx(y, x));
        let d = b.cands[i][j];
        assert(b.cands[i].contains(d));
        lemma_cands_upto_contains(vals, y, x, 9, d);
    }
}

/// A rule followed by a recomputation keeps the board well formed and fresh
/// and keeps every assigned cell.
proof fn lemma_after_rule(b: Board, rule: Option<Unit>)
    requires
        board_wf(b),
        fresh(b),
    ensures
        board_wf(after_rule(b, rule)),
        fresh(after_rule(b, rule)),
        keeps_assigned(b.vals, after_rule(b, rule).vals),
{
    lemma_sweep_refines(b, rule, 9);
    lemma_rule_sound(b, rule);
    let v = sweep(b, rule, 9).vals;
    assert forall|i: int| 0 <= i < 81 implies #[trigger] v[i] <= 9 by {
        assert(sweep(b, rule, 9).vals[i] <= 9);
    }
    lemma_recomputed_wf(v);
}

/// A pass keeps the board well formed and fresh and keeps every assigned cell.
pub proof fn lemma_pass(b: Board)
    requires
        board_wf(b),
        fresh(b),
    ensures
        board_wf(pass(b)),
        fresh(pass(b)),
        keeps_assigned(b.vals, pass(b).vals),
{
    let b1 = after_rule(b, None);
    lemma_after_rule(b, None);
    let b2 = after_rule(b1, Some(Unit::Row));
    lemma_after_rule(b1, Some(Unit::Row));
    lemma_keeps_trans(b.vals, b1.vals, b2.vals);
    let b3 = after_rule(b2, Some(Unit::Column));
    lemma_after_rule(b2, Some(Unit::Column));
    lemma_keeps_trans(b.vals, b2.vals, b3.vals);
    let b4 = after_rule(b3, Some(Unit::Box));
    lemma_after_rule(b3, Some(Unit::Box));
    lemma_keeps_trans(b.vals, b3.vals, b4.vals);
}

/// Passes keep the board well formed and fresh, and a later pass keeps
/// every cell that an earlier one assigned.
pub proof fn lemma_passes(b: Board, j: nat, k: nat)
    requires
        board_wf(b),
        fresh(b),
        j <= k,
    ensures
        board_wf(passes(b, k)),
        fresh(passes(b, k)),
        keeps_assigned(passes(b, j).vals, passes(b, k).vals),
    decreases k,
{
    if k == 0 {
        assert(keeps_assigned(b.vals, b.vals));
    } else {
        let k1 = (k - 1) as nat;
        lemma_passes(b, 0, k1);
        lemma_pass(passes(b, k1));
        if j == k {
            let v = passes(b, k).vals;
            assert(keeps_assigned(v, v));
        } else {
            lemma_passes(b, j, k1);
            lemma_keeps_trans(passes(b, j).vals, passes(b, k1).vals, passes(b, k).vals);
        }
    }
}

/// Once a pass changes nothing, further passes change nothing either.
pub proof fn lemma_passes_fixed(b: Board, k: nat)
    requires
        pass(b) == b,
    ensures
        passes(b, k) == b,
    decreases k,
{
    if k > 0 {
        lemma_passes_fixed(b, (k - 1) as nat);
    }
}

/// On a grid that has a solution, with fresh candidates, any number of passes
/// assigns only the solution's digits: the grid keeps that solution and
/// never repeats a digit in a row, a column or a box.
pub proof fn lemma_passes_follow_solution(b: Board, sol: Seq<u8>, k: nat)
    requires
        board_wf(b),
        fresh(b),
        solves(sol, b.vals),
    ensures
        solves(sol, passes(b, k).vals),
        no_repeats(passes(b, k).vals),
    decreases k,
{
    if k > 0 {
        let c = passes(b, (k - 1) as nat);
        lemma_passes_follow_solution(b, sol, (k - 1) as nat);
        lemma_passes(b, 0, (k - 1) as nat);
        let b1 = after_rule(c, None);
        lemma_after_rule(c, None);
        lemma_rule_follows_solution(c, None, sol);
        let b2 = after_rule(b1, Some(Unit::Row));
        lemma_after_rule(b1, Some(Unit::Row));
        lemma_rule_follows_solution(b1, Some(Unit::Row), sol);
        let b3 = after_rule(b2, Some(Unit::Column));
        lemma_after_rule(b2, Some(Unit::Column));
        lemma_rule_follows_solution(b2, Some(Unit::Column), sol);
        lemma_rule_follows_solution(b3, Some(Unit::Box), sol);
    }
    lemma_solvable_no_repeats(sol, passes(b, k).vals);
}

/// A complete grid that agrees with a solution is that solution.
pub proof fn lemma_complete_is_solution(sol: Seq<u8>, vals: Seq<u8>)
    requires
        solves(sol, vals),
        complete(vals),
        vals.len() == 81,
    ensures
        vals == sol,
{
    assert(vals =~= sol);
}


/// Passes from a board that a pass leaves unchanged stay at that board.
pub proof fn lemma_passes_shift(b: Board, k: nat, m: nat)
    requires
        pass(passes(b, k)) == passes(b, k),
    ensures
        passes(b, k + m) == passes(b, k),
    decreases m,
{
    if m > 0 {
        lemma_passes_shift(b, k, (m - 1) as nat);
        assert(passes(b, k + m) == pass(passes(b, (k + m - 1) as nat)));
    }
}


proof fn lemma_occ_zero(s: Seq<u8>, d: u8)
    ensures
        !s.contains(d) ==> occurrences(s, d) == 0,
    decreases s.len(),
{
    if s.len() > 0 && !s.contains(d) {
        assert forall|j: int| 0 <= j < s.drop_last().len() implies s.drop_last()[j] != d by {
            assert(s[j] != d);
        }
        assert(s[s.len() - 1] != d);
        lemma_occ_zero(s.drop_last(), d);
    }
}

/// A freshly computed candidate list holds each digit at most once.
proof fn lemma_cands_upto_once(vals: Seq<u8>, y: int, x: int, n: nat, d: u8)
    requires
        n <= 9,
    ensures
        occurrences(cands_upto(vals, y, x, n), d) <= 1,
    decreases n,
{
    if n > 0 {
        let p = cands_upto(vals, y, x, (n - 1) as nat);
        lemma_cands_upto_once(vals, y, x, (n - 1) as nat, d);
        if !excluded(vals, y, x, n as u8) {
            assert(p.push(n as u8).drop_last() =~= p);
            if d == n as u8 {
                lemma_cands_upto_contains(vals, y, x, (n - 1) as nat, d);
                lemma_occ_zero(p, d);
            }
        }
    }
}

/// A digit that no unassigned cell of the unit but the `k0`-th lists occurs in
/// the unit's pool at most as often as in that cell's list.
proof fn lemma_pool_at_most(b: Board, unit: Unit, y: int, x: int, n: nat, k0: int, d: u8)
    requires
        forall|k: int|
            0 <= k < n && k != k0 && b.vals[#[trigger] unit_cell(unit, y, x, k)] == 0
                ==> !b.cands[unit_cell(unit, y, x, k)].contains(d),
    ensures
        occurrences(pool(b, unit, y, x, n), d) <= if 0 <= k0 < n {
            occurrences(b.cands[unit_cell(unit, y, x, k0)], d)
        } else {
            0
        },
    decreases n,
{
    if n > 0 {
        let p = pool(b, unit, y, x, (n - 1) as nat);
        let c = unit_cell(unit, y, x, n - 1);
        lemma_pool_at_most(b, unit, y, x, (n - 1) as nat, k0, d);
        if b.vals[c] == 0 {
            lemma_occ_concat(p, b.cands[c], d);
            if n - 1 != k0 {
                lemma_occ_zero(b.cands[c], d);
            }

        }
    }
}

proof fn lemma_first_unique_pick(c: Seq<u8>, peers: Seq<u8>, j: nat, p: int)
    requires
        j <= p < c.len(),
        forall|q: int| j <= q < p ==> occurrences(peers, #[trigger] c[q]) != 1,
        occurrences(peers, c[p]) == 1,
    ensures
        first_unique(c, peers, j) == Some(c[p]),
    decreases p - j,
{
    if j < p {
        lemma_first_unique_pick(c, peers, j + 1, p);
    }
}

/// A step at a cell changes no other cell.
proof fn lemma_step_frame(c: Board, rule: Option<Unit>, y: int, x: int, j: int)
    requires
        idx(y, x) != j,
        valid_pos(y, x),
        0 <= j < 81,
        c.vals.len() == 81,
        c.cands.len() == 81,
    ensures
        rule_step(c, rule, y, x).vals[j] == c.vals[j],
        rule_step(c, rule, y, x).cands[j] == c.cands[j],
        rule_step(c, rule, y, x).vals.len() == c.vals.len(),
        rule_step(c, rule, y, x).cands.len() == c.cands.len(),
{
    let i = idx(y, x);
    match rule {
        None => {
            if c.cands[i].len() == 1 {
                assert(rule_step(c, rule, y, x) == assign(c, i, c.cands[i][0]));
            }
        },
        Some(unit) => {
            match first_unique(c.cands[i], pool(c, unit, y, x, 9), 0) {
                Some(d) => {
                    assert(rule_step(c, rule, y, x) == assign(c, i, d));
                },
                None => {},
            }
        },
    }
}

proof fn lemma_sweep_row_frame(c: Board, rule: Option<Unit>, y: int, n: nat, j: int)
    requires
        0 <= y < 9,
        n <= 9,
        forall|x: int| 0 <= x < n ==> idx(y, x) != j,
        0 <= j < 81,
        c.vals.len() == 81,
        c.cands.len() == 81,
    ensures
        sweep_row(c, rule, y, n).vals[j] == c.vals[j],
        sweep_row(c, rule, y, n).cands[j] == c.cands[j],
        sweep_row(c, rule, y, n).vals.len() == c.vals.len(),
        sweep_row(c, rule, y, n).cands.len() == c.cands.len(),
    decreases n,
{
    if n > 0 {
        lemma_sweep_row_frame(c, rule, y, (n - 1) as nat, j);
        assert(idx(y, n - 1) != j);
        lemma_step_frame(sweep_row(c, rule, y, (n - 1) as nat), rule, y, n - 1, j);
    }
}

proof fn lemma_sweep_frame(b: Board, rule: Option<Unit>, n: nat, j: int)
    requires
        n <= 9,
        j >= 9 * n,
        j < 81,
        b.vals.len() == 81,
        b.cands.len() == 81,
    ensures
        sweep(b, rule, n).vals[j] == b.vals[j],
        sweep(b, rule, n).cands[j] == b.cands[j],
        sweep(b, rule, n).vals.len() == b.vals.len(),
        sweep(b, rule, n).cands.len() == b.cands.len(),
    decreases n,
{
    if n > 0 {
        lemma_sweep_frame(b, rule, (n - 1) as nat, j);
        lemma_sweep_row_frame(sweep(b, rule, (n - 1) as nat), rule, n - 1, 9, j);
    }
}

proof fn lemma_sweep_row_keeps(c: Board, rule: Option<Unit>, y: int, j: nat, n: nat)
    requires
        board_wf(c),
        0 <= y < 9,
        j <= n <= 9,
    ensures
        keeps_assigned(sweep_row(c, rule, y, j).vals, sweep_row(c, rule, y, n).vals),
    decreases n,
{
    let a = sweep_row(c, rule, y, j).vals;
    if n == j {
        assert(keeps_assigned(a, a));
    } else {
        let m = (n - 1) as nat;
        lemma_sweep_row_keeps(c, rule, y, j, m);
        assert(refines(c, c));
        lemma_sweep_row_refines(c, c, rule, y, m);
        let prev = sweep_row(c, rule, y, m);
        assert(refines(prev, prev));
        lemma_step_refines(prev, prev, rule, y, n - 1);
        let next = sweep_row(c, rule, y, n);
        assert(keeps_assigned(prev.vals, next.vals)) by {
            assert forall|i: int| 0 <= i < 81 && prev.vals[i] != 0 implies #[trigger] next.vals[i]
                == prev.vals[i] by {
                assert(refines(prev, next));
            }
        }
        lemma_keeps_trans(a, prev.vals, next.vals);
    }
}

proof fn lemma_sweep_keeps(b: Board, rule: Option<Unit>, m: nat, n: nat)
    requires
        board_wf(b),
        m <= n <= 9,
    ensures
        keeps_assigned(sweep(b, rule, m).vals, sweep(b, rule, n).vals),
    decreases n,
{
    let a = sweep(b, rule, m).vals;
    if n == m {
        assert(keeps_assigned(a, a));
    } else {
        let k = (n - 1) as nat;
        lemma_sweep_keeps(b, rule, m, k);
        lemma_sweep_refines(b, rule, k);
        lemma_sweep_row_keeps(sweep(b, rule, k), rule, k as int, 0, 9);
        lemma_keeps_trans(a, sweep(b, rule, k).vals, sweep(b, rule, n).vals);
    }
}

/// Hidden single in a row: on fresh candidates, when the `p`-th candidate `d`
/// of the unassigned cell (`y`, `x0`) is a candidate of no other unassigned
/// cell of row `y`, and each candidate listed before it is also a candidate of
/// an unassigned cell further right in the row, the row rule places `d` in
/// that cell and in no other cell of the row.
pub proof fn lemma_row_hidden_single(b: Board, y: int, x0: int, p: int)
    requires
        board_wf(b),
        fresh(b),
        valid_pos(y, x0),
        b.vals[idx(y, x0)] == 0,
        0 <= p < b.cands[idx(y, x0)].len(),
        forall|x: int|
            0 <= x < 9 && x != x0 && b.vals[#[trigger] idx(y, x)] == 0 ==> !b.cands[idx(
                y,
                x,
            )].contains(b.cands[idx(y, x0)][p]),
        forall|q: int|
            0 <= q < p ==> exists|x: int|
                x0 < x < 9 && b.vals[idx(y, x)] == 0 && b.cands[idx(y, x)].contains(
                    #[trigger] b.cands[idx(y, x0)][q],
                ),
    ensures
        sweep(b, Some(Unit::Row), 9).vals[idx(y, x0)] == b.cands[idx(y, x0)][p],
        forall|x: int|
            0 <= x < 9 && x != x0 ==> #[trigger] sweep(b, Some(Unit::Row), 9).vals[idx(y, x)]
                != b.cands[idx(y, x0)][p],
{
    let rule = Some(Unit::Row);
    let i0 = idx(y, x0);
    let cs = b.cands[i0];
    let d = cs[p];
    let sy = sweep(b, rule, y as nat);
    let c = sweep_row(sy, rule, y, x0 as nat);
    lemma_sweep_refines(b, rule, y as nat);
    lemma_sweep_row_refines(b, sy, rule, y, x0 as nat);
    lemma_sweep_refines(b, rule, 9);
    // Cells of the row from `x0` on are as they were in `b`.
    assert forall|x: int| x0 <= x < 9 implies c.vals[idx(y, x)] == b.vals[idx(y, x)] && c.cands[idx(
        y,
        x,
    )] == b.cands[idx(y, x)] by {
        lemma_sweep_frame(b, rule, y as nat, idx(y, x));
        lemma_sweep_row_frame(sy, rule, y, x0 as nat, idx(y, x));
    }
    let pl = pool(c, Unit::Row, y, x0, 9);
    // `d` occurs once in the row's pool.
    assert forall|k: int|
        0 <= k < 9 && k != x0 && c.vals[#[trigger] unit_cell(Unit::Row, y, x0, k)] == 0 implies !c.cands[unit_cell(
        Unit::Row,
        y,
        x0,
        k,
    )].contains(d) by {
        assert(unit_cell(Unit::Row, y, x0, k) == idx(y, k));
        assert(refines(b, c));
    }
    lemma_pool_at_most(c, Unit::Row, y, x0, 9, x0, d);
    lemma_table_entry(b.vals, y, x0);
    assert(cs == table_entry(b.vals, i0));
    lemma_cands_upto_once(b.vals, y, x0, 9, d);
    assert(cs.contains(d));
    lemma_occ_pos(cs, d);
    lemma_pool_one(c, Unit::Row, y, x0, 9, x0, d);
    // Each earlier candidate occurs at least twice.
    assert forall|q: int| 0 <= q < p implies occurrences(pl, #[trigger] cs[q]) != 1 by {
        let e = cs[q];
        let x = choose|x: int|
            x0 < x < 9 && b.vals[idx(y, x)] == 0 && b.cands[idx(y, x)].contains(
                #[trigger] b.cands[idx(y, x0)][q],
            );
        assert(cs.contains(e));
        lemma_occ_pos(cs, e);
        lemma_occ_pos(b.cands[idx(y, x)], e);
        lemma_pool_two(c, Unit::Row, y, x0, 9, x0, x, e);
    }
    lemma_first_unique_pick(cs, pl, 0, p);
    let c1 = sweep_row(sy, rule, y, (x0 + 1) as nat);
    assert(c1 == assign(c, i0, d));
    lemma_sweep_row_keeps(sy, rule, y, (x0 + 1) as nat, 9);
    lemma_sweep_keeps(b, rule, (y + 1) as nat, 9);
    assert(sweep(b, rule, (y + 1) as nat) == sweep_row(sy, rule, y, 9));
    // No other cell of the row gets `d`.
    let s = sweep(b, rule, 9);
    assert forall|x: int| 0 <= x < 9 && x != x0 implies #[trigger] s.vals[idx(y, x)] != d by {
        let j = idx(y, x);
        if b.vals[j] == d {
            assert(unit_has(b.vals, Unit::Row, y, x0, d)) by {
                assert(unit_cell(Unit::Row, y, x0, x) == j);
            }
            lemma_candidates_exact(b.vals, y, x0, d);
        }
    }
}

} // verus!
