//! The solver state and the operations of the deduction engine.

use vstd::prelude::*;
use crate::model::{no_repeats, passes, solves, Board, Unit, assign, board_wf, builtin_puzzle, cands_upto, complete, first_unique, fresh, idx, is_digit, keeps_assigned, occurrences, pass, placed, pool, recomputed, sweep, sweep_row, table_entry, unit_cell, valid_pos};
use crate::lemmas::{lemma_complete_is_solution, lemma_passes, lemma_passes_fixed, lemma_passes_follow_solution, lemma_passes_shift, lemma_first_unique_in, lemma_keeps_count, lemma_keeps_trans, lemma_placed_contains, lemma_sweep_refines, lemma_table_entry, lemma_units_of_cell};

verus! {

/// Side length of the grid.
pub const SIZE: usize = 9;

/// Number of cells of the grid.
pub const CELLS: usize = 81;

/// The puzzle state: a value for every cell (0 for unassigned, else 1..=9)
/// and the candidate digits of every cell, both stored row-major, the cell
/// of row `y` and column `x` at index `9 * y + x`.
pub struct Sudoku {
    field: Vec<u8>,
    option: Vec<Vec<u8>>,
}

/// Where solving stands after a pass.
#[derive(Clone, Copy, PartialEq, Eq, Debug)]
pub enum SolveState {
    /// Some cell was assigned and some cell is still unassigned.
    Running,
    /// Every cell is assigned.
    Done,
    /// The pass assigned nothing and some cell is still unassigned.
    Stalled,
}

/// Whether `v` holds `d`.
fn contains_digit(v: &Vec<u8>, d: u8) -> (r: bool)
    ensures
        r == v@.contains(d),
{
    let mut i: usize = 0;
    while i < v.len()
        invariant
            i <= v@.len(),
            forall|j: int| 0 <= j < i ==> v@[j] != d,
        decreases v@.len() - i,
    {
        if v[i] == d {
            assert(v@[i as int] == d);
            return true;
        }
        i = i + 1;
    }
    false
}

/// How many times `d` occurs in `v`.
fn count_of(v: &Vec<u8>, d: u8) -> (r: usize)
    ensures
        r == occurrences(v@, d),
{
    let mut r: usize = 0;
    let mut i: usize = 0;
    while i < v.len()
        invariant
            i <= v@.len(),
            r == occurrences(v@.take(i as int), d),
            r <= i,
        decreases v@.len() - i,
    {
        assert(v@.take(i + 1).drop_last() =~= v@.take(i as int));
        if v[i] == d {
            r = r + 1;
        }
        i = i + 1;
    }
    assert(v@.take(i as int) =~= v@);
    r
}

/// The first digit of `cands` that occurs exactly once in `peers`.
fn first_unique_digit(cands: &Vec<u8>, peers: &Vec<u8>) -> (r: Option<u8>)
    ensures
        r == first_unique(cands@, peers@, 0),
{
    let mut j: usize = 0;
    while j < cands.len()
        invariant
            j <= cands@.len(),
            first_unique(cands@, peers@, 0) == first_unique(cands@, peers@, j as nat),
        decreases cands@.len() - j,
    {
        if count_of(peers, cands[j]) == 1 {
            return Some(cands[j]);
        }
        j = j + 1;
    }
    None
}

impl Default for Sudoku {
    /// An empty grid, as `Sudoku::new` gives.
    fn default() -> (r: Sudoku)
        ensures
            r.wf(),
            forall|i: int| 0 <= i < 81 ==> #[trigger] r@.vals[i] == 0,
            forall|i: int| 0 <= i < 81 ==> #[trigger] r@.cands[i] == Seq::<u8>::empty(),
    {
        Sudoku::new()
    }
}

impl View for Sudoku {
    type V = Board;

    closed spec fn view(&self) -> Board {
        Board { vals: self.field@, cands: self.option@.map_values(|v: Vec<u8>| v@) }
    }
}

impl Sudoku {
    pub open spec fn wf(&self) -> bool {
        board_wf(self@)
    }

    /// An empty grid: every cell unassigned, no candidates yet.
    pub fn new() -> (r: Sudoku)
        ensures
            r.wf(),
            forall|i: int| 0 <= i < 81 ==> #[trigger] r@.vals[i] == 0,
            forall|i: int| 0 <= i < 81 ==> #[trigger] r@.cands[i] == Seq::<u8>::empty(),
    {
        let mut field: Vec<u8> = Vec::new();
        let mut option: Vec<Vec<u8>> = Vec::new();
        let mut i: usize = 0;
        while i < CELLS
            invariant
                i <= CELLS,
                field@.len() == i,
                option@.len() == i,
                forall|j: int| 0 <= j < i ==> #[trigger] field@[j] == 0,
                forall|j: int| 0 <= j < i ==> #[trigger] option@[j]@ == Seq::<u8>::empty(),
            decreases CELLS - i,
        {
            field.push(0);
            option.push(Vec::new());
            i = i + 1;
        }
        Sudoku { field, option }
    }

    /// Value of the cell in row `y`, column `x`: 0 when unassigned.
    pub fn value(&self, y: usize, x: usize) -> (r: u8)
        requires
            self.wf(),
            valid_pos(y as int, x as int),
        ensures
            r == self@.vals[idx(y as int, x as int)],
    {
        self.field[9 * y + x]
    }

    /// Candidate digits of the cell in row `y`, column `x`, in stored order.
    pub fn candidates(&self, y: usize, x: usize) -> (r: Vec<u8>)
        requires
            self.wf(),
            valid_pos(y as int, x as int),
        ensures
            r@ == self@.cands[idx(y as int, x as int)],
    {
        self.option[9 * y + x].clone()
    }

    /// A grid holding the given values (0 for unassigned), no candidates yet.
    pub fn from_grid(grid: [[u8; 9]; 9]) -> (r: Sudoku)
        requires
            forall|y: int, x: int| valid_pos(y, x) ==> #[trigger] grid@[y]@[x] <= 9,
        ensures
            r.wf(),
            forall|y: int, x: int| valid_pos(y, x) ==> r@.vals[idx(y, x)] == #[trigger] grid@[y]@[x],
            forall|i: int| 0 <= i < 81 ==> #[trigger] r@.cands[i] == Seq::<u8>::empty(),
    {
        let mut field: Vec<u8> = Vec::new();
        let mut option: Vec<Vec<u8>> = Vec::new();
        let mut y: usize = 0;
        while y < SIZE
            invariant
                y <= SIZE,
                field@.len() == 9 * y,
                option@.len() == 9 * y,
                forall|yy: int, x: int|
                    0 <= yy < y && 0 <= x < 9 ==> field@[idx(yy, x)] == #[trigger] grid@[yy]@[x],
                forall|j: int| 0 <= j < 9 * y ==> #[trigger] field@[j] <= 9,
                forall|j: int| 0 <= j < 9 * y ==> #[trigger] option@[j]@ == Seq::<u8>::empty(),
                forall|yy: int, x: int| valid_pos(yy, x) ==> #[trigger] grid@[yy]@[x] <= 9,
            decreases SIZE - y,
        {
            let row = &grid[y];
            let mut x: usize = 0;
            while x < SIZE
                invariant
                    y < SIZE,
                    x <= SIZE,
                    row@ == grid@[y as int]@,
                    field@.len() == 9 * y + x,
                    option@.len() == 9 * y + x,
                    forall|yy: int, xx: int|
                        0 <= yy < y && 0 <= xx < 9 ==> field@[idx(yy, xx)] == #[trigger] grid@[yy]@[xx],
                    forall|xx: int| 0 <= xx < x ==> field@[idx(y as int, xx)] == #[trigger] row@[xx],
                    forall|j: int| 0 <= j < 9 * y + x ==> #[trigger] field@[j] <= 9,
                    forall|j: int| 0 <= j < 9 * y + x ==> #[trigger] option@[j]@ == Seq::<u8>::empty(),
                    forall|yy: int, xx: int| valid_pos(yy, xx) ==> #[trigger] grid@[yy]@[xx] <= 9,
                decreases SIZE - x,
            {
                field.push(row[x]);
                option.push(Vec::new());
                x = x + 1;
            }
            y = y + 1;
        }
        let r = Sudoku { field, option };
        assert(r@.cands =~= Seq::new(81, |i: int| Seq::<u8>::empty()));
        r
    }

    /// Assigns digit `n` to the unassigned cell in row `y`, column `x`, and
    /// clears its candidates.
    pub fn determine(&mut self, y: usize, x: usize, n: u8)
        requires
            old(self).wf(),
            valid_pos(y as int, x as int),
            is_digit(n),
            old(self)@.vals[idx(y as int, x as int)] == 0,
        ensures
            final(self).wf(),
            final(self)@ == assign(old(self)@, idx(y as int, x as int), n),
            keeps_assigned(old(self)@.vals, final(self)@.vals),
    {
        let i = 9 * y + x;
        self.field.set(i, n);
        self.option.set(i, Vec::new());
        assert(self@.cands =~= assign(old(self)@, i as int, n).cands);
    }

    /// Index of the `k`-th cell of the given unit of cell (`y`, `x`).
    fn cell_index(unit: Unit, y: usize, x: usize, k: usize) -> (r: usize)
        requires
            valid_pos(y as int, x as int),
            k < 9,
        ensures
            r == unit_cell(unit, y as int, x as int, k as int),
            r < 81,
    {
        match unit {
            Unit::Row => 9 * y + k,
            Unit::Column => 9 * k + x,
            Unit::Box => 9 * ((y / 3) * 3 + k / 3) + (x / 3) * 3 + k % 3,
        }
    }

    /// The assigned values of a unit of cell (`y`, `x`), in order.
    fn unit_values(&self, unit: Unit, y: usize, x: usize) -> (r: Vec<u8>)
        requires
            self.wf(),
            valid_pos(y as int, x as int),
        ensures
            r@ == placed(self@.vals, unit, y as int, x as int, 9),
    {
        let mut r: Vec<u8> = Vec::new();
        let mut k: usize = 0;
        while k < SIZE
            invariant
                self.wf(),
                valid_pos(y as int, x as int),
                k <= SIZE,
                r@ == placed(self@.vals, unit, y as int, x as int, k as nat),
            decreases SIZE - k,
        {
            let c = Self::cell_index(unit, y, x, k);
            let v = self.field[c];
            if v != 0 {
                r.push(v);
            }
            k = k + 1;
        }
        r
    }

    /// The candidate lists of the unassigned cells of a unit of cell
    /// (`y`, `x`), concatenated in order.
    fn unit_candidates(&self, unit: Unit, y: usize, x: usize) -> (r: Vec<u8>)
        requires
            self.wf(),
            valid_pos(y as int, x as int),
        ensures
            r@ == pool(self@, unit, y as int, x as int, 9),
    {
        let mut r: Vec<u8> = Vec::new();
        let mut k: usize = 0;
        while k < SIZE
            invariant
                self.wf(),
                valid_pos(y as int, x as int),
                k <= SIZE,
                r@ == pool(self@, unit, y as int, x as int, k as nat),
            decreases SIZE - k,
        {
            let c = Self::cell_index(unit, y, x, k);
            if self.field[c] == 0 {
                let cs = &self.option[c];
                let mut j: usize = 0;
                let ghost before = r@;
                while j < cs.len()
                    invariant
                        j <= cs@.len(),
                        r@ == before + cs@.take(j as int),
                    decreases cs@.len() - j,
                {
                    r.push(cs[j]);
                    j = j + 1;
                    assert(r@ =~= before + cs@.take(j as int));
                }
                assert(cs@.take(j as int) =~= cs@);
            }
            k = k + 1;
        }
        r
    }

    /// The digits assigned in row `y`, left to right.
    pub fn row(&self, y: usize) -> (r: Vec<u8>)
        requires
            self.wf(),
            y < 9,
        ensures
            r@ == placed(self@.vals, Unit::Row, y as int, 0, 9),
    {
        self.unit_values(Unit::Row, y, 0)
    }

    /// The digits assigned in column `x`, top to bottom.
    pub fn column(&self, x: usize) -> (r: Vec<u8>)
        requires
            self.wf(),
            x < 9,
        ensures
            r@ == placed(self@.vals, Unit::Column, 0, x as int, 9),
    {
        self.unit_values(Unit::Column, 0, x)
    }

    /// The digits assigned in the box of cell (`y`, `x`), row by row.
    pub fn subgrid(&self, y: usize, x: usize) -> (r: Vec<u8>)
        requires
            self.wf(),
            valid_pos(y as int, x as int),
        ensures
            r@ == placed(self@.vals, Unit::Box, y as int, x as int, 9),
    {
        self.unit_values(Unit::Box, y, x)
    }

    /// The candidates of the unassigned cells of row `y`, concatenated.
    pub fn row_option(&self, y: usize) -> (r: Vec<u8>)
        requires
            self.wf(),
            y < 9,
        ensures
            r@ == pool(self@, Unit::Row, y as int, 0, 9),
    {
        self.unit_candidates(Unit::Row, y, 0)
    }

    /// The candidates of the unassigned cells of column `x`, concatenated.
    pub fn column_option(&self, x: usize) -> (r: Vec<u8>)
        requires
            self.wf(),
            x < 9,
        ensures
            r@ == pool(self@, Unit::Column, 0, x as int, 9),
    {
        self.unit_candidates(Unit::Column, 0, x)
    }

    /// The candidates of the unassigned cells of the box of cell (`y`, `x`),
    /// concatenated.
    pub fn subgrid_option(&self, y: usize, x: usize) -> (r: Vec<u8>)
        requires
            self.wf(),
            valid_pos(y as int, x as int),
        ensures
            r@ == pool(self@, Unit::Box, y as int, x as int, 9),
    {
        self.unit_candidates(Unit::Box, y, x)
    }

    /// Recomputes every cell's candidates from the assigned values: none for an
    /// assigned cell; for an unassigned one, the digits 1..=9 in increasing order
    /// that its row, column and box do not hold. Returns whether every cell is
    /// assigned.
    pub fn update_option(&mut self) -> (r: bool)
        requires
            old(self).wf(),
        ensures
            final(self).wf(),
            final(self)@ == recomputed(old(self)@.vals),
            r == complete(old(self)@.vals),
    {
        let ghost vals = self@.vals;
        let mut all_set = true;
        let mut y: usize = 0;
        while y < SIZE
            invariant
                self.wf(),
                self@.vals == vals,
                y <= SIZE,
                forall|j: int| 0 <= j < 9 * y ==> #[trigger] self@.cands[j] == table_entry(vals, j),
                all_set == (forall|j: int| 0 <= j < 9 * y ==> #[trigger] vals[j] != 0),
            decreases SIZE - y,
        {
            let mut x: usize = 0;
            while x < SIZE
                invariant
                    self.wf(),
                    self@.vals == vals,
                    y < SIZE,
                    x <= SIZE,
                    forall|j: int|
                        0 <= j < 9 * y + x ==> #[trigger] self@.cands[j] == table_entry(vals, j),
                    all_set == (forall|j: int| 0 <= j < 9 * y + x ==> #[trigger] vals[j] != 0),
                decreases SIZE - x,
            {
                let i = 9 * y + x;
                proof {
                    lemma_table_entry(vals, y as int, x as int);
                }
                let mut fresh: Vec<u8> = Vec::new();
                if self.field[i] == 0 {
                    all_set = false;
                    let in_row = self.row(y);
                    let in_column = self.column(x);
                    let in_box = self.subgrid(y, x);
                    let mut d: u8 = 1;
                    while d <= 9
                        invariant
                            1 <= d <= 10,
                            valid_pos(y as int, x as int),
                            in_row@ == placed(vals, Unit::Row, y as int, 0, 9),
                            in_column@ == placed(vals, Unit::Column, 0, x as int, 9),
                            in_box@ == placed(vals, Unit::Box, y as int, x as int, 9),
                            fresh@ == cands_upto(vals, y as int, x as int, (d - 1) as nat),
                            forall|j: int| 0 <= j < fresh@.len() ==> is_digit(#[trigger] fresh@[j]),
                        decreases 10 - d,
                    {
                        proof {
                            lemma_placed_contains(vals, Unit::Row, y as int, 0, 9, d);
                            lemma_placed_contains(vals, Unit::Column, 0, x as int, 9, d);
                            lemma_placed_contains(vals, Unit::Box, y as int, x as int, 9, d);
                            lemma_units_of_cell(vals, y as int, x as int, d);
                        }
                        if !contains_digit(&in_row, d) && !contains_digit(&in_column, d)
                            && !contains_digit(&in_box, d) {
                            fresh.push(d);
                        }
                        d = d + 1;
                    }
                }
                let ghost fv = fresh@;
                let ghost before = self@;
                assert(fv == table_entry(vals, i as int));
                self.option.set(i, fresh);
                proof {
                    assert(self@.cands =~= before.cands.update(i as int, fv));
                    assert forall|j: int|
                        0 <= j < 9 * y + x + 1 implies #[trigger] self@.cands[j] == table_entry(
                        vals,
                        j,
                    ) by {
                        if j == i {
                        }
                    }
                }
                x = x + 1;
            }
            y = y + 1;
        }
        assert(self@.cands =~= recomputed(vals).cands);
        all_set
    }

    /// Sole-candidate rule: in row-major order, every cell whose candidate list
    /// has exactly one digit gets that digit. Candidate lists are not refreshed
    /// during the sweep.
    pub fn sole_candidate_rule(&mut self)
        requires
            old(self).wf(),
        ensures
            final(self).wf(),
            final(self)@ == sweep(old(self)@, None, 9),
            keeps_assigned(old(self)@.vals, final(self)@.vals),
    {
        self.apply_rule(None);
    }

    /// Hidden singles by row: in row-major order, a cell gets the first of its
    /// candidates that occurs exactly once among the candidate lists of the
    /// unassigned cells of its row.
    pub fn row_reduction(&mut self)
        requires
            old(self).wf(),
        ensures
            final(self).wf(),
            final(self)@ == sweep(old(self)@, Some(Unit::Row), 9),
            keeps_assigned(old(self)@.vals, final(self)@.vals),
    {
        self.apply_rule(Some(Unit::Row));
    }

    /// Hidden singles by column, as `row_reduction` does by row.
    pub fn column_reduction(&mut self)
        requires
            old(self).wf(),
        ensures
            final(self).wf(),
            final(self)@ == sweep(old(self)@, Some(Unit::Column), 9),
            keeps_assigned(old(self)@.vals, final(self)@.vals),
    {
        self.apply_rule(Some(Unit::Column));
    }

    /// Hidden singles by box, as `row_reduction` does by row.
    pub fn box_reduction(&mut self)
        requires
            old(self).wf(),
        ensures
            final(self).wf(),
            final(self)@ == sweep(old(self)@, Some(Unit::Box), 9),
            keeps_assigned(old(self)@.vals, final(self)@.vals),
    {
        self.apply_rule(Some(Unit::Box));
    }

    /// One sweep of a rule over all cells: the sole-candidate rule for `None`,
    /// hidden singles in the given unit otherwise.
    fn apply_rule(&mut self, rule: Option<Unit>)
        requires
            old(self).wf(),
        ensures
            final(self).wf(),
            final(self)@ == sweep(old(self)@, rule, 9),
            keeps_assigned(old(self)@.vals, final(self)@.vals),
    {
        let ghost b0 = self@;
        proof {
            lemma_sweep_refines(b0, rule, 9);
        }
        let mut y: usize = 0;
        while y < SIZE
            invariant
                self.wf(),
                y <= SIZE,
                self@ == sweep(b0, rule, y as nat),
            decreases SIZE - y,
        {
            let mut x: usize = 0;
            while x < SIZE
                invariant
                    self.wf(),
                    y < SIZE,
                    x <= SIZE,
                    self@ == sweep_row(sweep(b0, rule, y as nat), rule, y as int, x as nat),
                decreases SIZE - x,
            {
                let i = 9 * y + x;
                let found = match rule {
                    None => {
                        if self.option[i].len() == 1 {
                            Some(self.option[i][0])
                        } else {
                            None
                        }
                    },
                    Some(unit) => {
                        let peers = self.unit_candidates(unit, y, x);
                        first_unique_digit(&self.option[i], &peers)
                    },
                };
                proof {
                    if let Some(unit) = rule {
                        lemma_first_unique_in(self@.cands[i as int], pool(self@, unit, y as int, x as int, 9), 0);
                    }
                }
                if let Some(d) = found {
                    proof {
                        let c = self@.cands[i as int];
                        if rule is None {
                            assert(c[0] == d);
                        }
                        let j = choose|j: int| 0 <= j < c.len() && c[j] == d;
                        assert(is_digit(self@.cands[i as int][j]));
                    }
                    self.determine(y, x, d);
                }
                x = x + 1;
            }
            y = y + 1;
        }
    }

    /// Number of unassigned cells.
    pub fn unassigned_count(&self) -> (r: usize)
        requires
            self.wf(),
        ensures
            r == occurrences(self@.vals, 0),
    {
        count_of(&self.field, 0)
    }

    /// One elimination pass: the sole-candidate rule, then hidden singles by
    /// row, by column and by box, each followed by a recomputation of the
    /// candidates, stopping as soon as every cell is assigned. Returns whether
    /// every cell is assigned.
    pub fn elimination_pass(&mut self) -> (r: bool)
        requires
            old(self).wf(),
        ensures
            final(self).wf(),
            final(self)@ == pass(old(self)@),
            keeps_assigned(old(self)@.vals, final(self)@.vals),
            r == complete(final(self)@.vals),
    {
        let ghost v0 = self@.vals;
        self.sole_candidate_rule();
        if self.update_option() {
            return true;
        }
        let ghost v1 = self@.vals;
        self.row_reduction();
        proof {
            lemma_keeps_trans(v0, v1, self@.vals);
        }
        if self.update_option() {
            return true;
        }
        let ghost v2 = self@.vals;
        self.column_reduction();
        proof {
            lemma_keeps_trans(v0, v2, self@.vals);
        }
        if self.update_option() {
            return true;
        }
        let ghost v3 = self@.vals;
        self.box_reduction();
        proof {
            lemma_keeps_trans(v0, v3, self@.vals);
        }
        self.update_option()
    }

    /// Runs one elimination pass and reports where solving stands: `Done`
    /// when every cell is assigned, `Stalled` when the pass assigned nothing,
    /// `Running` otherwise.
    pub fn step(&mut self) -> (r: SolveState)
        requires
            old(self).wf(),
        ensures
            final(self).wf(),
            final(self)@ == pass(old(self)@),
            keeps_assigned(old(self)@.vals, final(self)@.vals),
            r is Done <==> complete(final(self)@.vals),
            r is Stalled <==> !complete(final(self)@.vals) && final(self)@.vals == old(self)@.vals,
            r is Running ==> occurrences(final(self)@.vals, 0) < occurrences(old(self)@.vals, 0),
    {
        let before = self.unassigned_count();
        let ghost v0 = self@.vals;
        let done = self.elimination_pass();
        let after = self.unassigned_count();
        proof {
            lemma_keeps_count(v0, self@.vals);
        }
        if done {
            SolveState::Done
        } else if after < before {
            SolveState::Running
        } else {
            SolveState::Stalled
        }
    }

    /// Fills in what the four rules can deduce: recomputes the candidates,
    /// then runs elimination passes until every cell is assigned or a pass
    /// assigns nothing. Returns whether every cell is assigned.
    ///
    /// The result is that of at most one pass more than there were
    /// unassigned cells. It is complete whenever some number of passes
    /// completes the grid, and it keeps every solution of the grid.
    pub fn solve(&mut self) -> (r: bool)
        requires
            old(self).wf(),
        ensures
            final(self).wf(),
            exists|k: nat|
                k <= occurrences(old(self)@.vals, 0) + 1 && final(self)@ == passes(
                    recomputed(old(self)@.vals),
                    k,
                ),
            r == complete(final(self)@.vals),
            keeps_assigned(old(self)@.vals, final(self)@.vals),
            !r ==> pass(final(self)@) == final(self)@,
            (exists|k: nat| complete(#[trigger] passes(recomputed(old(self)@.vals), k).vals)) ==> r,
            pass(recomputed(old(self)@.vals)).vals == old(self)@.vals ==> final(self)@ == recomputed(
                old(self)@.vals,
            ),
            forall|sol: Seq<u8>| #[trigger]
                solves(sol, old(self)@.vals) ==> solves(sol, final(self)@.vals) && no_repeats(
                    final(self)@.vals,
                ) && (r ==> final(self)@.vals == sol),
    {
        let ghost v0 = self@.vals;
        self.update_option();
        let ghost b0 = self@;
        let ghost mut k: nat = 0;
        proof {
            lemma_passes(b0, 0, 0);
        }
        loop
            invariant
                self.wf(),
                fresh(self@),
                v0 == old(self)@.vals,
                b0 == recomputed(v0),
                board_wf(b0),
                fresh(b0),
                self@ == passes(b0, k),
                k + occurrences(self@.vals, 0) <= occurrences(v0, 0),
            decreases occurrences(self@.vals, 0),
        {
            let ghost before = self@;
            let state = self.step();
            proof {
                k = k + 1;
                lemma_passes(b0, 0, k);
            }
            match state {
                SolveState::Running => {},
                SolveState::Done => {
                    proof {
                        self.lemma_solve_result(v0, b0, k, true);
                    }
                    return true;
                },
                SolveState::Stalled => {
                    proof {
                        self.lemma_solve_result(v0, b0, k, false);
                    }
                    return false;
                },
            }
        }
    }

    /// What `solve` states of its result, once the loop has stopped after `k`
    /// passes with every cell assigned (`done`) or with a pass that changed
    /// nothing.
    proof fn lemma_solve_result(&self, v0: Seq<u8>, b0: Board, k: nat, done: bool)
        requires
            self.wf(),
            b0 == recomputed(v0),
            board_wf(b0),
            fresh(b0),
            self@ == passes(b0, k),
            k >= 1,
            done == complete(self@.vals),
            !done ==> self@.vals == passes(b0, (k - 1) as nat).vals,
        ensures
            keeps_assigned(v0, self@.vals),
            !done ==> pass(self@) == self@,
            (exists|j: nat| complete(#[trigger] passes(b0, j).vals)) ==> done,
            pass(b0).vals == v0 ==> self@ == b0,
            forall|sol: Seq<u8>| #[trigger]
                solves(sol, v0) ==> solves(sol, self@.vals) && no_repeats(self@.vals) && (done
                    ==> self@.vals == sol),
    {
        lemma_passes(b0, 0, k);
        let prev = passes(b0, (k - 1) as nat);
        lemma_passes(b0, 0, (k - 1) as nat);
        if !done {
            assert(prev == recomputed(prev.vals));
            assert(self@ == prev);
            lemma_passes_fixed(prev, 0);
        }
        if exists|j: nat| complete(#[trigger] passes(b0, j).vals) {
            let j = choose|j: nat| complete(#[trigger] passes(b0, j).vals);
            if !done {
                if j <= k {
                    lemma_passes(b0, j, k);
                } else {
                    assert forall|m: nat| m <= j - k implies #[trigger] passes(b0, k + m) == self@ by {
                        lemma_passes_shift(b0, k, m);
                    }
                    assert(passes(b0, k + (j - k) as nat) == self@);
                }
                assert(complete(self@.vals));
            }
        }
        if pass(b0).vals == v0 {
            assert(pass(b0) == b0);
            lemma_passes_fixed(b0, k);
        }
        assert forall|sol: Seq<u8>| #[trigger]
            solves(sol, v0) implies solves(sol, self@.vals) && no_repeats(self@.vals) && (done
                ==> self@.vals == sol) by {
            assert(b0.vals == v0);
            lemma_passes_follow_solution(b0, sol, k);
            if done {
                lemma_complete_is_solution(sol, self@.vals);
            }
        }
    }

    /// Replaces the grid with the built-in puzzle; no candidates yet.
    pub fn static_init(&mut self)
        ensures
            final(self).wf(),
            final(self)@.vals == builtin_puzzle(),
            forall|i: int| 0 <= i < 81 ==> #[trigger] final(self)@.cands[i] == Seq::<u8>::empty(),
    {
        let grid: [[u8; 9]; 9] = [
            [0, 0, 0, 0, 6, 0, 5, 0, 0],
            [0, 0, 2, 0, 0, 0, 0, 0, 4],
            [0, 1, 0, 3, 0, 0, 0, 9, 0],
            [0, 3, 4, 5, 0, 0, 0, 0, 6],
            [0, 0, 0, 0, 0, 0, 0, 0, 0],
            [2, 0, 0, 0, 0, 9, 8, 1, 0],
            [0, 5, 0, 0, 0, 8, 0, 3, 0],
            [3, 0, 0, 0, 0, 0, 9, 0, 0],
            [0, 0, 6, 0, 1, 0, 0, 0, 0],
        ];
        assert forall|y: int, x: int| valid_pos(y, x) implies #[trigger] grid@[y]@[x] <= 9
            && grid@[y]@[x] == builtin_puzzle()[idx(y, x)] by {
            assert(0 <= y < 9);
        }
        let fresh = Sudoku::from_grid(grid);
        assert(fresh@.vals =~= builtin_puzzle()) by {
            assert forall|i: int| 0 <= i < 81 implies fresh@.vals[i] == builtin_puzzle()[i] by {
                let y = i / 9;
                let x = i % 9;
                assert(i == idx(y, x));
                assert(grid@[y]@[x] == builtin_puzzle()[idx(y, x)]);
            }
        }
        *self = fresh;
    }
}

} // verus!
