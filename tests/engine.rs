use sudoku::grid::{SolveState, Sudoku};
use sudoku::input::{cell_value_from, parse_cell_input};

const EASY: [[u8; 9]; 9] = [
    [5, 3, 0, 0, 7, 0, 0, 0, 0],
    [6, 0, 0, 1, 9, 5, 0, 0, 0],
    [0, 9, 8, 0, 0, 0, 0, 6, 0],
    [8, 0, 0, 0, 6, 0, 0, 0, 3],
    [4, 0, 0, 8, 0, 3, 0, 0, 1],
    [7, 0, 0, 0, 2, 0, 0, 0, 6],
    [0, 6, 0, 0, 0, 0, 2, 8, 0],
    [0, 0, 0, 4, 1, 9, 0, 0, 5],
    [0, 0, 0, 0, 8, 0, 0, 7, 9],
];

const SOLUTION: [[u8; 9]; 9] = [
    [5, 3, 4, 6, 7, 8, 9, 1, 2],
    [6, 7, 2, 1, 9, 5, 3, 4, 8],
    [1, 9, 8, 3, 4, 2, 5, 6, 7],
    [8, 5, 9, 7, 6, 1, 4, 2, 3],
    [4, 2, 6, 8, 5, 3, 7, 9, 1],
    [7, 1, 3, 9, 2, 4, 8, 5, 6],
    [9, 6, 1, 5, 3, 7, 2, 8, 4],
    [2, 8, 7, 4, 1, 9, 6, 3, 5],
    [3, 4, 5, 2, 8, 6, 1, 7, 9],
];

fn values(s: &Sudoku) -> Vec<u8> {
    let mut v = Vec::new();
    for y in 0..9 {
        for x in 0..9 {
            v.push(s.value(y, x));
        }
    }
    v
}

fn table(s: &Sudoku) -> Vec<Vec<u8>> {
    let mut t = Vec::new();
    for y in 0..9 {
        for x in 0..9 {
            t.push(s.candidates(y, x));
        }
    }
    t
}

fn peers_hold(s: &Sudoku, y: usize, x: usize, d: u8) -> bool {
    for k in 0..9 {
        if (k != x && s.value(y, k) == d) || (k != y && s.value(k, x) == d) {
            return true;
        }
    }
    let (by, bx) = ((y / 3) * 3, (x / 3) * 3);
    for yy in by..by + 3 {
        for xx in bx..bx + 3 {
            if (yy, xx) != (y, x) && s.value(yy, xx) == d {
                return true;
            }
        }
    }
    false
}

fn no_duplicates(s: &Sudoku) -> bool {
    for y in 0..9 {
        for x in 0..9 {
            let d = s.value(y, x);
            if d != 0 && peers_hold(s, y, x, d) {
                return false;
            }
        }
    }
    true
}

#[test]
fn candidates_are_digits_missing_from_peers() {
    let mut s = Sudoku::from_grid(EASY);
    assert!(!s.update_option());
    for y in 0..9 {
        for x in 0..9 {
            if s.value(y, x) != 0 {
                assert!(s.candidates(y, x).is_empty());
                continue;
            }
            let expected: Vec<u8> = (1..=9u8).filter(|&d| !peers_hold(&s, y, x, d)).collect();
            assert_eq!(s.candidates(y, x), expected);
        }
    }
    assert_eq!(s.candidates(0, 2), vec![1, 2, 4]);
    assert_eq!(s.candidates(4, 4), vec![5]);
}

#[test]
fn recompute_twice_gives_the_same_table() {
    let mut s = Sudoku::from_grid(EASY);
    s.update_option();
    let first = table(&s);
    let vals = values(&s);
    s.update_option();
    assert_eq!(table(&s), first);
    assert_eq!(values(&s), vals);
}

#[test]
fn assigned_cells_never_change() {
    let mut s = Sudoku::from_grid(EASY);
    s.update_option();
    let mut before = values(&s);
    for _ in 0..3 {
        s.sole_candidate_rule();
        s.row_reduction();
        s.column_reduction();
        s.box_reduction();
        s.update_option();
        let after = values(&s);
        for i in 0..81 {
            if before[i] != 0 {
                assert_eq!(after[i], before[i]);
            }
        }
        for y in 0..9 {
            for x in 0..9 {
                if s.value(y, x) != 0 {
                    assert!(s.candidates(y, x).is_empty());
                }
            }
        }
        before = after;
    }
}

#[test]
fn rules_place_no_duplicate_digit() {
    let mut s = Sudoku::from_grid(EASY);
    s.update_option();
    let before = values(&s);
    let cands = table(&s);
    s.sole_candidate_rule();
    let after = values(&s);
    let mut placed = 0;
    for i in 0..81 {
        if before[i] == 0 && after[i] != 0 {
            placed += 1;
            assert!(cands[i].contains(&after[i]));
        }
    }
    assert!(placed > 0);
    assert!(no_duplicates(&s));

    let mut b = Sudoku::new();
    b.static_init();
    b.solve();
    assert!(no_duplicates(&b));
}

#[test]
fn completion_is_reported_exactly_when_all_cells_are_set() {
    let mut full = Sudoku::from_grid(SOLUTION);
    assert!(full.update_option());
    let mut grid = SOLUTION;
    grid[8][8] = 0;
    let mut one_blank = Sudoku::from_grid(grid);
    assert!(!one_blank.update_option());
    let mut empty = Sudoku::new();
    assert!(!empty.update_option());
}

#[test]
fn single_blank_cell_gets_the_missing_digit() {
    let mut grid = SOLUTION;
    grid[4][4] = 0;
    let mut s = Sudoku::from_grid(grid);
    assert!(!s.update_option());
    assert_eq!(s.candidates(4, 4), vec![5]);
    s.sole_candidate_rule();
    assert_eq!(s.value(4, 4), 5);
    assert!(s.update_option());
}

#[test]
fn hidden_single_in_a_row() {
    let mut grid = [[0u8; 9]; 9];
    grid[1][3] = 1;
    grid[2][6] = 1;
    grid[3][1] = 1;
    grid[6][2] = 1;
    let mut s = Sudoku::from_grid(grid);
    s.update_option();
    let before = values(&s);
    s.row_reduction();
    let after = values(&s);
    assert_eq!(s.value(0, 0), 1);
    assert!(s.candidates(0, 0).is_empty());
    for i in 1..81 {
        assert_eq!(after[i], before[i]);
    }
}

#[test]
fn hidden_single_rules_by_column_and_box() {
    let mut grid = [[0u8; 9]; 9];
    grid[1][3] = 1;
    grid[2][6] = 1;
    grid[3][1] = 1;
    grid[6][2] = 1;
    let mut s = Sudoku::from_grid(grid);
    s.update_option();
    s.box_reduction();
    assert_eq!(s.value(0, 0), 1);
    let mut t = Sudoku::from_grid(grid);
    t.update_option();
    let before = values(&t);
    t.column_reduction();
    let after = values(&t);
    assert_eq!(after[0], 1);
    for i in 1..81 {
        assert_eq!(after[i], before[i]);
    }
}

#[test]
fn no_progress_grid_stalls() {
    let mut grid = [[0u8; 9]; 9];
    grid[0][0] = 5;
    let mut s = Sudoku::from_grid(grid);
    s.update_option();
    let vals = values(&s);
    let cands = table(&s);
    assert_eq!(s.step(), SolveState::Stalled);
    assert_eq!(s.step(), SolveState::Stalled);
    assert_eq!(values(&s), vals);
    assert_eq!(table(&s), cands);
    let mut again = Sudoku::from_grid(grid);
    assert!(!again.solve());
    assert_eq!(values(&again), vals);
    assert_eq!(again.unassigned_count(), 80);
}

#[test]
fn easy_puzzle_is_solved_within_bounded_passes() {
    let mut s = Sudoku::from_grid(EASY);
    s.update_option();
    let mut passes = 0;
    let mut state = SolveState::Running;
    while state == SolveState::Running {
        assert!(passes < 81);
        state = s.step();
        passes += 1;
    }
    assert_eq!(state, SolveState::Done);
    for y in 0..9 {
        for x in 0..9 {
            assert_eq!(s.value(y, x), SOLUTION[y][x]);
        }
    }
    assert!(no_duplicates(&s));
    let mut t = Sudoku::from_grid(EASY);
    assert!(t.solve());
    assert_eq!(values(&t), values(&s));
}

#[test]
fn elimination_pass_reports_completion() {
    let mut grid = SOLUTION;
    grid[0][0] = 0;
    grid[8][8] = 0;
    let mut s = Sudoku::from_grid(grid);
    s.update_option();
    assert!(s.elimination_pass());
    assert_eq!(s.value(0, 0), 5);
    assert_eq!(s.value(8, 8), 9);
    assert_eq!(s.unassigned_count(), 0);
}

#[test]
fn peer_lookups() {
    let mut s = Sudoku::from_grid(EASY);
    assert_eq!(s.row(0), vec![5, 3, 7]);
    assert_eq!(s.column(0), vec![5, 6, 8, 4, 7]);
    assert_eq!(s.subgrid(4, 4), vec![6, 8, 3, 2]);
    assert_eq!(s.subgrid(0, 0), vec![5, 3, 6, 9, 8]);
    s.update_option();
    assert_eq!(s.row_option(4), vec![2, 5, 2, 5, 6, 9, 5, 5, 7, 9, 2, 5, 9]);
    let mut col = Vec::new();
    for y in 0..9 {
        if s.value(y, 8) == 0 {
            col.extend(s.candidates(y, 8));
        }
    }
    assert_eq!(s.column_option(8), col);
    let mut bx = Vec::new();
    for y in 3..6 {
        for x in 3..6 {
            if s.value(y, x) == 0 {
                bx.extend(s.candidates(y, x));
            }
        }
    }
    assert_eq!(s.subgrid_option(5, 3), bx);
}

#[test]
fn determine_sets_value_and_clears_candidates() {
    let mut s = Sudoku::from_grid(EASY);
    s.update_option();
    s.determine(0, 2, 4);
    assert_eq!(s.value(0, 2), 4);
    assert!(s.candidates(0, 2).is_empty());
}

#[test]
fn builtin_puzzle_and_empty_grid() {
    let mut s = Sudoku::default();
    assert_eq!(s.unassigned_count(), 81);
    s.static_init();
    assert_eq!(s.value(0, 4), 6);
    assert_eq!(s.value(5, 0), 2);
    assert_eq!(s.value(8, 4), 1);
    assert_eq!(s.unassigned_count(), 81 - 22);
}

#[test]
fn cell_input_is_checked() {
    assert_eq!(parse_cell_input("7"), Some(7));
    assert_eq!(parse_cell_input("0"), Some(0));
    assert_eq!(parse_cell_input("a"), None);
    assert_eq!(parse_cell_input("12"), None);
    assert_eq!(parse_cell_input(""), None);
    assert_eq!(parse_cell_input(" 3"), None);
    assert_eq!(cell_value_from(Some(true), "9"), Some(9));
    assert_eq!(cell_value_from(Some(false), "9"), None);
    assert_eq!(cell_value_from(None, "9"), None);
    assert_eq!(cell_value_from(Some(true), "x"), None);
}

#[test]
fn blank_first_row_is_filled_by_solve() {
    let mut grid = SOLUTION;
    grid[0] = [0; 9];
    let mut s = Sudoku::from_grid(grid);
    assert!(s.solve());
    for y in 0..9 {
        for x in 0..9 {
            assert_eq!(s.value(y, x), SOLUTION[y][x]);
            assert!(s.candidates(y, x).is_empty());
        }
    }
}
