use sudoku_solver::solver::{reset_grid, solve_grid, validate_and_solve, verify_grid, SolveResult};
use sudoku_solver::square::{sanitize_cell, Square};

const PUZZLE: &str =
    "000000012003600000000007000410020000000500300700000600280000040000300500000000000";
const SOLUTION: &str =
    "679835412123694758548217936416723895892561374735489621287956143961342587354178269";

fn grid_from(text: &str) -> Vec<Vec<Square>> {
    let digits: Vec<char> = text.chars().collect();
    assert_eq!(digits.len(), 81);
    let mut grid = Vec::new();
    for r in 0..9 {
        let mut row = Vec::new();
        for c in 0..9 {
            let mut sq = Square::new();
            let ch = digits[r * 9 + c];
            if ch != '0' {
                sq.value = ch.to_string();
            }
            row.push(sq);
        }
        grid.push(row);
    }
    grid
}

fn text_of(grid: &Vec<Vec<Square>>) -> String {
    let mut out = String::new();
    for row in grid {
        for sq in row {
            if sq.value.is_empty() {
                out.push('0');
            } else {
                out.push_str(&sq.value);
            }
        }
    }
    out
}

fn solved_flags(grid: &Vec<Vec<Square>>) -> Vec<bool> {
    grid.iter().flat_map(|row| row.iter().map(|sq| sq.solved_cell)).collect()
}

fn with_cell(text: &str, k: usize, ch: char) -> String {
    let mut chars: Vec<char> = text.chars().collect();
    chars[k] = ch;
    chars.into_iter().collect()
}

#[test]
fn new_square_is_empty() {
    let sq = Square::new();
    assert!(sq.value.is_empty());
    assert!(!sq.show_text);
    assert!(!sq.solved_cell);
    assert!(!sq.focus);
}

#[test]
fn duplicate_in_row_is_rejected() {
    // Two 1s in the first row of an otherwise valid puzzle.
    let text = with_cell(PUZZLE, 0, '1');
    assert!(!verify_grid(&grid_from(&text)));
}

#[test]
fn duplicate_in_column_is_rejected() {
    // A 4 in the first cell repeats the 4 lower down column 0.
    let text = with_cell(PUZZLE, 0, '4');
    assert!(!verify_grid(&grid_from(&text)));
}

#[test]
fn duplicate_in_box_is_rejected() {
    // 3 at (1, 2) and again at (0, 0), same box, different row and column.
    let text = with_cell(PUZZLE, 0, '3');
    assert!(!verify_grid(&grid_from(&text)));
}

#[test]
fn duplicate_skips_search_and_keeps_grid() {
    let text = with_cell(PUZZLE, 0, '1');
    let mut grid = grid_from(&text);
    assert_eq!(validate_and_solve(&mut grid), SolveResult::Invalid);
    assert_eq!(text_of(&grid), text);
    assert!(solved_flags(&grid).iter().all(|f| !f));
}

#[test]
fn sixteen_givens_are_rejected() {
    let text = with_cell(PUZZLE, 7, '0');
    assert!(!verify_grid(&grid_from(&text)));
}

#[test]
fn empty_board_is_rejected_by_validator() {
    assert!(!verify_grid(&grid_from(&"0".repeat(81))));
}

#[test]
fn seventeen_givens_pass_validator() {
    assert!(verify_grid(&grid_from(PUZZLE)));
}

#[test]
fn empty_board_is_not_unique() {
    let mut grid = grid_from(&"0".repeat(81));
    assert_eq!(solve_grid(&mut grid), SolveResult::NotUnique);
    assert_eq!(text_of(&grid), "0".repeat(81));
    assert!(solved_flags(&grid).iter().all(|f| !f));
}

#[test]
fn complete_board_is_unique_and_unchanged() {
    let mut grid = grid_from(SOLUTION);
    assert_eq!(solve_grid(&mut grid), SolveResult::Unique);
    assert_eq!(text_of(&grid), SOLUTION);
    assert!(solved_flags(&grid).iter().all(|f| !f));
}

#[test]
fn seventeen_clue_puzzle_is_solved() {
    let mut grid = grid_from(PUZZLE);
    assert_eq!(validate_and_solve(&mut grid), SolveResult::Unique);
    assert_eq!(text_of(&grid), SOLUTION);
    let flags = solved_flags(&grid);
    for (k, ch) in PUZZLE.chars().enumerate() {
        assert_eq!(flags[k], ch == '0');
    }
}

#[test]
fn given_keeps_its_flags() {
    let mut grid = grid_from(PUZZLE);
    grid[0][7].solved_cell = true;
    grid[0][7].show_text = true;
    grid[3][3].focus = true;
    assert_eq!(solve_grid(&mut grid), SolveResult::Unique);
    assert!(grid[0][7].solved_cell);
    assert!(grid[0][7].show_text);
    assert_eq!(grid[0][7].value, "1");
    assert!(grid[3][3].focus);
    assert!(grid[3][3].solved_cell);
}

#[test]
fn changed_solution_cell_is_invalid() {
    // Cell 0 holds 6 in the solution; 9 repeats the 9 at cell 2 of that row.
    let text = with_cell(SOLUTION, 0, '9');
    let mut grid = grid_from(&text);
    assert!(!verify_grid(&grid));
    assert_eq!(validate_and_solve(&mut grid), SolveResult::Invalid);
    assert_eq!(text_of(&grid), text);
}

#[test]
fn no_completion_is_invalid() {
    // Row 0 holds 1..8; the 9 in column 8 leaves its last cell no digit.
    let text = format!("123456780000000009{}", "0".repeat(63));
    let mut grid = grid_from(&text);
    assert_eq!(solve_grid(&mut grid), SolveResult::Invalid);
    assert_eq!(text_of(&grid), text);
    assert!(solved_flags(&grid).iter().all(|f| !f));
}

#[test]
fn two_completions_are_not_unique() {
    let mut chars: Vec<char> = SOLUTION.chars().collect();
    // Find a rectangle (r1, c1), (r1, c2), (r2, c1), (r2, c2) holding a, b / b, a
    // with r1, r2 in one band and c1, c2 in one stack.
    let mut found = false;
    'outer: for r1 in 0..9 {
        for r2 in (r1 + 1)..9 {
            if r1 / 3 != r2 / 3 {
                continue;
            }
            for c1 in 0..9 {
                for c2 in (c1 + 1)..9 {
                    let a = chars[r1 * 9 + c1];
                    let b = chars[r1 * 9 + c2];
                    if chars[r2 * 9 + c1] == b && chars[r2 * 9 + c2] == a {
                        for k in [r1 * 9 + c1, r1 * 9 + c2, r2 * 9 + c1, r2 * 9 + c2] {
                            chars[k] = '0';
                        }
                        found = true;
                        break 'outer;
                    }
                }
            }
        }
    }
    assert!(found);
    let text: String = chars.into_iter().collect();
    let mut grid = grid_from(&text);
    assert!(verify_grid(&grid));
    assert_eq!(solve_grid(&mut grid), SolveResult::NotUnique);
    assert_eq!(text_of(&grid), text);
}

#[test]
fn solving_again_is_idempotent() {
    let mut grid = grid_from(PUZZLE);
    assert_eq!(solve_grid(&mut grid), SolveResult::Unique);
    let first = text_of(&grid);
    let first_flags = solved_flags(&grid);
    assert_eq!(solve_grid(&mut grid), SolveResult::Unique);
    assert_eq!(text_of(&grid), first);
    assert_eq!(solved_flags(&grid), first_flags);
}

#[test]
fn two_runs_agree() {
    let mut a = grid_from(PUZZLE);
    let mut b = grid_from(PUZZLE);
    assert_eq!(solve_grid(&mut a), solve_grid(&mut b));
    assert_eq!(text_of(&a), text_of(&b));
    assert_eq!(solved_flags(&a), solved_flags(&b));
    let mut e1 = grid_from(&"0".repeat(81));
    let mut e2 = grid_from(&"0".repeat(81));
    assert_eq!(solve_grid(&mut e1), solve_grid(&mut e2));
    assert_eq!(text_of(&e1), text_of(&e2));
}

#[test]
fn reset_clears_only_solved_cells() {
    let mut grid = grid_from(PUZZLE);
    assert_eq!(solve_grid(&mut grid), SolveResult::Unique);
    grid[4][4].focus = true;
    reset_grid(&mut grid, true);
    assert_eq!(text_of(&grid), PUZZLE);
    assert!(solved_flags(&grid).iter().all(|f| !f));
    assert!(grid[4][4].focus);
    assert!(grid.iter().all(|row| row.iter().all(|sq| !sq.show_text)));
}

#[test]
fn reset_all_clears_every_cell() {
    let mut grid = grid_from(PUZZLE);
    grid[0][7].show_text = true;
    reset_grid(&mut grid, false);
    assert_eq!(text_of(&grid), "0".repeat(81));
    assert!(!grid[0][7].show_text);
}

#[test]
fn sanitize_keeps_one_digit() {
    assert_eq!(sanitize_cell("7"), "7");
    assert_eq!(sanitize_cell("75"), "7");
    assert_eq!(sanitize_cell("0"), "");
    assert_eq!(sanitize_cell("a"), "");
    assert_eq!(sanitize_cell(""), "");
    assert_eq!(sanitize_cell("9x"), "9");
}
