use vstd::prelude::*;

use crate::square::{cell_digit, cell_text_ok, Square};

verus! {

/// Number of cells on the board.
pub const CELLS: usize = 81;

/// The fewest givens that can pin down a unique solution.
pub const MIN_GIVENS: usize = 17;

/// A grid is well typed when it has 9 rows of 9 cells, each empty or one digit.
pub open spec fn grid_ok(g: Seq<Vec<Square>>) -> bool {
    &&& g.len() == 9
    &&& forall|r: int| 0 <= r < 9 ==> (#[trigger] g[r])@.len() == 9
    &&& forall|r: int, c: int|
        0 <= r < 9 && 0 <= c < 9 ==> cell_text_ok((#[trigger] g[r]@[c]).value@)
}

/// The board in row-major order: cell `k` is row `k / 9`, column `k % 9`;
/// 0 marks an empty cell.
pub open spec fn board_of(g: Seq<Vec<Square>>) -> Seq<u8> {
    Seq::new(81, |k: int| cell_digit(g[k / 9]@[k % 9].value@))
}

/// Index of the row (`kind` 0), column (1) or 3x3 box (2) that holds cell `k`.
pub open spec fn group_of(kind: int, k: int) -> int {
    if kind == 0 {
        k / 9
    } else if kind == 1 {
        k % 9
    } else {
        (k / 27) * 3 + (k % 9) / 3
    }
}

/// Two distinct cells that share a row, a column or a box.
pub open spec fn peers(k: int, j: int) -> bool {
    &&& k != j
    &&& {
        ||| group_of(0, k) == group_of(0, j)
        ||| group_of(1, k) == group_of(1, j)
        ||| group_of(2, k) == group_of(2, j)
    }
}

/// Every entry is a digit 0..=9 (0 = empty).
pub open spec fn digits_ok(b: Seq<u8>) -> bool {
    b.len() == 81 && forall|k: int| 0 <= k < 81 ==> #[trigger] b[k] <= 9
}

/// No row, column or box holds the same digit twice.
pub open spec fn conflict_free(b: Seq<u8>) -> bool {
    forall|k: int, j: int|
        0 <= k < 81 && 0 <= j < 81 && peers(k, j) && #[trigger] b[k] != 0 ==> b[k] != #[trigger] b[j]
}

/// Some cell of group `g` of the given kind holds digit `d`.
pub open spec fn digit_in_group(b: Seq<u8>, kind: int, g: int, d: int) -> bool {
    exists|k: int| 0 <= k < 81 && group_of(kind, k) == g && #[trigger] b[k] == d
}

/// The first `n` cells of `b`, with the rest left empty.
pub open spec fn prefix_board(b: Seq<u8>, n: int) -> Seq<u8> {
    Seq::new(81, |j: int| if j < n { b[j] } else { 0u8 })
}

/// Filling an empty cell with a digit that none of its groups holds keeps the
/// board free of conflicts.
pub proof fn lemma_place_conflict_free(b: Seq<u8>, k: int, d: u8)
    requires
        b.len() == 81,
        conflict_free(b),
        0 <= k < 81,
        b[k] == 0,
        forall|kind: int| 0 <= kind < 3 ==> !digit_in_group(b, kind, #[trigger] group_of(kind, k), d as int),
    ensures
        conflict_free(b.update(k, d)),
{
    let nb = b.update(k, d);
    assert forall|i: int, j: int|
        0 <= i < 81 && 0 <= j < 81 && peers(i, j) && #[trigger] nb[i] != 0 implies nb[i] != #[trigger] nb[j] by {
        if i == k && nb[j] == d {
            let kind: int = if group_of(0, i) == group_of(0, j) { 0 } else if group_of(1, i) == group_of(1, j) { 1 } else { 2 };
            assert(b[j] == d);
            assert(digit_in_group(b, kind, group_of(kind, k), d as int));
        } else if j == k && nb[i] == d {
            let kind: int = if group_of(0, i) == group_of(0, j) { 0 } else if group_of(1, i) == group_of(1, j) { 1 } else { 2 };
            assert(b[i] == d);
            assert(digit_in_group(b, kind, group_of(kind, k), d as int));
        } else if i != k && j != k {
            assert(b[i] != 0);
        }
    }
}

/// Number of filled cells among the first `n`.
pub open spec fn filled_upto(b: Seq<u8>, n: int) -> nat
    decreases n,
{
    if n <= 0 {
        0
    } else {
        filled_upto(b, n - 1) + if b[n - 1] != 0 {
            1nat
        } else {
            0nat
        }
    }
}

/// Number of filled cells of the board.
pub open spec fn filled_count(b: Seq<u8>) -> nat {
    filled_upto(b, 81)
}

/// `t` is a completion of `b`: every cell holds a digit 1..=9, the givens of
/// `b` are kept, and no row, column or box repeats a digit.
pub open spec fn is_solution(b: Seq<u8>, t: Seq<u8>) -> bool {
    &&& t.len() == 81
    &&& forall|k: int| 0 <= k < 81 ==> 1 <= #[trigger] t[k] <= 9
    &&& forall|k: int| 0 <= k < 81 && #[trigger] b[k] != 0 ==> t[k] == b[k]
    &&& conflict_free(t)
}

pub open spec fn has_solution(b: Seq<u8>) -> bool {
    exists|t: Seq<u8>| is_solution(b, t)
}

/// Exactly one completion, namely `s`.
pub open spec fn unique_solution(b: Seq<u8>, s: Seq<u8>) -> bool {
    is_solution(b, s) && forall|t: Seq<u8>| #[trigger] is_solution(b, t) ==> t == s
}

/// Two different completions exist.
pub open spec fn several_solutions(b: Seq<u8>) -> bool {
    exists|t1: Seq<u8>, t2: Seq<u8>| is_solution(b, t1) && is_solution(b, t2) && t1 != t2
}

/// Reads the digits of a well-typed grid into a row-major board.
pub fn read_board(grid: &[Vec<Square>]) -> (b: Vec<u8>)
    requires
        grid_ok(grid@),
    ensures
        b@ == board_of(grid@),
        digits_ok(b@),
{
    let mut b: Vec<u8> = Vec::new();
    let mut k: usize = 0;
    while k < CELLS
        invariant
            grid_ok(grid@),
            k <= 81,
            b@.len() == k,
            forall|j: int| 0 <= j < k ==> b@[j] == #[trigger] board_of(grid@)[j],
            forall|j: int| 0 <= j < k ==> #[trigger] b@[j] <= 9,
        decreases 81 - k,
    {
        let r: usize = k / 9;
        let c: usize = k % 9;
        let text = grid[r][c].value.as_str();
        let d: u8 = if text.is_empty() {
            0
        } else {
            let ch = text.get_char(0);
            (ch as u32 - '0' as u32) as u8
        };
        b.push(d);
        k = k + 1;
    }
    assert(b@ =~= board_of(grid@));
    b
}

/// The text of a digit 1..=9.
pub fn digit_text(d: u8) -> (s: String)
    requires
        1 <= d <= 9,
    ensures
        cell_text_ok(s@),
        cell_digit(s@) == d,
{
    proof {
        reveal_strlit("1");
        reveal_strlit("2");
        reveal_strlit("3");
        reveal_strlit("4");
        reveal_strlit("5");
        reveal_strlit("6");
        reveal_strlit("7");
        reveal_strlit("8");
        reveal_strlit("9");
    }
    let text = match d {
        1 => "1",
        2 => "2",
        3 => "3",
        4 => "4",
        5 => "5",
        6 => "6",
        7 => "7",
        8 => "8",
        _ => "9",
    };
    String::from_str(text)
}

} // verus!
