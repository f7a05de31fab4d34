use vstd::prelude::*;

use crate::board::{
    board_of, conflict_free, filled_count, grid_ok, is_solution, peers,
    unique_solution, MIN_GIVENS,
};
use crate::solver::{cell_at, committed, solved_as, SolveResult};
use crate::square::{cell_digit, cell_text_ok, Square};

verus! {

/// Two cells that look the same to a caller: same text, same flags.
pub open spec fn same_cell(a: Square, b: Square) -> bool {
    &&& a.value@ == b.value@
    &&& a.show_text == b.show_text
    &&& a.solved_cell == b.solved_cell
    &&& a.focus == b.focus
}

/// Two grids of 81 cells that look the same cell by cell.
pub open spec fn same_grid(g1: Seq<Vec<Square>>, g2: Seq<Vec<Square>>) -> bool {
    forall|k: int| 0 <= k < 81 ==> same_cell(#[trigger] cell_at(g1, k), cell_at(g2, k))
}

/// A grid in which two cells of one row, column or box hold the same digit is
/// rejected by `verify_grid`, whatever else it holds.
pub proof fn duplicate_is_rejected(g: Seq<Vec<Square>>, k: int, j: int)
    requires
        grid_ok(g),
        0 <= k < 81,
        0 <= j < 81,
        peers(k, j),
        board_of(g)[k] != 0,
        board_of(g)[k] == board_of(g)[j],
    ensures
        !conflict_free(board_of(g)),
        !(conflict_free(board_of(g)) && filled_count(board_of(g)) >= MIN_GIVENS),
{
}

/// A grid with fewer than 17 filled cells is rejected by `verify_grid`, with
/// or without a conflict.
pub proof fn too_few_givens_are_rejected(g: Seq<Vec<Square>>)
    requires
        filled_count(board_of(g)) < MIN_GIVENS,
    ensures
        !(conflict_free(board_of(g)) && filled_count(board_of(g)) >= MIN_GIVENS),
{
}

/// Two well-typed cells with the same nonzero digit have the same text.
proof fn lemma_same_digit_same_text(a: Seq<char>, b: Seq<char>)
    requires
        cell_text_ok(a),
        cell_text_ok(b),
        cell_digit(a) == cell_digit(b),
        cell_digit(a) != 0,
    ensures
        a == b,
{
    assert(a.len() == 1 && b.len() == 1);
    assert(a[0] == b[0]);
    assert(a =~= b);
}

/// A complete grid free of conflicts is its own unique completion: solving it
/// reports `Unique`, keeps every cell as it was, and marks no cell as
/// solver-filled.
pub proof fn complete_board_is_kept(g: Seq<Vec<Square>>, r: SolveResult, g1: Seq<Vec<Square>>)
    requires
        grid_ok(g),
        conflict_free(board_of(g)),
        forall|k: int| 0 <= k < 81 ==> #[trigger] board_of(g)[k] != 0,
        solved_as(g, r, g1),
    ensures
        unique_solution(board_of(g), board_of(g)),
        r == SolveResult::Unique,
        board_of(g1) == board_of(g),
        same_grid(g, g1),
{
    let b = board_of(g);
    assert forall|k: int| 0 <= k < 81 implies 1 <= #[trigger] b[k] <= 9 by {
        let r = k / 9;
        let c = k % 9;
        assert(cell_text_ok(g[r]@[c].value@));
    }
    assert forall|t: Seq<u8>| #[trigger] is_solution(b, t) implies t == b by {
        assert forall|k: int| 0 <= k < 81 implies t[k] == b[k] by {
            assert(b[k] != 0);
        }
        assert(t =~= b);
    }
    assert(is_solution(b, b));
    assert(unique_solution(b, b));
    assert(r == SolveResult::Unique);
    assert(is_solution(b, board_of(g1)));
    assert forall|k: int| 0 <= k < 81 implies same_cell(#[trigger] cell_at(g, k), cell_at(g1, k)) by {
        let r = k / 9;
        let c = k % 9;
        assert(cell_text_ok(g[r]@[c].value@));
        assert(b[k] != 0);
        assert(committed(cell_at(g, k), cell_at(g1, k), board_of(g1)[k]));
    }
}

/// Solving the grid that a `Unique` solve produced gives `Unique` again, with
/// the same cells and no cell newly marked as solver-filled.
pub proof fn solving_again_changes_nothing(
    g0: Seq<Vec<Square>>,
    g1: Seq<Vec<Square>>,
    r2: SolveResult,
    g2: Seq<Vec<Square>>,
)
    requires
        grid_ok(g0),
        solved_as(g0, SolveResult::Unique, g1),
        solved_as(g1, r2, g2),
    ensures
        grid_ok(g1),
        conflict_free(board_of(g1)),
        r2 == SolveResult::Unique,
        same_grid(g1, g2),
{
    let s = board_of(g1);
    assert(is_solution(board_of(g0), s));
    assert forall|k: int| 0 <= k < 81 implies #[trigger] s[k] != 0 by {}
    complete_board_is_kept(g1, r2, g2);
}

/// Solving is a function of the grid alone: two solves of the same grid give
/// the same result and grids that look the same.
pub proof fn solving_is_deterministic(
    g0: Seq<Vec<Square>>,
    r1: SolveResult,
    g1: Seq<Vec<Square>>,
    r2: SolveResult,
    g2: Seq<Vec<Square>>,
)
    requires
        grid_ok(g0),
        solved_as(g0, r1, g1),
        solved_as(g0, r2, g2),
    ensures
        r1 == r2,
        same_grid(g1, g2),
{
    if r1 == SolveResult::Unique {
        assert(r2 == SolveResult::Unique);
        let b0 = board_of(g0);
        assert(is_solution(b0, board_of(g2)));
        assert(board_of(g1) == board_of(g2));
        assert forall|k: int| 0 <= k < 81 implies same_cell(#[trigger] cell_at(g1, k), cell_at(g2, k)) by {
            let d = board_of(g1)[k];
            assert(committed(cell_at(g0, k), cell_at(g1, k), d));
            assert(committed(cell_at(g0, k), cell_at(g2, k), d));
            lemma_same_digit_same_text(cell_at(g1, k).value@, cell_at(g2, k).value@);
        }
    } else {
        assert(r2 != SolveResult::Unique);
        assert(g1 == g0 && g2 == g0);
    }
}

} // verus!
