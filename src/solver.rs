use vstd::prelude::*;

use crate::board::{
    board_of, conflict_free, digit_in_group, digit_text, digits_ok, filled_count, filled_upto,
    grid_ok, group_of, has_solution, is_solution, lemma_place_conflict_free, peers, read_board,
    several_solutions, unique_solution, CELLS, MIN_GIVENS,
};
use crate::masks::{has_bit, Masks};
use crate::square::{cell_digit, cell_text_ok, Square};

verus! {

/// How many completions a board has.
#[derive(Clone, Copy, Debug, PartialEq, Eq, Structural)]
pub enum SolveResult {
    /// Exactly one.
    Unique,
    /// Two or more.
    NotUnique,
    /// None.
    Invalid,
}

/// What the search has found so far: nothing, one completion, or more than one.
pub enum Found {
    Nothing,
    One(Vec<u8>),
    Many,
}

/// The completions of board `b`.
pub open spec fn solutions(b: Seq<u8>) -> spec_fn(Seq<u8>) -> bool {
    |t: Seq<u8>| is_solution(b, t)
}

/// `r` is what a search that starts from `a` reports after it has looked at
/// the completions in `p`: the first one found is kept, and a second one,
/// counting `a`, turns the report into `Many`.
pub open spec fn outcome(a: Found, p: spec_fn(Seq<u8>) -> bool, r: Found) -> bool {
    match r {
        Found::Nothing => a is Nothing && !exists|t: Seq<u8>| #[trigger] p(t),
        Found::One(s) => {
            ||| (a is Nothing && p(s@) && forall|t: Seq<u8>| #[trigger] p(t) ==> t == s@)
            ||| (a matches Found::One(s0) && s0@ == s@ && !exists|t: Seq<u8>| #[trigger] p(t))
        },
        Found::Many => {
            ||| a is Many
            ||| (a is One && exists|t: Seq<u8>| #[trigger] p(t))
            ||| exists|t1: Seq<u8>, t2: Seq<u8>| #[trigger] p(t1) && #[trigger] p(t2) && t1 != t2
        },
    }
}

/// Looking at `p` and then at `q` reports what looking at both at once would.
proof fn lemma_outcome_join(
    a0: Found,
    p: spec_fn(Seq<u8>) -> bool,
    a1: Found,
    q: spec_fn(Seq<u8>) -> bool,
    a2: Found,
)
    requires
        outcome(a0, p, a1),
        outcome(a1, q, a2),
        a1 matches Found::One(s) ==> !q(s@),
    ensures
        outcome(a0, |t: Seq<u8>| p(t) || q(t), a2),
{
    let pq = |t: Seq<u8>| p(t) || q(t);
    match a2 {
        Found::Nothing => {
            assert(!exists|t: Seq<u8>| #[trigger] pq(t)) by {
                if exists|t: Seq<u8>| #[trigger] pq(t) {
                    let t = choose|t: Seq<u8>| #[trigger] pq(t);
                    assert(p(t) || q(t));
                }
            }
        },
        Found::One(s) => {
            match a1 {
                Found::Nothing => {
                    assert forall|t: Seq<u8>| #[trigger] pq(t) implies t == s@ by {
                        assert(!p(t));
                    }
                },
                Found::One(s1) => {
                    if a0 is Nothing {
                        assert(p(s1@));
                        assert(!q(s1@));
                        assert forall|t: Seq<u8>| #[trigger] pq(t) implies t == s@ by {
                            assert(!q(t));
                        }
                        assert(pq(s@));
                    } else {
                        assert(!exists|t: Seq<u8>| #[trigger] pq(t)) by {
                            if exists|t: Seq<u8>| #[trigger] pq(t) {
                                let t = choose|t: Seq<u8>| #[trigger] pq(t);
                                assert(p(t) || q(t));
                            }
                        }
                    }
                },
                Found::Many => {},
            }
        },
        Found::Many => {
            match a1 {
                Found::Nothing => {
                    if exists|t1: Seq<u8>, t2: Seq<u8>| #[trigger] q(t1) && #[trigger] q(t2) && t1 != t2 {
                        let (t1, t2) = choose|t1: Seq<u8>, t2: Seq<u8>| #[trigger] q(t1) && #[trigger] q(t2) && t1 != t2;
                        assert(pq(t1) && pq(t2));
                    }
                },
                Found::One(s1) => {
                    if a0 is Nothing {
                        assert(p(s1@));
                        assert(pq(s1@));
                        if exists|t: Seq<u8>| #[trigger] q(t) {
                            let t = choose|t: Seq<u8>| #[trigger] q(t);
                            assert(t != s1@);
                            assert(pq(t));
                        } else {
                            let (t1, t2) = choose|t1: Seq<u8>, t2: Seq<u8>| #[trigger] q(t1) && #[trigger] q(t2) && t1 != t2;
                            assert(pq(t1) && pq(t2));
                        }
                    } else {
                        if exists|t: Seq<u8>| #[trigger] q(t) {
                            let t = choose|t: Seq<u8>| #[trigger] q(t);
                            assert(pq(t));
                        } else {
                            let (t1, t2) = choose|t1: Seq<u8>, t2: Seq<u8>| #[trigger] q(t1) && #[trigger] q(t2) && t1 != t2;
                            assert(pq(t1) && pq(t2));
                        }
                    }
                },
                Found::Many => {
                    if a0 is One {
                        let t = choose|t: Seq<u8>| #[trigger] p(t);
                        assert(pq(t));
                    } else if !(a0 is Many) {
                        let (t1, t2) = choose|t1: Seq<u8>, t2: Seq<u8>| #[trigger] p(t1) && #[trigger] p(t2) && t1 != t2;
                        assert(pq(t1) && pq(t2));
                    }
                },
            }
        },
    }
}

/// The report depends on which completions `p` holds, not on how it is written.
proof fn lemma_outcome_same(a: Found, p: spec_fn(Seq<u8>) -> bool, q: spec_fn(Seq<u8>) -> bool, r: Found)
    requires
        outcome(a, p, r),
        forall|t: Seq<u8>| #[trigger] p(t) == q(t),
    ensures
        outcome(a, q, r),
{
    assert(forall|t: Seq<u8>| #[trigger] q(t) == p(t));
    match r {
        Found::Many => {
            if exists|t: Seq<u8>| #[trigger] p(t) {
                let t = choose|t: Seq<u8>| #[trigger] p(t);
                assert(q(t));
            }
            if exists|t1: Seq<u8>, t2: Seq<u8>| #[trigger] p(t1) && #[trigger] p(t2) && t1 != t2 {
                let (t1, t2) = choose|t1: Seq<u8>, t2: Seq<u8>| #[trigger] p(t1) && #[trigger] p(t2) && t1 != t2;
                assert(q(t1) && q(t2));
            }
        },
        _ => {},
    }
}

/// A report of `Many` stays true when more completions are looked at.
proof fn lemma_outcome_many_grows(a: Found, p: spec_fn(Seq<u8>) -> bool, q: spec_fn(Seq<u8>) -> bool)
    requires
        outcome(a, p, Found::Many),
        forall|t: Seq<u8>| #[trigger] p(t) ==> q(t),
    ensures
        outcome(a, q, Found::Many),
{
    if exists|t: Seq<u8>| #[trigger] p(t) {
        let t = choose|t: Seq<u8>| #[trigger] p(t);
        assert(q(t));
    }
    if exists|t1: Seq<u8>, t2: Seq<u8>| #[trigger] p(t1) && #[trigger] p(t2) && t1 != t2 {
        let (t1, t2) = choose|t1: Seq<u8>, t2: Seq<u8>| #[trigger] p(t1) && #[trigger] p(t2) && t1 != t2;
        assert(q(t1) && q(t2));
    }
}

/// Filling the empty cell `i` with `d` keeps exactly the completions of `b`
/// that have `d` there.
proof fn lemma_fill_cell(b: Seq<u8>, i: int, d: u8, t: Seq<u8>)
    requires
        b.len() == 81,
        0 <= i < 81,
        b[i] == 0,
        1 <= d <= 9,
    ensures
        is_solution(b.update(i, d), t) <==> is_solution(b, t) && t[i] == d,
{
    let nb = b.update(i, d);
    if is_solution(b, t) && t[i] == d {
        assert forall|k: int| 0 <= k < 81 && #[trigger] nb[k] != 0 implies t[k] == nb[k] by {
            if k != i {
                assert(b[k] != 0);
            }
        }
    }
    if is_solution(nb, t) {
        assert forall|k: int| 0 <= k < 81 && #[trigger] b[k] != 0 implies t[k] == b[k] by {
            assert(nb[k] != 0);
        }
        assert(nb[i] != 0);
    }
}

/// No completion puts at cell `i` a digit that a peer of `i` already holds.
proof fn lemma_taken_digit(b: Seq<u8>, i: int, kind: int, d: u8, t: Seq<u8>)
    requires
        b.len() == 81,
        0 <= i < 81,
        b[i] == 0,
        0 <= kind < 3,
        d != 0,
        digit_in_group(b, kind, group_of(kind, i), d as int),
    ensures
        !(is_solution(b, t) && t[i] == d),
{
    let j = choose|j: int| 0 <= j < 81 && group_of(kind, j) == group_of(kind, i) && #[trigger] b[j] == d;
    if is_solution(b, t) && t[i] == d {
        assert(t[j] == b[j]);
        assert(peers(i, j));
        assert(t[i] != 0);
    }
}

/// A full board free of conflicts is its own and only completion.
proof fn lemma_full_board(b: Seq<u8>, t: Seq<u8>)
    requires
        digits_ok(b),
        conflict_free(b),
        forall|k: int| 0 <= k < 81 ==> #[trigger] b[k] != 0,
    ensures
        is_solution(b, b),
        is_solution(b, t) ==> t == b,
{
    if is_solution(b, t) {
        assert forall|k: int| 0 <= k < 81 implies t[k] == b[k] by {
            assert(b[k] != 0);
        }
        assert(t =~= b);
    }
}

/// Depth-first search over the cells from `i` on, in row-major order, trying
/// the digits of each empty cell in increasing order. `found` is what earlier
/// branches found; the search stops as soon as two completions are known.
/// Unless it reports `Many`, the board and the masks are left as they came.
fn solve(board: &mut Vec<u8>, masks: &mut Masks, i: usize, found: Found) -> (r: Found)
    requires
        i <= 81,
        digits_ok(old(board)@),
        conflict_free(old(board)@),
        old(masks).matches(old(board)@),
        forall|k: int| 0 <= k < i ==> #[trigger] old(board)@[k] != 0,
        found matches Found::One(s) ==> !is_solution(old(board)@, s@),
    ensures
        outcome(found, solutions(old(board)@), r),
        !(r is Many) ==> final(board)@ == old(board)@ && final(masks).matches(old(board)@),
    decreases 81 - i,
{
    let ghost b = board@;
    if let Found::Many = found {
        return Found::Many;
    }
    if i == CELLS {
        proof {
            assert forall|t: Seq<u8>| #[trigger] solutions(b)(t) implies t == b by {
                lemma_full_board(b, t);
            }
            lemma_full_board(b, b);
            assert(solutions(b)(b));
        }
        return match found {
            Found::Nothing => Found::One(board.clone()),
            _ => Found::Many,
        };
    }
    if board[i] != 0 {
        return solve(board, masks, i + 1, found);
    }
    let forbidden = masks.forbidden(i);
    let ghost f0 = found;
    let mut acc = found;
    let mut x: u16 = 0;
    proof {
        assert forall|y: u16| y < 9 implies ((#[trigger] (forbidden & (1u16 << y)) == 0) <==> forall|kind: int|
            0 <= kind < 3 ==> !digit_in_group(b, kind, #[trigger] group_of(kind, i as int), y + 1)) by {
            crate::masks::lemma_bit_union(
                masks.rows@[group_of(0, i as int)],
                masks.cols@[group_of(1, i as int)],
                masks.boxes@[group_of(2, i as int)],
                y,
            );
            assert(masks.group(0)[group_of(0, i as int)] == masks.rows@[group_of(0, i as int)]);
            assert(masks.group(1)[group_of(1, i as int)] == masks.cols@[group_of(1, i as int)]);
            assert(masks.group(2)[group_of(2, i as int)] == masks.boxes@[group_of(2, i as int)]);
            assert(has_bit(masks.group(0)[group_of(0, i as int)], y as int) == digit_in_group(b, 0, group_of(0, i as int), y + 1));
            assert(has_bit(masks.group(1)[group_of(1, i as int)], y as int) == digit_in_group(b, 1, group_of(1, i as int), y + 1));
            assert(has_bit(masks.group(2)[group_of(2, i as int)], y as int) == digit_in_group(b, 2, group_of(2, i as int), y + 1));
        }
        assert forall|t: Seq<u8>| #[trigger] solutions(b)(t) implies !(t[i as int] <= 0) by {}
        let q0 = |t: Seq<u8>| is_solution(b, t) && t[i as int] <= 0;
        assert(!exists|t: Seq<u8>| #[trigger] q0(t));
    }
    while x < 9
        invariant
            i < 81,
            board@ == b,
            b == old(board)@,
            f0 == found,
            digits_ok(b),
            conflict_free(b),
            b[i as int] == 0,
            forall|k: int| 0 <= k < i ==> #[trigger] b[k] != 0,
            masks.matches(b),
            forall|y: u16| y < 9 ==> ((#[trigger] (forbidden & (1u16 << y)) == 0) <==> forall|kind: int|
                0 <= kind < 3 ==> !digit_in_group(b, kind, #[trigger] group_of(kind, i as int), y + 1)),
            f0 matches Found::One(s) ==> !is_solution(b, s@),
            x <= 9,
            !(acc is Many),
            outcome(f0, |t: Seq<u8>| is_solution(b, t) && t[i as int] <= x, acc),
        decreases 9 - x,
    {
        let ghost qx = |t: Seq<u8>| is_solution(b, t) && t[i as int] <= x;
        let ghost qn = |t: Seq<u8>| is_solution(b, t) && t[i as int] <= x + 1;
        let ghost d = (x + 1) as u8;
        let ghost nb = b.update(i as int, d);
        if forbidden & (1u16 << x) == 0 {
            proof {
                lemma_place_conflict_free(b, i as int, d);
                assert forall|t: Seq<u8>| #[trigger] solutions(nb)(t) == (is_solution(b, t) && t[i as int] == d) by {
                    lemma_fill_cell(b, i as int, d, t);
                }
            }
            masks.place(Ghost(b), i, x);
            board.set(i, (x + 1) as u8);
            assert(board@ == nb);
            let ghost a1 = acc;
            proof {
                if let Found::One(s) = a1 {
                    assert(!solutions(nb)(s@)) by {
                        if f0 is Nothing {
                            assert(qx(s@));
                        }
                    }
                }
                assert(forall|k: int| 0 <= k < i + 1 ==> #[trigger] nb[k] != 0);
            }
            acc = solve(board, masks, i + 1, acc);
            let ghost qu = |t: Seq<u8>| qx(t) || solutions(nb)(t);
            proof {
                lemma_outcome_join(f0, qx, a1, solutions(nb), acc);
                assert forall|t: Seq<u8>| #[trigger] qu(t) == qn(t) by {
                    lemma_fill_cell(b, i as int, d, t);
                }
                lemma_outcome_same(f0, qu, qn, acc);
            }
            if let Found::Many = acc {
                proof {
                    assert(outcome(f0, qn, Found::Many));
                    assert(forall|t: Seq<u8>| #[trigger] qn(t) ==> solutions(b)(t));
                    lemma_outcome_many_grows(f0, qn, solutions(b));
                }
                return Found::Many;
            }
            masks.unplace(Ghost(nb), i, x);
            board.set(i, 0);
            proof {
                assert(nb.update(i as int, 0u8) =~= b);
                assert(board@ =~= b);
            }
        } else {
            proof {
                let kind = choose|kind: int|
                    0 <= kind < 3 && digit_in_group(b, kind, #[trigger] group_of(kind, i as int), x + 1);
                assert forall|t: Seq<u8>| #[trigger] qx(t) == qn(t) by {
                    lemma_taken_digit(b, i as int, kind, d, t);
                }
                lemma_outcome_same(f0, qx, qn, acc);
            }
        }
        x = x + 1;
    }
    proof {
        let q9 = |t: Seq<u8>| is_solution(b, t) && t[i as int] <= 9;
        assert forall|t: Seq<u8>| #[trigger] q9(t) == solutions(b)(t) by {}
        lemma_outcome_same(f0, q9, solutions(b), acc);
    }
    acc
}

/// Number of filled cells of `b`.
fn count_filled(b: &Vec<u8>) -> (n: usize)
    requires
        b@.len() == 81,
    ensures
        n == filled_count(b@),
{
    let mut n: usize = 0;
    let mut k: usize = 0;
    while k < CELLS
        invariant
            b@.len() == 81,
            k <= 81,
            n == filled_upto(b@, k as int),
            n <= k,
        decreases 81 - k,
    {
        if b[k] != 0 {
            n = n + 1;
        }
        k = k + 1;
    }
    n
}

/// True when no row, column or box of the grid repeats a digit and at least
/// 17 cells are filled.
pub fn verify_grid(grid: &[Vec<Square>]) -> (r: bool)
    requires
        grid_ok(grid@),
    ensures
        r == (conflict_free(board_of(grid@)) && filled_count(board_of(grid@)) >= MIN_GIVENS),
{
    let b = read_board(grid);
    match Masks::from_board(&b) {
        None => false,
        Some(_) => count_filled(&b) >= MIN_GIVENS,
    }
}

/// The cell at row-major index `k` of a grid.
pub open spec fn cell_at(g: Seq<Vec<Square>>, k: int) -> Square {
    g[k / 9]@[k % 9]
}

/// `n` is cell `o` after the solver has put digit `d` in it: a given keeps
/// everything, an empty cell gets `d` and is marked as solver-filled.
pub open spec fn committed(o: Square, n: Square, d: u8) -> bool {
    &&& n.show_text == o.show_text
    &&& n.focus == o.focus
    &&& cell_text_ok(n.value@)
    &&& cell_digit(n.value@) == d
    &&& n.solved_cell == (o.solved_cell || o.value@.len() == 0)
    &&& o.value@.len() != 0 ==> n.value@ == o.value@
}

/// Writes completion `s` into the empty cells of the grid, marking them as
/// solver-filled.
fn commit_solution(grid: &mut Vec<Vec<Square>>, s: &Vec<u8>)
    requires
        grid_ok(old(grid)@),
        is_solution(board_of(old(grid)@), s@),
    ensures
        final(grid)@.len() == 9,
        forall|r: int| 0 <= r < 9 ==> (#[trigger] final(grid)@[r])@.len() == 9,
        forall|k: int| 0 <= k < 81 ==> committed(#[trigger] cell_at(old(grid)@, k), cell_at(final(grid)@, k), s@[k]),
{
    let ghost g0 = grid@;
    let ghost b0 = board_of(g0);
    let mut k: usize = 0;
    while k < CELLS
        invariant
            grid_ok(g0),
            is_solution(b0, s@),
            b0 == board_of(g0),
            k <= 81,
            grid@.len() == 9,
            forall|r: int| 0 <= r < 9 ==> (#[trigger] grid@[r])@.len() == 9,
            forall|j: int| k <= j < 81 ==> #[trigger] cell_at(grid@, j) == cell_at(g0, j),
            forall|j: int| 0 <= j < k ==> committed(#[trigger] cell_at(g0, j), cell_at(grid@, j), s@[j]),
        decreases 81 - k,
    {
        let r: usize = k / 9;
        let c: usize = k % 9;
        let ghost before = grid@;
        assert(cell_at(grid@, k as int) == cell_at(g0, k as int));
        assert(cell_text_ok(cell_at(g0, k as int).value@));
        assert(b0[k as int] == cell_digit(cell_at(g0, k as int).value@));
        if grid[r][c].value.as_str().is_empty() {
            let text = digit_text(s[k]);
            let row = &mut grid[r];
            let sq = &mut row[c];
            sq.value = text;
            sq.solved_cell = true;
        }
        assert forall|j: int| k + 1 <= j < 81 implies #[trigger] cell_at(grid@, j) == cell_at(g0, j) by {
            assert(cell_at(grid@, j) == cell_at(before, j));
        }
        assert forall|j: int| 0 <= j < k + 1 implies committed(#[trigger] cell_at(g0, j), cell_at(grid@, j), s@[j]) by {
            if j < k {
                assert(cell_at(grid@, j) == cell_at(before, j));
            } else {
                if b0[j] != 0 {
                    assert(s@[j] == b0[j]);
                }
            }
        }
        k = k + 1;
    }
}

/// What solving grid `g0` means: the result tells whether it has no, exactly
/// one, or several completions; with exactly one, `g1` holds it and marks the
/// cells that were empty as solver-filled; otherwise `g1` is `g0`.
pub open spec fn solved_as(g0: Seq<Vec<Square>>, r: SolveResult, g1: Seq<Vec<Square>>) -> bool {
    &&& (r == SolveResult::Invalid) == !has_solution(board_of(g0))
    &&& (r == SolveResult::NotUnique) == several_solutions(board_of(g0))
    &&& (r == SolveResult::Unique) == exists|s: Seq<u8>| unique_solution(board_of(g0), s)
    &&& r == SolveResult::Unique ==> {
        &&& grid_ok(g1)
        &&& unique_solution(board_of(g0), board_of(g1))
        &&& forall|k: int|
            0 <= k < 81 ==> committed(#[trigger] cell_at(g0, k), cell_at(g1, k), board_of(g1)[k])
    }
    &&& r != SolveResult::Unique ==> g1 == g0
}

/// Counts the completions of a grid free of conflicts, stopping at two. With
/// exactly one, its digits are written into the empty cells, which are marked
/// as solver-filled; otherwise the grid is left as it was.
pub fn solve_grid(grid: &mut Vec<Vec<Square>>) -> (r: SolveResult)
    requires
        grid_ok(old(grid)@),
        conflict_free(board_of(old(grid)@)),
    ensures
        solved_as(old(grid)@, r, final(grid)@),
        r != SolveResult::Unique ==> *final(grid) == *old(grid),
{
    let ghost g0 = grid@;
    let ghost b0 = board_of(g0);
    let mut b = read_board(grid.as_slice());
    let mut masks = match Masks::from_board(&b) {
        Some(m) => m,
        None => {
            return SolveResult::Invalid;
        },
    };
    let found = solve(&mut b, &mut masks, 0, Found::Nothing);
    match found {
        Found::Nothing => {
            proof {
                if has_solution(b0) {
                    let t = choose|t: Seq<u8>| is_solution(b0, t);
                    assert(solutions(b0)(t));
                }
                if several_solutions(b0) {
                    let (t1, t2) = choose|t1: Seq<u8>, t2: Seq<u8>| is_solution(b0, t1) && is_solution(b0, t2) && t1 != t2;
                    assert(solutions(b0)(t1));
                }
                if exists|s: Seq<u8>| unique_solution(b0, s) {
                    let s = choose|s: Seq<u8>| unique_solution(b0, s);
                    assert(solutions(b0)(s));
                }
            }
            SolveResult::Invalid
        },
        Found::Many => {
            proof {
                let (t1, t2) = choose|t1: Seq<u8>, t2: Seq<u8>| #[trigger] solutions(b0)(t1) && #[trigger] solutions(b0)(t2) && t1 != t2;
                assert(is_solution(b0, t1) && is_solution(b0, t2));
                assert(several_solutions(b0));
                if exists|s: Seq<u8>| unique_solution(b0, s) {
                    let s = choose|s: Seq<u8>| unique_solution(b0, s);
                    assert(t1 == s && t2 == s);
                }
            }
            SolveResult::NotUnique
        },
        Found::One(s) => {
            proof {
                assert(solutions(b0)(s@));
                assert forall|t: Seq<u8>| #[trigger] is_solution(b0, t) implies t == s@ by {
                    assert(solutions(b0)(t));
                }
                assert(unique_solution(b0, s@));
                if several_solutions(b0) {
                    let (t1, t2) = choose|t1: Seq<u8>, t2: Seq<u8>| is_solution(b0, t1) && is_solution(b0, t2) && t1 != t2;
                    assert(t1 == s@ && t2 == s@);
                }
            }
            commit_solution(grid, &s);
            proof {
                assert forall|r: int, c: int| 0 <= r < 9 && 0 <= c < 9 implies cell_text_ok((#[trigger] grid@[r]@[c]).value@) by {
                    let k = r * 9 + c;
                    assert(k / 9 == r && k % 9 == c);
                    assert(committed(cell_at(g0, k), cell_at(grid@, k), s@[k]));
                }
                assert(board_of(grid@) =~= s@) by {
                    assert forall|k: int| 0 <= k < 81 implies board_of(grid@)[k] == s@[k] by {
                        assert(committed(cell_at(g0, k), cell_at(grid@, k), s@[k]));
                    }
                }
            }
            SolveResult::Unique
        },
    }
}

/// The whole check behind a "solve" request: a grid that repeats a digit in a
/// row, column or box, or has fewer than 17 givens, is `Invalid` and left as
/// it is; any other grid is handed to `solve_grid`.
pub fn validate_and_solve(grid: &mut Vec<Vec<Square>>) -> (r: SolveResult)
    requires
        grid_ok(old(grid)@),
    ensures
        !(conflict_free(board_of(old(grid)@)) && filled_count(board_of(old(grid)@)) >= MIN_GIVENS)
            ==> r == SolveResult::Invalid && *final(grid) == *old(grid),
        conflict_free(board_of(old(grid)@)) && filled_count(board_of(old(grid)@)) >= MIN_GIVENS
            ==> solved_as(old(grid)@, r, final(grid)@),
        r != SolveResult::Unique ==> *final(grid) == *old(grid),
{
    if !verify_grid(grid.as_slice()) {
        return SolveResult::Invalid;
    }
    solve_grid(grid)
}

/// Every row of the grid has 9 cells, and there are 9 rows.
pub open spec fn grid_shape(g: Seq<Vec<Square>>) -> bool {
    g.len() == 9 && forall|r: int| 0 <= r < 9 ==> (#[trigger] g[r])@.len() == 9
}

/// `n` is cell `o` after a reset: a cleared cell is empty, hidden and no
/// longer solver-filled; the other cells stay as they were.
pub open spec fn reset_cell(o: Square, n: Square, clear: bool) -> bool {
    if clear {
        &&& n.value@.len() == 0
        &&& !n.show_text
        &&& !n.solved_cell
        &&& n.focus == o.focus
    } else {
        n == o
    }
}

/// Clears the solver-filled cells, or every cell when `solved_only` is false.
pub fn reset_grid(grid: &mut Vec<Vec<Square>>, solved_only: bool)
    requires
        grid_shape(old(grid)@),
    ensures
        grid_shape(final(grid)@),
        forall|k: int|
            0 <= k < 81 ==> reset_cell(
                #[trigger] cell_at(old(grid)@, k),
                cell_at(final(grid)@, k),
                !solved_only || cell_at(old(grid)@, k).solved_cell,
            ),
{
    let ghost g0 = grid@;
    let mut k: usize = 0;
    while k < CELLS
        invariant
            k <= 81,
            grid_shape(g0),
            grid_shape(grid@),
            forall|j: int| k <= j < 81 ==> #[trigger] cell_at(grid@, j) == cell_at(g0, j),
            forall|j: int|
                0 <= j < k ==> reset_cell(
                    #[trigger] cell_at(g0, j),
                    cell_at(grid@, j),
                    !solved_only || cell_at(g0, j).solved_cell,
                ),
        decreases 81 - k,
    {
        let r: usize = k / 9;
        let c: usize = k % 9;
        let ghost before = grid@;
        assert(cell_at(grid@, k as int) == cell_at(g0, k as int));
        if !solved_only || grid[r][c].solved_cell {
            let row = &mut grid[r];
            let sq = &mut row[c];
            sq.solved_cell = false;
            sq.show_text = false;
            sq.value = String::new();
        }
        assert forall|j: int| k + 1 <= j < 81 implies #[trigger] cell_at(grid@, j) == cell_at(g0, j) by {
            assert(cell_at(grid@, j) == cell_at(before, j));
        }
        assert forall|j: int|
            0 <= j < k + 1 implies reset_cell(
            #[trigger] cell_at(g0, j),
            cell_at(grid@, j),
            !solved_only || cell_at(g0, j).solved_cell,
        ) by {
            if j < k {
                assert(cell_at(grid@, j) == cell_at(before, j));
            }
        }
        k = k + 1;
    }
}

} // verus!
