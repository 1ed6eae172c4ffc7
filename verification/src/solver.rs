//! The solver: an exhaustive, depth-first search that fills the empty cells in
//! row-major order, trying the numbers 1 to 9 in ascending order.

use crate::board::SudokuBoard;
use crate::grid::{
    box_cells, box_ok, clash, col_cells, col_ok, in_grid, is_full, is_grid, is_valid, no_repeat,
    row_cells, row_ok, with_cell, Grid,
};
use vstd::prelude::*;

verus! {

/// `s` completes `g`: every filled cell of `g` is kept, and every empty cell
/// of `g` holds a number from 1 to 9 in `s`.
pub open spec fn completes(s: Grid, g: Grid) -> bool {
    forall|r: int, c: int|
        in_grid(r, c) ==> match g[r][c] {
            Some(_) => #[trigger] s[r][c] == g[r][c],
            None => s[r][c] is Some && 1 <= s[r][c]->0 <= 9,
        }
}

/// `s` solves `g`: it completes `g` and holds no number twice in any row,
/// column or box.
pub open spec fn is_solution(s: Grid, g: Grid) -> bool {
    is_grid(s) && completes(s, g) && is_valid(s)
}

/// Some grid solves `g`.
pub open spec fn solvable(g: Grid) -> bool {
    exists|s: Grid| is_solution(s, g)
}

/// `(r1, c1)` comes before `(r2, c2)` when the cells are read row by row.
pub open spec fn comes_before(r1: int, c1: int, r2: int, c2: int) -> bool {
    r1 < r2 || (r1 == r2 && c1 < c2)
}

/// `s` and `t` hold the same in every cell.
pub open spec fn same_cells(s: Grid, t: Grid) -> bool {
    forall|r: int, c: int| in_grid(r, c) ==> #[trigger] s[r][c] == t[r][c]
}

/// `s` and `t` hold the same in every cell before `(r, c)`, and at `(r, c)`
/// the number in `s` is the smaller one.
pub open spec fn smaller_at(s: Grid, t: Grid, r: int, c: int) -> bool {
    &&& in_grid(r, c)
    &&& forall|r0: int, c0: int|
        in_grid(r0, c0) && comes_before(r0, c0, r, c) ==> #[trigger] s[r0][c0] == t[r0][c0]
    &&& s[r][c] is Some
    &&& t[r][c] is Some
    &&& s[r][c]->0 < t[r][c]->0
}

/// `s` is `t`, or comes before it in the order in which the search visits
/// full grids: at the first cell where the two differ, `s` holds the smaller
/// number.
pub open spec fn not_after(s: Grid, t: Grid) -> bool {
    same_cells(s, t) || exists|r: int, c: int| #[trigger] smaller_at(s, t, r, c)
}

/// `s` solves `g`, and nothing else does.
pub open spec fn is_only_solution(s: Grid, g: Grid) -> bool {
    &&& is_solution(s, g)
    &&& forall|t: Grid| #[trigger] is_solution(t, g) ==> t == s
}

/// `s` is the solution of `g` that the search reaches first.
pub open spec fn is_first_solution(s: Grid, g: Grid) -> bool {
    &&& is_solution(s, g)
    &&& forall|t: Grid| #[trigger] is_solution(t, g) ==> not_after(s, t)
}

/// Every filled cell of `g` holds a number from 1 to 9.
pub open spec fn digits_in_range(g: Grid) -> bool {
    forall|r: int, c: int|
        in_grid(r, c) && (#[trigger] g[r][c]) is Some ==> 1 <= g[r][c]->0 <= 9
}

/// The number of empty cells among the first `n` cells of `g`, read row by
/// row.
pub open spec fn empty_among(g: Grid, n: nat) -> nat
    decreases n,
{
    if n == 0 {
        0
    } else {
        let k = (n - 1) as int;
        empty_among(g, (n - 1) as nat) + if g[k / 9][k % 9] is None {
            1nat
        } else {
            0nat
        }
    }
}

/// The number of empty cells of `g`.
pub open spec fn empty_count(g: Grid) -> nat {
    empty_among(g, 81)
}

/// A grid that can be completed to a valid grid is valid itself: filling
/// cells never removes a clash.
pub proof fn lemma_completion_valid(s: Grid, g: Grid)
    requires
        completes(s, g),
        is_valid(s),
    ensures
        is_valid(g),
{
    assert forall|i: int| 0 <= i < 9 implies row_ok(g, i) && col_ok(g, i) && box_ok(g, i) by {
        assert(row_ok(s, i) && col_ok(s, i) && box_ok(s, i));
        assert forall|k: int| 0 <= k < 9 && (#[trigger] row_cells(g, i)[k]) is Some implies row_cells(
            s,
            i,
        )[k] == row_cells(g, i)[k] by {
            assert(in_grid(i, k));
            assert(s[i][k] == g[i][k]);
        }
        lemma_cells_kept(row_cells(s, i), row_cells(g, i));
        assert forall|k: int| 0 <= k < 9 && (#[trigger] col_cells(g, i)[k]) is Some implies col_cells(
            s,
            i,
        )[k] == col_cells(g, i)[k] by {
            assert(in_grid(k, i));
            assert(s[k][i] == g[k][i]);
        }
        lemma_cells_kept(col_cells(s, i), col_cells(g, i));
        assert forall|k: int| 0 <= k < 9 && (#[trigger] box_cells(g, i)[k]) is Some implies box_cells(
            s,
            i,
        )[k] == box_cells(g, i)[k] by {
            let r = (i / 3) * 3 + k / 3;
            let c = (i % 3) * 3 + k % 3;
            assert(in_grid(r, c));
            assert(s[r][c] == g[r][c]);
        }
        lemma_cells_kept(box_cells(s, i), box_cells(g, i));
    }
}

/// If `full` keeps every filled cell of `part` and holds no number twice,
/// then neither does `part`.
proof fn lemma_cells_kept(full: Seq<Option<u32>>, part: Seq<Option<u32>>)
    requires
        full.len() == part.len(),
        forall|k: int| 0 <= k < part.len() && (#[trigger] part[k]) is Some ==> full[k] == part[k],
        no_repeat(full),
    ensures
        no_repeat(part),
{
    assert forall|a: int, b: int|
        0 <= a < part.len() && 0 <= b < part.len() && a != b implies !clash(
        #[trigger] part[a],
        #[trigger] part[b],
    ) by {
        if clash(part[a], part[b]) {
            assert(clash(full[a], full[b]));
        }
    }
}

/// Filling the empty cell at `(r, c)` leaves one empty cell fewer among the
/// first `n` cells if `(r, c)` is one of them, and as many otherwise.
proof fn lemma_fill_among(g: Grid, r: int, c: int, v: u32, n: nat)
    requires
        is_grid(g),
        in_grid(r, c),
        g[r][c] is None,
        n <= 81,
    ensures
        empty_among(g, n) == empty_among(with_cell(g, r, c, Some(v)), n) + if n > r * 9 + c {
            1nat
        } else {
            0nat
        },
    decreases n,
{
    if n > 0 {
        lemma_fill_among(g, r, c, v, (n - 1) as nat);
        let k = (n - 1) as int;
        if k / 9 == r && k % 9 == c {
            assert(k == r * 9 + c);
        } else {
            assert(k != r * 9 + c);
            assert(with_cell(g, r, c, Some(v))[k / 9][k % 9] == g[k / 9][k % 9]);
        }
    }
}

/// A grid has at most 81 empty cells, so the search is never more than 81
/// calls deep.
pub proof fn lemma_empty_count_bound(g: Grid)
    ensures
        empty_count(g) <= 81,
{
    lemma_empty_among_bound(g, 81);
}

/// Among the first `n` cells at most `n` are empty.
proof fn lemma_empty_among_bound(g: Grid, n: nat)
    ensures
        empty_among(g, n) <= n,
    decreases n,
{
    if n > 0 {
        lemma_empty_among_bound(g, (n - 1) as nat);
    }
}

/// Filling an empty cell leaves exactly one empty cell fewer.
pub proof fn lemma_fill_one_fewer(g: Grid, r: int, c: int, v: u32)
    requires
        is_grid(g),
        in_grid(r, c),
        g[r][c] is None,
    ensures
        empty_count(with_cell(g, r, c, Some(v))) + 1 == empty_count(g),
{
    lemma_fill_among(g, r, c, v, 81);
}

/// A full grid has itself as its only completion: it is its own first
/// solution if it is valid, and has no solution otherwise.
proof fn lemma_full(g: Grid)
    requires
        is_grid(g),
        is_full(g),
    ensures
        is_valid(g) ==> is_first_solution(g, g),
        !is_valid(g) ==> !solvable(g),
{
    assert forall|t: Grid| #[trigger] is_solution(t, g) implies same_cells(g, t) && is_valid(g) by {
        lemma_completion_valid(t, g);
    }
}

/// A solution of `g` that holds `v` at the empty cell `(r, c)` also solves
/// `g` with that cell filled with `v`.
proof fn lemma_solution_with(t: Grid, g: Grid, r: int, c: int, v: u32)
    requires
        is_grid(g),
        in_grid(r, c),
        is_solution(t, g),
        t[r][c] == Some(v),
    ensures
        is_solution(t, with_cell(g, r, c, Some(v))),
{
    let gv = with_cell(g, r, c, Some(v));
    assert forall|r0: int, c0: int| in_grid(r0, c0) implies match gv[r0][c0] {
        Some(_) => #[trigger] t[r0][c0] == gv[r0][c0],
        None => t[r0][c0] is Some && 1 <= t[r0][c0]->0 <= 9,
    } by {
        if r0 == r && c0 == c {
        } else {
            assert(gv[r0][c0] == g[r0][c0]);
        }
    }
}

/// Every solution of `g` holds at least `v` at `(r, c)`.
spec fn none_below(g: Grid, r: int, c: int, v: int) -> bool {
    forall|t: Grid| #[trigger] is_solution(t, g) ==> t[r][c] is Some && t[r][c]->0 >= v
}

/// `(r, c)` is the first empty cell of `g` when the cells are read row by
/// row.
spec fn first_empty(g: Grid, r: int, c: int) -> bool {
    &&& in_grid(r, c)
    &&& g[r][c] is None
    &&& forall|r0: int, c0: int|
        in_grid(r0, c0) && comes_before(r0, c0, r, c) ==> (#[trigger] g[r0][c0]) is Some
}

/// If `g` with `v` at its first empty cell has no solution, then no solution
/// of `g` holds `v` there.
proof fn lemma_candidate_fails(g: Grid, r: int, c: int, v: u32)
    requires
        is_grid(g),
        first_empty(g, r, c),
        none_below(g, r, c, v as int),
        !solvable(with_cell(g, r, c, Some(v))),
    ensures
        none_below(g, r, c, v + 1),
{
    assert forall|t: Grid| #[trigger] is_solution(t, g) implies t[r][c] is Some && t[r][c]->0 >= v
        + 1 by {
        if t[r][c] == Some(v) {
            lemma_solution_with(t, g, r, c, v);
        }
    }
}

/// If no solution of `g` holds less than `v` at its first empty cell, then
/// the first solution of `g` with `v` there is the first solution of `g`.
proof fn lemma_candidate_succeeds(s: Grid, g: Grid, r: int, c: int, v: u32)
    requires
        is_grid(g),
        first_empty(g, r, c),
        1 <= v <= 9,
        none_below(g, r, c, v as int),
        is_first_solution(s, with_cell(g, r, c, Some(v))),
    ensures
        is_first_solution(s, g),
{
    let gv = with_cell(g, r, c, Some(v));
    assert(gv[r][c] == Some(v));
    assert(s[r][c] == Some(v));
    assert forall|r0: int, c0: int| in_grid(r0, c0) implies match g[r0][c0] {
        Some(_) => #[trigger] s[r0][c0] == g[r0][c0],
        None => s[r0][c0] is Some && 1 <= s[r0][c0]->0 <= 9,
    } by {
        if r0 == r && c0 == c {
        } else {
            assert(gv[r0][c0] == g[r0][c0]);
        }
    }
    assert forall|t: Grid| #[trigger] is_solution(t, g) implies not_after(s, t) by {
        if t[r][c] == Some(v) {
            lemma_solution_with(t, g, r, c, v);
        } else {
            assert forall|r0: int, c0: int|
                in_grid(r0, c0) && comes_before(r0, c0, r, c) implies #[trigger] s[r0][c0]
                == t[r0][c0] by {
                assert(g[r0][c0] is Some);
            }
            assert(smaller_at(s, t, r, c));
        }
    }
}

/// A solution is full and valid.
pub proof fn lemma_solution_full_valid(s: Grid, g: Grid)
    requires
        is_solution(s, g),
    ensures
        is_full(s),
        is_valid(s),
{
    assert forall|r: int, c: int| in_grid(r, c) implies (#[trigger] s[r][c]) is Some by {
        if g[r][c] is Some {
            assert(s[r][c] == g[r][c]);
        }
    }
}

/// A solution adds only numbers from 1 to 9: if every filled cell of `g`
/// holds such a number, so does every cell of a solution of `g`.
pub proof fn lemma_solution_digits(s: Grid, g: Grid)
    requires
        digits_in_range(g),
        is_solution(s, g),
    ensures
        digits_in_range(s),
{
    assert forall|r: int, c: int| in_grid(r, c) && (#[trigger] s[r][c]) is Some implies 1
        <= s[r][c]->0 <= 9 by {
        if g[r][c] is Some {
            assert(s[r][c] == g[r][c]);
        }
    }
}

/// A grid that holds a number twice in some row, column or box has no
/// solution.
pub proof fn lemma_invalid_unsolvable(g: Grid)
    requires
        !is_valid(g),
    ensures
        !solvable(g),
{
    assert forall|t: Grid| !is_solution(t, g) by {
        if is_solution(t, g) {
            lemma_completion_valid(t, g);
        }
    }
}

/// A grid has at most one first solution, so the order of the search fixes
/// which solution is found.
pub proof fn lemma_first_solution_unique(s1: Grid, s2: Grid, g: Grid)
    requires
        is_first_solution(s1, g),
        is_first_solution(s2, g),
    ensures
        s1 == s2,
{
    assert(not_after(s1, s2) && not_after(s2, s1));
    if !same_cells(s1, s2) {
        let (r1, c1) = choose|r: int, c: int| #[trigger] smaller_at(s1, s2, r, c);
        let (r2, c2) = choose|r: int, c: int| #[trigger] smaller_at(s2, s1, r, c);
        if comes_before(r1, c1, r2, c2) {
            assert(s2[r1][c1] == s1[r1][c1]);
        } else if comes_before(r2, c2, r1, c1) {
            assert(s1[r2][c2] == s2[r2][c2]);
        }
    }
    assert(s1 =~~= s2);
}

/// If exactly one grid solves `g`, then `g` is solvable and its first
/// solution is that grid: the search finds the one solution there is.
pub proof fn lemma_only_solution_found(s: Grid, found: Grid, g: Grid)
    requires
        is_only_solution(s, g),
        is_first_solution(found, g),
    ensures
        solvable(g),
        found == s,
{
}

/// What a caller learns when the first solution has been found.
proof fn lemma_found(found: Grid, g: Grid)
    requires
        is_first_solution(found, g),
    ensures
        is_full(found),
        is_valid(found),
        is_valid(g),
        forall|s: Grid| is_only_solution(s, g) ==> found == s,
        digits_in_range(g) ==> digits_in_range(found),
{
    lemma_solution_full_valid(found, g);
    lemma_completion_valid(found, g);
    if digits_in_range(g) {
        lemma_solution_digits(found, g);
    }
}

impl SudokuBoard {
    /// Searches for a way to fill the empty cells with numbers from 1 to 9
    /// so that no row, column or box holds a number twice.
    ///
    /// Returns whether there is one. If so, the board ends as the first
    /// solution in the order of the search: the empty cells are taken row by
    /// row and each is given the smallest number that still leads to a
    /// solution. If not, the board ends as it began.
    pub fn solve(&mut self) -> (solved: bool)
        ensures
            solved == solvable(old(self)@),
            solved ==> is_first_solution(final(self)@, old(self)@),
            !solved ==> final(self)@ == old(self)@,
            solved ==> is_full(final(self)@) && is_valid(final(self)@),
            forall|s: Grid| is_only_solution(s, old(self)@) ==> solved && final(self)@ == s,
            !is_valid(old(self)@) ==> !solved,
            digits_in_range(old(self)@) ==> digits_in_range(final(self)@),
        decreases empty_count(old(self)@),
    {
        let ghost g = self@;
        if self.is_full() {
            let ok = self.check();
            proof {
                lemma_full(g);
                if ok {
                    lemma_found(g, g);
                }
            }
            return ok;
        }
        let ghost (er, ec) = choose|r: int, c: int| in_grid(r, c) && (#[trigger] g[r][c]) is None;
        let mut row: usize = 0;
        let mut col: usize = 0;
        while self.contents[row][col].is_some()
            invariant
                self@ == g,
                in_grid(row as int, col as int),
                in_grid(er, ec),
                g[er][ec] is None,
                forall|r0: int, c0: int|
                    in_grid(r0, c0) && comes_before(r0, c0, row as int, col as int) ==> (
                    #[trigger] g[r0][c0]) is Some,
            decreases 81 - (row * 9 + col),
        {
            assert(comes_before(row as int, col as int, er, ec));
            if col == 8 {
                row += 1;
                col = 0;
            } else {
                col += 1;
            }
        }
        assert(first_empty(g, row as int, col as int));
        for test_val in 1..10u32
            invariant
                in_grid(row as int, col as int),
                first_empty(g, row as int, col as int),
                g == old(self)@,
                forall|r0: int, c0: int|
                    in_grid(r0, c0) && !(r0 == row && c0 == col) ==> #[trigger] self@[r0][c0]
                        == g[r0][c0],
                none_below(g, row as int, col as int, test_val as int),
        {
            let ghost before = self@;
            self.set(row, col, Some(test_val));
            let ghost gv = with_cell(g, row as int, col as int, Some(test_val));
            assert(self@ == gv) by {
                assert forall|r0: int, c0: int| in_grid(r0, c0) implies #[trigger] self@[r0][c0]
                    == gv[r0][c0] by {
                    if !(r0 == row && c0 == col) {
                        assert(before[r0][c0] == g[r0][c0]);
                    }
                }
                assert(self@ =~~= gv);
            }
            proof {
                lemma_fill_one_fewer(g, row as int, col as int, test_val);
            }
            if self.check() {
                if self.solve() {
                    proof {
                        lemma_candidate_succeeds(self@, g, row as int, col as int, test_val);
                        lemma_found(self@, g);
                    }
                    return true;
                }
            } else {
                proof {
                    lemma_invalid_unsolvable(gv);
                }
            }
            proof {
                lemma_candidate_fails(g, row as int, col as int, test_val);
            }
        }
        let ghost before = self@;
        self.set(row, col, None);
        assert(self@ == g) by {
            assert forall|r0: int, c0: int| in_grid(r0, c0) implies #[trigger] self@[r0][c0]
                == g[r0][c0] by {
                if !(r0 == row && c0 == col) {
                    assert(before[r0][c0] == g[r0][c0]);
                }
            }
            assert(self@ =~~= g);
        }
        false
    }
}

} // verus!
