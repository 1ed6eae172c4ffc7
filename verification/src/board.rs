//! The board itself: storage for the 81 cells and access to them.

use crate::grid::{
    box_cells, box_ok, clash, col_cells, col_ok, empty_grid, is_full, is_valid, no_repeat, row_cells,
    row_ok, with_cell, Grid,
};
use std::collections::HashSet;
use vstd::prelude::*;

verus! {

/// A 9×9 board. Each cell is empty (`None`) or holds a number.
///
/// A puzzle uses the numbers 1 to 9, and the solver writes no others, but a
/// cell can hold any number: the checks only ask whether two cells of a row,
/// column or box hold the same one.
#[derive(Clone, Copy, Debug, PartialEq, Eq)]
pub struct SudokuBoard {
    pub contents: [[Option<u32>; 9]; 9],
}

impl View for SudokuBoard {
    type V = Grid;

    /// The board as nine rows of nine cells.
    open spec fn view(&self) -> Grid {
        Seq::new(9, |r: int| Seq::new(9, |c: int| self.contents[r][c]))
    }
}

impl SudokuBoard {
    /// A board with every cell empty.
    pub fn new() -> (board: SudokuBoard)
        ensures
            board@ == empty_grid(),
    {
        let board = SudokuBoard { contents: [[None; 9]; 9] };
        assert(board@ =~~= empty_grid());
        board
    }

    /// The cell at `row`, `col`.
    pub fn get(&self, row: usize, col: usize) -> (cell: Option<u32>)
        requires
            row < 9,
            col < 9,
        ensures
            cell == self@[row as int][col as int],
    {
        self.contents[row][col]
    }

    /// Overwrites the cell at `row`, `col` and leaves every other cell alone.
    pub fn set(&mut self, row: usize, col: usize, value: Option<u32>)
        requires
            row < 9,
            col < 9,
        ensures
            final(self)@ == with_cell(old(self)@, row as int, col as int, value),
    {
        self.contents[row][col] = value;
        assert(self@ =~~= with_cell(old(self)@, row as int, col as int, value));
    }

    /// Whether every cell is filled.
    pub fn is_full(&self) -> (full: bool)
        ensures
            full == is_full(self@),
    {
        for row in 0..9usize
            invariant
                forall|r: int, c: int| 0 <= r < row && 0 <= c < 9 ==> (#[trigger] self@[r][c]) is Some,
        {
            for col in 0..9usize
                invariant
                    row < 9,
                    forall|r: int, c: int|
                        0 <= r < row && 0 <= c < 9 ==> (#[trigger] self@[r][c]) is Some,
                    forall|c: int| 0 <= c < col ==> (#[trigger] self@[row as int][c]) is Some,
            {
                if self.contents[row][col].is_none() {
                    assert(self@[row as int][col as int] is None);
                    return false;
                }
            }
        }
        true
    }

    /// Whether row `id` holds no number twice.
    pub fn check_row(&self, id: usize) -> (ok: bool)
        requires
            id < 9,
        ensures
            ok == row_ok(self@, id as int),
    {
        let ghost cells = row_cells(self@, id as int);
        let mut seen: HashSet<u32> = HashSet::new();
        for col in 0..9usize
            invariant
                id < 9,
                cells == row_cells(self@, id as int),
                scanned(seen@, cells, col as int),
        {
            proof {
                lemma_scan_step(seen@, cells, col as int);
            }
            match self.contents[id][col] {
                Some(val) => {
                    if seen.contains(&val) {
                        return false;
                    }
                    seen.insert(val);
                },
                None => {},
            }
        }
        true
    }

    /// Whether column `id` holds no number twice.
    pub fn check_col(&self, id: usize) -> (ok: bool)
        requires
            id < 9,
        ensures
            ok == col_ok(self@, id as int),
    {
        let ghost cells = col_cells(self@, id as int);
        let mut seen: HashSet<u32> = HashSet::new();
        for row in 0..9usize
            invariant
                id < 9,
                cells == col_cells(self@, id as int),
                scanned(seen@, cells, row as int),
        {
            proof {
                lemma_scan_step(seen@, cells, row as int);
            }
            match self.contents[row][id] {
                Some(val) => {
                    if seen.contains(&val) {
                        return false;
                    }
                    seen.insert(val);
                },
                None => {},
            }
        }
        true
    }

    /// Whether box `id` holds no number twice.
    pub fn check_group(&self, id: usize) -> (ok: bool)
        requires
            id < 9,
        ensures
            ok == box_ok(self@, id as int),
    {
        let ghost cells = box_cells(self@, id as int);
        let mut seen: HashSet<u32> = HashSet::new();
        let row_start = (id / 3) * 3;
        let col_start = (id % 3) * 3;
        for row in row_start..row_start + 3
            invariant
                id < 9,
                row_start == (id / 3) * 3,
                col_start == (id % 3) * 3,
                cells == box_cells(self@, id as int),
                scanned(seen@, cells, (row - row_start) * 3),
        {
            for col in col_start..col_start + 3
                invariant
                    id < 9,
                    row_start == (id / 3) * 3,
                    col_start == (id % 3) * 3,
                    row_start <= row < row_start + 3,
                    cells == box_cells(self@, id as int),
                    scanned(seen@, cells, (row - row_start) * 3 + (col - col_start)),
            {
                proof {
                    lemma_scan_step(seen@, cells, (row - row_start) * 3 + (col - col_start));
                }
                match self.contents[row][col] {
                    Some(val) => {
                        if seen.contains(&val) {
                            return false;
                        }
                        seen.insert(val);
                    },
                    None => {},
                }
            }
        }
        true
    }

    /// Whether no row, column or box holds the same number twice. The answer
    /// depends on the cells alone, so asking again without changing the board
    /// gives the same answer.
    pub fn check(&self) -> (ok: bool)
        ensures
            ok == is_valid(self@),
    {
        for index in 0..9usize
            invariant
                forall|i: int|
                    0 <= i < index ==> row_ok(self@, i) && col_ok(self@, i) && box_ok(self@, i),
        {
            if !self.check_row(index) || !self.check_col(index) || !self.check_group(index) {
                return false;
            }
        }
        true
    }
}

/// After the first `n` of `cells` have been looked at, `seen` holds exactly
/// the numbers found in them, and no two of them clash.
spec fn scanned(seen: Set<u32>, cells: Seq<Option<u32>>, n: int) -> bool {
    &&& forall|k: int| 0 <= k < n && (#[trigger] cells[k]) is Some ==> seen.contains(cells[k]->0)
    &&& forall|v: u32| seen.contains(v) ==> exists|k: int| 0 <= k < n && #[trigger] cells[k] == Some(v)
    &&& forall|a: int, b: int|
        0 <= a < n && 0 <= b < n && a != b ==> !clash(#[trigger] cells[a], #[trigger] cells[b])
}

/// One step of a scan: an empty cell changes nothing, a number seen before
/// is a repeat, and a new number joins `seen`.
proof fn lemma_scan_step(seen: Set<u32>, cells: Seq<Option<u32>>, n: int)
    requires
        scanned(seen, cells, n),
        0 <= n < cells.len(),
    ensures
        match cells[n] {
            None => scanned(seen, cells, n + 1),
            Some(v) => if seen.contains(v) {
                !no_repeat(cells)
            } else {
                scanned(seen.insert(v), cells, n + 1)
            },
        },
{
    match cells[n] {
        None => {},
        Some(v) => {
            if seen.contains(v) {
                let k = choose|k: int| 0 <= k < n && #[trigger] cells[k] == Some(v);
                assert(clash(cells[k], cells[n]));
            } else {
                assert forall|w: u32| seen.insert(v).contains(w) implies exists|k: int|
                    0 <= k < n + 1 && #[trigger] cells[k] == Some(w) by {
                    if w == v {
                        assert(cells[n] == Some(w));
                    } else {
                        let k = choose|k: int| 0 <= k < n && #[trigger] cells[k] == Some(w);
                        assert(cells[k] == Some(w));
                    }
                }
            }
        },
    }
}

} // verus!
