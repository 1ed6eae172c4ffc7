//! The mathematical model of a board: nine rows of nine cells, and what it
//! means for such a grid to be full and to be free of clashes.

use vstd::prelude::*;

verus! {

/// A grid of cells, indexed by row and then by column.
pub type Grid = Seq<Seq<Option<u32>>>;

/// `g` has nine rows of nine cells each.
pub open spec fn is_grid(g: Grid) -> bool {
    &&& g.len() == 9
    &&& forall|r: int| 0 <= r < 9 ==> (#[trigger] g[r]).len() == 9
}

/// `(r, c)` names a cell of a 9×9 grid.
pub open spec fn in_grid(r: int, c: int) -> bool {
    0 <= r < 9 && 0 <= c < 9
}

/// The grid in which every cell is empty.
pub open spec fn empty_grid() -> Grid {
    Seq::new(9, |r: int| Seq::new(9, |c: int| None))
}

/// `g` with the cell at `(r, c)` replaced by `v`.
pub open spec fn with_cell(g: Grid, r: int, c: int, v: Option<u32>) -> Grid {
    g.update(r, g[r].update(c, v))
}

/// Every cell of `g` is filled.
pub open spec fn is_full(g: Grid) -> bool {
    forall|r: int, c: int| in_grid(r, c) ==> (#[trigger] g[r][c]) is Some
}

/// Two cells clash when both are filled and hold the same number. An empty
/// cell clashes with nothing.
pub open spec fn clash(a: Option<u32>, b: Option<u32>) -> bool {
    a is Some && a == b
}

/// No two cells of `cells` clash.
pub open spec fn no_repeat(cells: Seq<Option<u32>>) -> bool {
    forall|a: int, b: int|
        0 <= a < cells.len() && 0 <= b < cells.len() && a != b ==> !clash(
            #[trigger] cells[a],
            #[trigger] cells[b],
        )
}

/// The nine cells of row `i`, from left to right.
pub open spec fn row_cells(g: Grid, i: int) -> Seq<Option<u32>> {
    Seq::new(9, |c: int| g[i][c])
}

/// The nine cells of column `i`, from top to bottom.
pub open spec fn col_cells(g: Grid, i: int) -> Seq<Option<u32>> {
    Seq::new(9, |r: int| g[r][i])
}

/// The nine cells of box `i`, row by row. Boxes are numbered in row-major
/// order, so box `i` is the 3×3 block whose top left cell is
/// `((i / 3) * 3, (i % 3) * 3)`.
pub open spec fn box_cells(g: Grid, i: int) -> Seq<Option<u32>> {
    Seq::new(9, |k: int| g[(i / 3) * 3 + k / 3][(i % 3) * 3 + k % 3])
}

/// Row `i` holds no number twice.
pub open spec fn row_ok(g: Grid, i: int) -> bool {
    no_repeat(row_cells(g, i))
}

/// Column `i` holds no number twice.
pub open spec fn col_ok(g: Grid, i: int) -> bool {
    no_repeat(col_cells(g, i))
}

/// Box `i` holds no number twice.
pub open spec fn box_ok(g: Grid, i: int) -> bool {
    no_repeat(box_cells(g, i))
}

/// No row, column or box of `g` holds the same number twice.
pub open spec fn is_valid(g: Grid) -> bool {
    forall|i: int| 0 <= i < 9 ==> row_ok(g, i) && col_ok(g, i) && box_ok(g, i)
}

/// `g` mirrored along its main diagonal: rows become columns and columns
/// become rows.
pub open spec fn transpose(g: Grid) -> Grid {
    Seq::new(9, |r: int| Seq::new(9, |c: int| g[c][r]))
}

/// Box `i` of the transpose of `g` holds the cells of box
/// `(i % 3) * 3 + i / 3` of `g`, mirrored along the diagonal of the box.
proof fn lemma_transpose_box(g: Grid, i: int)
    requires
        0 <= i < 9,
    ensures
        forall|k: int|
            0 <= k < 9 ==> #[trigger] box_cells(transpose(g), i)[k] == box_cells(
                g,
                (i % 3) * 3 + i / 3,
            )[(k % 3) * 3 + k / 3],
{
}

/// Nine cells hold no number twice if the same cells in mirrored order hold
/// none twice.
proof fn lemma_mirrored_no_repeat(plain: Seq<Option<u32>>, mirrored: Seq<Option<u32>>)
    requires
        plain.len() == 9,
        mirrored.len() == 9,
        forall|k: int| 0 <= k < 9 ==> #[trigger] mirrored[k] == plain[(k % 3) * 3 + k / 3],
        no_repeat(plain),
    ensures
        no_repeat(mirrored),
{
    assert forall|a: int, b: int| 0 <= a < 9 && 0 <= b < 9 && a != b implies !clash(
        #[trigger] mirrored[a],
        #[trigger] mirrored[b],
    ) by {
        let a0 = (a % 3) * 3 + a / 3;
        let b0 = (b % 3) * 3 + b / 3;
        assert(a0 != b0);
        assert(!clash(plain[a0], plain[b0]));
    }
}

/// Rows and columns play the same part in the checks: the transpose of a
/// valid grid is valid.
pub proof fn lemma_transpose_valid(g: Grid)
    requires
        is_valid(g),
    ensures
        is_valid(transpose(g)),
{
    let t = transpose(g);
    assert forall|i: int| 0 <= i < 9 implies row_ok(t, i) && col_ok(t, i) && box_ok(t, i) by {
        let j = (i % 3) * 3 + i / 3;
        assert(row_ok(g, i) && col_ok(g, i) && box_ok(g, j));
        assert(row_cells(t, i) =~= col_cells(g, i));
        assert(col_cells(t, i) =~= row_cells(g, i));
        lemma_transpose_box(g, i);
        lemma_mirrored_no_repeat(box_cells(g, j), box_cells(t, i));
    }
}

} // verus!
