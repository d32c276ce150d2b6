//! The playfield as a mathematical grid, and the rules on it: where a piece
//! fits, where it comes to rest, what locking it leaves behind.
use vstd::prelude::*;
use crate::pieces::{BOARD_H, BOARD_W, PIECE_COUNT, shape, lemma_shape_offsets};

verus! {

/// One row of the playfield; `Some(p)` is a block left by piece `p`.
pub type Row = [Option<usize>; BOARD_W];
/// The playfield, top row first.
pub type Board = [Row; BOARD_H];

/// The playfield as a sequence of rows, each a sequence of cells.
pub open spec fn grid(b: Board) -> Seq<Seq<Option<usize>>> {
    b@.map_values(|row: Row| row@)
}

/// A row with no blocks.
pub open spec fn empty_row() -> Seq<Option<usize>> {
    Seq::new(BOARD_W as nat, |j: int| None::<usize>)
}

/// A row with a block in every column.
pub open spec fn full_row(row: Seq<Option<usize>>) -> bool {
    forall|j: int| 0 <= j < BOARD_W ==> #[trigger] row[j] is Some
}

/// The rows of `g` that are not full, in their order.
pub open spec fn kept_rows(g: Seq<Seq<Option<usize>>>) -> Seq<Seq<Option<usize>>>
    decreases g.len(),
{
    if g.len() == 0 {
        g
    } else if full_row(g[0]) {
        kept_rows(g.drop_first())
    } else {
        seq![g[0]] + kept_rows(g.drop_first())
    }
}

/// The number of full rows of `g`.
pub open spec fn full_row_count(g: Seq<Seq<Option<usize>>>) -> int {
    g.len() - kept_rows(g).len()
}

/// `n` empty rows.
pub open spec fn empty_rows(n: int) -> Seq<Seq<Option<usize>>> {
    Seq::new(n as nat, |i: int| empty_row())
}

/// `g` with its full rows taken out and as many empty rows put on top.
pub open spec fn cleared_grid(g: Seq<Seq<Option<usize>>>) -> Seq<Seq<Option<usize>>> {
    empty_rows(full_row_count(g)) + kept_rows(g)
}

/// The `k`-th cell (row, column) of `piece` in orientation `rot` placed at (`r`, `c`).
pub open spec fn cell_of(piece: int, rot: int, r: int, c: int, k: int) -> (int, int) {
    (r + shape(piece, rot)[k].0, c + shape(piece, rot)[k].1)
}

/// A cell a piece may occupy: inside the side walls, above the floor, and
/// empty where it lies inside the field (cells above the top are allowed).
pub open spec fn cell_free(g: Seq<Seq<Option<usize>>>, rc: (int, int)) -> bool {
    &&& 0 <= rc.1 < BOARD_W
    &&& rc.0 < BOARD_H
    &&& rc.0 >= 0 ==> g[rc.0][rc.1] is None
}

/// `piece` in orientation `rot` at (`r`, `c`) overlaps nothing and leaves no wall.
pub open spec fn fits(g: Seq<Seq<Option<usize>>>, piece: int, rot: int, r: int, c: int) -> bool {
    forall|k: int| 0 <= k < 4 ==> cell_free(g, #[trigger] cell_of(piece, rot, r, c, k))
}

/// Every cell of the piece lies inside the field.
pub open spec fn in_field(piece: int, rot: int, r: int, c: int) -> bool {
    forall|k: int|
        0 <= k < 4 ==> {
            let rc = #[trigger] cell_of(piece, rot, r, c, k);
            0 <= rc.0 < BOARD_H && 0 <= rc.1 < BOARD_W
        }
}

/// Every cell of the piece at (`r`, `c`) has coordinates an `i32` can hold.
pub open spec fn cells_addressable(piece: int, rot: int, r: int, c: int) -> bool {
    forall|k: int| 0 <= k < 4 ==> (#[trigger] cell_of(piece, rot, r, c, k)).0 <= i32::MAX && cell_of(piece, rot, r, c, k).1 <= i32::MAX
}

/// A position three or more rows and columns away from the `i32` limit is addressable.
pub proof fn lemma_cells_addressable(piece: int, rot: int, r: int, c: int)
    requires
        r + 3 <= i32::MAX,
        c + 3 <= i32::MAX,
    ensures
        cells_addressable(piece, rot, r, c),
{
    assert forall|k: int| 0 <= k < 4 implies (#[trigger] cell_of(piece, rot, r, c, k)).0 <= i32::MAX && cell_of(piece, rot, r, c, k).1 <= i32::MAX by {
        lemma_shape_offsets(piece, rot, k);
    }
}

/// One of the first `n` cells of the piece is (`i`, `j`).
pub open spec fn covers_first(piece: int, rot: int, r: int, c: int, n: int, i: int, j: int) -> bool {
    exists|k: int| 0 <= k < n && #[trigger] cell_of(piece, rot, r, c, k) == (i, j)
}

/// One of the piece's cells is (`i`, `j`).
pub open spec fn covers(piece: int, rot: int, r: int, c: int, i: int, j: int) -> bool {
    covers_first(piece, rot, r, c, 4, i, j)
}

/// `g` with the first `n` cells of the piece set to `v`.
pub open spec fn placed_first(g: Seq<Seq<Option<usize>>>, piece: int, rot: int, r: int, c: int, n: int, v: Option<usize>) -> Seq<Seq<Option<usize>>> {
    Seq::new(
        g.len(),
        |i: int| Seq::new(g[i].len(), |j: int| if covers_first(piece, rot, r, c, n, i, j) { v } else { g[i][j] }),
    )
}

/// `g` with the cells of the piece set to `v`.
pub open spec fn placed(g: Seq<Seq<Option<usize>>>, piece: int, rot: int, r: int, c: int, v: Option<usize>) -> Seq<Seq<Option<usize>>> {
    placed_first(g, piece, rot, r, c, 4, v)
}

/// The row on which the piece comes to rest when it falls straight down from row `r`.
pub open spec fn landing_row(g: Seq<Seq<Option<usize>>>, piece: int, rot: int, r: int, c: int) -> int
    decreases BOARD_H - r,
{
    if r < BOARD_H && fits(g, piece, rot, r + 1, c) {
        landing_row(g, piece, rot, r + 1, c)
    } else {
        r
    }
}

/// A well-formed playfield: 20 rows of 10 cells, blocks of valid pieces only,
/// and no row left full.
pub open spec fn board_ok(g: Seq<Seq<Option<usize>>>) -> bool {
    &&& cells_ok(g)
    &&& forall|i: int| 0 <= i < g.len() ==> !full_row(#[trigger] g[i])
}

/// 20 rows of 10 cells, whose blocks are valid pieces.
pub open spec fn cells_ok(g: Seq<Seq<Option<usize>>>) -> bool {
    &&& g.len() == BOARD_H
    &&& forall|i: int| 0 <= i < g.len() ==> row_ok(#[trigger] g[i])
}

/// 10 cells, whose blocks are valid pieces.
pub open spec fn row_ok(row: Seq<Option<usize>>) -> bool {
    &&& row.len() == BOARD_W
    &&& forall|j: int| 0 <= j < row.len() ==> (#[trigger] row[j] matches Some(p) ==> p < PIECE_COUNT)
}

/// Each cell offset of a shape lies in [0, 3] x [0, 3], so a piece at a
/// non-negative row lies in the field when it fits.
pub proof fn lemma_fits_in_field(g: Seq<Seq<Option<usize>>>, piece: int, rot: int, r: int, c: int)
    requires
        fits(g, piece, rot, r, c),
        r >= 0,
    ensures
        in_field(piece, rot, r, c),
{
    assert forall|k: int| 0 <= k < 4 implies {
        let rc = #[trigger] cell_of(piece, rot, r, c, k);
        0 <= rc.0 < BOARD_H && 0 <= rc.1 < BOARD_W
    } by {
        lemma_shape_offsets(piece, rot, k);
        assert(cell_free(g, cell_of(piece, rot, r, c, k)));
    }
}

/// The resting row is at or below the start, and, from a fitting start, the
/// piece fits there and cannot fall one row further.
pub proof fn lemma_landing_row(g: Seq<Seq<Option<usize>>>, piece: int, rot: int, r: int, c: int)
    ensures
        landing_row(g, piece, rot, r, c) >= r,
        landing_row(g, piece, rot, r, c) < BOARD_H ==> !fits(g, piece, rot, landing_row(g, piece, rot, r, c) + 1, c),
        fits(g, piece, rot, r, c) ==> fits(g, piece, rot, landing_row(g, piece, rot, r, c), c),
    decreases BOARD_H - r,
{
    if r < BOARD_H && fits(g, piece, rot, r + 1, c) {
        lemma_landing_row(g, piece, rot, r + 1, c);
    }
}

/// Kept rows are rows of `g` that are not full, and number at most `g.len()`.
pub proof fn lemma_kept_rows(g: Seq<Seq<Option<usize>>>)
    ensures
        kept_rows(g).len() <= g.len(),
        forall|i: int| 0 <= i < kept_rows(g).len() ==> !full_row(#[trigger] kept_rows(g)[i]),
        (forall|i: int| 0 <= i < g.len() ==> row_ok(#[trigger] g[i])) ==>
            (forall|i: int| 0 <= i < kept_rows(g).len() ==> row_ok(#[trigger] kept_rows(g)[i])),
    decreases g.len(),
{
    if g.len() > 0 {
        let rest = g.drop_first();
        lemma_kept_rows(rest);
        if forall|i: int| 0 <= i < g.len() ==> row_ok(#[trigger] g[i]) {
            assert forall|i: int| 0 <= i < rest.len() implies row_ok(#[trigger] rest[i]) by {
                assert(rest[i] == g[i + 1]);
            }
        }
        if !full_row(g[0]) {
            assert forall|i: int| 0 < i < kept_rows(g).len() implies kept_rows(g)[i] == kept_rows(rest)[i - 1] by {}
        }
    }
}

/// Clearing full rows leaves a well-formed playfield.
pub proof fn lemma_cleared_ok(g: Seq<Seq<Option<usize>>>)
    requires
        cells_ok(g),
    ensures
        board_ok(cleared_grid(g)),
        0 <= full_row_count(g) <= BOARD_H,
{
    lemma_kept_rows(g);
    let n = full_row_count(g);
    let e = empty_rows(n);
    let k = kept_rows(g);
    let h = cleared_grid(g);
    assert forall|i: int| 0 <= i < h.len() implies row_ok(#[trigger] h[i]) && !full_row(h[i]) by {
        if i < n {
            assert(h[i] == empty_row());
            assert(!(empty_row()[0] is Some));
        } else {
            assert(h[i] == k[i - n]);
        }
    }
}

/// Replacing row `r` of a board replaces row `r` of its grid.
pub proof fn lemma_grid_update(b1: Board, b2: Board, r: int)
    requires
        0 <= r < BOARD_H,
        b2@ == b1@.update(r, b2@[r]),
    ensures
        grid(b2) == grid(b1).update(r, b2@[r]@),
{
    assert(grid(b2) =~= grid(b1).update(r, b2@[r]@));
}

/// Whether a row has a block in every column.
pub fn row_is_full(row: &Row) -> (full: bool)
    ensures
        full == full_row(row@),
{
    let mut j: usize = 0;
    while j < BOARD_W
        invariant
            j <= BOARD_W,
            forall|m: int| 0 <= m < j ==> (#[trigger] row@[m]) is Some,
        decreases BOARD_W - j,
    {
        if row[j].is_none() {
            assert(!(row@[j as int] is Some));
            return false;
        }
        j += 1;
    }
    true
}


/// Writing `v` into the `k`-th cell of the piece extends a placement of its
/// first `k` cells to its first `k + 1` cells.
pub proof fn lemma_place_cell(
    b1: Board,
    b2: Board,
    g0: Seq<Seq<Option<usize>>>,
    piece: int,
    rot: int,
    r: int,
    c: int,
    k: int,
    v: Option<usize>,
)
    requires
        0 <= k < 4,
        0 <= cell_of(piece, rot, r, c, k).0 < BOARD_H,
        0 <= cell_of(piece, rot, r, c, k).1 < BOARD_W,
        g0.len() == BOARD_H,
        forall|i: int| 0 <= i < BOARD_H ==> (#[trigger] g0[i]).len() == BOARD_W,
        grid(b1) == placed_first(g0, piece, rot, r, c, k, v),
        b2@ == b1@.update(cell_of(piece, rot, r, c, k).0, b2@[cell_of(piece, rot, r, c, k).0]),
        b2@[cell_of(piece, rot, r, c, k).0]@ == b1@[cell_of(piece, rot, r, c, k).0]@.update(cell_of(piece, rot, r, c, k).1, v),
    ensures
        grid(b2) == placed_first(g0, piece, rot, r, c, k + 1, v),
{
    let (i0, j0) = cell_of(piece, rot, r, c, k);
    lemma_grid_update(b1, b2, i0);
    let before = grid(b1);
    let after = placed_first(g0, piece, rot, r, c, k + 1, v);
    assert forall|i: int| 0 <= i < BOARD_H implies #[trigger] grid(b2)[i] =~= after[i] by {
        assert forall|j: int| 0 <= j < BOARD_W implies grid(b2)[i][j] == after[i][j] by {
            assert(before[i][j] == placed_first(g0, piece, rot, r, c, k, v)[i][j]);
            if covers_first(piece, rot, r, c, k + 1, i, j) {
                let m = choose|m: int| 0 <= m < k + 1 && #[trigger] cell_of(piece, rot, r, c, m) == (i, j);
                if m < k {
                    assert(covers_first(piece, rot, r, c, k, i, j));
                }
            } else {
                assert(!covers_first(piece, rot, r, c, k, i, j)) by {
                    if covers_first(piece, rot, r, c, k, i, j) {
                        let m = choose|m: int| 0 <= m < k && #[trigger] cell_of(piece, rot, r, c, m) == (i, j);
                        assert(0 <= m < k + 1 && cell_of(piece, rot, r, c, m) == (i, j));
                    }
                }
                assert(cell_of(piece, rot, r, c, k) != (i, j)) by {
                    if cell_of(piece, rot, r, c, k) == (i, j) {
                        assert(0 <= k < k + 1);
                    }
                }
            }
        }
    }
    assert(grid(b2) =~= after);
}

/// Placing none of the cells leaves the grid as it is.
pub proof fn lemma_place_none(g0: Seq<Seq<Option<usize>>>, piece: int, rot: int, r: int, c: int, v: Option<usize>)
    ensures
        placed_first(g0, piece, rot, r, c, 0, v) == g0,
{
    let z = placed_first(g0, piece, rot, r, c, 0, v);
    assert forall|i: int| 0 <= i < g0.len() implies #[trigger] z[i] =~= g0[i] by {}
    assert(z =~= g0);
}

} // verus!
