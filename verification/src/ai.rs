//! The auto-player's view of a playfield: the board features that its
//! evaluation weighs, and the placements it chooses among.
use vstd::prelude::*;
use crate::pieces::{BOARD_H, BOARD_W, lemma_shape_offsets, tetromino, shape};
use crate::board::{
    Board, grid, full_row, cells_ok, fits, in_field, cell_of, placed, placed_first, landing_row, lemma_fits_in_field, lemma_landing_row, row_is_full, lemma_place_cell,
    lemma_place_none,
};
use crate::game::Game;

verus! {

/// The height of column `c` counted from row `r` down: 20 minus the row of
/// the topmost block at or below `r`, or 0 when there is none.
pub open spec fn height_from(g: Seq<Seq<Option<usize>>>, c: int, r: int) -> int
    decreases BOARD_H - r,
{
    if r >= BOARD_H {
        0
    } else if g[r][c] is Some {
        BOARD_H - r
    } else {
        height_from(g, c, r + 1)
    }
}

/// The heights of the ten columns.
pub open spec fn heights(g: Seq<Seq<Option<usize>>>) -> Seq<int> {
    Seq::new(BOARD_W as nat, |c: int| height_from(g, c, 0))
}

/// The sum of the first `n` entries of `s`.
pub open spec fn sum_first(s: Seq<int>, n: int) -> int
    decreases n,
{
    if n <= 0 { 0 } else { sum_first(s, n - 1) + s[n - 1] }
}

/// The sum of the differences between neighbouring entries among the first `n`.
pub open spec fn bumps_first(s: Seq<int>, n: int) -> int
    decreases n,
{
    if n <= 1 {
        0
    } else {
        let d = s[n - 2] - s[n - 1];
        bumps_first(s, n - 1) + if d < 0 { -d } else { d }
    }
}

/// The number of full rows among the first `n` rows.
pub open spec fn full_rows_first(g: Seq<Seq<Option<usize>>>, n: int) -> int
    decreases n,
{
    if n <= 0 { 0 } else { full_rows_first(g, n - 1) + if full_row(g[n - 1]) { 1int } else { 0 } }
}

/// The empty cells of column `c` from row `r` down that lie below a block
/// (`found` says whether a block was met above `r`).
pub open spec fn holes_from(g: Seq<Seq<Option<usize>>>, c: int, r: int, found: bool) -> int
    decreases BOARD_H - r,
{
    if r >= BOARD_H {
        0
    } else if g[r][c] is Some {
        holes_from(g, c, r + 1, true)
    } else {
        (if found { 1int } else { 0 }) + holes_from(g, c, r + 1, found)
    }
}

/// The holes (empty cells under a block) in the first `n` columns.
pub open spec fn holes_first(g: Seq<Seq<Option<usize>>>, n: int) -> int
    decreases n,
{
    if n <= 0 { 0 } else { holes_first(g, n - 1) + holes_from(g, n - 1, 0, false) }
}

/// The smallest of the first `n` entries (`n` >= 1).
pub open spec fn min_first(s: Seq<int>, n: int) -> int
    decreases n,
{
    if n <= 1 {
        s[0]
    } else {
        let m = min_first(s, n - 1);
        if s[n - 1] < m { s[n - 1] } else { m }
    }
}

/// The first index at or after `i` where `s` holds `v`, or `s.len()`.
pub open spec fn first_index_from(s: Seq<int>, v: int, i: int) -> int
    decreases s.len() - i,
{
    if i >= s.len() {
        s.len() as int
    } else if s[i] == v {
        i
    } else {
        first_index_from(s, v, i + 1)
    }
}

/// How many of the first `n` entries are at most `v`.
pub open spec fn count_at_most(s: Seq<int>, v: int, n: int) -> int
    decreases n,
{
    if n <= 0 { 0 } else { count_at_most(s, v, n - 1) + if s[n - 1] <= v { 1int } else { 0 } }
}

/// What the auto-player's evaluation reads of a playfield.
pub struct BoardFeatures {
    /// The sum of the column heights.
    pub agg_height: i32,
    /// The number of full rows.
    pub complete_lines: usize,
    /// The number of empty cells below a block in their column.
    pub holes: i32,
    /// The sum of the height differences of neighbouring columns.
    pub bumpiness: i32,
    /// When the first lowest column is an edge column and there are no
    /// holes: how far its neighbour rises above it.
    pub well_depth: Option<i32>,
    /// The number of columns at most one above the lowest.
    pub low_count: usize,
}

/// The features of `g`.
pub open spec fn spec_features(g: Seq<Seq<Option<usize>>>) -> BoardFeatures {
    let h = heights(g);
    let min_h = min_first(h, BOARD_W as int);
    let min_col = first_index_from(h, min_h, 0);
    let holes = holes_first(g, BOARD_W as int);
    BoardFeatures {
        agg_height: sum_first(h, BOARD_W as int) as i32,
        complete_lines: full_rows_first(g, BOARD_H as int) as usize,
        holes: holes as i32,
        bumpiness: bumps_first(h, BOARD_W as int) as i32,
        well_depth: if (min_col == 0 || min_col == BOARD_W - 1) && holes == 0 {
            Some((if min_col == 0 { h[1] } else { h[BOARD_W - 2] } - min_h) as i32)
        } else {
            None
        },
        low_count: count_at_most(h, min_h + 1, BOARD_W as int) as usize,
    }
}

pub proof fn lemma_height_bound(g: Seq<Seq<Option<usize>>>, c: int, r: int)
    requires
        0 <= r,
    ensures
        0 <= height_from(g, c, r) <= BOARD_H,
    decreases BOARD_H - r,
{
    if r < BOARD_H && !(g[r][c] is Some) {
        lemma_height_bound(g, c, r + 1);
    }
}

pub proof fn lemma_holes_bound(g: Seq<Seq<Option<usize>>>, c: int, r: int, found: bool)
    requires
        0 <= r,
    ensures
        0 <= holes_from(g, c, r, found) <= BOARD_H - r || (r >= BOARD_H && holes_from(g, c, r, found) == 0),
    decreases BOARD_H - r,
{
    if r < BOARD_H {
        lemma_holes_bound(g, c, r + 1, true);
        lemma_holes_bound(g, c, r + 1, found);
    }
}

pub proof fn lemma_min_first(s: Seq<int>, n: int)
    requires
        1 <= n <= s.len(),
    ensures
        exists|i: int| 0 <= i < n && s[i] == min_first(s, n),
        forall|i: int| 0 <= i < n ==> min_first(s, n) <= s[i],
    decreases n,
{
    if n == 1 {
        assert(s[0] == min_first(s, n));
    } else {
        lemma_min_first(s, n - 1);
        if s[n - 1] < min_first(s, n - 1) {
            assert(s[n - 1] == min_first(s, n));
        } else {
            let i = choose|i: int| 0 <= i < n - 1 && s[i] == min_first(s, n - 1);
            assert(s[i] == min_first(s, n));
        }
    }
}

pub proof fn lemma_first_index(s: Seq<int>, v: int, i: int)
    requires
        0 <= i <= s.len(),
    ensures
        i <= first_index_from(s, v, i) <= s.len(),
        first_index_from(s, v, i) < s.len() ==> s[first_index_from(s, v, i)] == v,
        (exists|m: int| i <= m < s.len() && s[m] == v) ==> first_index_from(s, v, i) < s.len(),
    decreases s.len() - i,
{
    if i < s.len() && s[i] != v {
        lemma_first_index(s, v, i + 1);
        if exists|m: int| i <= m < s.len() && s[m] == v {
            let m = choose|m: int| i <= m < s.len() && s[m] == v;
            assert(i + 1 <= m);
        }
    }
}

/// The height of column `c`.
fn column_height(board: &Board, c: usize) -> (h: i32)
    requires
        c < BOARD_W,
    ensures
        h == height_from(grid(*board), c as int, 0),
{
    let ghost g = grid(*board);
    let mut r: usize = 0;
    while r < BOARD_H
        invariant
            r <= BOARD_H,
            c < BOARD_W,
            g == grid(*board),
            height_from(g, c as int, 0) == height_from(g, c as int, r as int),
        decreases BOARD_H - r,
    {
        assert(g[r as int][c as int] == board@[r as int]@[c as int]);
        if board[r][c].is_some() {
            return (BOARD_H - r) as i32;
        }
        r += 1;
    }
    0
}

/// The features of a playfield that the auto-player's evaluation weighs.
pub fn board_features(board: &Board) -> (f: BoardFeatures)
    ensures
        f == spec_features(grid(*board)),
{
    let ghost g = grid(*board);
    let mut heights_arr: [i32; BOARD_W] = [0; BOARD_W];
    let mut c: usize = 0;
    while c < BOARD_W
        invariant
            c <= BOARD_W,
            g == grid(*board),
            forall|m: int| 0 <= m < c ==> #[trigger] heights_arr@[m] == height_from(g, m, 0),
        decreases BOARD_W - c,
    {
        let h = column_height(board, c);
        heights_arr[c] = h;
        c += 1;
    }
    let ghost hs = heights(g);
    assert(forall|m: int| 0 <= m < BOARD_W ==> #[trigger] heights_arr@[m] == hs[m]);

    let mut agg: i32 = 0;
    let mut c: usize = 0;
    while c < BOARD_W
        invariant
            c <= BOARD_W,
            forall|m: int| 0 <= m < BOARD_W ==> #[trigger] heights_arr@[m] == hs[m],
            hs == heights(g),
            agg == sum_first(hs, c as int),
            0 <= agg <= BOARD_H * c,
        decreases BOARD_W - c,
    {
        proof { lemma_height_bound(g, c as int, 0); }
        agg = agg + heights_arr[c];
        c += 1;
    }

    let mut complete: usize = 0;
    let mut r: usize = 0;
    while r < BOARD_H
        invariant
            r <= BOARD_H,
            g == grid(*board),
            complete == full_rows_first(g, r as int),
            complete <= r,
        decreases BOARD_H - r,
    {
        if row_is_full(&board[r]) {
            complete += 1;
        }
        r += 1;
    }

    let mut holes: i32 = 0;
    let mut c: usize = 0;
    while c < BOARD_W
        invariant
            c <= BOARD_W,
            g == grid(*board),
            holes == holes_first(g, c as int),
            0 <= holes <= BOARD_H * c,
        decreases BOARD_W - c,
    {
        let mut found = false;
        let mut r: usize = 0;
        let ghost before = holes;
        proof { lemma_holes_bound(g, c as int, 0, false); }
        while r < BOARD_H
            invariant
                r <= BOARD_H,
                c < BOARD_W,
                g == grid(*board),
                before == holes_first(g, c as int),
                0 <= before <= BOARD_H * c,
                holes - before + holes_from(g, c as int, r as int, found) == holes_from(g, c as int, 0, false),
                0 <= holes - before <= r,
            decreases BOARD_H - r,
        {
            assert(g[r as int][c as int] == board@[r as int]@[c as int]);
            proof { lemma_holes_bound(g, c as int, r as int + 1, true); lemma_holes_bound(g, c as int, r as int + 1, found); }
            if board[r][c].is_some() {
                found = true;
            } else if found {
                holes = holes + 1;
            }
            r += 1;
        }
        c += 1;
    }

    let mut bump: i32 = 0;
    let mut c: usize = 0;
    while c + 1 < BOARD_W
        invariant
            c + 1 <= BOARD_W,
            forall|m: int| 0 <= m < BOARD_W ==> #[trigger] heights_arr@[m] == hs[m],
            hs == heights(g),
            bump == bumps_first(hs, c as int + 1),
            0 <= bump <= BOARD_H * c,
        decreases BOARD_W - c,
    {
        proof { lemma_height_bound(g, c as int, 0); lemma_height_bound(g, c as int + 1, 0); }
        let d = heights_arr[c] - heights_arr[c + 1];
        let ad = if d < 0 { -d } else { d };
        bump = bump + ad;
        c += 1;
    }

    let mut min_h: i32 = heights_arr[0];
    let mut c: usize = 1;
    while c < BOARD_W
        invariant
            1 <= c <= BOARD_W,
            forall|m: int| 0 <= m < BOARD_W ==> #[trigger] heights_arr@[m] == hs[m],
            hs == heights(g),
            min_h == min_first(hs, c as int),
        decreases BOARD_W - c,
    {
        if heights_arr[c] < min_h {
            min_h = heights_arr[c];
        }
        c += 1;
    }
    proof {
        lemma_min_first(hs, BOARD_W as int);
        lemma_first_index(hs, min_h as int, 0);
        assert forall|m: int| 0 <= m < BOARD_W implies 0 <= #[trigger] hs[m] <= BOARD_H by {
            lemma_height_bound(g, m, 0);
        }
    }

    let mut min_col: usize = 0;
    while min_col < BOARD_W && heights_arr[min_col] != min_h
        invariant
            min_col <= BOARD_W,
            forall|m: int| 0 <= m < BOARD_W ==> #[trigger] heights_arr@[m] == hs[m],
            hs == heights(g),
            first_index_from(hs, min_h as int, min_col as int) == first_index_from(hs, min_h as int, 0),
        decreases BOARD_W - min_col,
    {
        min_col += 1;
    }
    assert(min_col < BOARD_W);

    let well_depth = if (min_col == 0 || min_col == BOARD_W - 1) && holes == 0 {
        let neighbor = if min_col == 0 { heights_arr[1] } else { heights_arr[BOARD_W - 2] };
        proof { lemma_height_bound(g, 1, 0); lemma_height_bound(g, BOARD_W as int - 2, 0); lemma_height_bound(g, min_col as int, 0); }
        Some(neighbor - min_h)
    } else {
        None
    };

    let mut low_count: usize = 0;
    let mut c: usize = 0;
    while c < BOARD_W
        invariant
            c <= BOARD_W,
            forall|m: int| 0 <= m < BOARD_W ==> #[trigger] heights_arr@[m] == hs[m],
            hs == heights(g),
            0 <= min_h <= BOARD_H,
            low_count == count_at_most(hs, min_h + 1, c as int),
            low_count <= c,
        decreases BOARD_W - c,
    {
        if heights_arr[c] <= min_h + 1 {
            low_count += 1;
        }
        c += 1;
    }

    BoardFeatures {
        agg_height: agg,
        complete_lines: complete,
        holes,
        bumpiness: bump,
        well_depth,
        low_count,
    }
}

/// A placement the auto-player may choose: the piece, turned to `rot` and
/// dropped from the top row in column `col`, and the features of the
/// playfield it would leave there.
pub struct Placement {
    pub col: i32,
    pub rot: usize,
    pub features: BoardFeatures,
}

/// The placement of `piece` turned to `rot` and dropped from row 0 in column
/// `col`, its cells marked as blocks of piece 0.
pub open spec fn spec_placement(g: Seq<Seq<Option<usize>>>, piece: int, rot: int, col: int) -> Placement {
    let land = landing_row(g, piece, rot, 0, col);
    Placement {
        col: col as i32,
        rot: rot as usize,
        features: spec_features(placed(g, piece, rot, land, col, Some(0usize))),
    }
}

/// The placements in orientation `rot` over the first `k` columns of the
/// range -2 .. 12, in column order, for the columns at which the piece fits
/// on row 0.
pub open spec fn column_candidates(g: Seq<Seq<Option<usize>>>, piece: int, rot: int, k: int) -> Seq<Placement>
    decreases k,
{
    if k <= 0 {
        Seq::empty()
    } else {
        let prev = column_candidates(g, piece, rot, k - 1);
        let col = k - 1 - 2;
        if fits(g, piece, rot, 0, col) { prev.push(spec_placement(g, piece, rot, col)) } else { prev }
    }
}

/// The placements of the first `n` orientations, orientation by orientation.
pub open spec fn candidates(g: Seq<Seq<Option<usize>>>, piece: int, n: int) -> Seq<Placement>
    decreases n,
{
    if n <= 0 {
        Seq::empty()
    } else {
        candidates(g, piece, n - 1) + column_candidates(g, piece, n - 1, BOARD_W + 4)
    }
}

impl Game {
    /// Every placement the auto-player considers, in the order in which it
    /// considers them: orientations 0 to 3, and in each, columns -2 to 11 at
    /// which the piece fits on the top row.
    pub fn candidate_placements(&self) -> (v: Vec<Placement>)
        requires
            self.wf(),
        ensures
            v@ == candidates(grid(self.board), self.piece as int, 4),
    {
        let ghost g = grid(self.board);
        let ghost pc = self.piece as int;
        let mut out: Vec<Placement> = Vec::new();
        let mut rot: usize = 0;
        while rot < 4
            invariant
                rot <= 4,
                self.wf(),
                g == grid(self.board),
                pc == self.piece,
                out@ == candidates(g, pc, rot as int),
            decreases 4 - rot,
        {
            let mut col: i32 = -2;
            while col < BOARD_W as i32 + 2
                invariant
                    rot < 4,
                    -2 <= col <= BOARD_W + 2,
                    self.wf(),
                    g == grid(self.board),
                    pc == self.piece,
                    out@ == candidates(g, pc, rot as int) + column_candidates(g, pc, rot as int, col + 2),
                decreases BOARD_W + 2 - col,
            {
                let ghost prev = out@;
                if self.valid(0, col, rot) {
                    let mut r: i32 = 0;
                    while self.valid_for_piece(self.piece, r + 1, col, rot)
                        invariant
                            0 <= r < BOARD_H,
                            rot < 4,
                            -2 <= col < BOARD_W + 2,
                            self.wf(),
                            g == grid(self.board),
                            pc == self.piece,
                            fits(g, pc, rot as int, r as int, col as int),
                            landing_row(g, pc, rot as int, r as int, col as int) == landing_row(g, pc, rot as int, 0, col as int),
                        decreases BOARD_H - r,
                    {
                        proof { self.lemma_fits_row_bound(rot as int, r + 1, col as int); }
                        r = r + 1;
                    }
                    proof {
                        lemma_landing_row(g, pc, rot as int, r as int, col as int);
                        lemma_fits_in_field(g, pc, rot as int, r as int, col as int);
                        lemma_place_none(g, pc, rot as int, r as int, col as int, Some(0usize));
                    }
                    let mut board = self.board;
                    let o = tetromino(self.piece, rot);
                    let mut ok = true;
                    let mut k: usize = 0;
                    while k < 4 && ok
                        invariant
                            k <= 4,
                            ok,
                            rot < 4,
                            self.wf(),
                            g == grid(self.board),
                            pc == self.piece,
                            0 <= r < BOARD_H,
                            -2 <= col < BOARD_W + 2,
                            in_field(pc, rot as int, r as int, col as int),
                            forall|m: int| 0 <= m < 4 ==> (#[trigger] o@[m]).0 as int == shape(pc, rot as int)[m].0
                                && o@[m].1 as int == shape(pc, rot as int)[m].1,
                            grid(board) == placed_first(g, pc, rot as int, r as int, col as int, k as int, Some(0usize)),
                        decreases 4 - k,
                    {
                        let (dr, dc) = o[k];
                        assert(o@[k as int] == o[k as int]);
                        proof { lemma_shape_offsets(pc, rot as int, k as int); }
                        let pr = r + dr;
                        let pcol = col + dc;
                        assert(cell_of(pc, rot as int, r as int, col as int, k as int) == (pr as int, pcol as int));
                        if pr < 0 || pr >= BOARD_H as i32 || pcol < 0 || pcol >= BOARD_W as i32 {
                            ok = false;
                        } else {
                            let ghost ob = board;
                            board[pr as usize][pcol as usize] = Some(0);
                            proof {
                                assert(cells_ok(g));
                                lemma_place_cell(ob, board, g, pc, rot as int, r as int, col as int, k as int, Some(0usize));
                            }
                            k += 1;
                        }
                    }
                    if ok {
                        let features = board_features(&board);
                        out.push(Placement { col, rot, features });
                    }
                }
                proof {
                    assert(column_candidates(g, pc, rot as int, col + 3) == if fits(g, pc, rot as int, 0, col as int) {
                        column_candidates(g, pc, rot as int, col + 2).push(spec_placement(g, pc, rot as int, col as int))
                    } else {
                        column_candidates(g, pc, rot as int, col + 2)
                    });
                    assert(out@ =~= candidates(g, pc, rot as int) + column_candidates(g, pc, rot as int, col + 3));
                }
                col = col + 1;
            }
            proof {
                assert(out@ =~= candidates(g, pc, rot as int + 1));
            }
            rot += 1;
        }
        out
    }
}

} // verus!
