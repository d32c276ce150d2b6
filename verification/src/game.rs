//! The game state and its moves: shifting, rotating, dropping and locking the
//! falling piece, clearing full rows and scoring them.
use vstd::prelude::*;
use crate::pieces::{BOARD_H, BOARD_W, PIECE_COUNT, tetromino, lemma_shape_offsets};
use crate::bag::{Bag, draw_from, valid_draws, spec_fisher_yates};
use crate::board::{
    Board, grid, empty_row, full_row, kept_rows, full_row_count, empty_rows, cleared_grid,
    cell_of, cell_free, fits, in_field, placed, placed_first, landing_row, board_ok, cells_ok, row_ok,
    lemma_fits_in_field, lemma_kept_rows, lemma_cleared_ok, lemma_grid_update, row_is_full, lemma_place_cell, lemma_place_none,
    cells_addressable, lemma_cells_addressable,
};

verus! {

/// The column at which a new piece appears.
pub const SPAWN_COL: i32 = 4;

/// The state of one game.
pub struct Game {
    pub board: Board,
    pub piece: usize,
    pub rot: usize,
    pub row: i32,
    pub col: i32,
    pub next: usize,
    pub bag: Bag,
    pub score: u32,
    pub lines: u32,
    pub level: u32,
    pub game_over: bool,
    pub score_saved: bool,
    pub auto_play: bool,
    pub ai_target: Option<(i32, usize)>,
    /// Set when four rows are cleared at once, until the flash is taken.
    pub tetris_flash: bool,
}

/// Points for clearing `n` rows at once, before the level multiplier.
pub open spec fn line_points(n: int) -> int {
    if n == 1 { 100 } else if n == 2 { 300 } else if n == 3 { 500 } else if n == 4 { 800 } else { 0 }
}

/// The column offsets tried, in order, when a rotation is blocked.
pub open spec fn kick(m: int) -> int {
    if m == 0 { 0 } else if m == 1 { 1 } else if m == 2 { -1 } else if m == 3 { 2 } else { -2 }
}

/// The first offset (of 0, 1, -1, 2, -2) at which the rotated piece fits, if any.
pub open spec fn rotation_kick(g: Seq<Seq<Option<usize>>>, piece: int, rot: int, r: int, c: int) -> Option<int> {
    let nr = (rot + 1) % 4;
    if fits(g, piece, nr, r, c + kick(0)) { Some(kick(0)) }
    else if fits(g, piece, nr, r, c + kick(1)) { Some(kick(1)) }
    else if fits(g, piece, nr, r, c + kick(2)) { Some(kick(2)) }
    else if fits(g, piece, nr, r, c + kick(3)) { Some(kick(3)) }
    else if fits(g, piece, nr, r, c + kick(4)) { Some(kick(4)) }
    else { None }
}

/// The state of a clearing pass over `p`: `c` rows already taken out (and
/// as many empty rows put on top), the top `j` rows of `p` still to look at,
/// and the kept rows below them.
pub open spec fn clearing(p: Seq<Seq<Option<usize>>>, c: int, j: int) -> Seq<Seq<Option<usize>>> {
    empty_rows(c) + p.take(j) + kept_rows(p.skip(j))
}

/// What taking the next piece does: the next piece falls from the spawn
/// point, a new next piece is drawn from the bag, the auto-player's target is
/// dropped, and the game ends if the new piece does not fit.
pub open spec fn spawns(before: Game, after: Game) -> bool {
    &&& after.piece == before.next
    &&& draw_from(before.bag.pieces@, after.bag.pieces@, after.next)
    &&& after.rot == 0
    &&& after.row == 0
    &&& after.col == SPAWN_COL
    &&& after.ai_target is None
    &&& after.game_over == (before.game_over || !fits(grid(after.board), after.piece as int, 0, 0, SPAWN_COL as int))
    &&& after.score_saved == before.score_saved
    &&& after.auto_play == before.auto_play
}

/// What locking does: the piece's cells join the playfield, full rows are
/// taken out with empty rows put on top, the cleared rows are added to the
/// lines and scored 100/300/500/800 times the level, the level follows the
/// lines, a four-row clear sets the flash, and the next piece spawns.
pub open spec fn locks(before: Game, after: Game) -> bool {
    let p = placed(grid(before.board), before.piece as int, before.rot as int, before.row as int, before.col as int, Some(before.piece));
    let n = full_row_count(p);
    &&& grid(after.board) == cleared_grid(p)
    &&& after.lines == before.lines + n
    &&& after.score == if n > 0 { before.score + line_points(n) * before.level } else { before.score as int }
    &&& after.level == if n > 0 { after.lines / 10 + 1 } else { before.level as int }
    &&& after.tetris_flash == (before.tetris_flash || n >= 4)
    &&& spawns(before, after)
}

/// The delay between gravity steps at `level`, in milliseconds.
pub open spec fn drop_delay(level: int) -> int {
    if level == 1 { 800 } else if level == 2 { 720 } else if level == 3 { 630 } else if level == 4 { 550 }
    else if level == 5 { 470 } else if level == 6 { 380 } else if level == 7 { 300 } else if level == 8 { 220 }
    else if level == 9 { 140 } else { 80 }
}

/// A player's request to the falling piece.
pub enum Action {
    Left,
    Right,
    Rotate,
    SoftDrop,
    HardDrop,
}

/// What shifting by `d` columns does: the piece moves when it fits there.
pub open spec fn shifted(before: Game, after: Game, d: int) -> bool {
    after == if fits(grid(before.board), before.piece as int, before.rot as int, before.row as int, before.col + d) {
        Game { col: (before.col + d) as i32, ..before }
    } else {
        before
    }
}

/// What a rotation does: a quarter turn at the first kick offset that fits.
pub open spec fn rotated(before: Game, after: Game) -> bool {
    after == match rotation_kick(grid(before.board), before.piece as int, before.rot as int, before.row as int, before.col as int) {
        Some(off) => Game { rot: ((before.rot + 1) % 4) as usize, col: (before.col + off) as i32, ..before },
        None => before,
    }
}

/// What one gravity step does: the piece falls a row if it fits there and
/// is locked otherwise; `fell` says which.
pub open spec fn stepped_down(before: Game, after: Game, fell: bool) -> bool {
    &&& fell == fits(grid(before.board), before.piece as int, before.rot as int, before.row + 1, before.col as int)
    &&& fell ==> after == Game { row: (before.row + 1) as i32, ..before }
    &&& !fell ==> locks(before, after)
}

/// What a hard drop does: the piece falls to its landing row, earning two
/// points per row fallen, and is locked there.
pub open spec fn hard_dropped(before: Game, after: Game) -> bool {
    locks(landed(before), after)
}

/// The game with the piece fallen to its landing row and two points per row
/// fallen added to the score, before it is locked.
pub open spec fn landed(g: Game) -> Game {
    let land = landing_row(grid(g.board), g.piece as int, g.rot as int, g.row as int, g.col as int);
    Game { row: land as i32, score: (g.score + 2 * (land - g.row)) as u32, ..g }
}

/// The rows that locking the piece where it is would clear.
pub open spec fn lock_clears(g: Game) -> int {
    full_row_count(placed(grid(g.board), g.piece as int, g.rot as int, g.row as int, g.col as int, Some(g.piece)))
}

/// The points that locking the piece where it is would earn.
pub open spec fn lock_points(g: Game) -> int {
    let n = lock_clears(g);
    if n > 0 { line_points(n) * g.level } else { 0 }
}

/// The counters can take locking the piece where it is: the cleared rows
/// added to the lines, and their points added to the score.
pub open spec fn lock_room(g: Game) -> bool {
    &&& g.lines + lock_clears(g) <= u32::MAX
    &&& g.score + lock_points(g) <= u32::MAX
}

/// The counters can take one gravity step: it only moves the piece, or it
/// locks it.
pub open spec fn down_room(g: Game) -> bool {
    fits(grid(g.board), g.piece as int, g.rot as int, g.row + 1, g.col as int) || lock_room(g)
}

/// The counters can take a hard drop: two points per row fallen, then the lock.
pub open spec fn hard_drop_room(g: Game) -> bool {
    let land = landing_row(grid(g.board), g.piece as int, g.rot as int, g.row as int, g.col as int);
    &&& g.score + 2 * (land - g.row) <= u32::MAX
    &&& lock_room(landed(g))
}

/// The counters can take a soft drop: one gravity step and one point.
pub open spec fn soft_drop_room(g: Game) -> bool {
    if fits(grid(g.board), g.piece as int, g.rot as int, g.row + 1, g.col as int) {
        g.score + 1 <= u32::MAX
    } else {
        lock_room(g) && g.score + lock_points(g) + 1 <= u32::MAX
    }
}

/// The counters can take `action`; shifts and rotations add nothing.
pub open spec fn action_room(g: Game, action: Action) -> bool {
    match action {
        Action::SoftDrop => soft_drop_room(g),
        Action::HardDrop => hard_drop_room(g),
        _ => true,
    }
}

/// The counters can take the auto-player's next move; only its hard drop adds.
pub open spec fn ai_step_room(g: Game) -> bool {
    match g.ai_target {
        Some((tc, tr)) => (g.rot == tr && g.col == tc) ==> hard_drop_room(g),
        None => true,
    }
}

impl Game {
    /// The invariant of every game: valid pieces and orientation, a
    /// well-formed bag and playfield with no full row, the level that the
    /// cleared lines earn, the falling piece inside the field, and, while the
    /// game runs, overlapping nothing.
    pub open spec fn wf(&self) -> bool {
        &&& self.piece < PIECE_COUNT
        &&& self.next < PIECE_COUNT
        &&& self.rot < 4
        &&& self.bag.wf()
        &&& board_ok(grid(self.board))
        &&& self.level == self.lines / 10 + 1
        &&& 0 <= self.row
        &&& in_field(self.piece as int, self.rot as int, self.row as int, self.col as int)
        &&& !self.game_over ==> fits(grid(self.board), self.piece as int, self.rot as int, self.row as int, self.col as int)
    }

    /// The falling piece fits where it is.
    pub open spec fn piece_fits_at(&self, rot: int, r: int, c: int) -> bool {
        fits(grid(self.board), self.piece as int, rot, r, c)
    }

    /// The absolute cells of the current piece in orientation `rot` at (`r`, `c`).
    pub fn cells(&self, r: i32, c: i32, rot: usize) -> (cs: [(i32, i32); 4])
        requires
            self.piece < PIECE_COUNT,
            rot < 4,
            cells_addressable(self.piece as int, rot as int, r as int, c as int),
        ensures
            forall|k: int| 0 <= k < 4 ==> (#[trigger] cs@[k]).0 as int == cell_of(self.piece as int, rot as int, r as int, c as int, k).0
                && cs@[k].1 as int == cell_of(self.piece as int, rot as int, r as int, c as int, k).1,
    {
        let o = tetromino(self.piece, rot);
        proof {
            lemma_shape_offsets(self.piece as int, rot as int, 0);
            lemma_shape_offsets(self.piece as int, rot as int, 1);
            lemma_shape_offsets(self.piece as int, rot as int, 2);
            lemma_shape_offsets(self.piece as int, rot as int, 3);
            let (pc, rt, ri, ci) = (self.piece as int, rot as int, r as int, c as int);
            assert(cell_of(pc, rt, ri, ci, 0).0 <= i32::MAX && cell_of(pc, rt, ri, ci, 0).1 <= i32::MAX);
            assert(cell_of(pc, rt, ri, ci, 1).0 <= i32::MAX && cell_of(pc, rt, ri, ci, 1).1 <= i32::MAX);
            assert(cell_of(pc, rt, ri, ci, 2).0 <= i32::MAX && cell_of(pc, rt, ri, ci, 2).1 <= i32::MAX);
            assert(cell_of(pc, rt, ri, ci, 3).0 <= i32::MAX && cell_of(pc, rt, ri, ci, 3).1 <= i32::MAX);
        }
        let cs = [
            (r + o[0].0, c + o[0].1),
            (r + o[1].0, c + o[1].1),
            (r + o[2].0, c + o[2].1),
            (r + o[3].0, c + o[3].1),
        ];
        assert forall|k: int| 0 <= k < 4 implies (#[trigger] cs@[k]).0 as int == cell_of(self.piece as int, rot as int, r as int, c as int, k).0
                && cs@[k].1 as int == cell_of(self.piece as int, rot as int, r as int, c as int, k).1 by {
            if k == 0 {} else if k == 1 {} else if k == 2 {} else {}
        }
        cs
    }

    /// The absolute cells of the falling piece.
    pub fn cur(&self) -> (cs: [(i32, i32); 4])
        requires
            self.wf(),
        ensures
            forall|k: int| 0 <= k < 4 ==> (#[trigger] cs@[k]).0 as int == cell_of(self.piece as int, self.rot as int, self.row as int, self.col as int, k).0
                && cs@[k].1 as int == cell_of(self.piece as int, self.rot as int, self.row as int, self.col as int, k).1,
    {
        proof {
            self.lemma_position_bounds();
            lemma_cells_addressable(self.piece as int, self.rot as int, self.row as int, self.col as int);
        }
        self.cells(self.row, self.col, self.rot)
    }

    /// In a well-formed game the position is small: 0 <= row < 20, -3 <= col < 10.
    pub proof fn lemma_position_bounds(&self)
        requires
            self.wf(),
        ensures
            0 <= self.row < BOARD_H,
            -3 <= self.col < BOARD_W,
    {
        lemma_shape_offsets(self.piece as int, self.rot as int, 0);
        assert(in_field(self.piece as int, self.rot as int, self.row as int, self.col as int));
        let rc = cell_of(self.piece as int, self.rot as int, self.row as int, self.col as int, 0);
        assert(0 <= rc.0 < BOARD_H && 0 <= rc.1 < BOARD_W);
    }

    /// Whether the current piece fits in orientation `rot` at (`r`, `c`).
    pub fn valid(&self, r: i32, c: i32, rot: usize) -> (ok: bool)
        requires
            self.piece < PIECE_COUNT,
            rot < 4,
            cells_addressable(self.piece as int, rot as int, r as int, c as int),
        ensures
            ok == fits(grid(self.board), self.piece as int, rot as int, r as int, c as int),
    {
        let cs = self.cells(r, c, rot);
        let ghost g = grid(self.board);
        let mut k: usize = 0;
        while k < 4
            invariant
                k <= 4,
                g == grid(self.board),
                forall|k: int| 0 <= k < 4 ==> (#[trigger] cs@[k]).0 as int == cell_of(self.piece as int, rot as int, r as int, c as int, k).0
                    && cs@[k].1 as int == cell_of(self.piece as int, rot as int, r as int, c as int, k).1,
                forall|m: int| 0 <= m < k ==> cell_free(g, #[trigger] cell_of(self.piece as int, rot as int, r as int, c as int, m)),
            decreases 4 - k,
        {
            let (rr, cc) = cs[k];
            assert(cs@[k as int] == cs[k as int]);
            if cc < 0 || cc >= BOARD_W as i32 || rr >= BOARD_H as i32 {
                assert(!cell_free(g, cell_of(self.piece as int, rot as int, r as int, c as int, k as int)));
                return false;
            }
            if rr >= 0 && self.board[rr as usize][cc as usize].is_some() {
                assert(g[rr as int][cc as int] == self.board[rr as int][cc as int]);
                assert(!cell_free(g, cell_of(self.piece as int, rot as int, r as int, c as int, k as int)));
                return false;
            }
            assert(rr >= 0 ==> g[rr as int][cc as int] == self.board[rr as int][cc as int]);
            k += 1;
        }
        true
    }

    /// Whether `piece` fits in orientation `rot` at (`row`, `col`).
    pub fn valid_for_piece(&self, piece: usize, row: i32, col: i32, rot: usize) -> (ok: bool)
        requires
            piece < PIECE_COUNT,
            rot < 4,
            cells_addressable(piece as int, rot as int, row as int, col as int),
        ensures
            ok == fits(grid(self.board), piece as int, rot as int, row as int, col as int),
    {
        let o = tetromino(piece, rot);
        let ghost g = grid(self.board);
        let mut k: usize = 0;
        while k < 4
            invariant
                k <= 4,
                g == grid(self.board),
                piece < PIECE_COUNT,
                rot < 4,
                cells_addressable(piece as int, rot as int, row as int, col as int),
                forall|k: int| 0 <= k < 4 ==> (#[trigger] o@[k]).0 as int == crate::pieces::shape(piece as int, rot as int)[k].0
                    && o@[k].1 as int == crate::pieces::shape(piece as int, rot as int)[k].1,
                forall|m: int| 0 <= m < k ==> cell_free(g, #[trigger] cell_of(piece as int, rot as int, row as int, col as int, m)),
            decreases 4 - k,
        {
            proof { lemma_shape_offsets(piece as int, rot as int, k as int); }
            assert(cell_of(piece as int, rot as int, row as int, col as int, k as int).0 <= i32::MAX);
            assert(cell_of(piece as int, rot as int, row as int, col as int, k as int).1 <= i32::MAX);
            let (dr, dc) = o[k];
            assert(o@[k as int] == o[k as int]);
            let r = row + dr;
            let c = col + dc;
            if c < 0 || c >= BOARD_W as i32 || r >= BOARD_H as i32 {
                assert(!cell_free(g, cell_of(piece as int, rot as int, row as int, col as int, k as int)));
                return false;
            }
            if r >= 0 && self.board[r as usize][c as usize].is_some() {
                assert(g[r as int][c as int] == self.board[r as int][c as int]);
                assert(!cell_free(g, cell_of(piece as int, rot as int, row as int, col as int, k as int)));
                return false;
            }
            assert(r >= 0 ==> g[r as int][c as int] == self.board[r as int][c as int]);
            k += 1;
        }
        true
    }

    /// Shifts the piece `d` columns when it fits there; otherwise nothing changes.
    pub fn move_lr(&mut self, d: i32)
        requires
            old(self).wf(),
            i32::MIN <= old(self).col + d <= i32::MAX,
            cells_addressable(old(self).piece as int, old(self).rot as int, old(self).row as int, old(self).col + d),
        ensures
            final(self).wf(),
            shifted(*old(self), *final(self), d as int),
    {
        proof { self.lemma_position_bounds(); }
        if self.valid(self.row, self.col + d, self.rot) {
            self.col = self.col + d;
            proof { lemma_fits_in_field(grid(self.board), self.piece as int, self.rot as int, self.row as int, self.col as int); }
        }
    }

    /// Turns the piece a quarter turn, shifting it by the first of 0, 1, -1,
    /// 2, -2 columns at which it fits; when it fits at none, nothing changes.
    pub fn rotate(&mut self)
        requires
            old(self).wf(),
        ensures
            final(self).wf(),
            rotated(*old(self), *final(self)),
    {
        proof { self.lemma_position_bounds(); }
        let nr = (self.rot + 1) % 4;
        let offs: [i32; 5] = [0, 1, -1, 2, -2];
        let mut m: usize = 0;
        while m < 5
            invariant
                m <= 5,
                *self == *old(self),
                self.wf(),
                0 <= self.row < BOARD_H,
                -3 <= self.col < BOARD_W,
                nr == (self.rot + 1) % 4,
                forall|i: int| 0 <= i < 5 ==> #[trigger] offs@[i] == kick(i),
                forall|i: int| 0 <= i < m ==> !self.piece_fits_at(nr as int, self.row as int, self.col + #[trigger] kick(i)),
            decreases 5 - m,
        {
            let off = offs[m];
            assert(off == kick(m as int));
            if self.valid(self.row, self.col + off, nr) {
                proof {
                    assert(self.piece_fits_at(nr as int, self.row as int, self.col + kick(m as int)));
                    if m >= 1 { assert(!self.piece_fits_at(nr as int, self.row as int, self.col + kick(0))); }
                    if m >= 2 { assert(!self.piece_fits_at(nr as int, self.row as int, self.col + kick(1))); }
                    if m >= 3 { assert(!self.piece_fits_at(nr as int, self.row as int, self.col + kick(2))); }
                    if m >= 4 { assert(!self.piece_fits_at(nr as int, self.row as int, self.col + kick(3))); }
                }
                self.rot = nr;
                self.col = self.col + off;
                proof { lemma_fits_in_field(grid(self.board), self.piece as int, self.rot as int, self.row as int, self.col as int); }
                return;
            }
            m += 1;
        }
        proof {
            assert(!self.piece_fits_at(nr as int, self.row as int, self.col + kick(0)));
            assert(!self.piece_fits_at(nr as int, self.row as int, self.col + kick(1)));
            assert(!self.piece_fits_at(nr as int, self.row as int, self.col + kick(2)));
            assert(!self.piece_fits_at(nr as int, self.row as int, self.col + kick(3)));
            assert(!self.piece_fits_at(nr as int, self.row as int, self.col + kick(4)));
        }
    }

    /// The row on which the falling piece would come to rest.
    pub fn ghost(&self) -> (r: i32)
        requires
            self.wf(),
        ensures
            r == landing_row(grid(self.board), self.piece as int, self.rot as int, self.row as int, self.col as int),
    {
        proof { self.lemma_position_bounds(); }
        let mut r = self.row;
        while self.valid(r + 1, self.col, self.rot)
            invariant
                self.wf(),
                -3 <= self.col < BOARD_W,
                0 <= r < BOARD_H,
                landing_row(grid(self.board), self.piece as int, self.rot as int, r as int, self.col as int)
                    == landing_row(grid(self.board), self.piece as int, self.rot as int, self.row as int, self.col as int),
            decreases BOARD_H - r,
        {
            proof { self.lemma_fits_row_bound(self.rot as int, r + 1, self.col as int); }
            r = r + 1;
        }
        r
    }

    /// A fitting piece's row is below 20.
    pub proof fn lemma_fits_row_bound(&self, rot: int, r: int, c: int)
        requires
            self.piece < PIECE_COUNT,
            fits(grid(self.board), self.piece as int, rot, r, c),
        ensures
            r < BOARD_H,
    {
        lemma_shape_offsets(self.piece as int, rot, 0);
        assert(cell_free(grid(self.board), cell_of(self.piece as int, rot, r, c, 0)));
    }

    /// Everything the invariant asks of a game apart from the falling piece.
    pub open spec fn settled(&self) -> bool {
        &&& self.next < PIECE_COUNT
        &&& self.bag.wf()
        &&& board_ok(grid(self.board))
        &&& self.level == self.lines / 10 + 1
    }

    /// Takes the next piece to the spawn point and draws a new next piece;
    /// the game is over when the new piece does not fit there.
    pub fn spawn(&mut self)
        requires
            old(self).next < PIECE_COUNT,
        ensures
            old(self).settled() ==> final(self).wf(),
            spawns(*old(self), *final(self)),
            final(self).board == old(self).board,
            final(self).score == old(self).score,
            final(self).lines == old(self).lines,
            final(self).level == old(self).level,
            final(self).tetris_flash == old(self).tetris_flash,
    {
        self.piece = self.next;
        self.next = self.bag.next();
        self.rot = 0;
        self.row = 0;
        self.col = BOARD_W as i32 / 2 - 1;
        self.ai_target = None;
        if !self.valid(self.row, self.col, self.rot) {
            self.game_over = true;
        }
        proof {
            assert forall|k: int| 0 <= k < 4 implies {
                let rc = #[trigger] cell_of(self.piece as int, 0, 0, SPAWN_COL as int, k);
                0 <= rc.0 < BOARD_H && 0 <= rc.1 < BOARD_W
            } by {
                lemma_shape_offsets(self.piece as int, 0, k);
            }
        }
    }

    /// Fixes the falling piece into the playfield, clears full rows, scores
    /// them, and spawns the next piece.
    pub fn lock(&mut self)
        requires
            old(self).wf(),
            lock_room(*old(self)),
        ensures
            final(self).wf(),
            locks(*old(self), *final(self)),
    {
        proof { self.lemma_position_bounds(); }
        let cs = self.cur();
        let ghost pre = *self;
        let ghost g0 = grid(self.board);
        let ghost pc = self.piece as int;
        let ghost rt = self.rot as int;
        let ghost r0 = self.row as int;
        let ghost c0 = self.col as int;
        proof { lemma_place_none(g0, pc, rt, r0, c0, Some(pre.piece)); }
        let mut k: usize = 0;
        while k < 4
            invariant
                k <= 4,
                pre.wf(),
                *self == (Game { board: self.board, ..pre }),
                pc == pre.piece, rt == pre.rot, r0 == pre.row, c0 == pre.col, g0 == grid(pre.board),
                forall|m: int| 0 <= m < 4 ==> (#[trigger] cs@[m]).0 as int == cell_of(pc, rt, r0, c0, m).0
                    && cs@[m].1 as int == cell_of(pc, rt, r0, c0, m).1,
                grid(self.board) == placed_first(g0, pc, rt, r0, c0, k as int, Some(pre.piece)),
            decreases 4 - k,
        {
            let (r, cc) = cs[k];
            assert(cs@[k as int] == cs[k as int]);
            assert(in_field(pc, rt, r0, c0));
            assert(0 <= cell_of(pc, rt, r0, c0, k as int).0 < BOARD_H && 0 <= cell_of(pc, rt, r0, c0, k as int).1 < BOARD_W);
            let ghost before = grid(self.board);
            let ghost ob = self.board;
            if r >= 0 {
                self.board[r as usize][cc as usize] = Some(self.piece);
            }
            proof {
                assert(self.board@[r as int]@ == ob@[r as int]@.update(cc as int, Some(pre.piece)));
                assert(cells_ok(g0));
                lemma_place_cell(ob, self.board, g0, pc, rt, r0, c0, k as int, Some(pre.piece));
            }
            k += 1;
        }
        let ghost p = grid(self.board);
        proof {
            assert(cells_ok(p)) by {
                assert forall|i: int| 0 <= i < p.len() implies row_ok(#[trigger] p[i]) by {
                    assert(row_ok(g0[i]));
                }
            }
            assert(clearing(p, 0, BOARD_H as int) =~= p) by {
                assert(p.take(BOARD_H as int) =~= p);
                assert(p.skip(BOARD_H as int) =~= Seq::<Seq<Option<usize>>>::empty());
                assert(empty_rows(0) =~= Seq::<Seq<Option<usize>>>::empty());
            }
        }
        let mut cleared: u32 = 0;
        let mut row: i32 = BOARD_H as i32 - 1;
        let ghost mut j: int = BOARD_H as int;
        while row >= 0
            invariant
                -1 <= row < BOARD_H,
                0 <= j <= BOARD_H,
                *self == (Game { board: self.board, ..pre }),
                pre.wf(),
                cells_ok(p),
                p.len() == BOARD_H,
                grid(self.board) == clearing(p, cleared as int, j),
                cleared + j + kept_rows(p.skip(j)).len() == BOARD_H,
                j == 0 || row + 1 == cleared + j,
                row + 1 <= cleared + j,
            decreases row + 1 + j,
        {
            let ghost b = grid(self.board);
            proof {
                lemma_kept_rows(p.skip(j));
                if j == 0 {
                    assert(b[row as int] == empty_row());
                } else {
                    assert(b[row as int] == p[j - 1]);
                }
            }
            if row_is_full(&self.board[row as usize]) {
                proof {
                    if j == 0 {
                        assert(!(empty_row()[0] is Some));
                    }
                    assert(p.skip(j - 1).drop_first() =~= p.skip(j));
                    assert(kept_rows(p.skip(j - 1)) == kept_rows(p.skip(j)));
                }
                let mut r: usize = row as usize;
                while r >= 1
                    invariant
                        r <= row < BOARD_H,
                        b.len() == BOARD_H,
                        *self == (Game { board: self.board, ..pre }),
                        forall|i: int| 0 <= i < BOARD_H ==> #[trigger] grid(self.board)[i] == if i <= r || i > row { b[i] } else { b[i - 1] },
                    decreases r,
                {
                    let ghost ob = self.board;
                    self.board[r] = self.board[r - 1];
                    proof {
                        lemma_grid_update(ob, self.board, r as int);
                        assert(grid(ob)[r - 1] == b[r - 1]);
                        assert forall|i: int| 0 <= i < BOARD_H implies #[trigger] grid(self.board)[i] == if i <= r - 1 || i > row { b[i] } else { b[i - 1] } by {
                            if i != r {
                                assert(grid(self.board)[i] == grid(ob)[i]);
                            }
                        }
                    }
                    r -= 1;
                }
                let ghost ob = self.board;
                self.board[0] = [None; BOARD_W];
                cleared += 1;
                proof {
                    lemma_grid_update(ob, self.board, 0);
                    j = j - 1;
                    let want = clearing(p, cleared as int, j);
                    assert forall|i: int| 0 <= i < BOARD_H implies #[trigger] grid(self.board)[i] == want[i] by {
                        if i == 0 {
                            assert(grid(self.board)[0] =~= empty_row());
                        } else if i <= row {
                            assert(want[i] == b[i - 1]);
                        } else {
                            assert(want[i] == b[i]);
                        }
                    }
                    assert(grid(self.board) =~= want);
                }
            } else {
                row -= 1;
                proof {
                    if j > 0 {
                        assert(p.skip(j - 1).drop_first() =~= p.skip(j));
                        assert(kept_rows(p.skip(j - 1)) == seq![p[j - 1]] + kept_rows(p.skip(j)));
                        assert(clearing(p, cleared as int, j - 1) =~= b);
                        j = j - 1;
                    }
                }
            }
        }
        proof {
            assert(j == 0);
            assert(p.skip(0) =~= p);
            assert(grid(self.board) =~= cleared_grid(p));
            lemma_cleared_ok(p);
            assert(p == placed(g0, pc, rt, r0, c0, Some(pre.piece)));
        }
        if cleared > 0 {
            self.lines = self.lines + cleared;
            let points: u32 = match cleared {
                1 => 100,
                2 => 300,
                3 => 500,
                4 => 800,
                _ => 0,
            };
            assert(points == line_points(cleared as int));
            self.score = self.score + points * self.level;
            self.level = self.lines / 10 + 1;
            if cleared >= 4 {
                self.tetris_flash = true;
            }
        }
        self.spawn();
    }

    /// Room left in the counters for one more move: the score can take a
    /// hard drop's points, a four-row clear at this level and a soft-drop
    /// point, and the line count can take four more rows.
    pub open spec fn has_room(&self) -> bool {
        &&& self.score + 2 * BOARD_H + 1 + 800 * self.level <= u32::MAX
        &&& self.lines + 4 <= u32::MAX
    }

    /// With room for one more move, each move's exact counter condition holds.
    pub proof fn lemma_room_suffices(&self)
        requires
            self.wf(),
            self.has_room(),
        ensures
            lock_room(*self),
            down_room(*self),
            soft_drop_room(*self),
            hard_drop_room(*self),
            ai_step_room(*self),
            forall|a: Action| #[trigger] action_room(*self, a),
    {
        self.lemma_position_bounds();
        crate::laws::law_lock_clears_at_most_four(*self);
        let gr = grid(self.board);
        let (pc, rt, r0, c0) = (self.piece as int, self.rot as int, self.row as int, self.col as int);
        crate::laws::lemma_landing_bound(gr, pc, rt, r0, c0);
        crate::board::lemma_landing_row(gr, pc, rt, r0, c0);
        let l = landed(*self);
        let land = landing_row(gr, pc, rt, r0, c0);
        if r0 < BOARD_H && fits(gr, pc, rt, r0 + 1, c0) {
            crate::board::lemma_landing_row(gr, pc, rt, r0 + 1, c0);
            crate::board::lemma_fits_in_field(gr, pc, rt, land, c0);
        }
        if !self.game_over {
            crate::board::lemma_fits_in_field(gr, pc, rt, land, c0);
        }
        assert(l.wf());
        crate::laws::law_lock_clears_at_most_four(l);
        let n = lock_clears(*self);
        let m = lock_clears(l);
        if n > 0 {
            assert(line_points(n) * self.level <= 800 * self.level) by (nonlinear_arith)
                requires line_points(n) <= 800, self.level >= 0;
        }
        if m > 0 {
            assert(line_points(m) * self.level <= 800 * self.level) by (nonlinear_arith)
                requires line_points(m) <= 800, self.level >= 0;
        }
    }

    /// Whether the counters have room for one more move (see `has_room`); a
    /// sufficient test for the exact conditions of the moves that score.
    pub fn room_left(&self) -> (ok: bool)
        ensures
            ok == self.has_room(),
    {
        self.level <= (u32::MAX - 41) / 800 && self.score <= u32::MAX - 41 - 800 * self.level
            && self.lines <= u32::MAX - 4
    }

    /// One gravity step: the piece falls a row, or is locked when it cannot.
    pub fn down(&mut self) -> (fell: bool)
        requires
            old(self).wf(),
            down_room(*old(self)),
        ensures
            final(self).wf(),
            stepped_down(*old(self), *final(self), fell),
    {
        proof { self.lemma_position_bounds(); }
        if self.valid(self.row + 1, self.col, self.rot) {
            self.row = self.row + 1;
            proof { lemma_fits_in_field(grid(self.board), self.piece as int, self.rot as int, self.row as int, self.col as int); }
            true
        } else {
            self.lock();
            false
        }
    }

    /// Drops the piece as far as it falls, two points per row, and locks it.
    pub fn hard_drop(&mut self)
        requires
            old(self).wf(),
            hard_drop_room(*old(self)),
        ensures
            final(self).wf(),
            hard_dropped(*old(self), *final(self)),
    {
        proof { self.lemma_position_bounds(); }
        let ghost pre = *self;
        let ghost land = landing_row(grid(pre.board), pre.piece as int, pre.rot as int, pre.row as int, pre.col as int);
        proof { crate::board::lemma_landing_row(grid(pre.board), pre.piece as int, pre.rot as int, pre.row as int, pre.col as int); }
        while self.valid(self.row + 1, self.col, self.rot)
            invariant
                self.wf(),
                pre.wf(),
                -3 <= self.col < BOARD_W,
                pre.row <= self.row < BOARD_H,
                0 <= pre.row,
                *self == (Game { row: self.row, score: self.score, ..pre }),
                self.score == pre.score + 2 * (self.row - pre.row),
                pre.score + 2 * (land - pre.row) <= u32::MAX,
                self.row <= land,
                landing_row(grid(self.board), self.piece as int, self.rot as int, self.row as int, self.col as int) == land,
            decreases BOARD_H - self.row,
        {
            proof {
                self.lemma_fits_row_bound(self.rot as int, self.row + 1, self.col as int);
                crate::board::lemma_landing_row(grid(self.board), self.piece as int, self.rot as int, self.row + 1, self.col as int);
            }
            self.row = self.row + 1;
            self.score = self.score + 2;
            proof { lemma_fits_in_field(grid(self.board), self.piece as int, self.rot as int, self.row as int, self.col as int); }
        }
        assert(*self == landed(pre));
        self.lock();
    }

    /// A new game: an empty playfield, a fresh bag, the first piece at the
    /// spawn point and the second shown as next, level 1, no score.
    pub fn new() -> (g: Game)
        ensures
            g.wf(),
            grid(g.board) == empty_rows(BOARD_H as int),
            g.rot == 0,
            g.row == 0,
            g.col == SPAWN_COL,
            g.score == 0,
            g.lines == 0,
            g.level == 1,
            !g.game_over,
            !g.score_saved,
            !g.auto_play,
            g.ai_target is None,
            !g.tetris_flash,
            exists|d: Seq<usize>| #[trigger] valid_draws(d) && g.piece == spec_fisher_yates(d)[0]
                && g.next == spec_fisher_yates(d)[1] && g.bag.pieces@ == spec_fisher_yates(d).skip(2),
    {
        let mut bag = Bag::new();
        let ghost p = bag.pieces@;
        let first = bag.next();
        let next = bag.next();
        let mut g = Game {
            board: [[None; BOARD_W]; BOARD_H],
            piece: first,
            rot: 0,
            row: 0,
            col: 0,
            next,
            bag,
            score: 0,
            lines: 0,
            level: 1,
            game_over: false,
            score_saved: false,
            auto_play: false,
            ai_target: None,
            tetris_flash: false,
        };
        g.col = BOARD_W as i32 / 2 - 1;
        proof {
            let d = choose|d: Seq<usize>| #[trigger] valid_draws(d) && p == spec_fisher_yates(d);
            assert(g.bag.pieces@ =~= p.skip(2));
            assert(grid(g.board) =~= empty_rows(BOARD_H as int)) by {
                assert forall|i: int| 0 <= i < BOARD_H implies #[trigger] grid(g.board)[i] =~= empty_row() by {}
            }
            assert(board_ok(grid(g.board))) by {
                assert forall|i: int| 0 <= i < BOARD_H implies !full_row(#[trigger] grid(g.board)[i]) by {
                    assert(!(grid(g.board)[i][0] is Some));
                }
            }
            assert forall|k: int| 0 <= k < 4 implies cell_free(grid(g.board), #[trigger] cell_of(g.piece as int, 0, 0, SPAWN_COL as int, k)) by {
                lemma_shape_offsets(g.piece as int, 0, k);
            }
            lemma_fits_in_field(grid(g.board), g.piece as int, 0, 0, SPAWN_COL as int);
        }
        g
    }

    /// The delay between gravity steps at the current level, in milliseconds.
    pub fn drop_ms(&self) -> (ms: u64)
        ensures
            ms == drop_delay(self.level as int),
    {
        match self.level {
            1 => 800,
            2 => 720,
            3 => 630,
            4 => 550,
            5 => 470,
            6 => 380,
            7 => 300,
            8 => 220,
            9 => 140,
            _ => 80,
        }
    }

    /// The delay before the next gravity step: a tenth of the level's delay
    /// while a player holds soft drop, the level's delay otherwise.
    pub fn drop_interval(&self, soft_held: bool) -> (ms: u64)
        ensures
            ms == if !self.auto_play && soft_held { drop_delay(self.level as int) / 10 } else { drop_delay(self.level as int) },
    {
        if !self.auto_play && soft_held {
            self.drop_ms() / 10
        } else {
            self.drop_ms()
        }
    }

    /// Carries out a player's request: shift left or right, rotate, soft drop
    /// (one gravity step and one point) or hard drop.
    pub fn apply(&mut self, action: Action)
        requires
            old(self).wf(),
            action_room(*old(self), action),
        ensures
            final(self).wf(),
            match action {
                Action::Left => shifted(*old(self), *final(self), -1),
                Action::Right => shifted(*old(self), *final(self), 1),
                Action::Rotate => rotated(*old(self), *final(self)),
                Action::HardDrop => hard_dropped(*old(self), *final(self)),
                Action::SoftDrop => exists|mid: Game, fell: bool|
                    #[trigger] stepped_down(*old(self), mid, fell) && *final(self) == (Game { score: (mid.score + 1) as u32, ..mid }),
            },
    {
        proof { self.lemma_position_bounds(); }
        match action {
            Action::Left => self.move_lr(-1),
            Action::Right => self.move_lr(1),
            Action::Rotate => self.rotate(),
            Action::HardDrop => self.hard_drop(),
            Action::SoftDrop => {
                let ghost pre = *self;
                let fell = self.down();
                proof { self.lemma_score_after_step(pre, fell); }
                let ghost mid = *self;
                self.score = self.score + 1;
                assert(stepped_down(pre, mid, fell));
            },
        }
    }

    /// After one gravity step the score has grown by at most one clear's points.
    proof fn lemma_score_after_step(&self, pre: Game, fell: bool)
        requires
            pre.wf(),
            soft_drop_room(pre),
            stepped_down(pre, *self, fell),
        ensures
            self.score + 1 <= u32::MAX,
    {
    }

    /// Switches the auto-player on or off; it forgets its target either way.
    pub fn toggle_auto_play(&mut self)
        requires
            old(self).wf(),
        ensures
            final(self).wf(),
            *final(self) == (Game { auto_play: !old(self).auto_play, ai_target: None, ..*old(self) }),
    {
        self.auto_play = !self.auto_play;
        self.ai_target = None;
    }

    /// Records the placement the auto-player is working towards.
    pub fn set_ai_target(&mut self, target: (i32, usize))
        requires
            old(self).wf(),
        ensures
            final(self).wf(),
            *final(self) == (Game { ai_target: Some(target), ..*old(self) }),
    {
        self.ai_target = Some(target);
    }

    /// Notes that the final score has been stored.
    pub fn mark_score_saved(&mut self)
        requires
            old(self).wf(),
        ensures
            final(self).wf(),
            *final(self) == (Game { score_saved: true, ..*old(self) }),
    {
        self.score_saved = true;
    }

    /// Whether a four-row clear is waiting to be shown; the flag is cleared.
    pub fn take_tetris_flash(&mut self) -> (flash: bool)
        requires
            old(self).wf(),
        ensures
            final(self).wf(),
            flash == old(self).tetris_flash,
            *final(self) == (Game { tetris_flash: false, ..*old(self) }),
    {
        let flash = self.tetris_flash;
        self.tetris_flash = false;
        flash
    }

    /// One move of the auto-player towards its target (column, orientation):
    /// rotate until the orientation matches, then shift one column towards the
    /// target column, then hard-drop. Without a target nothing happens.
    pub fn ai_step(&mut self)
        requires
            old(self).wf(),
            ai_step_room(*old(self)),
        ensures
            final(self).wf(),
            match old(self).ai_target {
                Some((tc, tr)) => if old(self).rot != tr {
                    rotated(*old(self), *final(self))
                } else if old(self).col < tc {
                    shifted(*old(self), *final(self), 1)
                } else if old(self).col > tc {
                    shifted(*old(self), *final(self), -1)
                } else {
                    hard_dropped(*old(self), *final(self))
                },
                None => *final(self) == *old(self),
            },
    {
        proof { self.lemma_position_bounds(); }
        if let Some((target_col, target_rot)) = self.ai_target {
            if self.rot != target_rot {
                self.rotate();
            } else if self.col < target_col {
                self.move_lr(1);
            } else if self.col > target_col {
                self.move_lr(-1);
            } else {
                self.hard_drop();
            }
        }
    }
}

} // verus!
