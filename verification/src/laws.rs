//! Properties of the game that span several operations or calls.
use vstd::prelude::*;
use crate::pieces::{BOARD_H, BOARD_W, PIECE_COUNT, lemma_shape_offsets, shape};
use crate::bag::{is_seven_bag, draw_from, valid_draws, spec_fisher_yates, lemma_fisher_yates_is_bag, shuffle_from, swapped};
use crate::board::{
    grid, full_row, kept_rows, full_row_count, fits, cell_of, covers, placed, landing_row, cleared_grid, lemma_landing_row, empty_rows,
};
use crate::canvas::lemma_div_band;
use crate::game::{Game, drop_delay, shifted, rotated, stepped_down, hard_dropped, locks, line_points, landed, hard_drop_room};

verus! {

/// A freshly shuffled bag holds every one of the seven pieces.
pub proof fn law_seven_bag_holds_every_piece(p: Seq<usize>, piece: usize)
    requires
        is_seven_bag(p),
        piece < PIECE_COUNT,
    ensures
        p.contains(piece),
{
    let all = Set::new(|v: usize| v < PIECE_COUNT);
    assert(all =~= set![0usize, 1, 2, 3, 4, 5, 6]);
    assert(set![0usize, 1, 2, 3, 4, 5, 6].len() == 7) by {
        assert(set![0usize, 1, 2, 3, 4, 5, 6] =~= Set::<usize>::empty().insert(0).insert(1).insert(2).insert(3).insert(4).insert(5).insert(6));
    }
    p.unique_seq_to_set();
    assert(p.to_set().subset_of(all));
    vstd::set_lib::lemma_subset_equality(p.to_set(), all);
    assert(all.contains(piece));
    assert(p.to_set().contains(piece));
}

/// The ghost row is a resting place the piece can reach: it is at or below
/// the piece, the piece fits on every row down to it, and not one row lower.
pub proof fn law_ghost_is_resting_place(g: Game)
    requires
        g.wf(),
        !g.game_over,
    ensures
        ({
            let land = landing_row(grid(g.board), g.piece as int, g.rot as int, g.row as int, g.col as int);
            &&& g.row <= land < BOARD_H
            &&& forall|r: int| g.row <= r <= land ==> fits(grid(g.board), g.piece as int, g.rot as int, r, g.col as int)
            &&& !fits(grid(g.board), g.piece as int, g.rot as int, land + 1, g.col as int)
        }),
{
    g.lemma_position_bounds();
    lemma_falls_through(grid(g.board), g.piece as int, g.rot as int, g.row as int, g.col as int);
    let land = landing_row(grid(g.board), g.piece as int, g.rot as int, g.row as int, g.col as int);
    lemma_landing_row(grid(g.board), g.piece as int, g.rot as int, g.row as int, g.col as int);
    g.lemma_fits_row_bound(g.rot as int, land, g.col as int);
}

proof fn lemma_falls_through(gr: Seq<Seq<Option<usize>>>, piece: int, rot: int, r0: int, c: int)
    requires
        fits(gr, piece, rot, r0, c),
    ensures
        forall|r: int| r0 <= r <= landing_row(gr, piece, rot, r0, c) ==> fits(gr, piece, rot, r, c),
    decreases BOARD_H - r0,
{
    if r0 < BOARD_H && fits(gr, piece, rot, r0 + 1, c) {
        lemma_falls_through(gr, piece, rot, r0 + 1, c);
    }
}

/// A hard drop locks the piece exactly on the ghost row: the playfield it
/// leaves is the one with the piece placed at the ghost row and full rows
/// cleared.
pub proof fn law_hard_drop_locks_at_ghost(before: Game, after: Game)
    requires
        before.wf(),
        hard_dropped(before, after),
    ensures
        grid(after.board) == cleared_grid(placed(
            grid(before.board),
            before.piece as int,
            before.rot as int,
            landing_row(grid(before.board), before.piece as int, before.rot as int, before.row as int, before.col as int),
            before.col as int,
            Some(before.piece),
        )),
{
    before.lemma_position_bounds();
    lemma_landing_bound(grid(before.board), before.piece as int, before.rot as int, before.row as int, before.col as int);
}

/// From a row inside the field, the landing row is inside the field too.
pub proof fn lemma_landing_bound(gr: Seq<Seq<Option<usize>>>, piece: int, rot: int, r: int, c: int)
    requires
        0 <= r < BOARD_H,
    ensures
        r <= landing_row(gr, piece, rot, r, c) < BOARD_H,
    decreases BOARD_H - r,
{
    if r < BOARD_H && fits(gr, piece, rot, r + 1, c) {
        lemma_shape_offsets(piece, rot, 0);
        assert(crate::board::cell_free(gr, cell_of(piece, rot, r + 1, c, 0)));
        lemma_landing_bound(gr, piece, rot, r + 1, c);
    }
}

/// Shifting the piece by `d` and then by `-d` brings it back where it was,
/// when the first shift went through.
pub proof fn law_shift_then_back(g: Game, g1: Game, g2: Game, d: int)
    requires
        g.wf(),
        !g.game_over,
        shifted(g, g1, d),
        g1.col == g.col + d,
        shifted(g1, g2, -d),
    ensures
        g2 == g,
{
    if d != 0 {
        assert(g1 == Game { col: (g.col + d) as i32, ..g });
    }
}

/// Higher levels never fall more slowly.
pub proof fn law_drop_delay_never_increases(l1: int, l2: int)
    requires
        1 <= l1 <= l2,
    ensures
        drop_delay(l2) <= drop_delay(l1),
{
}

/// Locking a piece clears at most four rows: only the rows that the piece
/// covers can have become full.
pub proof fn law_lock_clears_at_most_four(g: Game)
    requires
        g.wf(),
    ensures
        full_row_count(placed(grid(g.board), g.piece as int, g.rot as int, g.row as int, g.col as int, Some(g.piece))) <= 4,
{
    let gr = grid(g.board);
    let pc = g.piece as int;
    let rt = g.rot as int;
    let r0 = g.row as int;
    let c0 = g.col as int;
    let p = placed(gr, pc, rt, r0, c0, Some(g.piece));
    assert forall|i: int| 0 <= i < p.len() && full_row(#[trigger] p[i]) implies r0 <= i < r0 + 4 by {
        if !(r0 <= i < r0 + 4) {
            assert forall|j: int| 0 <= j < BOARD_W implies !covers(pc, rt, r0, c0, i, j) by {
                if covers(pc, rt, r0, c0, i, j) {
                    let k = choose|k: int| 0 <= k < 4 && #[trigger] cell_of(pc, rt, r0, c0, k) == (i, j);
                    lemma_shape_offsets(pc, rt, k);
                }
            }
            assert(p[i] =~= gr[i]);
            assert(!full_row(gr[i]));
        }
    }
    lemma_full_rows_in_band(p, r0, r0 + 4);
}

/// When every full row of `s` lies in [lo, hi), there are at most
/// hi - max(lo, 0) of them.
proof fn lemma_full_rows_in_band(s: Seq<Seq<Option<usize>>>, lo: int, hi: int)
    requires
        forall|i: int| 0 <= i < s.len() && full_row(#[trigger] s[i]) ==> lo <= i < hi,
    ensures
        s.len() - kept_rows(s).len() <= if hi - (if lo > 0 { lo } else { 0 }) > 0 { hi - (if lo > 0 { lo } else { 0 }) } else { 0 },
    decreases s.len(),
{
    if s.len() > 0 {
        let rest = s.drop_first();
        assert forall|i: int| 0 <= i < rest.len() && full_row(#[trigger] rest[i]) implies lo - 1 <= i < hi - 1 by {
            assert(s[i + 1] == rest[i]);
        }
        lemma_full_rows_in_band(rest, lo - 1, hi - 1);
    }
}

/// No move takes points, cleared lines or levels away: shifting and
/// rotating leave them as they are, and gravity steps and hard drops only add.
pub proof fn law_counters_never_decrease(before: Game, after: Game, d: int, fell: bool)
    requires
        before.wf(),
    ensures
        shifted(before, after, d) ==> after.score == before.score && after.lines == before.lines && after.level == before.level,
        rotated(before, after) ==> after.score == before.score && after.lines == before.lines && after.level == before.level,
        stepped_down(before, after, fell) ==> after.score >= before.score && after.lines >= before.lines && after.level >= before.level,
        hard_drop_room(before) && hard_dropped(before, after) ==> after.score >= before.score && after.lines >= before.lines
            && after.level >= before.level,
{
    before.lemma_position_bounds();
    if stepped_down(before, after, fell) && !fell {
        lemma_lock_counters(before, after);
    }
    if hard_drop_room(before) && hard_dropped(before, after) {
        lemma_landing_bound(grid(before.board), before.piece as int, before.rot as int, before.row as int, before.col as int);
        let mid = landed(before);
        assert(mid.score >= before.score);
        lemma_lock_counters(mid, after);
    }
}

/// Locking keeps the level at a tenth of the lines plus one, and never takes
/// points, lines or levels away.
pub proof fn law_lock_keeps_level_and_counters(before: Game, after: Game)
    requires
        before.level == before.lines / 10 + 1,
        locks(before, after),
    ensures
        after.level == after.lines / 10 + 1,
        after.score >= before.score,
        after.lines >= before.lines,
        after.level >= before.level,
{
    lemma_lock_counters(before, after);
}

proof fn lemma_lock_counters(before: Game, after: Game)
    requires
        before.level == before.lines / 10 + 1,
        locks(before, after),
    ensures
        after.level == after.lines / 10 + 1,
        after.score >= before.score,
        after.lines >= before.lines,
        after.level >= before.level,
{
    let p = placed(grid(before.board), before.piece as int, before.rot as int, before.row as int, before.col as int, Some(before.piece));
    let n = full_row_count(p);
    crate::board::lemma_kept_rows(p);
    if n > 0 {
        assert(line_points(n) * before.level >= 0) by (nonlinear_arith)
            requires line_points(n) >= 0, before.level >= 0;
        assert(after.lines / 10 >= before.lines / 10) by (nonlinear_arith)
            requires after.lines >= before.lines, before.lines >= 0;
    }
}

/// Locking a piece of a valid kind into a playfield of valid blocks leaves a
/// playfield of valid blocks with no full row, wherever the piece is.
pub proof fn law_lock_leaves_no_full_row(before: Game, after: Game)
    requires
        before.piece < PIECE_COUNT,
        crate::board::cells_ok(grid(before.board)),
        locks(before, after),
    ensures
        crate::board::board_ok(grid(after.board)),
{
    let gr = grid(before.board);
    let p = placed(gr, before.piece as int, before.rot as int, before.row as int, before.col as int, Some(before.piece));
    assert forall|i: int| 0 <= i < p.len() implies crate::board::row_ok(#[trigger] p[i]) by {
        assert(crate::board::row_ok(gr[i]));
    }
    crate::board::lemma_cleared_ok(p);
}

/// Draw `k` of a run: from bag `states[k]` to bag `states[k + 1]`, dealing `drawn[k]`.
pub open spec fn draw_step(states: Seq<Seq<usize>>, drawn: Seq<usize>, k: int) -> bool {
    draw_from(states[k], states[k + 1], drawn[k])
}

/// Seven draws that start on an empty or a freshly filled bag deal every
/// piece exactly once, and leave the bag empty, so the next seven draws
/// start on an empty bag again.
pub proof fn law_seven_draws_deal_every_piece(states: Seq<Seq<usize>>, drawn: Seq<usize>)
    requires
        states.len() == PIECE_COUNT + 1,
        drawn.len() == PIECE_COUNT,
        states[0].len() == 0 || is_seven_bag(states[0]),
        forall|k: int| 0 <= k < PIECE_COUNT ==> #[trigger] draw_step(states, drawn, k),
    ensures
        is_seven_bag(drawn),
        forall|piece: usize| piece < PIECE_COUNT ==> drawn.contains(piece),
        states[PIECE_COUNT as int].len() == 0,
{
    let p = if states[0].len() == 0 {
        assert(draw_step(states, drawn, 0));
        let d = choose|d: Seq<usize>| #[trigger] valid_draws(d) && drawn[0] == spec_fisher_yates(d)[0]
            && states[1] == spec_fisher_yates(d).drop_first();
        lemma_fisher_yates_is_bag(d);
        spec_fisher_yates(d)
    } else {
        assert(draw_step(states, drawn, 0));
        states[0]
    };
    assert(states[1] =~= p.skip(1));
    lemma_draws_follow(states, drawn, p, PIECE_COUNT as int);
    assert(drawn =~= p);
    assert forall|piece: usize| piece < PIECE_COUNT implies drawn.contains(piece) by {
        law_seven_bag_holds_every_piece(drawn, piece);
    }
}

/// After the first draw took p[0], the following draws take p[1], p[2], ...
proof fn lemma_draws_follow(states: Seq<Seq<usize>>, drawn: Seq<usize>, p: Seq<usize>, k: int)
    requires
        1 <= k <= PIECE_COUNT,
        states.len() == PIECE_COUNT + 1,
        drawn.len() == PIECE_COUNT,
        p.len() == PIECE_COUNT,
        drawn[0] == p[0],
        states[1] == p.skip(1),
        forall|m: int| 0 <= m < PIECE_COUNT ==> #[trigger] draw_step(states, drawn, m),
    ensures
        forall|m: int| 0 <= m < k ==> drawn[m] == p[m],
        states[k] == p.skip(k),
    decreases k,
{
    if k > 1 {
        lemma_draws_follow(states, drawn, p, k - 1);
        assert(draw_step(states, drawn, k - 1));
        assert(states[k - 1].len() > 0);
        assert(p.skip(k - 1).drop_first() =~= p.skip(k));
    }
}

/// Upper-case form of an ASCII letter; other characters stay as they are.
pub open spec fn ascii_upper(ch: char) -> char {
    if 'a' <= ch <= 'z' { ((ch as u32) - 32) as char } else { ch }
}

/// A lower-case letter draws exactly as its capital: same glyph, same pixels.
pub proof fn law_lowercase_draws_as_capital(ch: char, x: int, y: int, s: int, px: int, py: int)
    requires
        'a' <= ch <= 'z',
    ensures
        crate::font::glyph_rows(ch) == crate::font::glyph_rows(ascii_upper(ch)),
        crate::font::char_covers(ch, x, y, s, px, py) == crate::font::char_covers(ascii_upper(ch), x, y, s, px, py),
{
    lemma_lower_glyph(ch);
}

proof fn lemma_lower_glyph(ch: char)
    requires
        'a' <= ch <= 'z',
    ensures
        crate::font::glyph_rows(ch) == crate::font::glyph_rows(ascii_upper(ch)),
{
    let c = ch as u32;
    if false {
    } else if c == 97 {
        assert(ascii_upper(ch) == 'A');
    } else if c == 98 {
        assert(ascii_upper(ch) == 'B');
    } else if c == 99 {
        assert(ascii_upper(ch) == 'C');
    } else if c == 100 {
        assert(ascii_upper(ch) == 'D');
    } else if c == 101 {
        assert(ascii_upper(ch) == 'E');
    } else if c == 102 {
        assert(ascii_upper(ch) == 'F');
    } else if c == 103 {
        assert(ascii_upper(ch) == 'G');
    } else if c == 104 {
        assert(ascii_upper(ch) == 'H');
    } else if c == 105 {
        assert(ascii_upper(ch) == 'I');
    } else if c == 106 {
        assert(ascii_upper(ch) == 'J');
    } else if c == 107 {
        assert(ascii_upper(ch) == 'K');
    } else if c == 108 {
        assert(ascii_upper(ch) == 'L');
    } else if c == 109 {
        assert(ascii_upper(ch) == 'M');
    } else if c == 110 {
        assert(ascii_upper(ch) == 'N');
    } else if c == 111 {
        assert(ascii_upper(ch) == 'O');
    } else if c == 112 {
        assert(ascii_upper(ch) == 'P');
    } else if c == 113 {
        assert(ascii_upper(ch) == 'Q');
    } else if c == 114 {
        assert(ascii_upper(ch) == 'R');
    } else if c == 115 {
        assert(ascii_upper(ch) == 'S');
    } else if c == 116 {
        assert(ascii_upper(ch) == 'T');
    } else if c == 117 {
        assert(ascii_upper(ch) == 'U');
    } else if c == 118 {
        assert(ascii_upper(ch) == 'V');
    } else if c == 119 {
        assert(ascii_upper(ch) == 'W');
    } else if c == 120 {
        assert(ascii_upper(ch) == 'X');
    } else if c == 121 {
        assert(ascii_upper(ch) == 'Y');
    } else if c == 122 {
        assert(ascii_upper(ch) == 'Z');
    }
}

/// Drawing `a` followed by `b` lights what drawing `a` lights and what
/// drawing `b` from the slot after `a` lights, and nothing else.
pub proof fn law_text_splits(a: Seq<char>, b: Seq<char>, x: int, y: int, s: int, px: int, py: int)
    ensures
        crate::font::text_covers(a + b, x, y, s, px, py) == (crate::font::text_covers(a, x, y, s, px, py)
            || crate::font::text_covers(b, x + 6 * s * a.len(), y, s, px, py)),
{
    if s > 0 && x <= px {
        let w = 6 * s;
        let d = px - x;
        let la = a.len() as int;
        let k = d / w;
        lemma_div_band(d, w, k);
        assert(w * la >= 0) by (nonlinear_arith) requires w > 0, la >= 0;
        assert(6 * s * a.len() == w * la);
        if k < la {
            assert(d < w * la) by (nonlinear_arith) requires k < la, d < k * w + w, w > 0;
            assert((a + b)[k] == a[k]);
        } else {
            assert(d >= w * la) by (nonlinear_arith) requires k >= la, k * w <= d, w > 0;
            let d2 = d - w * la;
            assert((k - la) * w <= d2 < (k - la) * w + w) by (nonlinear_arith)
                requires k * w <= d < k * w + w, d2 == d - w * la;
            lemma_div_band(d2, w, k - la);
            assert(px - (x + w * la) == d2);
            if k < la + b.len() {
                assert((a + b)[k] == b[k - la]);
            }
            assert(x + k * w == x + w * la + (k - la) * w) by (nonlinear_arith);
        }
    } else if s > 0 {
        assert(6 * s * a.len() >= 0) by (nonlinear_arith) requires s > 0;
    }
}

/// Drawing no text lights nothing, and drawing one character lights what
/// drawing that character does.
pub proof fn law_text_of_one_char(c: char, x: int, y: int, s: int, px: int, py: int)
    ensures
        !crate::font::text_covers(Seq::<char>::empty(), x, y, s, px, py),
        crate::font::text_covers(seq![c], x, y, s, px, py) == crate::font::char_covers(c, x, y, s, px, py),
{
    if s > 0 && x <= px {
        let w = 6 * s;
        let d = px - x;
        lemma_div_band(d, w, 0);
        lemma_div_band(d, s, d / s);
        if crate::font::char_covers(c, x, y, s, px, py) {
            assert(d < 5 * s) by (nonlinear_arith) requires d / s < 5, d / s * s <= d < d / s * s + s, s > 0;
        }
        lemma_div_band(d, w, d / w);
        assert(d / w >= 0) by (nonlinear_arith) requires d >= 0, w > 0, d / w * w <= d < d / w * w + w;
    }
}

/// Rotation tries the column offsets 0, +1, -1, +2, -2 in that order: the
/// piece turns a quarter (to the next orientation) at the first offset where
/// it fits, and nothing changes when it fits at none.
pub proof fn law_rotation_kicks(before: Game, after: Game)
    requires
        rotated(before, after),
    ensures
        ({
            let g = grid(before.board);
            let (p, nr, r, c) = (before.piece as int, (before.rot + 1) % 4, before.row as int, before.col as int);
            let turned = |dc: int| after == Game { rot: nr as usize, col: (c + dc) as i32, ..before };
            &&& fits(g, p, nr, r, c) ==> turned(0)
            &&& !fits(g, p, nr, r, c) && fits(g, p, nr, r, c + 1) ==> turned(1)
            &&& !fits(g, p, nr, r, c) && !fits(g, p, nr, r, c + 1) && fits(g, p, nr, r, c - 1) ==> turned(-1)
            &&& !fits(g, p, nr, r, c) && !fits(g, p, nr, r, c + 1) && !fits(g, p, nr, r, c - 1)
                && fits(g, p, nr, r, c + 2) ==> turned(2)
            &&& !fits(g, p, nr, r, c) && !fits(g, p, nr, r, c + 1) && !fits(g, p, nr, r, c - 1)
                && !fits(g, p, nr, r, c + 2) && fits(g, p, nr, r, c - 2) ==> turned(-2)
            &&& !fits(g, p, nr, r, c) && !fits(g, p, nr, r, c + 1) && !fits(g, p, nr, r, c - 1)
                && !fits(g, p, nr, r, c + 2) && !fits(g, p, nr, r, c - 2) ==> after == before
        }),
{
}

/// The height of a column is 20 minus the row of its topmost block, or 0
/// when the column is empty.
pub proof fn law_column_height(g: Seq<Seq<Option<usize>>>, c: int)
    ensures
        (forall|r: int| 0 <= r < BOARD_H ==> !(#[trigger] g[r][c] is Some)) ==> crate::ai::height_from(g, c, 0) == 0,
        forall|top: int| 0 <= top < BOARD_H && g[top][c] is Some && (forall|r: int| 0 <= r < top ==> !(#[trigger] g[r][c] is Some))
            ==> crate::ai::height_from(g, c, 0) == BOARD_H - top,
{
    lemma_height_scan(g, c, 0);
}

proof fn lemma_height_scan(g: Seq<Seq<Option<usize>>>, c: int, from: int)
    requires
        0 <= from <= BOARD_H,
    ensures
        (forall|r: int| from <= r < BOARD_H ==> !(#[trigger] g[r][c] is Some)) ==> crate::ai::height_from(g, c, from) == 0,
        forall|top: int| from <= top < BOARD_H && g[top][c] is Some && (forall|r: int| from <= r < top ==> !(#[trigger] g[r][c] is Some))
            ==> crate::ai::height_from(g, c, from) == BOARD_H - top,
    decreases BOARD_H - from,
{
    if from < BOARD_H {
        lemma_height_scan(g, c, from + 1);
        assert forall|top: int| from <= top < BOARD_H && g[top][c] is Some && (forall|r: int| from <= r < top ==> !(#[trigger] g[r][c] is Some))
            implies crate::ai::height_from(g, c, from) == BOARD_H - top by {
            if top > from {
                assert(!(g[from][c] is Some));
            }
        }
    }
}

/// |a - b|.
#[verifier::opaque]
pub open spec fn abs_diff(a: int, b: int) -> int {
    if a < b { b - a } else { a - b }
}

/// The bumpiness the auto-player weighs is the sum, over all nine pairs of
/// neighbouring columns, of the difference of their heights.
pub proof fn law_bumpiness_sums_all_neighbour_pairs(g: Seq<Seq<Option<usize>>>)
    ensures
        ({
            let h = |c: int| crate::ai::height_from(g, c, 0);
            crate::ai::spec_features(g).bumpiness as int == abs_diff(h(0), h(1)) + abs_diff(h(1), h(2)) + abs_diff(h(2), h(3))
                + abs_diff(h(3), h(4)) + abs_diff(h(4), h(5)) + abs_diff(h(5), h(6)) + abs_diff(h(6), h(7))
                + abs_diff(h(7), h(8)) + abs_diff(h(8), h(9))
        }),
{
    let hs = crate::ai::heights(g);
    assert forall|c: int| 0 <= c < BOARD_W implies 0 <= #[trigger] hs[c] <= BOARD_H by {
        crate::ai::lemma_height_bound(g, c, 0);
    }
    lemma_bumps_of_ten(hs);
    assert(hs[0] == crate::ai::height_from(g, 0, 0) && hs[9] == crate::ai::height_from(g, 9, 0));
    assert(crate::ai::spec_features(g).bumpiness == crate::ai::bumps_first(hs, BOARD_W as int) as i32);
}

proof fn lemma_abs_diff_bound(a: int, b: int)
    requires
        0 <= a <= BOARD_H,
        0 <= b <= BOARD_H,
    ensures
        0 <= abs_diff(a, b) <= BOARD_H,
{
    reveal(abs_diff);
}

proof fn lemma_bumps_step(hs: Seq<int>, n: int)
    requires
        2 <= n,
    ensures
        crate::ai::bumps_first(hs, n) == crate::ai::bumps_first(hs, n - 1) + abs_diff(hs[n - 2], hs[n - 1]),
{
    reveal(abs_diff);
}

#[verifier::spinoff_prover]
#[verifier::rlimit(40)]
proof fn lemma_bumps_of_ten(hs: Seq<int>)
    requires
        hs.len() == BOARD_W,
        forall|c: int| 0 <= c < BOARD_W ==> 0 <= #[trigger] hs[c] <= BOARD_H,
    ensures
        crate::ai::bumps_first(hs, 10) == abs_diff(hs[0], hs[1]) + abs_diff(hs[1], hs[2]) + abs_diff(hs[2], hs[3])
            + abs_diff(hs[3], hs[4]) + abs_diff(hs[4], hs[5]) + abs_diff(hs[5], hs[6]) + abs_diff(hs[6], hs[7])
            + abs_diff(hs[7], hs[8]) + abs_diff(hs[8], hs[9]),
        0 <= crate::ai::bumps_first(hs, 10) <= 9 * BOARD_H,
{
    assert(crate::ai::bumps_first(hs, 1) == 0);
    lemma_abs_diff_bound(hs[0], hs[1]);
    lemma_abs_diff_bound(hs[1], hs[2]);
    lemma_abs_diff_bound(hs[2], hs[3]);
    lemma_abs_diff_bound(hs[3], hs[4]);
    lemma_abs_diff_bound(hs[4], hs[5]);
    lemma_abs_diff_bound(hs[5], hs[6]);
    lemma_abs_diff_bound(hs[6], hs[7]);
    lemma_abs_diff_bound(hs[7], hs[8]);
    lemma_abs_diff_bound(hs[8], hs[9]);
    lemma_bumps_step(hs, 2);
    lemma_bumps_step(hs, 3);
    lemma_bumps_step(hs, 4);
    lemma_bumps_step(hs, 5);
    lemma_bumps_step(hs, 6);
    lemma_bumps_step(hs, 7);
    lemma_bumps_step(hs, 8);
    lemma_bumps_step(hs, 9);
    lemma_bumps_step(hs, 10);
}

/// One of the four cells of `t` is `rc`.
pub open spec fn among_four(t: Seq<(int, int)>, rc: (int, int)) -> bool {
    t[0] == rc || t[1] == rc || t[2] == rc || t[3] == rc
}

/// The four cells of `t` are pairwise different.
pub open spec fn four_distinct(t: Seq<(int, int)>) -> bool {
    &&& t[0] != t[1] && t[0] != t[2] && t[0] != t[3]
    &&& t[1] != t[2] && t[1] != t[3]
    &&& t[2] != t[3]
}

/// Some cell of `t` lies in row 0 and some cell in column 0, and none above or left of them.
pub open spec fn starts_at_origin(t: Seq<(int, int)>) -> bool {
    &&& t[0].0 == 0 || t[1].0 == 0 || t[2].0 == 0 || t[3].0 == 0
    &&& t[0].1 == 0 || t[1].1 == 0 || t[2].1 == 0 || t[3].1 == 0
    &&& t[0].0 >= 0 && t[1].0 >= 0 && t[2].0 >= 0 && t[3].0 >= 0
    &&& t[0].1 >= 0 && t[1].1 >= 0 && t[2].1 >= 0 && t[3].1 >= 0
}

/// The largest column offset among the four cells of `t`.
pub open spec fn max_col(t: Seq<(int, int)>) -> int {
    let a = if t[0].1 > t[1].1 { t[0].1 } else { t[1].1 };
    let b = if t[2].1 > t[3].1 { t[2].1 } else { t[3].1 };
    if a > b { a } else { b }
}

/// The cell (`rc.0`, `rc.1`) of a shape `w + 1` columns wide after a quarter
/// turn counter-clockwise, moved back so that the shape starts at row 0.
pub open spec fn quarter_turn(rc: (int, int), w: int) -> (int, int) {
    (w - rc.1, rc.0)
}

/// Every piece has four different cells, and each orientation is the
/// previous one turned a quarter counter-clockwise (up to a shift): turning
/// the cells of orientation `rot` gives exactly the cells of orientation
/// `rot + 1` (mod 4). So every orientation of a piece is the same piece, never
/// its mirror image.
pub proof fn law_orientations_are_quarter_turns(piece: int, rot: int)
    requires
        0 <= piece < PIECE_COUNT,
        0 <= rot < 4,
    ensures
        four_distinct(shape(piece, rot)),
        starts_at_origin(shape(piece, rot)),
        forall|k: int| 0 <= k < 4 ==> among_four(shape(piece, (rot + 1) % 4),
            quarter_turn(#[trigger] shape(piece, rot)[k], max_col(shape(piece, rot)))),
{
    let s = shape(piece, rot);
    let t = shape(piece, (rot + 1) % 4);
    let w = max_col(s);
    assert(among_four(t, quarter_turn(s[0], w)));
    assert(among_four(t, quarter_turn(s[1], w)));
    assert(among_four(t, quarter_turn(s[2], w)));
    assert(among_four(t, quarter_turn(s[3], w)));
}

/// The seven pieces are seven different tetrominoes: no orientation of one
/// piece has the cells of any orientation of another (orientations all start
/// at row 0 and column 0, so equal cells would mean the same shape).
pub proof fn law_pieces_are_different(p: int, q: int, a: int, b: int)
    requires
        0 <= p < PIECE_COUNT,
        0 <= q < PIECE_COUNT,
        p != q,
        0 <= a < 4,
        0 <= b < 4,
    ensures
        !(among_four(shape(q, b), shape(p, a)[0]) && among_four(shape(q, b), shape(p, a)[1])
            && among_four(shape(q, b), shape(p, a)[2]) && among_four(shape(q, b), shape(p, a)[3])),
{
}

/// The seven rows of a glyph read as one number, five bits per row.
pub open spec fn glyph_code(rows: Seq<u8>) -> int {
    rows[0] + 32 * rows[1] + 1024 * rows[2] + 32768 * rows[3] + 1048576 * rows[4] + 33554432 * rows[5]
        + 1073741824 * rows[6]
}

/// The character whose glyph has code `n`, for the codes of the font (and a
/// space otherwise).
spec fn char_of_code(n: int) -> char {
    if n == 15629733422 { '0' }
    else if n == 15170933124 { '1' }
    else if n == 33831454254 { '2' }
    else if n == 15604057646 { '3' }
    else if n == 2247698626 { '4' }
    else if n == 15603923487 { '5' }
    else if n == 15621636358 { '6' }
    else if n == 8866891839 { '7' }
    else if n == 15621113390 { '8' }
    else if n == 12953568814 { '9' }
    else if n == 18842895918 { 'A' }
    else if n == 32801506878 { 'B' }
    else if n == 15620129326 { 'C' }
    else if n == 32801080894 { 'D' }
    else if n == 33840644639 { 'E' }
    else if n == 17734517279 { 'F' }
    else if n == 15621407278 { 'G' }
    else if n == 18842895921 { 'H' }
    else if n == 15170932878 { 'I' }
    else if n == 13491046471 { 'J' }
    else if n == 18879369809 { 'K' }
    else if n == 33840185872 { 'L' }
    else if n == 18842572657 { 'M' }
    else if n == 18842507057 { 'N' }
    else if n == 15621211694 { 'O' }
    else if n == 17734518334 { 'P' }
    else if n == 14585218606 { 'Q' }
    else if n == 18879563326 { 'R' }
    else if n == 15604335150 { 'S' }
    else if n == 4433514655 { 'T' }
    else if n == 15621211697 { 'U' }
    else if n == 4648912433 { 'V' }
    else if n == 11464787505 { 'W' }
    else if n == 18834663985 { 'X' }
    else if n == 4433521201 { 'Y' }
    else if n == 33831389247 { 'Z' }
    else if n == 0 { ' ' }
    else if n == 138416256 { ':' }
    else if n == 17456826433 { '/' }
    else if n == 2290622594 { '<' }
    else if n == 8726284424 { '>' }
    else if n == 32537600 { '=' }
    else if n == 1015808 { '-' }
    else if n == 4299296900 { '!' }
    else if n == 4294967296 { '.' }
    else { ' ' }
}

#[verifier::spinoff_prover]
#[verifier::rlimit(80)]
proof fn lemma_glyph_decodes(c: char)
    requires
        crate::font::glyph_rows(c) is Some,
    ensures
        char_of_code(glyph_code(crate::font::glyph_rows(c).unwrap())) == ascii_upper(c),
{
}

/// No two characters of the font share a glyph, apart from a lower-case
/// letter and its capital: equal glyphs mean the same character up to case.
pub proof fn law_glyphs_are_distinct(a: char, b: char)
    requires
        crate::font::glyph_rows(a) is Some,
        crate::font::glyph_rows(a) == crate::font::glyph_rows(b),
    ensures
        ascii_upper(a) == ascii_upper(b),
{
    lemma_glyph_decodes(a);
    lemma_glyph_decodes(b);
}

/// Completes the draws `d` from draw `k` on so that the remaining swaps turn
/// `s` into `p`: each draw picks the place where the piece that `p` wants at
/// the next position to settle currently sits.
proof fn lemma_draws_reach(s: Seq<usize>, p: Seq<usize>, d: Seq<usize>, k: int) -> (e: Seq<usize>)
    requires
        0 <= k <= PIECE_COUNT - 1,
        s.len() == PIECE_COUNT,
        s.no_duplicates(),
        forall|v: usize| v < PIECE_COUNT ==> #[trigger] s.contains(v),
        is_seven_bag(p),
        forall|j: int| PIECE_COUNT - k <= j < PIECE_COUNT ==> #[trigger] s[j] == p[j],
        d.len() == PIECE_COUNT - 1,
        forall|m: int| 0 <= m < k ==> #[trigger] d[m] <= PIECE_COUNT - 1 - m,
    ensures
        valid_draws(e),
        shuffle_from(s, e, k) == p,
        forall|m: int| 0 <= m < k ==> #[trigger] e[m] == d[m],
    decreases PIECE_COUNT - 1 - k,
{
    let pos = PIECE_COUNT - 1 - k;
    let v = p[pos];
    assert(s.contains(v));
    let j = choose|j: int| 0 <= j < s.len() && s[j] == v;
    if j > pos {
        assert(s[j] == p[j]);
        assert(false);
    }
    if k == PIECE_COUNT - 1 {
        assert(p =~= s) by {
            assert forall|i: int| 0 <= i < PIECE_COUNT implies #[trigger] p[i] == s[i] by {
                if i >= 1 {
                    assert(s[i] == p[i]);
                }
            }
        }
        d
    } else {
        let ju: usize = j as usize;
        let d1 = d.update(k, ju);
        let s1 = swapped(s, pos, j);
        assert(s1.no_duplicates()) by {
            assert forall|a: int, b: int| 0 <= a < s1.len() && 0 <= b < s1.len() && a != b implies s1[a] != s1[b] by {
                let sa = if a == j { pos } else if a == pos { j } else { a };
                let sb = if b == j { pos } else if b == pos { j } else { b };
                assert(s1[a] == s[sa]);
                assert(s1[b] == s[sb]);
            }
        }
        assert forall|w: usize| w < PIECE_COUNT implies #[trigger] s1.contains(w) by {
            assert(s.contains(w));
            let i = choose|i: int| 0 <= i < s.len() && s[i] == w;
            let t = if i == j { pos } else if i == pos { j } else { i };
            assert(s1[t] == w);
        }
        assert forall|i: int| PIECE_COUNT - (k + 1) <= i < PIECE_COUNT implies #[trigger] s1[i] == p[i] by {
            if i > pos {
                assert(s[i] == p[i]);
            }
        }
        assert forall|m: int| 0 <= m < k + 1 implies #[trigger] d1[m] <= PIECE_COUNT - 1 - m by {
            if m < k {
                assert(d1[m] == d[m]);
            }
        }
        let e = lemma_draws_reach(s1, p, d1, k + 1);
        assert(e[k] == d1[k]);
        assert(forall|m: int| 0 <= m < k ==> #[trigger] e[m] == d1[m] && d1[m] == d[m]);
        e
    }
}

/// Every order of the seven pieces can come out of a shuffle: whatever full
/// bag `p` is named, some admissible draws select exactly it.
pub proof fn law_every_order_can_be_dealt(p: Seq<usize>)
    requires
        is_seven_bag(p),
    ensures
        exists|d: Seq<usize>| #[trigger] valid_draws(d) && spec_fisher_yates(d) == p,
{
    let s = seq![0usize, 1, 2, 3, 4, 5, 6];
    assert(s.no_duplicates());
    assert forall|v: usize| v < PIECE_COUNT implies #[trigger] s.contains(v) by {
        assert(s[v as int] == v);
    }
    let e = lemma_draws_reach(s, p, seq![0usize, 0, 0, 0, 0, 0], 0);
    assert(spec_fisher_yates(e) == p);
}

/// The blocks of column `c` from row `r` down.
pub open spec fn blocks_below(g: Seq<Seq<Option<usize>>>, c: int, r: int) -> int
    decreases BOARD_H - r,
{
    if r >= BOARD_H {
        0
    } else {
        (if g[r][c] is Some { 1int } else { 0 }) + blocks_below(g, c, r + 1)
    }
}

/// Scanning a column from row `r` down counts as holes every empty cell once
/// a block has been met: all empty cells when one was met above `r`, and
/// otherwise those under the topmost block, its height less its blocks.
proof fn lemma_holes_are_height_less_blocks(g: Seq<Seq<Option<usize>>>, c: int, r: int)
    requires
        0 <= r <= BOARD_H,
    ensures
        crate::ai::holes_from(g, c, r, true) == (BOARD_H - r) - blocks_below(g, c, r),
        crate::ai::holes_from(g, c, r, false) == crate::ai::height_from(g, c, r) - blocks_below(g, c, r),
    decreases BOARD_H - r,
{
    if r < BOARD_H {
        lemma_holes_are_height_less_blocks(g, c, r + 1);
    }
}

/// The holes of column `c`: its height less its blocks.
pub open spec fn column_holes(g: Seq<Seq<Option<usize>>>, c: int) -> int {
    crate::ai::height_from(g, c, 0) - blocks_below(g, c, 0)
}

#[verifier::spinoff_prover]
#[verifier::rlimit(40)]
proof fn lemma_sums_of_ten(g: Seq<Seq<Option<usize>>>)
    ensures
        crate::ai::sum_first(crate::ai::heights(g), 10) == crate::ai::height_from(g, 0, 0) + crate::ai::height_from(g, 1, 0)
            + crate::ai::height_from(g, 2, 0) + crate::ai::height_from(g, 3, 0) + crate::ai::height_from(g, 4, 0)
            + crate::ai::height_from(g, 5, 0) + crate::ai::height_from(g, 6, 0) + crate::ai::height_from(g, 7, 0)
            + crate::ai::height_from(g, 8, 0) + crate::ai::height_from(g, 9, 0),
        crate::ai::holes_first(g, 10) == column_holes(g, 0) + column_holes(g, 1) + column_holes(g, 2) + column_holes(g, 3)
            + column_holes(g, 4) + column_holes(g, 5) + column_holes(g, 6) + column_holes(g, 7) + column_holes(g, 8)
            + column_holes(g, 9),
{
    let hs = crate::ai::heights(g);
    assert(crate::ai::sum_first(hs, 0) == 0);
    assert(crate::ai::sum_first(hs, 1) == hs[0]);
    assert(crate::ai::sum_first(hs, 2) == crate::ai::sum_first(hs, 1) + hs[1]);
    assert(crate::ai::sum_first(hs, 3) == crate::ai::sum_first(hs, 2) + hs[2]);
    assert(crate::ai::sum_first(hs, 4) == crate::ai::sum_first(hs, 3) + hs[3]);
    assert(crate::ai::sum_first(hs, 5) == crate::ai::sum_first(hs, 4) + hs[4]);
    assert(crate::ai::sum_first(hs, 6) == crate::ai::sum_first(hs, 5) + hs[5]);
    assert(crate::ai::sum_first(hs, 7) == crate::ai::sum_first(hs, 6) + hs[6]);
    assert(crate::ai::sum_first(hs, 8) == crate::ai::sum_first(hs, 7) + hs[7]);
    assert(crate::ai::sum_first(hs, 9) == crate::ai::sum_first(hs, 8) + hs[8]);
    assert(crate::ai::sum_first(hs, 10) == crate::ai::sum_first(hs, 9) + hs[9]);
    assert forall|k: int| 0 <= k < 10 implies crate::ai::holes_from(g, k, 0, false) == #[trigger] column_holes(g, k) by {
        lemma_holes_are_height_less_blocks(g, k, 0);
    }
    assert(crate::ai::holes_first(g, 0) == 0);
    assert(crate::ai::holes_first(g, 1) == column_holes(g, 0));
    assert(crate::ai::holes_first(g, 2) == crate::ai::holes_first(g, 1) + column_holes(g, 1));
    assert(crate::ai::holes_first(g, 3) == crate::ai::holes_first(g, 2) + column_holes(g, 2));
    assert(crate::ai::holes_first(g, 4) == crate::ai::holes_first(g, 3) + column_holes(g, 3));
    assert(crate::ai::holes_first(g, 5) == crate::ai::holes_first(g, 4) + column_holes(g, 4));
    assert(crate::ai::holes_first(g, 6) == crate::ai::holes_first(g, 5) + column_holes(g, 5));
    assert(crate::ai::holes_first(g, 7) == crate::ai::holes_first(g, 6) + column_holes(g, 6));
    assert(crate::ai::holes_first(g, 8) == crate::ai::holes_first(g, 7) + column_holes(g, 7));
    assert(crate::ai::holes_first(g, 9) == crate::ai::holes_first(g, 8) + column_holes(g, 8));
    assert(crate::ai::holes_first(g, 10) == crate::ai::holes_first(g, 9) + column_holes(g, 9));
}

/// The aggregate height the auto-player weighs is the sum of the heights of
/// all ten columns, and its holes are the holes of all ten columns, where the
/// holes of a column are its empty cells under its topmost block: its height
/// less the number of its blocks.
pub proof fn law_height_and_holes_cover_all_columns(g: Seq<Seq<Option<usize>>>)
    ensures
        ({
            let h = |c: int| crate::ai::height_from(g, c, 0);
            crate::ai::spec_features(g).agg_height as int == h(0) + h(1) + h(2) + h(3) + h(4) + h(5) + h(6) + h(7) + h(8) + h(9)
        }),
        crate::ai::spec_features(g).holes as int == column_holes(g, 0) + column_holes(g, 1) + column_holes(g, 2)
            + column_holes(g, 3) + column_holes(g, 4) + column_holes(g, 5) + column_holes(g, 6) + column_holes(g, 7)
            + column_holes(g, 8) + column_holes(g, 9),
{
    lemma_sums_of_ten(g);
    assert forall|k: int| 0 <= k < 10 implies 0 <= #[trigger] crate::ai::height_from(g, k, 0) <= BOARD_H
        && 0 <= column_holes(g, k) <= BOARD_H by {
        crate::ai::lemma_height_bound(g, k, 0);
        lemma_holes_are_height_less_blocks(g, k, 0);
        crate::ai::lemma_holes_bound(g, k, 0, false);
    }
    assert(0 <= crate::ai::height_from(g, 9, 0) && 0 <= column_holes(g, 9));
    assert(0 <= crate::ai::height_from(g, 0, 0) && 0 <= column_holes(g, 0));
}

/// Appending a row to a playfield keeps one more row exactly when the new row
/// is not full.
proof fn lemma_kept_rows_push(s: Seq<Seq<Option<usize>>>, x: Seq<Option<usize>>)
    ensures
        kept_rows(s.push(x)).len() == kept_rows(s).len() + if full_row(x) { 0int } else { 1 },
        kept_rows(s).len() <= s.len(),
    decreases s.len(),
{
    if s.len() == 0 {
        assert(s.push(x).drop_first() =~= s);
    } else {
        assert(s.push(x).drop_first() =~= s.drop_first().push(x));
        assert(s.push(x)[0] == s[0]);
        lemma_kept_rows_push(s.drop_first(), x);
    }
}

proof fn lemma_full_rows_counted(g: Seq<Seq<Option<usize>>>, n: int)
    requires
        0 <= n <= g.len(),
    ensures
        crate::ai::full_rows_first(g, n) == n - kept_rows(g.take(n)).len(),
        0 <= crate::ai::full_rows_first(g, n) <= n,
    decreases n,
{
    if n == 0 {
        assert(g.take(0).len() == 0);
    } else {
        lemma_full_rows_counted(g, n - 1);
        assert(g.take(n) =~= g.take(n - 1).push(g[n - 1]));
        lemma_kept_rows_push(g.take(n - 1), g[n - 1]);
        lemma_kept_rows_push(g.take(n), g[n - 1]);
    }
}

/// The complete lines the auto-player weighs are exactly the full rows that
/// locking would clear from the same playfield.
pub proof fn law_complete_lines_are_the_rows_a_lock_clears(g: Seq<Seq<Option<usize>>>)
    requires
        g.len() == BOARD_H,
    ensures
        crate::ai::spec_features(g).complete_lines as int == full_row_count(g),
{
    lemma_full_rows_counted(g, BOARD_H as int);
    assert(g.take(BOARD_H as int) =~= g);
}

/// 1 when `a` is at most `b`, else 0.
pub open spec fn at_most(a: int, b: int) -> int {
    if a <= b { 1 } else { 0 }
}

proof fn lemma_before_first_index(s: Seq<int>, v: int, i: int)
    requires
        0 <= i <= s.len(),
    ensures
        forall|k: int| i <= k < crate::ai::first_index_from(s, v, i) ==> #[trigger] s[k] != v,
    decreases s.len() - i,
{
    if i < s.len() && s[i] != v {
        lemma_before_first_index(s, v, i + 1);
    }
}

#[verifier::spinoff_prover]
#[verifier::rlimit(40)]
proof fn lemma_count_of_ten(s: Seq<int>, v: int)
    ensures
        crate::ai::count_at_most(s, v, 10) == at_most(s[0], v) + at_most(s[1], v) + at_most(s[2], v) + at_most(s[3], v)
            + at_most(s[4], v) + at_most(s[5], v) + at_most(s[6], v) + at_most(s[7], v) + at_most(s[8], v)
            + at_most(s[9], v),
{
    assert(crate::ai::count_at_most(s, v, 0) == 0);
    assert(crate::ai::count_at_most(s, v, 1) == at_most(s[0], v));
    assert(crate::ai::count_at_most(s, v, 2) == crate::ai::count_at_most(s, v, 1) + at_most(s[1], v));
    assert(crate::ai::count_at_most(s, v, 3) == crate::ai::count_at_most(s, v, 2) + at_most(s[2], v));
    assert(crate::ai::count_at_most(s, v, 4) == crate::ai::count_at_most(s, v, 3) + at_most(s[3], v));
    assert(crate::ai::count_at_most(s, v, 5) == crate::ai::count_at_most(s, v, 4) + at_most(s[4], v));
    assert(crate::ai::count_at_most(s, v, 6) == crate::ai::count_at_most(s, v, 5) + at_most(s[5], v));
    assert(crate::ai::count_at_most(s, v, 7) == crate::ai::count_at_most(s, v, 6) + at_most(s[6], v));
    assert(crate::ai::count_at_most(s, v, 8) == crate::ai::count_at_most(s, v, 7) + at_most(s[7], v));
    assert(crate::ai::count_at_most(s, v, 9) == crate::ai::count_at_most(s, v, 8) + at_most(s[8], v));
    assert(crate::ai::count_at_most(s, v, 10) == crate::ai::count_at_most(s, v, 9) + at_most(s[9], v));
}

/// Given the lowest height `m` of the ten columns: the low count is the number
/// of columns at most one above `m`, and there is a well depth exactly when
/// the board has no holes and the first lowest column is an edge column (the
/// left one, or else the right one with no lowest column before it); it is
/// how far that column's neighbour rises above `m`.
pub proof fn law_lowest_columns(g: Seq<Seq<Option<usize>>>, m: int)
    requires
        forall|c: int| 0 <= c < BOARD_W ==> m <= #[trigger] crate::ai::height_from(g, c, 0),
        exists|c: int| 0 <= c < BOARD_W && crate::ai::height_from(g, c, 0) == m,
    ensures
        ({
            let h = |c: int| crate::ai::height_from(g, c, 0);
            let f = crate::ai::spec_features(g);
            &&& f.low_count as int == at_most(h(0), m + 1) + at_most(h(1), m + 1) + at_most(h(2), m + 1)
                + at_most(h(3), m + 1) + at_most(h(4), m + 1) + at_most(h(5), m + 1) + at_most(h(6), m + 1)
                + at_most(h(7), m + 1) + at_most(h(8), m + 1) + at_most(h(9), m + 1)
            &&& f.well_depth is Some <==> f.holes == 0 && (h(0) == m || (h(9) == m && forall|c: int| 0 <= c < 9 ==> #[trigger] crate::ai::height_from(g, c, 0) != m))
            &&& f.well_depth is Some && h(0) == m ==> f.well_depth == Some((h(1) - m) as i32)
            &&& f.well_depth is Some && h(0) != m ==> f.well_depth == Some((h(8) - m) as i32)
        }),
{
    let hs = crate::ai::heights(g);
    let c0 = choose|c: int| 0 <= c < BOARD_W && crate::ai::height_from(g, c, 0) == m;
    crate::ai::lemma_min_first(hs, BOARD_W as int);
    let mn = crate::ai::min_first(hs, BOARD_W as int);
    let i0 = choose|i: int| 0 <= i < BOARD_W && hs[i] == mn;
    assert(hs[c0] == m);
    assert(hs[i0] == crate::ai::height_from(g, i0, 0));
    assert(mn == m);
    crate::ai::lemma_first_index(hs, m, 0);
    lemma_before_first_index(hs, m, 0);
    let idx = crate::ai::first_index_from(hs, m, 0);
    assert(idx < BOARD_W);
    assert(hs[idx] == m);
    lemma_count_of_ten(hs, m + 1);
    assert(hs[0] == crate::ai::height_from(g, 0, 0) && hs[9] == crate::ai::height_from(g, 9, 0));
    assert(hs[1] == crate::ai::height_from(g, 1, 0) && hs[8] == crate::ai::height_from(g, 8, 0));
    assert forall|c: int| 0 <= c < BOARD_W implies #[trigger] hs[c] == crate::ai::height_from(g, c, 0) by {}
    if idx == 9 {
        assert forall|c: int| 0 <= c < 9 implies #[trigger] crate::ai::height_from(g, c, 0) != m by {
            assert(hs[c] != m);
        }
    }
    if hs[9] == m && forall|c: int| 0 <= c < 9 ==> #[trigger] crate::ai::height_from(g, c, 0) != m {
        assert(hs[idx] == crate::ai::height_from(g, idx, 0));
        assert(idx == 9);
    }
    if hs[0] == m {
        assert(idx == 0);
    }
    crate::ai::lemma_height_bound(g, 0, 0);
    crate::ai::lemma_height_bound(g, 1, 0);
    crate::ai::lemma_height_bound(g, 8, 0);
    crate::ai::lemma_height_bound(g, 9, 0);
    assert forall|c: int| 0 <= c < BOARD_W implies 0 <= #[trigger] hs[c] <= BOARD_H by {
        crate::ai::lemma_height_bound(g, c, 0);
    }
    lemma_sums_of_ten(g);
    assert forall|k: int| 0 <= k < 10 implies 0 <= #[trigger] column_holes(g, k) <= BOARD_H by {
        lemma_holes_are_height_less_blocks(g, k, 0);
        crate::ai::lemma_holes_bound(g, k, 0, false);
    }
    assert(0 <= column_holes(g, 0) && 0 <= column_holes(g, 9));
    let f = crate::ai::spec_features(g);
    assert(f.low_count as int == crate::ai::count_at_most(hs, m + 1, 10));
    assert(f.well_depth is Some <==> f.holes == 0 && (idx == 0 || idx == 9));
    assert(f.well_depth is Some && hs[0] == m ==> f.well_depth == Some((hs[1] - m) as i32));
    assert(f.well_depth is Some && hs[0] != m ==> f.well_depth == Some((hs[8] - m) as i32));
}

/// The placements listed for orientation `rot` over the first `k` columns are
/// those of the columns -2 to `k - 3` at which the piece fits on row 0.
proof fn lemma_column_candidates(g: Seq<Seq<Option<usize>>>, piece: int, rot: int, k: int)
    requires
        0 <= rot < 4,
        0 <= k <= BOARD_W + 4,
    ensures
        ({
            let cc = crate::ai::column_candidates(g, piece, rot, k);
            &&& forall|i: int| 0 <= i < cc.len() ==> {
                &&& #[trigger] cc[i].rot == rot
                &&& -2 <= cc[i].col < k - 2
                &&& fits(g, piece, rot, 0, cc[i].col as int)
                &&& cc[i] == crate::ai::spec_placement(g, piece, rot, cc[i].col as int)
            }
            &&& forall|col: int| -2 <= col < k - 2 && #[trigger] fits(g, piece, rot, 0, col)
                ==> exists|i: int| 0 <= i < cc.len() && cc[i].col == col
        }),
    decreases k,
{
    if k > 0 {
        lemma_column_candidates(g, piece, rot, k - 1);
        let prev = crate::ai::column_candidates(g, piece, rot, k - 1);
        let cc = crate::ai::column_candidates(g, piece, rot, k);
        let c = k - 3;
        if fits(g, piece, rot, 0, c) {
            assert(cc == prev.push(crate::ai::spec_placement(g, piece, rot, c)));
            assert(cc[prev.len() as int].col == c);
            assert forall|col: int| -2 <= col < k - 2 && #[trigger] fits(g, piece, rot, 0, col)
                implies exists|i: int| 0 <= i < cc.len() && cc[i].col == col by {
                if col < k - 3 {
                    let i = choose|i: int| 0 <= i < prev.len() && prev[i].col == col;
                    assert(cc[i] == prev[i]);
                } else {
                    assert(cc[prev.len() as int].col == col);
                }
            }
            assert forall|i: int| 0 <= i < cc.len() implies {
                &&& #[trigger] cc[i].rot == rot
                &&& -2 <= cc[i].col < k - 2
                &&& fits(g, piece, rot, 0, cc[i].col as int)
                &&& cc[i] == crate::ai::spec_placement(g, piece, rot, cc[i].col as int)
            } by {
                if i < prev.len() {
                    assert(cc[i] == prev[i]);
                }
            }
        } else {
            assert forall|col: int| -2 <= col < k - 2 && #[trigger] fits(g, piece, rot, 0, col)
                implies exists|i: int| 0 <= i < cc.len() && cc[i].col == col by {
                assert(col < k - 3);
            }
        }
    }
}

proof fn lemma_candidates(g: Seq<Seq<Option<usize>>>, piece: int, n: int)
    requires
        0 <= n <= 4,
    ensures
        ({
            let cs = crate::ai::candidates(g, piece, n);
            &&& forall|i: int| 0 <= i < cs.len() ==> {
                &&& 0 <= #[trigger] cs[i].rot < n
                &&& -2 <= cs[i].col <= 11
                &&& fits(g, piece, cs[i].rot as int, 0, cs[i].col as int)
                &&& cs[i] == crate::ai::spec_placement(g, piece, cs[i].rot as int, cs[i].col as int)
            }
            &&& forall|rot: int, col: int| 0 <= rot < n && -2 <= col <= 11 && #[trigger] fits(g, piece, rot, 0, col)
                ==> exists|i: int| 0 <= i < cs.len() && cs[i].rot == rot && cs[i].col == col
        }),
    decreases n,
{
    if n > 0 {
        lemma_candidates(g, piece, n - 1);
        lemma_column_candidates(g, piece, n - 1, BOARD_W + 4);
        let prev = crate::ai::candidates(g, piece, n - 1);
        let cc = crate::ai::column_candidates(g, piece, n - 1, BOARD_W + 4);
        let cs = crate::ai::candidates(g, piece, n);
        assert(cs == prev + cc);
        assert forall|i: int| 0 <= i < cs.len() implies {
            &&& 0 <= #[trigger] cs[i].rot < n
            &&& -2 <= cs[i].col <= 11
            &&& fits(g, piece, cs[i].rot as int, 0, cs[i].col as int)
            &&& cs[i] == crate::ai::spec_placement(g, piece, cs[i].rot as int, cs[i].col as int)
        } by {
            if i < prev.len() {
                assert(cs[i] == prev[i]);
            } else {
                assert(cs[i] == cc[i - prev.len()]);
                assert(cc[i - prev.len()].rot == n - 1);
            }
        }
        assert forall|rot: int, col: int| 0 <= rot < n && -2 <= col <= 11 && #[trigger] fits(g, piece, rot, 0, col)
            implies exists|i: int| 0 <= i < cs.len() && cs[i].rot == rot && cs[i].col == col by {
            if rot < n - 1 {
                let i = choose|i: int| 0 <= i < prev.len() && prev[i].rot == rot && prev[i].col == col;
                assert(cs[i] == prev[i]);
            } else {
                let j = choose|j: int| 0 <= j < cc.len() && cc[j].col == col;
                assert(cc[j].rot == rot);
                assert(cs[prev.len() + j] == cc[j]);
            }
        }
    }
}

/// The auto-player considers exactly the drops of the piece in each of its
/// four orientations from each column -2 to 11 at which it fits on the top
/// row, and weighs for each the playfield left by dropping it there.
pub proof fn law_candidates_are_every_fitting_drop(g: Seq<Seq<Option<usize>>>, piece: int)
    ensures
        ({
            let cs = crate::ai::candidates(g, piece, 4);
            &&& forall|i: int| 0 <= i < cs.len() ==> {
                &&& 0 <= #[trigger] cs[i].rot < 4
                &&& -2 <= cs[i].col <= 11
                &&& fits(g, piece, cs[i].rot as int, 0, cs[i].col as int)
                &&& cs[i] == crate::ai::spec_placement(g, piece, cs[i].rot as int, cs[i].col as int)
            }
            &&& forall|rot: int, col: int| 0 <= rot < 4 && -2 <= col <= 11 && #[trigger] fits(g, piece, rot, 0, col)
                ==> exists|i: int| 0 <= i < cs.len() && cs[i].rot == rot && cs[i].col == col
        }),
{
    lemma_candidates(g, piece, 4);
}

/// Whether a row is not full.
pub open spec fn not_full(row: Seq<Option<usize>>) -> bool {
    !full_row(row)
}

/// Whether a row is full.
pub open spec fn is_full(row: Seq<Option<usize>>) -> bool {
    full_row(row)
}

proof fn lemma_kept_rows_filter(g: Seq<Seq<Option<usize>>>)
    ensures
        kept_rows(g) == g.filter(|row: Seq<Option<usize>>| not_full(row)),
        kept_rows(g).len() + g.filter(|row: Seq<Option<usize>>| is_full(row)).len() == g.len(),
    decreases g.len(),
{
    let nf = |row: Seq<Option<usize>>| not_full(row);
    let f = |row: Seq<Option<usize>>| is_full(row);
    if g.len() > 0 {
        lemma_kept_rows_filter(g.drop_first());
        let head = seq![g[0]];
        assert(g =~= head + g.drop_first());
        Seq::filter_distributes_over_add(head, g.drop_first(), nf);
        Seq::filter_distributes_over_add(head, g.drop_first(), f);
        reveal_with_fuel(Seq::filter, 2);
        assert(head.drop_last() =~= Seq::<Seq<Option<usize>>>::empty());
        assert(head.last() == g[0]);
        if full_row(g[0]) {
            assert(head.filter(nf) =~= Seq::<Seq<Option<usize>>>::empty());
            assert(head.filter(f) =~= head);
        } else {
            assert(head.filter(nf) =~= head);
            assert(head.filter(f) =~= Seq::<Seq<Option<usize>>>::empty());
        }
    } else {
        assert(g.filter(nf) =~= g);
        assert(g.filter(f) =~= g);
    }
}

/// Clearing lines takes the full rows out and lets the others fall, in their
/// order, below as many empty rows as were taken out: the playfield keeps its
/// height.
pub proof fn law_clearing_drops_full_rows(g: Seq<Seq<Option<usize>>>)
    ensures
        cleared_grid(g) == empty_rows(g.filter(|row: Seq<Option<usize>>| is_full(row)).len() as int)
            + g.filter(|row: Seq<Option<usize>>| not_full(row)),
        cleared_grid(g).len() == g.len(),
{
    lemma_kept_rows_filter(g);
}

} // verus!
