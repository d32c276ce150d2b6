//! Where the playfield goes in a window of a given size.
use vstd::prelude::*;
use crate::pieces::{BOARD_H, BOARD_W};

verus! {

/// Width of the side panel right of the playfield, in pixels.
pub const RIGHT_PANEL_W: usize = 180;
/// Gap between the playfield and the side panel, in pixels.
pub const PANEL_GAP: usize = 16;

/// Positions and sizes of the playfield in a window.
pub struct Layout {
    pub win_w: usize,
    pub win_h: usize,
    /// Side of one cell, in pixels.
    pub cell: usize,
    /// Left edge of the playfield.
    pub board_x: usize,
    /// Top edge of the playfield.
    pub board_y: usize,
}

/// The cell size for a window `win_h` high: a twentieth of the height left
/// after 80 pixels of title and margin, at least 8.
pub open spec fn layout_cell(win_h: int) -> int {
    let c = (win_h - 80) / BOARD_H as int;
    if c >= 8 { c } else { 8 }
}

/// The left 45% of the window, kept for the background picture.
pub open spec fn left_area(win_w: int) -> int {
    win_w * 45 / 100
}

/// The width of the playfield, the gap and the side panel together.
pub open spec fn game_width(cell: int) -> int {
    BOARD_W * cell + PANEL_GAP + RIGHT_PANEL_W
}

/// The playfield's left edge: playfield and panel centred in the right part
/// of the window when they fit there, at the start of that part otherwise.
pub open spec fn layout_board_x(win_w: int, win_h: int) -> int {
    let left = left_area(win_w);
    let right = win_w - left;
    let total = game_width(layout_cell(win_h));
    if right >= total { left + (right - total) / 2 } else { left }
}

/// The playfield's top edge: the playfield centred vertically.
pub open spec fn layout_board_y(win_h: int) -> int {
    (win_h - BOARD_H * layout_cell(win_h)) / 2
}

impl Layout {
    /// The layout of a `win_w` x `win_h` window.
    pub fn compute(win_w: usize, win_h: usize) -> (l: Layout)
        requires
            80 <= win_h,
            BOARD_H * layout_cell(win_h as int) <= win_h,
            win_w * 45 <= usize::MAX,
        ensures
            l.win_w == win_w,
            l.win_h == win_h,
            l.cell == layout_cell(win_h as int),
            l.board_x == layout_board_x(win_w as int, win_h as int),
            l.board_y == layout_board_y(win_h as int),
            l.cell >= 8,
            l.board_y + BOARD_H * l.cell <= win_h,
            l.board_x >= left_area(win_w as int),
            win_w - left_area(win_w as int) >= game_width(l.cell as int) ==> l.board_x + game_width(l.cell as int) <= win_w,
    {
        let c = (win_h - 80) / BOARD_H;
        let cell = if c >= 8 { c } else { 8 };
        let board_w_px = BOARD_W * cell;
        let right_panel_w = RIGHT_PANEL_W;
        let left_area = (win_w * 45) / 100;
        let right_area = win_w - left_area;
        let total_game_w = board_w_px + PANEL_GAP + right_panel_w;
        let board_x = if right_area >= total_game_w {
            left_area + (right_area - total_game_w) / 2
        } else {
            left_area
        };
        let board_h_px = BOARD_H * cell;
        let board_y = (win_h - board_h_px) / 2;
        Layout { win_w, win_h, cell, board_x, board_y }
    }
}

} // verus!
