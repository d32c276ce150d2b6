use tetris_rs::ai::board_features;
use tetris_rs::board::Board;
use tetris_rs::canvas::{blend, draw_nes_block, draw_rect_outline, fill_rect, set_pixel};
use tetris_rs::font::{draw_char, draw_text, glyph};
use tetris_rs::game::Game;
use tetris_rs::bag::Bag;
use tetris_rs::layout::Layout;
use tetris_rs::pieces::{piece_color, piece_color_light, BOARD_H, BOARD_W};

fn canvas(ww: usize, wh: usize) -> Vec<u32> {
    vec![7u32; ww * wh]
}

fn lit(buf: &[u32], ww: usize, x: usize, y: usize) -> u32 {
    buf[y * ww + x]
}

#[test]
fn set_pixel_inside_and_outside() {
    let mut buf = canvas(4, 3);
    set_pixel(&mut buf, 4, 3, 2, 1, 9);
    assert_eq!(buf[6], 9);
    set_pixel(&mut buf, 4, 3, 4, 0, 5);
    set_pixel(&mut buf, 4, 3, 0, 3, 5);
    assert_eq!(buf.iter().filter(|&&p| p == 5).count(), 0);
    assert_eq!(buf.iter().filter(|&&p| p == 9).count(), 1);
}

#[test]
fn fill_rect_is_clipped() {
    let mut buf = canvas(5, 4);
    fill_rect(&mut buf, 5, 4, 3, 2, 10, 10, 1);
    for y in 0..4 {
        for x in 0..5 {
            let want = if x >= 3 && y >= 2 { 1 } else { 7 };
            assert_eq!(lit(&buf, 5, x, y), want);
        }
    }
    let before = buf.clone();
    fill_rect(&mut buf, 5, 4, 0, 0, 0, 3, 2);
    assert_eq!(buf, before);
}

#[test]
fn outline_draws_only_the_border() {
    let mut buf = canvas(6, 6);
    draw_rect_outline(&mut buf, 6, 6, 1, 1, 4, 3, 3);
    for y in 0..6 {
        for x in 0..6 {
            let border = (1..5).contains(&x) && (y == 1 || y == 3) || (1..4).contains(&y) && (x == 1 || x == 4);
            assert_eq!(lit(&buf, 6, x, y), if border { 3 } else { 7 });
        }
    }
}

#[test]
fn blend_mixes_channels() {
    assert_eq!(blend(0x009CDC, 0x000000, 120), 0x005274);
    assert_eq!(blend(0x000000, 0x0058F8, 30), 0x000A1D);
    assert_eq!(blend(0x123456, 0xABCDEF, 0), 0x123456);
    assert_eq!(blend(0xFF123456, 0xABCDEF, 255), 0xABCDEF);
    assert_eq!(blend(0x7F7F7F, 0xFFFFFF, 120), 0xBBBBBB);
}

#[test]
fn blend_of_a_colour_with_itself_is_that_colour() {
    for &c in &[0x000000u32, 0xFCFCFC, 0x0058F8, 0xA800A8] {
        for a in [0u32, 1, 77, 128, 254, 255] {
            assert_eq!(blend(c, c, a), c);
        }
    }
    assert_eq!(blend(0xAB123456, 0xAB123456, 10), 0x123456);
}

#[test]
fn piece_colours() {
    assert_eq!(piece_color(0), 0x009CDC);
    assert_eq!(piece_color(6), 0x0058F8);
    assert_eq!(piece_color_light(3), 0xB8F818);
    assert_eq!(piece_color_light(1), 0xD8D8D8);
}

#[test]
fn small_block_has_bevels() {
    let mut buf = canvas(10, 10);
    draw_nes_block(&mut buf, 10, 10, 1, 1, 8, 4);
    let c = 0xD82800;
    let cl = 0xF87858;
    let dark = blend(c, 0, 120);
    assert_eq!(lit(&buf, 10, 0, 0), 7);
    assert_eq!(lit(&buf, 10, 1, 1), cl);
    assert_eq!(lit(&buf, 10, 4, 1), cl);
    assert_eq!(lit(&buf, 10, 1, 4), cl);
    assert_eq!(lit(&buf, 10, 4, 4), c);
    assert_eq!(lit(&buf, 10, 8, 4), dark);
    assert_eq!(lit(&buf, 10, 4, 8), dark);
    assert_eq!(lit(&buf, 10, 8, 1), dark);
    assert_eq!(lit(&buf, 10, 9, 4), 7);
}

#[test]
fn large_block_has_inner_square() {
    let mut buf = canvas(30, 30);
    draw_nes_block(&mut buf, 30, 30, 0, 0, 24, 2);
    let c = 0xA800A8;
    let cl = 0xF878F8;
    let dark = blend(c, 0, 120);
    // border 2, ring from 4 to 20, inner square from 6 to 18
    assert_eq!(lit(&buf, 30, 0, 10), cl);
    assert_eq!(lit(&buf, 30, 23, 10), dark);
    assert_eq!(lit(&buf, 30, 22, 10), dark);
    assert_eq!(lit(&buf, 30, 3, 10), c);
    assert_eq!(lit(&buf, 30, 4, 10), cl);
    assert_eq!(lit(&buf, 30, 6, 10), c);
    assert_eq!(lit(&buf, 30, 18, 10), cl);
    assert_eq!(lit(&buf, 30, 20, 10), c);
    assert_eq!(lit(&buf, 30, 24, 10), 7);
}

#[test]
fn glyphs_ignore_case() {
    assert_eq!(glyph('a'), glyph('A'));
    assert_eq!(glyph('7'), Some([0b11111, 0b00001, 0b00010, 0b00100, 0b01000, 0b01000, 0b01000]));
    assert_eq!(glyph('#'), None);
    assert_eq!(glyph('!'), Some([0b00100, 0b00100, 0b00100, 0b00100, 0b00100, 0b00000, 0b00100]));
}

#[test]
fn draw_char_paints_the_glyph() {
    let mut buf = canvas(12, 16);
    draw_char(&mut buf, 12, 16, 'T', 1, 1, 2, 0);
    // top bar: dots (0, 0..5) -> pixels x 1..11, y 1..3
    for x in 1..11 {
        assert_eq!(lit(&buf, 12, x, 1), 0);
        assert_eq!(lit(&buf, 12, x, 2), 0);
    }
    assert_eq!(lit(&buf, 12, 0, 1), 7);
    assert_eq!(lit(&buf, 12, 1, 3), 7);
    assert_eq!(lit(&buf, 12, 5, 3), 0);
    assert_eq!(lit(&buf, 12, 6, 14), 0);
    assert_eq!(lit(&buf, 12, 7, 14), 7);
    assert_eq!(buf.iter().filter(|&&p| p == 0).count(), 4 * (5 + 6));
    let mut other = canvas(12, 16);
    draw_char(&mut other, 12, 16, '#', 1, 1, 2, 0);
    assert!(other.iter().all(|&p| p == 7));
}

#[test]
fn draw_text_uses_six_dot_slots() {
    let mut buf = canvas(20, 8);
    draw_text(&mut buf, 20, 8, "-1", 0, 0, 1, 0);
    // '-' lights row 3, columns 0..5; '1' starts at x = 6
    for x in 0..5 {
        assert_eq!(lit(&buf, 20, x, 3), 0);
    }
    assert_eq!(lit(&buf, 20, 5, 3), 7);
    assert_eq!(lit(&buf, 20, 8, 0), 0);
    assert_eq!(lit(&buf, 20, 8, 6), 0);
    assert_eq!(lit(&buf, 20, 7, 6), 0);
    assert_eq!(lit(&buf, 20, 6, 0), 7);
    let mut same = canvas(20, 8);
    draw_text(&mut same, 20, 8, "-", 0, 0, 1, 0);
    draw_char(&mut same, 20, 8, '1', 6, 0, 1, 0);
    assert_eq!(buf, same);
}

#[test]
fn layout_of_default_window() {
    let l = Layout::compute(800, 620);
    assert_eq!(l.cell, 27);
    assert_eq!(l.board_x, 360);
    assert_eq!(l.board_y, 40);
    assert_eq!((l.win_w, l.win_h), (800, 620));
}

#[test]
fn layout_centres_when_there_is_room() {
    let l = Layout::compute(1200, 620);
    assert_eq!(l.cell, 27);
    assert_eq!(l.board_x, 540 + (660 - 466) / 2);
    let l = Layout::compute(400, 300);
    assert_eq!(l.cell, 11);
    assert_eq!(l.board_x, 180);
    assert_eq!(l.board_y, 40);
    let l = Layout::compute(400, 200);
    assert_eq!(l.cell, 8);
    assert_eq!(l.board_y, 20);
    for (w, h) in [(400usize, 300usize), (800, 620), (1024, 768), (1920, 1080), (500, 1000)] {
        let l = Layout::compute(w, h);
        assert!(l.board_y + BOARD_H * l.cell <= h);
        assert!(l.board_x >= w * 45 / 100);
        if w - w * 45 / 100 >= BOARD_W * l.cell + 196 {
            assert!(l.board_x + BOARD_W * l.cell + 196 <= w);
        }
    }
}

fn empty_board() -> Board {
    [[None; BOARD_W]; BOARD_H]
}

#[test]
fn features_of_an_empty_board() {
    let f = board_features(&empty_board());
    assert_eq!(f.agg_height, 0);
    assert_eq!(f.complete_lines, 0);
    assert_eq!(f.holes, 0);
    assert_eq!(f.bumpiness, 0);
    assert_eq!(f.well_depth, Some(0));
    assert_eq!(f.low_count, 10);
}

#[test]
fn features_count_heights_holes_and_wells() {
    let mut b = empty_board();
    // column 1: block at row 15 with holes at 16 and 18
    b[15][1] = Some(0);
    b[17][1] = Some(0);
    b[19][1] = Some(0);
    // columns 2..9: one block on the floor
    for c in 2..10 {
        b[19][c] = Some(0);
    }
    let f = board_features(&b);
    assert_eq!(f.agg_height, 5 + 8);
    assert_eq!(f.holes, 2);
    assert_eq!(f.bumpiness, 5 + 4);
    assert_eq!(f.complete_lines, 0);
    assert_eq!(f.well_depth, None);
    assert_eq!(f.low_count, 9);

    let mut b = empty_board();
    for c in 1..10 {
        b[17][c] = Some(1);
        b[18][c] = Some(1);
        b[19][c] = Some(1);
    }
    let f = board_features(&b);
    assert_eq!(f.well_depth, Some(3));
    assert_eq!(f.low_count, 1);
    assert_eq!(f.bumpiness, 3);
}

#[test]
fn features_count_complete_rows() {
    let mut b = empty_board();
    for c in 0..BOARD_W {
        b[19][c] = Some(2);
        b[18][c] = Some(2);
    }
    let f = board_features(&b);
    assert_eq!(f.complete_lines, 2);
    assert_eq!(f.agg_height, 20);
}

#[test]
fn candidate_placements_cover_fitting_columns() {
    let g = Game {
        board: empty_board(),
        piece: 1,
        rot: 0,
        row: 0,
        col: 4,
        next: 2,
        bag: Bag { pieces: vec![] },
        score: 0,
        lines: 0,
        level: 1,
        game_over: false,
        score_saved: false,
        auto_play: false,
        ai_target: None,
        tetris_flash: false,
    };
    let cands = g.candidate_placements();
    assert_eq!(cands.len(), 36);
    assert_eq!((cands[0].col, cands[0].rot), (0, 0));
    assert_eq!((cands[8].col, cands[8].rot), (8, 0));
    assert_eq!((cands[9].col, cands[9].rot), (0, 1));
    assert_eq!(cands[0].features.agg_height, 4);
    assert_eq!(cands[0].features.well_depth, None);
    assert_eq!(cands[4].features.well_depth, Some(0));
    let mut g2 = g;
    g2.piece = 0;
    let cands = g2.candidate_placements();
    // flat I: columns 0..6 in orientations 0 and 2; upright: columns 0..9 in 1 and 3
    assert_eq!(cands.len(), 7 + 10 + 7 + 10);
    assert_eq!(cands[7].rot, 1);
    assert_eq!(cands[7].features.holes, 0);
    assert_eq!(cands[7].features.agg_height, 4);
}

#[test]
fn lowercase_letters_draw_as_capitals() {
    for (lower, upper) in ('a'..='z').zip('A'..='Z') {
        let mut one = canvas(12, 16);
        let mut two = canvas(12, 16);
        draw_char(&mut one, 12, 16, lower, 0, 0, 2, 1);
        draw_char(&mut two, 12, 16, upper, 0, 0, 2, 1);
        assert_eq!(one, two);
        assert!(one.iter().any(|&p| p == 1));
    }
}

#[test]
fn text_splits_into_its_parts() {
    let mut whole = canvas(60, 16);
    draw_text(&mut whole, 60, 16, "AB7", 1, 1, 2, 4);
    let mut parts = canvas(60, 16);
    draw_text(&mut parts, 60, 16, "A", 1, 1, 2, 4);
    draw_text(&mut parts, 60, 16, "B7", 1 + 6 * 2, 1, 2, 4);
    assert_eq!(whole, parts);
    let mut empty = canvas(60, 16);
    draw_text(&mut empty, 60, 16, "", 1, 1, 2, 4);
    assert!(empty.iter().all(|&p| p == 7));
}
