use tetris_rs::bag::{fisher_yates, Bag};
use tetris_rs::board::Board;
use tetris_rs::game::{Action, Game};
use tetris_rs::pieces::{tetromino, BOARD_H, BOARD_W};

fn empty_board() -> Board {
    [[None; BOARD_W]; BOARD_H]
}

fn game_with(piece: usize, board: Board) -> Game {
    Game {
        board,
        piece,
        rot: 0,
        row: 0,
        col: 4,
        next: 1,
        bag: Bag { pieces: vec![2, 3] },
        score: 0,
        lines: 0,
        level: 1,
        game_over: false,
        score_saved: false,
        auto_play: false,
        ai_target: None,
        tetris_flash: false,
    }
}

fn sorted(mut v: Vec<usize>) -> Vec<usize> {
    v.sort();
    v
}

#[test]
fn new_game_starts_empty_at_level_one() {
    let g = Game::new();
    assert_eq!(g.score, 0);
    assert_eq!(g.lines, 0);
    assert_eq!(g.level, 1);
    assert!(!g.game_over);
    assert!(!g.auto_play);
    assert_eq!((g.rot, g.row, g.col), (0, 0, 4));
    assert!(g.board.iter().all(|row| row.iter().all(|c| c.is_none())));
    assert!(g.piece < 7 && g.next < 7);
    assert_ne!(g.piece, g.next);
    assert_eq!(g.bag.pieces.len(), 5);
    let mut all = g.bag.pieces.clone();
    all.push(g.piece);
    all.push(g.next);
    assert_eq!(sorted(all), vec![0, 1, 2, 3, 4, 5, 6]);
}

#[test]
fn bag_deals_each_piece_once_per_seven() {
    let mut bag = Bag::new();
    assert_eq!(sorted(bag.pieces.clone()), vec![0, 1, 2, 3, 4, 5, 6]);
    for _round in 0..3 {
        let mut drawn = Vec::new();
        for _ in 0..7 {
            drawn.push(bag.next());
        }
        assert_eq!(sorted(drawn), vec![0, 1, 2, 3, 4, 5, 6]);
        assert!(bag.pieces.is_empty());
    }
}

#[test]
fn bag_draws_front_first() {
    let mut bag = Bag { pieces: vec![5, 2] };
    assert_eq!(bag.next(), 5);
    assert_eq!(bag.pieces, vec![2]);
    assert_eq!(bag.next(), 2);
    assert!(bag.pieces.is_empty());
    let p = bag.next();
    assert!(p < 7);
    assert_eq!(bag.pieces.len(), 6);
    assert!(!bag.pieces.contains(&p));
}

#[test]
fn bag_refill_is_shuffled() {
    let mut orders = Vec::new();
    for _ in 0..40 {
        orders.push(Bag::new().pieces);
    }
    assert!(orders.iter().any(|o| *o != vec![0, 1, 2, 3, 4, 5, 6]));
    assert!(orders.iter().any(|o| *o != orders[0]));
}

#[test]
fn refill_appends_a_full_bag() {
    let mut bag = Bag { pieces: vec![4] };
    bag.refill();
    assert_eq!(bag.pieces.len(), 8);
    assert_eq!(bag.pieces[0], 4);
    assert_eq!(sorted(bag.pieces[1..].to_vec()), vec![0, 1, 2, 3, 4, 5, 6]);
}

#[test]
fn shapes_match_the_table() {
    assert_eq!(tetromino(0, 0), [(0, 0), (0, 1), (0, 2), (0, 3)]);
    assert_eq!(tetromino(0, 1), [(0, 0), (1, 0), (2, 0), (3, 0)]);
    assert_eq!(tetromino(2, 2), [(1, 0), (1, 1), (1, 2), (0, 1)]);
    assert_eq!(tetromino(6, 3), [(2, 0), (0, 1), (1, 1), (2, 1)]);
}

#[test]
fn cells_and_validity() {
    let g = game_with(1, empty_board());
    assert_eq!(g.cells(3, 5, 0), [(3, 5), (3, 6), (4, 5), (4, 6)]);
    assert!(g.valid(0, 0, 0));
    assert!(g.valid(18, 8, 0));
    assert!(!g.valid(19, 8, 0));
    assert!(!g.valid(0, 9, 0));
    assert!(!g.valid(0, -1, 0));
    assert!(g.valid(-1, 0, 0));
    let mut b = empty_board();
    b[5][5] = Some(3);
    let g = game_with(1, b);
    assert!(!g.valid(4, 4, 0));
    assert!(g.valid(4, 6, 0));
    assert!(!g.valid_for_piece(0, 5, 2, 0));
    assert!(g.valid_for_piece(0, 5, 6, 0));
}

#[test]
fn shift_then_back_restores_position() {
    let mut g = game_with(2, empty_board());
    g.move_lr(-1);
    assert_eq!(g.col, 3);
    g.move_lr(1);
    assert_eq!(g.col, 4);
    assert_eq!((g.rot, g.row), (0, 0));
}

#[test]
fn shift_stops_at_walls() {
    let mut g = game_with(0, empty_board());
    for _ in 0..10 {
        g.move_lr(-1);
    }
    assert_eq!(g.col, 0);
    for _ in 0..10 {
        g.move_lr(1);
    }
    assert_eq!(g.col, 6);
}

#[test]
fn rotation_turns_and_kicks() {
    let mut g = game_with(0, empty_board());
    g.rotate();
    assert_eq!((g.rot, g.col), (1, 4));
    g.rotate();
    assert_eq!((g.rot, g.col), (2, 4));
    // An upright I piece near the right wall is pushed one column left to lie flat.
    let mut g = game_with(0, empty_board());
    g.rot = 1;
    g.col = 7;
    g.rotate();
    assert_eq!((g.rot, g.col), (2, 6));
}

#[test]
fn rotation_blocked_everywhere_changes_nothing() {
    let mut b = empty_board();
    for c in 0..9 {
        b[1][c] = Some(6);
    }
    let mut g = game_with(0, b);
    g.col = 0;
    g.rotate();
    assert_eq!((g.rot, g.col, g.row), (0, 0, 0));
}

#[test]
fn ghost_shows_landing_row() {
    let mut g = game_with(0, empty_board());
    g.rot = 1;
    g.col = 0;
    assert_eq!(g.ghost(), 16);
    let mut b = empty_board();
    b[10][0] = Some(4);
    let mut g = game_with(0, b);
    g.rot = 1;
    g.col = 0;
    assert_eq!(g.ghost(), 6);
}

#[test]
fn hard_drop_lands_on_ghost_and_scores_two_per_row() {
    let mut g = game_with(1, empty_board());
    let ghost = g.ghost();
    assert_eq!(ghost, 18);
    g.hard_drop();
    assert_eq!(g.score, 36);
    assert_eq!(g.board[18][4], Some(1));
    assert_eq!(g.board[19][5], Some(1));
    assert_eq!(g.board[17][4], None);
    assert_eq!(g.piece, 1);
    assert_eq!(g.next, 2);
    assert_eq!(g.bag.pieces, vec![3]);
    assert_eq!((g.rot, g.row, g.col), (0, 0, 4));
}

#[test]
fn gravity_step_falls_then_locks() {
    let mut g = game_with(1, empty_board());
    g.row = 17;
    assert!(g.down());
    assert_eq!(g.row, 18);
    assert!(!g.down());
    assert_eq!(g.board[19][4], Some(1));
    assert_eq!(g.row, 0);
}

#[test]
fn soft_drop_scores_one_point() {
    let mut g = game_with(3, empty_board());
    g.apply(Action::SoftDrop);
    assert_eq!((g.row, g.score), (1, 1));
    g.apply(Action::Left);
    assert_eq!(g.col, 3);
    g.apply(Action::Right);
    assert_eq!(g.col, 4);
    g.apply(Action::Rotate);
    assert_eq!(g.rot, 1);
    g.apply(Action::HardDrop);
    assert_eq!(g.row, 0);
    assert!(g.score > 1);
}

fn fill_row_except(b: &mut Board, r: usize, gaps: &[usize]) {
    for c in 0..BOARD_W {
        if !gaps.contains(&c) {
            b[r][c] = Some(5);
        }
    }
}

#[test]
fn single_line_clear_scores_and_shifts() {
    let mut b = empty_board();
    fill_row_except(&mut b, 19, &[4, 5, 6, 7]);
    b[18][0] = Some(2);
    let mut g = game_with(0, b);
    g.row = 19;
    g.lock();
    assert_eq!(g.lines, 1);
    assert_eq!(g.score, 100);
    assert_eq!(g.level, 1);
    assert!(!g.tetris_flash);
    assert_eq!(g.board[19][0], Some(2));
    assert!(g.board[19][1..].iter().all(|c| c.is_none()));
    assert!(g.board[0].iter().all(|c| c.is_none()));
}

#[test]
fn four_line_clear_is_a_tetris() {
    let mut b = empty_board();
    for r in 16..20 {
        fill_row_except(&mut b, r, &[0]);
    }
    b[15][3] = Some(4);
    let mut g = game_with(0, b);
    g.level = 3;
    g.lines = 20;
    g.rot = 1;
    g.col = 0;
    g.hard_drop();
    assert_eq!(g.lines, 24);
    assert_eq!(g.score, 2 * 16 + 800 * 3);
    assert_eq!(g.level, 3);
    assert_eq!(g.board[19][3], Some(4));
    assert!(g.take_tetris_flash());
    assert!(!g.take_tetris_flash());
}

#[test]
fn two_and_three_line_clears_score_by_table() {
    let mut b = empty_board();
    fill_row_except(&mut b, 18, &[8, 9]);
    fill_row_except(&mut b, 19, &[8, 9]);
    let mut g = game_with(1, b);
    g.col = 8;
    g.level = 2;
    g.lines = 10;
    g.hard_drop();
    assert_eq!(g.lines, 12);
    assert_eq!(g.score, 2 * 18 + 300 * 2);

    let mut b = empty_board();
    for r in 17..20 {
        fill_row_except(&mut b, r, &[9]);
    }
    let mut g = game_with(0, b);
    g.rot = 1;
    g.col = 9;
    g.hard_drop();
    assert_eq!(g.lines, 3);
    assert_eq!(g.score, 2 * 16 + 500);
}

#[test]
fn level_follows_lines() {
    let mut b = empty_board();
    fill_row_except(&mut b, 19, &[0, 1, 2, 3]);
    let mut g = game_with(0, b);
    g.lines = 9;
    g.level = 1;
    g.col = 0;
    g.hard_drop();
    assert_eq!(g.lines, 10);
    assert_eq!(g.level, 2);
    assert_eq!(g.score, 2 * 19 + 100);
}

#[test]
fn spawn_into_blocks_ends_the_game() {
    let mut b = empty_board();
    b[1][5] = Some(0);
    let mut g = game_with(3, b);
    g.next = 1;
    g.spawn();
    assert!(g.game_over);
    assert_eq!(g.piece, 1);
    let mut g2 = game_with(3, empty_board());
    g2.spawn();
    assert!(!g2.game_over);
}

#[test]
fn drop_speed_by_level() {
    let mut g = game_with(0, empty_board());
    let expected = [800, 720, 630, 550, 470, 380, 300, 220, 140, 80, 80];
    for (i, ms) in expected.iter().enumerate() {
        g.level = i as u32 + 1;
        assert_eq!(g.drop_ms(), *ms);
    }
    g.level = 1;
    assert_eq!(g.drop_interval(true), 80);
    assert_eq!(g.drop_interval(false), 800);
    g.toggle_auto_play();
    assert!(g.auto_play);
    assert_eq!(g.drop_interval(true), 800);
}

#[test]
fn auto_player_steps_towards_target() {
    let mut g = game_with(2, empty_board());
    g.ai_step();
    assert_eq!((g.rot, g.col, g.row), (0, 4, 0));
    g.set_ai_target((2, 1));
    g.ai_step();
    assert_eq!((g.rot, g.col), (1, 4));
    g.ai_step();
    assert_eq!(g.col, 3);
    g.ai_step();
    assert_eq!(g.col, 2);
    g.ai_step();
    assert_eq!(g.row, 0);
    assert!(g.ai_target.is_none());
    assert_eq!(g.board[19][2], Some(2));
}

#[test]
fn toggling_auto_play_forgets_target() {
    let mut g = game_with(2, empty_board());
    g.set_ai_target((1, 1));
    g.toggle_auto_play();
    assert!(g.auto_play);
    assert!(g.ai_target.is_none());
    g.mark_score_saved();
    assert!(g.score_saved);
}

#[test]
fn room_left_guards_counters() {
    let mut g = game_with(0, empty_board());
    assert!(g.room_left());
    g.score = u32::MAX - 40;
    assert!(!g.room_left());
    g.score = 0;
    g.lines = u32::MAX - 3;
    assert!(!g.room_left());
}

#[test]
fn counters_never_decrease_during_play() {
    let mut g = Game::new();
    let mut prev = (g.score, g.lines, g.level);
    for step in 0..400 {
        if g.game_over {
            break;
        }
        let a = match step % 10 {
            0 => Action::Left,
            1 => Action::Rotate,
            2 => Action::SoftDrop,
            3 => Action::Right,
            4 => Action::HardDrop,
            5 => Action::Right,
            6 => Action::HardDrop,
            7 => Action::Left,
            8 => Action::Left,
            _ => Action::HardDrop,
        };
        g.apply(a);
        let now = (g.score, g.lines, g.level);
        assert!(now.0 >= prev.0 && now.1 >= prev.1 && now.2 >= prev.2);
        assert!(now.1 - prev.1 <= 4);
        assert_eq!(g.level, g.lines / 10 + 1);
        for r in 0..BOARD_H {
            assert!(!g.board[r].iter().all(|c| c.is_some()));
        }
        prev = now;
    }
}

#[test]
fn fisher_yates_follows_the_draws() {
    assert_eq!(fisher_yates(&[0, 0, 0, 0, 0, 0]), vec![1, 2, 3, 4, 5, 6, 0]);
    assert_eq!(fisher_yates(&[6, 5, 4, 3, 2, 1]), vec![0, 1, 2, 3, 4, 5, 6]);
    // i = 6 swaps with 2, i = 5 with 5, i = 4 with 0, i = 3 with 3, i = 2 with 1, i = 1 with 0
    assert_eq!(fisher_yates(&[2, 5, 0, 3, 1, 0]), vec![6, 4, 1, 3, 0, 5, 2]);
}

#[test]
fn lock_anywhere_leaves_no_full_row() {
    let mut b = empty_board();
    for r in 12..20 {
        fill_row_except(&mut b, r, &[r % 10]);
    }
    let mut g = game_with(0, b);
    g.rot = 1;
    g.col = 9;
    g.hard_drop();
    for r in 0..BOARD_H {
        assert!(!g.board[r].iter().all(|c| c.is_some()));
    }
    assert_eq!(g.level, g.lines / 10 + 1);
}
