//! The seven tetrominoes, their four orientations and their colours.
use vstd::prelude::*;

verus! {

/// Width of the playfield in cells.
pub const BOARD_W: usize = 10;
/// Height of the playfield in cells.
pub const BOARD_H: usize = 20;
/// Number of distinct pieces.
pub const PIECE_COUNT: usize = 7;

/// The (row, column) offsets of the four cells of `piece` in orientation `rot`.
/// Pieces are numbered I, O, T, S, Z, L, J.
pub open spec fn shape(piece: int, rot: int) -> Seq<(int, int)> {
    if piece == 0 {
        if rot == 0 || rot == 2 { seq![(0, 0), (0, 1), (0, 2), (0, 3)] }
        else { seq![(0, 0), (1, 0), (2, 0), (3, 0)] }
    } else if piece == 1 {
        seq![(0, 0), (0, 1), (1, 0), (1, 1)]
    } else if piece == 2 {
        if rot == 0 { seq![(0, 0), (0, 1), (0, 2), (1, 1)] }
        else if rot == 1 { seq![(0, 0), (1, 0), (2, 0), (1, 1)] }
        else if rot == 2 { seq![(1, 0), (1, 1), (1, 2), (0, 1)] }
        else { seq![(0, 1), (1, 0), (1, 1), (2, 1)] }
    } else if piece == 3 {
        if rot == 0 || rot == 2 { seq![(0, 1), (0, 2), (1, 0), (1, 1)] }
        else { seq![(0, 0), (1, 0), (1, 1), (2, 1)] }
    } else if piece == 4 {
        if rot == 0 || rot == 2 { seq![(0, 0), (0, 1), (1, 1), (1, 2)] }
        else { seq![(0, 1), (1, 0), (1, 1), (2, 0)] }
    } else if piece == 5 {
        if rot == 0 { seq![(0, 0), (0, 1), (0, 2), (1, 0)] }
        else if rot == 1 { seq![(0, 0), (1, 0), (2, 0), (2, 1)] }
        else if rot == 2 { seq![(1, 0), (1, 1), (1, 2), (0, 2)] }
        else { seq![(0, 0), (0, 1), (1, 1), (2, 1)] }
    } else {
        if rot == 0 { seq![(0, 0), (0, 1), (0, 2), (1, 2)] }
        else if rot == 1 { seq![(0, 0), (1, 0), (2, 0), (0, 1)] }
        else if rot == 2 { seq![(0, 0), (1, 0), (1, 1), (1, 2)] }
        else { seq![(2, 0), (0, 1), (1, 1), (2, 1)] }
    }
}

/// Every offset of every shape lies in the 4x4 box [0, 3] x [0, 3].
pub proof fn lemma_shape_offsets(piece: int, rot: int, k: int)
    requires
        0 <= k < 4,
    ensures
        shape(piece, rot).len() == 4,
        0 <= shape(piece, rot)[k].0 <= 3,
        0 <= shape(piece, rot)[k].1 <= 3,
{
}

/// The offsets of `piece` in orientation `rot`, as the game stores them.
pub fn tetromino(piece: usize, rot: usize) -> (cells: [(i32, i32); 4])
    requires
        piece < PIECE_COUNT,
        rot < 4,
    ensures
        forall|k: int| 0 <= k < 4 ==> (#[trigger] cells@[k]).0 as int == shape(piece as int, rot as int)[k].0
            && cells@[k].1 as int == shape(piece as int, rot as int)[k].1,
{
    if piece == 0 {
        if rot == 0 || rot == 2 { [(0, 0), (0, 1), (0, 2), (0, 3)] }
        else { [(0, 0), (1, 0), (2, 0), (3, 0)] }
    } else if piece == 1 {
        [(0, 0), (0, 1), (1, 0), (1, 1)]
    } else if piece == 2 {
        if rot == 0 { [(0, 0), (0, 1), (0, 2), (1, 1)] }
        else if rot == 1 { [(0, 0), (1, 0), (2, 0), (1, 1)] }
        else if rot == 2 { [(1, 0), (1, 1), (1, 2), (0, 1)] }
        else { [(0, 1), (1, 0), (1, 1), (2, 1)] }
    } else if piece == 3 {
        if rot == 0 || rot == 2 { [(0, 1), (0, 2), (1, 0), (1, 1)] }
        else { [(0, 0), (1, 0), (1, 1), (2, 1)] }
    } else if piece == 4 {
        if rot == 0 || rot == 2 { [(0, 0), (0, 1), (1, 1), (1, 2)] }
        else { [(0, 1), (1, 0), (1, 1), (2, 0)] }
    } else if piece == 5 {
        if rot == 0 { [(0, 0), (0, 1), (0, 2), (1, 0)] }
        else if rot == 1 { [(0, 0), (1, 0), (2, 0), (2, 1)] }
        else if rot == 2 { [(1, 0), (1, 1), (1, 2), (0, 2)] }
        else { [(0, 0), (0, 1), (1, 1), (2, 1)] }
    } else {
        if rot == 0 { [(0, 0), (0, 1), (0, 2), (1, 2)] }
        else if rot == 1 { [(0, 0), (1, 0), (2, 0), (0, 1)] }
        else if rot == 2 { [(0, 0), (1, 0), (1, 1), (1, 2)] }
        else { [(2, 0), (0, 1), (1, 1), (2, 1)] }
    }
}

/// The main colour of each piece (0xRRGGBB).
pub open spec fn spec_piece_color(piece: int) -> u32 {
    if piece == 0 { 0x009CDC }
    else if piece == 1 { 0xFCFCFC }
    else if piece == 2 { 0xA800A8 }
    else if piece == 3 { 0x00A800 }
    else if piece == 4 { 0xD82800 }
    else { 0x0058F8 }
}

/// The highlight colour of each piece (0xRRGGBB).
pub open spec fn spec_piece_color_light(piece: int) -> u32 {
    if piece == 0 { 0x6888FC }
    else if piece == 1 { 0xD8D8D8 }
    else if piece == 2 { 0xF878F8 }
    else if piece == 3 { 0xB8F818 }
    else if piece == 4 { 0xF87858 }
    else { 0x6888FC }
}

/// The main colour of `piece`.
pub fn piece_color(piece: usize) -> (c: u32)
    requires
        piece < PIECE_COUNT,
    ensures
        c == spec_piece_color(piece as int),
{
    if piece == 0 { 0x009CDC }
    else if piece == 1 { 0xFCFCFC }
    else if piece == 2 { 0xA800A8 }
    else if piece == 3 { 0x00A800 }
    else if piece == 4 { 0xD82800 }
    else { 0x0058F8 }
}

/// The highlight colour of `piece`.
pub fn piece_color_light(piece: usize) -> (c: u32)
    requires
        piece < PIECE_COUNT,
    ensures
        c == spec_piece_color_light(piece as int),
{
    if piece == 0 { 0x6888FC }
    else if piece == 1 { 0xD8D8D8 }
    else if piece == 2 { 0xF878F8 }
    else if piece == 3 { 0xB8F818 }
    else if piece == 4 { 0xF87858 }
    else { 0x6888FC }
}

} // verus!
