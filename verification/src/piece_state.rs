use vstd::prelude::*;

verus! {

/// A square of the board, or the top-left corner of a piece's bounding box.
/// `x` grows to the right, `y` grows downwards.
#[derive(Debug, Clone, Copy, PartialEq, Eq, Hash)]
pub struct Pivot {
    pub x: i8,
    pub y: i8,
}

/// The state of one player's piece.
#[derive(Debug, Clone, Copy, PartialEq)]
pub struct PieceState {
    /// Which of the seven tetrominoes (0 to 6) the player controls.
    pub shape: u8,
    /// Top-left corner of the piece's bounding box on the board.
    pub pivot: Pivot,
    /// Quarter turns clockwise, 0 to 3.
    pub rotation: u8,
    pub player_id: usize,
    pub player_name: [char; 8],
    /// The time (milliseconds since the epoch) at which the piece next moves down.
    pub next_shift_time: Option<u128>,
    /// Whether the piece is fast dropping.
    pub fast_drop: bool,
}

/// One square of a piece that has come to rest.
#[derive(Debug, Clone, Copy, PartialEq)]
pub struct BlockState {
    /// The shape of the piece the square came from, which decides its colour.
    pub original_shape: u8,
    pub position: Pivot,
}

} // verus!
