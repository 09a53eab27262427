//! Game logic of a cooperative, multiplayer Tetris server.

pub mod board;
pub mod connection;
pub mod frame;
pub mod game;
pub mod input;
pub mod laws;
pub mod piece_state;
pub mod rng;
pub mod shapes;
pub mod tetris;

pub use crate::game::{next_piece, peek_next_pieces};
pub use crate::input::KeyState;
pub use crate::piece_state::{BlockState, PieceState, Pivot};
pub use crate::shapes::{get_shape, read_block};
pub use crate::tetris::{clear_lines, fallen_blocks_collision, screen_collision, update_state, CollisionType};
