use vstd::prelude::*;

verus! {

// The seven tetrominoes, each a square matrix stored row by row.
const PIECE_Z: [bool; 9] = [true, true, false, false, true, true, false, false, false];

const PIECE_S: [bool; 9] = [false, true, true, true, true, false, false, false, false];

const PIECE_J: [bool; 9] = [true, false, false, true, true, true, false, false, false];

const PIECE_L: [bool; 9] = [false, false, true, true, true, true, false, false, false];

const PIECE_T: [bool; 9] = [false, true, false, true, true, true, false, false, false];

const PIECE_I: [bool; 16] = [
    false, false, false, false,
    true, true, true, true,
    false, false, false, false,
    false, false, false, false,
];

const PIECE_O: [bool; 16] = [
    false, false, false, false,
    false, true, true, false,
    false, true, true, false,
    false, false, false, false,
];

/// The matrix of shape `n` (Z, S, J, L, T, I, O for 0 to 6), row by row.
pub open spec fn shape_cells(n: int) -> Seq<bool> {
    if n == 0 {
        seq![true, true, false, false, true, true, false, false, false]
    } else if n == 1 {
        seq![false, true, true, true, true, false, false, false, false]
    } else if n == 2 {
        seq![true, false, false, true, true, true, false, false, false]
    } else if n == 3 {
        seq![false, false, true, true, true, true, false, false, false]
    } else if n == 4 {
        seq![false, true, false, true, true, true, false, false, false]
    } else if n == 5 {
        seq![
            false, false, false, false,
            true, true, true, true,
            false, false, false, false,
            false, false, false, false,
        ]
    } else {
        seq![
            false, false, false, false,
            false, true, true, false,
            false, true, true, false,
            false, false, false, false,
        ]
    }
}

/// Side of the square matrix that a piece of `len` cells is stored in.
pub open spec fn matrix_width(len: int) -> int {
    if len == 9 {
        3
    } else {
        4
    }
}

/// Whether column `x`, row `y` lies inside a matrix of `len` cells.
pub open spec fn in_matrix(len: int, x: int, y: int) -> bool {
    0 <= x < matrix_width(len) && 0 <= y < matrix_width(len)
}

/// Where, in the unrotated matrix of `len` cells, the cell at column `x`,
/// row `y` of the matrix turned `rot` quarter turns clockwise is stored.
pub open spec fn rotated_index(len: int, x: int, y: int, rot: int) -> int {
    let w = matrix_width(len);
    if rot == 0 {
        y * w + x
    } else if rot == 1 {
        (w - (x + 1)) * w + y
    } else if rot == 2 {
        len - (y * w + x) - 1
    } else {
        x * w + (w - (y + 1))
    }
}

/// Whether the matrix `piece`, turned `rot` quarter turns clockwise, has a
/// block at column `x`, row `y` of its bounding box. A rotation other than
/// 0 to 3 has no blocks.
pub open spec fn block_at(piece: Seq<bool>, x: int, y: int, rot: int) -> bool {
    &&& in_matrix(piece.len() as int, x, y)
    &&& 0 <= rot < 4
    &&& piece[rotated_index(piece.len() as int, x, y, rot)]
}

/// The inputs on which `read_block` reads inside `piece`: its length fits an
/// `i8`, and every cell it may look up lies inside the slice.
pub open spec fn read_block_defined(piece: Seq<bool>, x: int, y: int, rot: int) -> bool {
    &&& piece.len() <= 127
    &&& (in_matrix(piece.len() as int, x, y) && 0 <= rot < 4) ==> 0 <= rotated_index(
        piece.len() as int,
        x,
        y,
        rot,
    ) < piece.len()
}

/// A matrix of nine or sixteen cells can be read at every cell, in every rotation.
pub proof fn lemma_square_matrix_defined(piece: Seq<bool>, x: int, y: int, rot: int)
    requires
        piece.len() == 9 || piece.len() == 16,
    ensures
        read_block_defined(piece, x, y, rot),
{
}

/// Determines whether there is a block in the rotated piece at column `x`,
/// row `y` of its bounding box, reading the unrotated matrix in place.
pub fn read_block(piece: &[bool], x: i8, y: i8, rot: u8) -> (r: bool)
    requires
        read_block_defined(piece@, x as int, y as int, rot as int),
    ensures
        r == block_at(piece@, x as int, y as int, rot as int),
{
    let length: i8 = piece.len() as i8;
    // Matrix width, 3 if there are 9 elements, 4 otherwise
    let width: i8 = if length == 9 {
        3
    } else {
        4
    };
    if x >= width || y >= width || x < 0 || y < 0 {
        return false;
    }
    assert(0 <= y * width <= 12 && 0 <= x * width <= 12) by (nonlinear_arith)
        requires
            0 <= x < width,
            0 <= y < width,
            width <= 4,
    ;
    assert(0 <= (width - (x + 1)) * width <= 12) by (nonlinear_arith)
        requires
            0 <= x < width,
            width <= 4,
    ;
    match rot {
        // Unrotated
        0 => {
            let index: i8 = y * width + x;
            piece[index as usize]
        },
        // Rotated clockwise, goes down with x, left with y
        1 => {
            let index: i8 = (width - (x + 1)) * width + y;
            piece[index as usize]
        },
        // 180 degrees, like unrotated but backwards
        2 => {
            let index: i8 = length - (y * width + x) - 1;
            piece[index as usize]
        },
        // Rotated counter-clockwise, goes up with x, right with y
        3 => {
            let index: i8 = x * width + (width - (y + 1));
            piece[index as usize]
        },
        // Invalid rotation
        _ => false,
    }
}

/// The matrix of a piece of shape `shape_num`.
pub fn get_shape(shape_num: u8) -> (r: &'static [bool])
    requires
        shape_num < 7,
    ensures
        r@ == shape_cells(shape_num as int),
{
    match shape_num {
        0 => {
            assert(PIECE_Z@ =~= shape_cells(0));
            PIECE_Z.as_slice()
        },
        1 => {
            assert(PIECE_S@ =~= shape_cells(1));
            PIECE_S.as_slice()
        },
        2 => {
            assert(PIECE_J@ =~= shape_cells(2));
            PIECE_J.as_slice()
        },
        3 => {
            assert(PIECE_L@ =~= shape_cells(3));
            PIECE_L.as_slice()
        },
        4 => {
            assert(PIECE_T@ =~= shape_cells(4));
            PIECE_T.as_slice()
        },
        5 => {
            assert(PIECE_I@ =~= shape_cells(5));
            PIECE_I.as_slice()
        },
        _ => {
            assert(PIECE_O@ =~= shape_cells(6));
            PIECE_O.as_slice()
        },
    }
}

} // verus!
