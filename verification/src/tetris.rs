use vstd::prelude::*;
use std::collections::HashMap;
use vstd::std_specs::iter::IteratorSpec;
use crate::board::FallenBlocks;
use crate::input::KeyState;
use crate::piece_state::{PieceState, Pivot};
use crate::shapes::{block_at, get_shape, lemma_square_matrix_defined, matrix_width, read_block, shape_cells};

verus! {

broadcast use vstd::std_specs::hash::group_hash_axioms;

/// Width, and height, of the board in squares.
pub const BOARD_WIDTH: i8 = 20;

/// The active pieces, keyed by the id of the player who controls each.
pub type ActivePlayersType = HashMap<usize, PieceState>;

/// How a piece leaves the board, if it does.
#[derive(Debug)]
pub enum CollisionType {
    Ceiling,
    Wall,
    Floor,
    NoCollision,
}

/// The matrix of piece `p`.
pub open spec fn piece_cells(p: PieceState) -> Seq<bool> {
    shape_cells(p.shape as int)
}

/// Side of the bounding box of piece `p`.
pub open spec fn piece_width(p: PieceState) -> int {
    matrix_width(piece_cells(p).len() as int)
}

/// Whether piece `p` has a block at column `x`, row `y` of its bounding box.
pub open spec fn has_block(p: PieceState, x: int, y: int) -> bool {
    block_at(piece_cells(p), x, y, p.rotation as int)
}

/// Whether piece `p` covers board square `sq`.
pub open spec fn occupies(p: PieceState, sq: (int, int)) -> bool {
    has_block(p, sq.0 - p.pivot.x, sq.1 - p.pivot.y)
}

/// Whether `(x, y)` lies in the bounding box of piece `p`.
pub open spec fn in_box(p: PieceState, x: int, y: int) -> bool {
    0 <= x < piece_width(p) && 0 <= y < piece_width(p)
}

/// How the block of `p` at `(x, y)` of its bounding box leaves the board:
/// through a side wall, the ceiling or the floor, checked in that order.
pub open spec fn block_exit(p: PieceState, x: int, y: int) -> CollisionType {
    if !has_block(p, x, y) {
        CollisionType::NoCollision
    } else if p.pivot.x + x >= BOARD_WIDTH || p.pivot.x + x < 0 {
        CollisionType::Wall
    } else if p.pivot.y + y < 0 {
        CollisionType::Ceiling
    } else if p.pivot.y + y >= BOARD_WIDTH {
        CollisionType::Floor
    } else {
        CollisionType::NoCollision
    }
}

/// Whether `(x1, y1)` comes before `(x2, y2)` when the bounding box is read
/// row by row, from the top.
pub open spec fn reads_before(x1: int, y1: int, x2: int, y2: int) -> bool {
    y1 < y2 || (y1 == y2 && x1 < x2)
}

/// Whether the block of `p` at `(x, y)` is the first one, in reading order,
/// that leaves the board.
pub open spec fn first_exit(p: PieceState, x: int, y: int) -> bool {
    &&& in_box(p, x, y)
    &&& block_exit(p, x, y) != CollisionType::NoCollision
    &&& forall|x2: int, y2: int|
        in_box(p, x2, y2) && reads_before(x2, y2, x, y) ==> #[trigger] block_exit(p, x2, y2)
            == CollisionType::NoCollision
}

/// How piece `p` leaves the board: the exit of its first block, in reading
/// order, that lies off the board, or `NoCollision` when every block is on it.
pub open spec fn screen_exit(p: PieceState) -> CollisionType {
    if exists|x: int, y: int| first_exit(p, x, y) {
        let (x, y) = choose|x: int, y: int| first_exit(p, x, y);
        block_exit(p, x, y)
    } else {
        CollisionType::NoCollision
    }
}

/// Whether piece `p` covers a square of `fallen`, or leaves the board
/// through the floor.
pub open spec fn hits_fallen(p: PieceState, fallen: Map<(int, int), u8>) -> bool {
    ||| screen_exit(p) == CollisionType::Floor
    ||| exists|x: int, y: int|
        in_box(p, x, y) && has_block(p, x, y) && #[trigger] fallen.contains_key(
            (p.pivot.x + x, p.pivot.y + y),
        )
}

/// Whether pieces `p` and `o` cover a common square.
pub open spec fn overlaps(p: PieceState, o: PieceState) -> bool {
    exists|x: int, y: int|
        in_box(p, x, y) && #[trigger] has_block(p, x, y) && has_block(
            o,
            x + p.pivot.x - o.pivot.x,
            y + p.pivot.y - o.pivot.y,
        )
}

/// Whether piece `p` covers a square of another player's piece in `active`.
pub open spec fn hits_player(p: PieceState, active: Map<usize, PieceState>) -> bool {
    exists|k: usize|
        #[trigger] active.contains_key(k) && k != p.player_id && overlaps(p, active[k])
}

/// Whether piece `p` may not stand where it is: it leaves the board through
/// a side wall or the floor, or covers a fallen block or another player's piece.
pub open spec fn collides(
    p: PieceState,
    active: Map<usize, PieceState>,
    fallen: Map<(int, int), u8>,
) -> bool {
    ||| screen_exit(p) == CollisionType::Wall
    ||| hits_fallen(p, fallen)
    ||| hits_player(p, active)
}

/// The inputs on which the board checks of `p` stay within `i8` arithmetic.
pub open spec fn screen_defined(p: PieceState) -> bool {
    p.shape < 7 && p.pivot.x <= 124 && p.pivot.y <= 124
}

/// The inputs on which comparing `p` against the other players' pieces stays
/// within `i8` arithmetic and known shapes.
pub open spec fn players_defined(p: PieceState, active: Map<usize, PieceState>) -> bool {
    forall|k: usize|
        #[trigger] active.contains_key(k) && k != p.player_id ==> {
            &&& active[k].shape < 7
            &&& -128 <= p.pivot.x - active[k].pivot.x <= 124
            &&& -128 <= p.pivot.y - active[k].pivot.y <= 124
        }
}

pub(crate) proof fn lemma_first_exit_unique(p: PieceState, x1: int, y1: int, x2: int, y2: int)
    requires
        first_exit(p, x1, y1),
        first_exit(p, x2, y2),
    ensures
        x1 == x2 && y1 == y2,
{
    if reads_before(x1, y1, x2, y2) {
        assert(block_exit(p, x1, y1) == CollisionType::NoCollision);
    } else if reads_before(x2, y2, x1, y1) {
        assert(block_exit(p, x2, y2) == CollisionType::NoCollision);
    }
}

pub(crate) proof fn lemma_screen_exit_at(p: PieceState, x: int, y: int)
    requires
        first_exit(p, x, y),
    ensures
        screen_exit(p) == block_exit(p, x, y),
{
    let (x2, y2) = choose|x2: int, y2: int| first_exit(p, x2, y2);
    lemma_first_exit_unique(p, x, y, x2, y2);
}

proof fn lemma_piece_shape(p: PieceState)
    requires
        p.shape < 7,
    ensures
        piece_cells(p).len() == 9 || piece_cells(p).len() == 16,
        piece_width(p) == 3 || piece_width(p) == 4,
        piece_cells(p).len() == 9 <==> piece_width(p) == 3,
{
}

/// Checks how a piece leaves the board: the first of its blocks, row by row,
/// that lies off the board decides whether it leaves through a wall, the
/// ceiling or the floor.
pub fn screen_collision(piece: &PieceState) -> (r: CollisionType)
    requires
        screen_defined(*piece),
    ensures
        r == screen_exit(*piece),
{
    let this_shape = get_shape(piece.shape);
    let width: i8 = if this_shape.len() == 9 {
        3
    } else {
        4
    };
    let this_origin = piece.pivot;
    proof {
        lemma_piece_shape(*piece);
    }
    let mut y: i8 = 0;
    while y < width
        invariant
            this_shape@ == piece_cells(*piece),
            width == piece_width(*piece),
            this_origin == piece.pivot,
            screen_defined(*piece),
            0 <= y <= width,
            forall|x2: int, y2: int|
                in_box(*piece, x2, y2) && y2 < y ==> #[trigger] block_exit(*piece, x2, y2)
                    == CollisionType::NoCollision,
        decreases width - y,
    {
        let mut x: i8 = 0;
        while x < width
            invariant
                this_shape@ == piece_cells(*piece),
                width == piece_width(*piece),
                this_origin == piece.pivot,
                screen_defined(*piece),
                0 <= y < width,
                0 <= x <= width,
                forall|x2: int, y2: int|
                    in_box(*piece, x2, y2) && reads_before(x2, y2, x as int, y as int)
                        ==> #[trigger] block_exit(*piece, x2, y2) == CollisionType::NoCollision,
            decreases width - x,
        {
            let abs_x = x + this_origin.x;
            let abs_y = y + this_origin.y;
            proof {
                lemma_square_matrix_defined(this_shape@, x as int, y as int, piece.rotation as int);
            }
            if read_block(this_shape, x, y, piece.rotation) {
                if abs_x >= BOARD_WIDTH || abs_x < 0 {
                    proof {
                        lemma_screen_exit_at(*piece, x as int, y as int);
                    }
                    return CollisionType::Wall;
                }
                if abs_y < 0 {
                    proof {
                        lemma_screen_exit_at(*piece, x as int, y as int);
                    }
                    return CollisionType::Ceiling;
                }
                if abs_y >= BOARD_WIDTH {
                    proof {
                        lemma_screen_exit_at(*piece, x as int, y as int);
                    }
                    return CollisionType::Floor;
                }
            }
            x = x + 1;
        }
        y = y + 1;
    }
    proof {
        if exists|x: int, y: int| first_exit(*piece, x, y) {
            let (x2, y2) = choose|x: int, y: int| first_exit(*piece, x, y);
            assert(block_exit(*piece, x2, y2) == CollisionType::NoCollision);
        }
    }
    CollisionType::NoCollision
}

/// Checks whether a piece rests on the bottom of the board or covers one of
/// the fallen blocks.
pub fn fallen_blocks_collision(piece: &PieceState, fallen_blocks: &FallenBlocks) -> (r: bool)
    requires
        screen_defined(*piece),
    ensures
        r == hits_fallen(*piece, fallen_blocks@),
{
    // Check if we collide with the bottom of the screen
    let bottom_screen_collision = match screen_collision(piece) {
        CollisionType::Floor => true,
        _ => false,
    };
    if bottom_screen_collision {
        return true;
    }
    // check if we collide with any of the bottom blocks
    let this_shape = get_shape(piece.shape);
    let width: i8 = if this_shape.len() == 9 {
        3
    } else {
        4
    };
    let this_origin = piece.pivot;
    proof {
        lemma_piece_shape(*piece);
    }
    let mut y: i8 = 0;
    while y < width
        invariant
            this_shape@ == piece_cells(*piece),
            width == piece_width(*piece),
            this_origin == piece.pivot,
            screen_defined(*piece),
            screen_exit(*piece) != CollisionType::Floor,
            0 <= y <= width,
            forall|x2: int, y2: int|
                in_box(*piece, x2, y2) && y2 < y && has_block(*piece, x2, y2)
                    ==> !#[trigger] fallen_blocks@.contains_key(
                    (piece.pivot.x + x2, piece.pivot.y + y2),
                ),
        decreases width - y,
    {
        let mut x: i8 = 0;
        while x < width
            invariant
                this_shape@ == piece_cells(*piece),
                width == piece_width(*piece),
                this_origin == piece.pivot,
                screen_defined(*piece),
                screen_exit(*piece) != CollisionType::Floor,
                0 <= y < width,
                0 <= x <= width,
                forall|x2: int, y2: int|
                    in_box(*piece, x2, y2) && reads_before(x2, y2, x as int, y as int)
                        && has_block(*piece, x2, y2) ==> !#[trigger] fallen_blocks@.contains_key(
                        (piece.pivot.x + x2, piece.pivot.y + y2),
                    ),
            decreases width - x,
        {
            let abs_x = x + this_origin.x;
            let abs_y = y + this_origin.y;
            proof {
                lemma_square_matrix_defined(this_shape@, x as int, y as int, piece.rotation as int);
            }
            if read_block(this_shape, x, y, piece.rotation) {
                // if the position of one of the blocks that makes up piece overlaps
                // with the location of a block in fallen_blocks, we have a collision
                if fallen_blocks.contains_key(&Pivot { x: abs_x, y: abs_y }) {
                    proof {
                        assert(in_box(*piece, x as int, y as int) && has_block(*piece, x as int, y as int));
                        assert(fallen_blocks@.contains_key(
                            (piece.pivot.x + x as int, piece.pivot.y + y as int),
                        ));
                    }
                    return true;
                }
            }
            x = x + 1;
        }
        y = y + 1;
    }
    false
}

/// Checks whether a piece covers a square of another player's active piece.
pub fn player_collision(piece: &PieceState, active_players: &ActivePlayersType) -> (r: bool)
    requires
        screen_defined(*piece),
        players_defined(*piece, active_players@),
    ensures
        r == hits_player(*piece, active_players@),
{
    let this_shape = get_shape(piece.shape);
    let width: i8 = if this_shape.len() == 9 {
        3
    } else {
        4
    };
    let this_origin = piece.pivot;
    proof {
        lemma_piece_shape(*piece);
    }
    // Check if collides with other players
    for entry in it: active_players.iter()
        invariant
            it.seq() == active_players.iter().remaining(),
            this_shape@ == piece_cells(*piece),
            width == piece_width(*piece),
            this_origin == piece.pivot,
            screen_defined(*piece),
            players_defined(*piece, active_players@),
            forall|j: int|
                0 <= j < it.index() ==> !(*it.seq()[j].0 != piece.player_id && #[trigger] overlaps(
                    *piece,
                    *it.seq()[j].1,
                )),
    {
        let (other_piece_id, other_piece) = entry;
        proof {
            assert(active_players@.contains_key(*other_piece_id));
            assert(active_players@[*other_piece_id] == *other_piece);
        }
        if piece.player_id != *other_piece_id {
            let other_origin = other_piece.pivot;
            let other_shape = get_shape(other_piece.shape);
            let x_offset: i8 = this_origin.x - other_origin.x;
            let y_offset: i8 = this_origin.y - other_origin.y;
            let mut x: i8 = 0;
            while x < width
                invariant
                    this_shape@ == piece_cells(*piece),
                    other_shape@ == piece_cells(*other_piece),
                    width == piece_width(*piece),
                    this_origin == piece.pivot,
                    x_offset == piece.pivot.x - other_piece.pivot.x,
                    y_offset == piece.pivot.y - other_piece.pivot.y,
                    -128 <= x_offset <= 124,
                    -128 <= y_offset <= 124,
                    other_piece.shape < 7,
                    active_players@.contains_key(*other_piece_id),
                    active_players@[*other_piece_id] == *other_piece,
                    *other_piece_id != piece.player_id,
                    0 <= x <= width,
                    forall|x2: int, y2: int|
                        in_box(*piece, x2, y2) && x2 < x && #[trigger] has_block(*piece, x2, y2)
                            ==> !has_block(
                            *other_piece,
                            x2 + piece.pivot.x - other_piece.pivot.x,
                            y2 + piece.pivot.y - other_piece.pivot.y,
                        ),
                decreases width - x,
            {
                let mut y: i8 = 0;
                while y < width
                    invariant
                        this_shape@ == piece_cells(*piece),
                        other_shape@ == piece_cells(*other_piece),
                        width == piece_width(*piece),
                        this_origin == piece.pivot,
                        x_offset == piece.pivot.x - other_piece.pivot.x,
                        y_offset == piece.pivot.y - other_piece.pivot.y,
                        -128 <= x_offset <= 124,
                        -128 <= y_offset <= 124,
                        other_piece.shape < 7,
                        active_players@.contains_key(*other_piece_id),
                        active_players@[*other_piece_id] == *other_piece,
                        *other_piece_id != piece.player_id,
                        0 <= x < width,
                        0 <= y <= width,
                        forall|x2: int, y2: int|
                            in_box(*piece, x2, y2) && (x2 < x || (x2 == x && y2 < y))
                                && #[trigger] has_block(*piece, x2, y2) ==> !has_block(
                                *other_piece,
                                x2 + piece.pivot.x - other_piece.pivot.x,
                                y2 + piece.pivot.y - other_piece.pivot.y,
                            ),
                    decreases width - y,
                {
                    proof {
                        lemma_square_matrix_defined(this_shape@, x as int, y as int, piece.rotation as int);
                        lemma_piece_shape(*other_piece);
                        lemma_square_matrix_defined(
                            other_shape@,
                            (x + x_offset) as int,
                            (y + y_offset) as int,
                            other_piece.rotation as int,
                        );
                    }
                    if read_block(this_shape, x, y, piece.rotation) && read_block(
                        other_shape,
                        x + x_offset,
                        y + y_offset,
                        other_piece.rotation,
                    ) {
                        proof {
                            assert(in_box(*piece, x as int, y as int));
                            assert(has_block(*piece, x as int, y as int));
                            assert(has_block(
                                *other_piece,
                                x + piece.pivot.x - other_piece.pivot.x,
                                y + piece.pivot.y - other_piece.pivot.y,
                            ));
                            assert(overlaps(*piece, *other_piece));
                            assert(hits_player(*piece, active_players@));
                        }
                        return true;
                    }
                    y = y + 1;
                }
                x = x + 1;
            }
            assert(!overlaps(*piece, *other_piece));
        }
    }
    proof {
        let s = active_players.iter().remaining();
        assert forall|k: usize| #[trigger]
            active_players@.contains_key(k) && k != piece.player_id implies !overlaps(
            *piece,
            active_players@[k],
        ) by {
            assert(s.contains((&k, &active_players@[k])));
            let j = choose|j: int| 0 <= j < s.len() && s[j] == (&k, &active_players@[k]);
            assert(!(*s[j].0 != piece.player_id && overlaps(*piece, *s[j].1)));
        }
    }
    false
}

/// Checks whether a piece may not stand where it is: it leaves the board
/// through a side wall or the floor, or covers a fallen block or another
/// player's piece.
pub fn collision(
    piece: &PieceState,
    active_players: &ActivePlayersType,
    fallen_blocks: &FallenBlocks,
) -> (r: bool)
    requires
        screen_defined(*piece),
        screen_exit(*piece) != CollisionType::Wall && !hits_fallen(*piece, fallen_blocks@)
            ==> players_defined(*piece, active_players@),
    ensures
        r == collides(*piece, active_players@, fallen_blocks@),
{
    // if we hit a wall, return true
    let wall_collision = match screen_collision(piece) {
        CollisionType::Wall => true,
        _ => false,
    };
    if wall_collision {
        return true;
    }
    // if we hit a fallen block, return true
    if fallen_blocks_collision(piece, fallen_blocks) {
        return true;
    }
    player_collision(piece, active_players)
}

/// Whether square `sq` lies on the board.
pub open spec fn on_board(sq: (int, int)) -> bool {
    0 <= sq.0 < BOARD_WIDTH && 0 <= sq.1 < BOARD_WIDTH
}

/// Whether every square of board row `r` holds a block.
pub open spec fn row_full(m: Map<(int, int), u8>, r: int) -> bool {
    forall|c: int| 0 <= c < BOARD_WIDTH ==> #[trigger] m.contains_key((c, r))
}

/// The number of full rows of the board below row `r`.
pub open spec fn full_rows_below(m: Map<(int, int), u8>, r: int) -> int
    decreases BOARD_WIDTH - r,
{
    if r >= BOARD_WIDTH - 1 {
        0
    } else {
        full_rows_below(m, r + 1) + if row_full(m, r + 1) {
            1int
        } else {
            0int
        }
    }
}

/// The number of full rows on the board.
pub open spec fn lines_cleared(m: Map<(int, int), u8>) -> int {
    full_rows_below(m, -1)
}

/// Whether board row `r` is kept when the full rows are cleared, and comes to
/// rest on row `y`: it moves down by the number of full rows below it.
pub open spec fn lands_on(m: Map<(int, int), u8>, r: int, y: int) -> bool {
    0 <= r < BOARD_WIDTH && !row_full(m, r) && r + full_rows_below(m, r) == y
}

/// The board once the rows below row `row` are dealt with: their full rows
/// cleared and the others moved down onto the rows that the cleared ones
/// free. Rows from `row` up, and squares off the board, are as in `m`.
pub open spec fn cleared_below(m: Map<(int, int), u8>, row: int) -> Map<(int, int), u8> {
    Map::new(
        |sq: (int, int)|
            if on_board(sq) && sq.1 > row {
                exists|r: int| r > row && lands_on(m, r, sq.1) && #[trigger] m.contains_key((sq.0, r))
            } else {
                m.contains_key(sq)
            },
        |sq: (int, int)|
            if on_board(sq) && sq.1 > row {
                m[(
                    sq.0,
                    choose|r: int| r > row && lands_on(m, r, sq.1) && #[trigger] m.contains_key((sq.0, r)),
                )]
            } else {
                m[sq]
            },
    )
}

/// The board once every full row is cleared and the rows above each cleared
/// row have moved down to close the gap.
pub open spec fn cleared_board(m: Map<(int, int), u8>) -> Map<(int, int), u8> {
    cleared_below(m, -1)
}

/// The points that clearing `n` rows at once earns: 100 a row, 800 for four.
pub open spec fn line_points(n: int) -> int {
    if n == 4 {
        800
    } else {
        100 * n
    }
}

pub(crate) proof fn lemma_full_rows_below_range(m: Map<(int, int), u8>, r: int)
    requires
        -1 <= r <= BOARD_WIDTH - 1,
    ensures
        0 <= full_rows_below(m, r) <= BOARD_WIDTH - 1 - r,
    decreases BOARD_WIDTH - r,
{
    if r < BOARD_WIDTH - 1 {
        lemma_full_rows_below_range(m, r + 1);
    }
}

proof fn lemma_full_rows_between(m: Map<(int, int), u8>, r1: int, r2: int)
    requires
        r1 < r2 <= BOARD_WIDTH - 1,
        !row_full(m, r2),
    ensures
        full_rows_below(m, r1) <= full_rows_below(m, r2) + (r2 - r1) - 1,
    decreases r2 - r1,
{
    if r1 + 1 < r2 {
        lemma_full_rows_between(m, r1 + 1, r2);
    }
}

/// Two kept rows never land on the same row.
pub(crate) proof fn lemma_lands_unique(m: Map<(int, int), u8>, r1: int, r2: int, y: int)
    requires
        lands_on(m, r1, y),
        lands_on(m, r2, y),
    ensures
        r1 == r2,
{
    if r1 < r2 {
        lemma_full_rows_between(m, r1, r2);
    } else if r2 < r1 {
        lemma_full_rows_between(m, r2, r1);
    }
}

/// A kept row lands below its own position by the number of full rows
/// below it, and below every kept row above it.
proof fn lemma_lands_below(m: Map<(int, int), u8>, r1: int, r2: int)
    requires
        0 <= r1 < r2 < BOARD_WIDTH,
        !row_full(m, r2),
    ensures
        r1 + full_rows_below(m, r1) < r2 + full_rows_below(m, r2),
{
    lemma_full_rows_between(m, r1, r2);
}

/// The square that `cleared_below(m, row)` holds at `sq`, when it comes from a
/// kept row `r` below `row`.
pub(crate) proof fn lemma_cleared_below_source(m: Map<(int, int), u8>, row: int, sq: (int, int), r: int)
    requires
        on_board(sq),
        sq.1 > row,
        r > row,
        lands_on(m, r, sq.1),
    ensures
        cleared_below(m, row).contains_key(sq) == m.contains_key((sq.0, r)),
        m.contains_key((sq.0, r)) ==> cleared_below(m, row)[sq] == m[(sq.0, r)],
{
    if m.contains_key((sq.0, r)) {
        let r2 = choose|r2: int| r2 > row && lands_on(m, r2, sq.1) && #[trigger] m.contains_key((sq.0, r2));
        lemma_lands_unique(m, r, r2, sq.1);
    } else {
        if exists|r2: int| r2 > row && lands_on(m, r2, sq.1) && #[trigger] m.contains_key((sq.0, r2)) {
            let r2 = choose|r2: int| r2 > row && lands_on(m, r2, sq.1) && #[trigger] m.contains_key((sq.0, r2));
            lemma_lands_unique(m, r, r2, sq.1);
        }
    }
}

/// The squares of `cleared_below(m, row)` on a row below `row` that no kept row
/// lands on are empty.
pub(crate) proof fn lemma_cleared_below_empty(m: Map<(int, int), u8>, row: int, sq: (int, int))
    requires
        on_board(sq),
        sq.1 > row,
        forall|r: int| r > row ==> !#[trigger] lands_on(m, r, sq.1),
    ensures
        !cleared_below(m, row).contains_key(sq),
{
    if exists|r2: int| r2 > row && lands_on(m, r2, sq.1) && #[trigger] m.contains_key((sq.0, r2)) {
        let r2 = choose|r2: int| r2 > row && lands_on(m, r2, sq.1) && #[trigger] m.contains_key((sq.0, r2));
        assert(lands_on(m, r2, sq.1));
    }
}

/// On a row below `row` that row `row` does not land on, `cleared_below(m, row - 1)`
/// agrees with `cleared_below(m, row)`.
proof fn lemma_cleared_below_step(m: Map<(int, int), u8>, row: int, sq: (int, int))
    requires
        on_board(sq),
        sq.1 > row,
        !lands_on(m, row, sq.1),
    ensures
        cleared_below(m, row - 1).contains_key(sq) == cleared_below(m, row).contains_key(sq),
        cleared_below(m, row).contains_key(sq) ==> cleared_below(m, row - 1)[sq] == cleared_below(
            m,
            row,
        )[sq],
{
    if exists|r2: int| r2 > row - 1 && lands_on(m, r2, sq.1) && #[trigger] m.contains_key((sq.0, r2)) {
        let r2 = choose|r2: int| r2 > row - 1 && lands_on(m, r2, sq.1) && #[trigger] m.contains_key((sq.0, r2));
        lemma_cleared_below_source(m, row, sq, r2);
        lemma_cleared_below_source(m, row - 1, sq, r2);
    } else {
        if exists|r2: int| r2 > row && lands_on(m, r2, sq.1) && #[trigger] m.contains_key((sq.0, r2)) {
            let r2 = choose|r2: int| r2 > row && lands_on(m, r2, sq.1) && #[trigger] m.contains_key((sq.0, r2));
            assert(r2 > row - 1);
        }
    }
}

/// No kept row lands on a row `y` at or above a kept row `row` below which
/// some rows are full, other than at `row + full_rows_below(m, row)`.
proof fn lemma_nothing_lands_above(m: Map<(int, int), u8>, row: int, y: int)
    requires
        0 <= row < BOARD_WIDTH,
        !row_full(m, row),
        row <= y < row + full_rows_below(m, row),
    ensures
        forall|r: int| r > row - 1 ==> !#[trigger] lands_on(m, r, y),
{
    assert forall|r: int| r > row - 1 implies !#[trigger] lands_on(m, r, y) by {
        if r > row && lands_on(m, r, y) {
            lemma_lands_below(m, row, r);
            lemma_full_rows_below_range(m, r);
        }
    }
}

/// Clearing a full row `row`: removing its squares from `cleared_below(m, row)`
/// gives `cleared_below(m, row - 1)`.
proof fn lemma_clear_full_row(m: Map<(int, int), u8>, row: int)
    requires
        0 <= row < BOARD_WIDTH,
        row_full(m, row),
    ensures
        Map::new(
            |sq: (int, int)|
                cleared_below(m, row).contains_key(sq) && !(sq.1 == row && 0 <= sq.0 < BOARD_WIDTH),
            |sq: (int, int)| cleared_below(m, row)[sq],
        ) =~= cleared_below(m, row - 1),
{
    let a = Map::new(
        |sq: (int, int)|
            cleared_below(m, row).contains_key(sq) && !(sq.1 == row && 0 <= sq.0 < BOARD_WIDTH),
        |sq: (int, int)| cleared_below(m, row)[sq],
    );
    let b = cleared_below(m, row - 1);
    assert forall|sq: (int, int)|
        #![trigger a.contains_key(sq)]
        #![trigger b.contains_key(sq)]
        a.contains_key(sq) == b.contains_key(sq) && (a.contains_key(sq) ==> a[sq] == b[sq]) by {
        if on_board(sq) && sq.1 > row - 1 {
            if sq.1 == row {
                assert forall|r: int| r > row - 1 implies !#[trigger] lands_on(m, r, sq.1) by {
                    if r > row && lands_on(m, r, sq.1) {
                        lemma_full_rows_below_range(m, r);
                    }
                }
                lemma_cleared_below_empty(m, row - 1, sq);
            } else {
                lemma_cleared_below_step(m, row, sq);
            }
        }
    }
    assert(a.dom() =~= b.dom());
    assert(a =~= b);
}

/// A kept row with no full row below it stays where it is.
proof fn lemma_keep_row(m: Map<(int, int), u8>, row: int)
    requires
        0 <= row < BOARD_WIDTH,
        !row_full(m, row),
        full_rows_below(m, row) == 0,
    ensures
        cleared_below(m, row) =~= cleared_below(m, row - 1),
{
    let a = cleared_below(m, row);
    let b = cleared_below(m, row - 1);
    assert forall|sq: (int, int)|
        #![trigger a.contains_key(sq)]
        #![trigger b.contains_key(sq)]
        a.contains_key(sq) == b.contains_key(sq) && (a.contains_key(sq) ==> a[sq] == b[sq]) by {
        if on_board(sq) && sq.1 > row - 1 {
            if sq.1 == row {
                lemma_cleared_below_source(m, row - 1, sq, row);
            } else {
                lemma_cleared_below_step(m, row, sq);
            }
        }
    }
    assert(a.dom() =~= b.dom());
    assert(a =~= b);
}

/// The board with the squares of row `row` left of column `col` moved onto
/// row `t`, when row `t` is empty there.
pub open spec fn moved_prefix(m: Map<(int, int), u8>, row: int, t: int, col: int) -> Map<
    (int, int),
    u8,
> {
    Map::new(
        |sq: (int, int)|
            if sq.1 == row && 0 <= sq.0 < col {
                false
            } else if sq.1 == t && 0 <= sq.0 < col {
                m.contains_key((sq.0, row))
            } else {
                m.contains_key(sq)
            },
        |sq: (int, int)|
            if sq.1 == t && 0 <= sq.0 < col {
                m[(sq.0, row)]
            } else {
                m[sq]
            },
    )
}

/// A kept row with full rows below it moves down onto an empty row.
proof fn lemma_move_row(m: Map<(int, int), u8>, row: int)
    requires
        0 <= row < BOARD_WIDTH,
        !row_full(m, row),
        full_rows_below(m, row) > 0,
    ensures
        row + full_rows_below(m, row) < BOARD_WIDTH,
        forall|c: int|
            0 <= c < BOARD_WIDTH ==> !#[trigger] cleared_below(m, row).contains_key(
                (c, row + full_rows_below(m, row)),
            ),
        moved_prefix(cleared_below(m, row), row, row + full_rows_below(m, row), BOARD_WIDTH as int)
            =~= cleared_below(m, row - 1),
{
    let t = row + full_rows_below(m, row);
    lemma_full_rows_below_range(m, row);
    assert forall|c: int| 0 <= c < BOARD_WIDTH implies !#[trigger] cleared_below(
        m,
        row,
    ).contains_key((c, t)) by {
        assert forall|r: int| r > row implies !#[trigger] lands_on(m, r, t) by {
            if lands_on(m, r, t) {
                lemma_lands_below(m, row, r);
            }
        }
        lemma_cleared_below_empty(m, row, (c, t));
    }
    let a = moved_prefix(cleared_below(m, row), row, t, BOARD_WIDTH as int);
    let b = cleared_below(m, row - 1);
    assert forall|sq: (int, int)|
        #![trigger a.contains_key(sq)]
        #![trigger b.contains_key(sq)]
        a.contains_key(sq) == b.contains_key(sq) && (a.contains_key(sq) ==> a[sq] == b[sq]) by {
        if on_board(sq) && sq.1 > row - 1 {
            if sq.1 == row {
                lemma_nothing_lands_above(m, row, sq.1);
                lemma_cleared_below_empty(m, row - 1, sq);
            } else if sq.1 == t {
                lemma_cleared_below_source(m, row - 1, sq, row);
            } else {
                lemma_cleared_below_step(m, row, sq);
            }
        }
    }
    assert(a.dom() =~= b.dom());
    assert(a =~= b);
}

/// Clears any full rows, moving the rows above down, and adds the points
/// they earn to `score`: 100 a row, 800 for four rows at once.
pub fn clear_lines(fallen_blocks: &mut FallenBlocks, score: &mut u32)
    requires
        *old(score) + line_points(lines_cleared(old(fallen_blocks)@)) <= u32::MAX,
    ensures
        final(fallen_blocks)@ == cleared_board(old(fallen_blocks)@),
        *final(score) == *old(score) + line_points(lines_cleared(old(fallen_blocks)@)),
{
    let ghost m0 = fallen_blocks@;
    let mut offset: i8 = 0;
    let mut lines_cleared: u32 = 0;
    let mut row: i8 = BOARD_WIDTH - 1;
    proof {
        assert(fallen_blocks@ =~= cleared_below(m0, BOARD_WIDTH - 1));
    }
    while row >= 0
        invariant
            -1 <= row <= BOARD_WIDTH - 1,
            offset == full_rows_below(m0, row as int),
            0 <= offset <= BOARD_WIDTH - 1 - row,
            lines_cleared == offset,
            fallen_blocks@ == cleared_below(m0, row as int),
        decreases row + 1,
    {
        proof {
            lemma_full_rows_below_range(m0, row as int);
        }
        let ghost cur = fallen_blocks@;
        let mut is_full = true;
        let mut col: i8 = 0;
        while col < BOARD_WIDTH
            invariant_except_break
                0 <= col <= BOARD_WIDTH,
                is_full,
                forall|c: int| 0 <= c < col ==> #[trigger] cur.contains_key((c, row as int)),
            invariant
                0 <= row < BOARD_WIDTH,
                fallen_blocks@ == cur,
            ensures
                is_full == row_full(cur, row as int),
            decreases BOARD_WIDTH - col,
        {
            if !fallen_blocks.contains_key(&Pivot { x: col, y: row }) {
                is_full = false;
                break;
            }
            col = col + 1;
        }
        assert(row_full(cur, row as int) == row_full(m0, row as int)) by {
            assert forall|c: int| 0 <= c < BOARD_WIDTH implies #[trigger] cur.contains_key((c, row as int))
                == m0.contains_key((c, row as int)) by {
                assert(cur.contains_key((c, row as int)) == cleared_below(m0, row as int).contains_key((c, row as int)));
            }
            if row_full(m0, row as int) {
                assert forall|c: int| 0 <= c < BOARD_WIDTH implies #[trigger] cur.contains_key((c, row as int)) by {
                    assert(m0.contains_key((c, row as int)));
                }
            }
            if row_full(cur, row as int) {
                assert forall|c: int| 0 <= c < BOARD_WIDTH implies #[trigger] m0.contains_key((c, row as int)) by {
                    assert(cur.contains_key((c, row as int)));
                }
            }
        }
        // Need to clear the row if it is full
        if is_full {
            offset = offset + 1;
            let mut col: i8 = 0;
            while col < BOARD_WIDTH
                invariant
                    0 <= row < BOARD_WIDTH,
                    0 <= col <= BOARD_WIDTH,
                    fallen_blocks@ == Map::new(
                        |sq: (int, int)| cur.contains_key(sq) && !(sq.1 == row && 0 <= sq.0 < col),
                        |sq: (int, int)| cur[sq],
                    ),
                decreases BOARD_WIDTH - col,
            {
                let ghost before = fallen_blocks@;
                fallen_blocks.remove(&Pivot { x: col, y: row });
                assert(fallen_blocks@ =~= Map::new(
                    |sq: (int, int)| cur.contains_key(sq) && !(sq.1 == row && 0 <= sq.0 < col + 1),
                    |sq: (int, int)| cur[sq],
                ));
                col = col + 1;
            }
            proof {
                lemma_clear_full_row(m0, row as int);
                assert(fallen_blocks@ =~= cleared_below(m0, row - 1));
            }
            lines_cleared = lines_cleared + 1;
        } else if offset != 0 {
            // If the row is kept, move it down onto the rows freed below it
            proof {
                lemma_move_row(m0, row as int);
            }
            let ghost t = row + offset;
            let mut col: i8 = 0;
            while col < BOARD_WIDTH
                invariant
                    0 <= row < BOARD_WIDTH,
                    0 < offset,
                    t == row + offset < BOARD_WIDTH,
                    0 <= col <= BOARD_WIDTH,
                    forall|c: int| 0 <= c < BOARD_WIDTH ==> !#[trigger] cur.contains_key((c, t)),
                    fallen_blocks@ == moved_prefix(cur, row as int, t, col as int),
                decreases BOARD_WIDTH - col,
            {
                let pivot = Pivot { x: col, y: row };
                let fallen_pivot = Pivot { x: col, y: row + offset };
                match fallen_blocks.get(&pivot) {
                    Some(shape) => {
                        fallen_blocks.insert(fallen_pivot, shape);
                    },
                    None => {},
                }
                fallen_blocks.remove(&pivot);
                assert(fallen_blocks@ =~= moved_prefix(cur, row as int, t, col + 1));
                col = col + 1;
            }
        } else {
            proof {
                lemma_keep_row(m0, row as int);
            }
        }
        row = row - 1;
    }
    if lines_cleared == 4 {
        *score = *score + 800;
    } else {
        *score = *score + 100 * lines_cleared;
    }
}

const ROT_LIMIT: u8 = 4;

// Wall kick offsets: row `i` is the `i`-th position tried, column
// `2 * r + c` is for a turn from rotation `r`, clockwise (`c == 0`) or not.
pub const X_KICKS: [[i8; 8]; 4] = [
    [-1, 1, 1, 1, -1, 1, -1, -1],
    [-1, 1, 1, 1, -1, 1, -1, -1],
    [0, 0, 0, 0, 0, 0, 0, 0],
    [-1, 1, 1, 1, -1, 1, -1, -1],
];

pub const Y_KICKS: [[i8; 8]; 4] = [
    [0, 0, 0, 0, 0, 0, 0, 0],
    [1, 1, -1, -1, 1, 1, -1, -1],
    [-2, -2, 2, 2, -2, -2, 2, 2],
    [-2, -2, 2, 2, -2, -2, 2, 2],
];

pub const I_BLOCK_X_KICKS: [[i8; 8]; 4] = [
    [-2, -1, 2, -1, 1, 2, -2, 1],
    [1, 2, -1, 2, -2, -1, 1, -2],
    [-2, -1, 2, -1, 1, 2, -2, 1],
    [1, 2, -1, 2, -2, -1, 1, -2],
];

pub const I_BLOCK_Y_KICKS: [[i8; 8]; 4] = [
    [0, 0, 0, 0, 0, 0, 0, 0],
    [0, 0, 0, 0, 0, 0, 0, 0],
    [-1, 2, 1, 2, -2, 1, -1, -2],
    [2, -1, -2, -1, 1, -2, 2, 1],
];

/// The wall kick offsets `(dx, dy)` tried for the pieces other than the I
/// piece, in the order they are tried, for each of the eight kinds of turn.
pub open spec fn kick_table() -> Seq<Seq<(int, int)>> {
    seq![
        seq![(-1, 0), (1, 0), (1, 0), (1, 0), (-1, 0), (1, 0), (-1, 0), (-1, 0)],
        seq![(-1, 1), (1, 1), (1, -1), (1, -1), (-1, 1), (1, 1), (-1, -1), (-1, -1)],
        seq![(0, -2), (0, -2), (0, 2), (0, 2), (0, -2), (0, -2), (0, 2), (0, 2)],
        seq![(-1, -2), (1, -2), (1, 2), (1, 2), (-1, -2), (1, -2), (-1, 2), (-1, 2)],
    ]
}

/// The wall kick offsets tried for the I piece.
pub open spec fn i_kick_table() -> Seq<Seq<(int, int)>> {
    seq![
        seq![(-2, 0), (-1, 0), (2, 0), (-1, 0), (1, 0), (2, 0), (-2, 0), (1, 0)],
        seq![(1, 0), (2, 0), (-1, 0), (2, 0), (-2, 0), (-1, 0), (1, 0), (-2, 0)],
        seq![(-2, -1), (-1, 2), (2, 1), (-1, 2), (1, -2), (2, 1), (-2, -1), (1, -2)],
        seq![(1, 2), (2, -1), (-1, -2), (2, -1), (-2, 1), (-1, -2), (1, 2), (-2, 1)],
    ]
}

/// Which of the eight kinds of turn brought a piece to `rotation`.
pub open spec fn kick_column(rotation: int, clockwise: bool) -> int {
    let prev = if clockwise {
        (4 + rotation - 1) % 4
    } else {
        (rotation + 1) % 4
    };
    2 * prev + if clockwise {
        0int
    } else {
        1int
    }
}

/// The offset of the `attempt`-th wall kick tried for a piece of shape `shape`.
pub open spec fn kick_offset(shape: u8, attempt: int, column: int) -> (int, int) {
    if shape < 5 {
        kick_table()[attempt][column]
    } else {
        i_kick_table()[attempt][column]
    }
}

/// Piece `s` moved by `d`.
pub open spec fn shifted(s: PieceState, d: (int, int)) -> PieceState {
    PieceState { pivot: Pivot { x: (s.pivot.x + d.0) as i8, y: (s.pivot.y + d.1) as i8 }, ..s }
}

/// The first of the wall kicks from the `attempt`-th on that puts `s`
/// somewhere it may stand, or `s` itself when none does.
pub open spec fn kick_search(
    s: PieceState,
    clockwise: bool,
    active: Map<usize, PieceState>,
    fallen: Map<(int, int), u8>,
    attempt: int,
) -> PieceState
    decreases 4 - attempt,
{
    if attempt >= 4 || attempt < 0 {
        s
    } else {
        let t = shifted(s, kick_offset(s.shape, attempt, kick_column(s.rotation as int, clockwise)));
        if !collides(t, active, fallen) {
            t
        } else {
            kick_search(s, clockwise, active, fallen, attempt + 1)
        }
    }
}

/// Where a just turned piece `s` ends up: where it is if it may stand there,
/// else at the first wall kick that may, else where it is.
pub open spec fn wallkick_result(
    s: PieceState,
    clockwise: bool,
    active: Map<usize, PieceState>,
    fallen: Map<(int, int), u8>,
) -> PieceState {
    if !collides(s, active, fallen) {
        s
    } else {
        kick_search(s, clockwise, active, fallen, 0)
    }
}

/// Whether `collision` can check piece `t` within `i8` arithmetic and known
/// shapes: its board checks can, and so can its comparison with the other
/// pieces, when that comparison is reached.
pub open spec fn check_defined(
    t: PieceState,
    active: Map<usize, PieceState>,
    fallen: Map<(int, int), u8>,
) -> bool {
    &&& screen_defined(t)
    &&& screen_exit(t) != CollisionType::Wall && !hits_fallen(t, fallen) ==> players_defined(t, active)
}

/// Whether trying the wall kicks for `s` from the `attempt`-th on stays within
/// `i8` arithmetic: each kick tried moves the pivot within the range of an
/// `i8` to a piece that can be checked, until one fits.
pub open spec fn kicks_defined(
    s: PieceState,
    clockwise: bool,
    active: Map<usize, PieceState>,
    fallen: Map<(int, int), u8>,
    attempt: int,
) -> bool
    decreases 4 - attempt,
{
    if attempt >= 4 || attempt < 0 {
        true
    } else {
        let d = kick_offset(s.shape, attempt, kick_column(s.rotation as int, clockwise));
        let t = shifted(s, d);
        &&& -128 <= s.pivot.x + d.0 <= 127
        &&& -128 <= s.pivot.y + d.1 <= 127
        &&& check_defined(t, active, fallen)
        &&& collides(t, active, fallen) ==> kicks_defined(s, clockwise, active, fallen, attempt + 1)
    }
}

/// Whether placing the just turned piece `s` with wall kicks stays within
/// `i8` arithmetic.
pub open spec fn wallkick_defined(
    s: PieceState,
    clockwise: bool,
    active: Map<usize, PieceState>,
    fallen: Map<(int, int), u8>,
) -> bool {
    &&& check_defined(s, active, fallen)
    &&& collides(s, active, fallen) ==> {
        &&& clockwise ==> s.rotation <= 251
        &&& !clockwise ==> s.rotation <= 254
        &&& kicks_defined(s, clockwise, active, fallen, 0)
    }
}

proof fn lemma_kick_tables()
    ensures
        forall|i: int, j: int|
            0 <= i < 4 && 0 <= j < 8 ==> {
                &&& kick_table()[i][j] == (X_KICKS@[i]@[j] as int, Y_KICKS@[i]@[j] as int)
                &&& i_kick_table()[i][j] == (
                    I_BLOCK_X_KICKS@[i]@[j] as int,
                    I_BLOCK_Y_KICKS@[i]@[j] as int,
                )
                &&& -2 <= #[trigger] kick_table()[i][j].0 <= 2
                &&& -2 <= kick_table()[i][j].1 <= 2
                &&& -2 <= i_kick_table()[i][j].0 <= 2
                &&& -2 <= i_kick_table()[i][j].1 <= 2
            },
{
    assert(X_KICKS@[0]@ =~= seq![-1i8, 1i8, 1i8, 1i8, -1i8, 1i8, -1i8, -1i8]);
    assert(X_KICKS@[1]@ =~= seq![-1i8, 1i8, 1i8, 1i8, -1i8, 1i8, -1i8, -1i8]);
    assert(X_KICKS@[2]@ =~= seq![0i8, 0i8, 0i8, 0i8, 0i8, 0i8, 0i8, 0i8]);
    assert(X_KICKS@[3]@ =~= seq![-1i8, 1i8, 1i8, 1i8, -1i8, 1i8, -1i8, -1i8]);
    assert(Y_KICKS@[0]@ =~= seq![0i8, 0i8, 0i8, 0i8, 0i8, 0i8, 0i8, 0i8]);
    assert(Y_KICKS@[1]@ =~= seq![1i8, 1i8, -1i8, -1i8, 1i8, 1i8, -1i8, -1i8]);
    assert(Y_KICKS@[2]@ =~= seq![-2i8, -2i8, 2i8, 2i8, -2i8, -2i8, 2i8, 2i8]);
    assert(Y_KICKS@[3]@ =~= seq![-2i8, -2i8, 2i8, 2i8, -2i8, -2i8, 2i8, 2i8]);
    assert(I_BLOCK_X_KICKS@[0]@ =~= seq![-2i8, -1i8, 2i8, -1i8, 1i8, 2i8, -2i8, 1i8]);
    assert(I_BLOCK_X_KICKS@[1]@ =~= seq![1i8, 2i8, -1i8, 2i8, -2i8, -1i8, 1i8, -2i8]);
    assert(I_BLOCK_X_KICKS@[2]@ =~= seq![-2i8, -1i8, 2i8, -1i8, 1i8, 2i8, -2i8, 1i8]);
    assert(I_BLOCK_X_KICKS@[3]@ =~= seq![1i8, 2i8, -1i8, 2i8, -2i8, -1i8, 1i8, -2i8]);
    assert(I_BLOCK_Y_KICKS@[0]@ =~= seq![0i8, 0i8, 0i8, 0i8, 0i8, 0i8, 0i8, 0i8]);
    assert(I_BLOCK_Y_KICKS@[1]@ =~= seq![0i8, 0i8, 0i8, 0i8, 0i8, 0i8, 0i8, 0i8]);
    assert(I_BLOCK_Y_KICKS@[2]@ =~= seq![-1i8, 2i8, 1i8, 2i8, -2i8, 1i8, -1i8, -2i8]);
    assert(I_BLOCK_Y_KICKS@[3]@ =~= seq![2i8, -1i8, -2i8, -1i8, 1i8, -2i8, 2i8, 1i8]);
}

pub(crate) proof fn lemma_kick_entry(shape: u8, i: int, j: int)
    requires
        0 <= i < 4,
        0 <= j < 8,
    ensures
        kick_offset(shape, i, j) == if shape < 5 {
            (X_KICKS@[i]@[j] as int, Y_KICKS@[i]@[j] as int)
        } else {
            (I_BLOCK_X_KICKS@[i]@[j] as int, I_BLOCK_Y_KICKS@[i]@[j] as int)
        },
        -2 <= kick_offset(shape, i, j).0 <= 2,
        -2 <= kick_offset(shape, i, j).1 <= 2,
{
    lemma_kick_tables();
    assert(-2 <= kick_table()[i][j].0 <= 2);
}

/// Tries the wall kicks for a piece that was just turned, and returns where
/// it ends up, leaving it there.
fn wallkick(
    new_state: &mut PieceState,
    clockwise: bool,
    active_players: &ActivePlayersType,
    fallen_blocks: &FallenBlocks,
) -> (r: PieceState)
    requires
        wallkick_defined(*old(new_state), clockwise, active_players@, fallen_blocks@),
    ensures
        r == wallkick_result(*old(new_state), clockwise, active_players@, fallen_blocks@),
        *final(new_state) == r,
{
    let ghost s = *new_state;
    // No change, test 1
    if !collision(new_state, active_players, fallen_blocks) {
        return *new_state;
    }
    let prev_rotation: u8 = if clockwise {
        (ROT_LIMIT + new_state.rotation - 1) % ROT_LIMIT
    } else {
        (new_state.rotation + 1) % ROT_LIMIT
    };
    let mut i: usize = 0;
    while i < 4
        invariant
            0 <= i <= 4,
            *new_state == s,
            s == *old(new_state),
            s.shape < 7,
            kicks_defined(s, clockwise, active_players@, fallen_blocks@, i as int),
            prev_rotation < 4,
            kick_column(s.rotation as int, clockwise) == 2 * prev_rotation + if clockwise {
                0int
            } else {
                1int
            },
            collides(s, active_players@, fallen_blocks@),
            kick_search(s, clockwise, active_players@, fallen_blocks@, 0) == kick_search(
                s,
                clockwise,
                active_players@,
                fallen_blocks@,
                i as int,
            ),
decreases 4 - i,
    {
        let index: usize = (2 * prev_rotation + (if clockwise {
            0
        } else {
            1
        })) as usize;
        let (x_test, y_test): (i8, i8) = if new_state.shape < 5 {
            (X_KICKS[i][index], Y_KICKS[i][index])
        } else {
            (I_BLOCK_X_KICKS[i][index], I_BLOCK_Y_KICKS[i][index])
        };
        proof {
            lemma_kick_entry(s.shape, i as int, index as int);
        }
        assert(kick_offset(s.shape, i as int, index as int) == (x_test as int, y_test as int));
        new_state.pivot.x = new_state.pivot.x + x_test;
        new_state.pivot.y = new_state.pivot.y + y_test;
        assert(*new_state == shifted(s, kick_offset(s.shape, i as int, index as int)));
        if !collision(new_state, active_players, fallen_blocks) {
            assert(kick_search(s, clockwise, active_players@, fallen_blocks@, i as int) == *new_state);
            return *new_state;
        }
        assert(kick_search(s, clockwise, active_players@, fallen_blocks@, i as int) == kick_search(
            s,
            clockwise,
            active_players@,
            fallen_blocks@,
            i + 1,
        ));
        new_state.pivot.x = new_state.pivot.x - x_test;
        new_state.pivot.y = new_state.pivot.y - y_test;
        i = i + 1;
    }
    *new_state
}

/// Piece `s` moved and turned by the keys of `input`, before any wall kick:
/// left and right move it a square each way, the rotation keys turn it a
/// quarter each way.
pub open spec fn moved_by_input(input: KeyState, s: PieceState) -> PieceState {
    let x = s.pivot.x - (if input.left {
        1int
    } else {
        0int
    }) + (if input.right {
        1int
    } else {
        0int
    });
    let r1 = if input.rot {
        (s.rotation + 1) % 4
    } else {
        s.rotation as int
    };
    let r2 = if input.counter_rot {
        (4 + r1 - 1) % 4
    } else {
        r1
    };
    PieceState { pivot: Pivot { x: x as i8, y: s.pivot.y }, rotation: r2 as u8, ..s }
}

/// The piece that input `input` proposes for `s`: moved and turned, and, when
/// the keys turn it one way on balance, placed by the wall kicks.
pub open spec fn proposed_state(
    input: KeyState,
    s: PieceState,
    active: Map<usize, PieceState>,
    fallen: Map<(int, int), u8>,
) -> PieceState {
    let m = moved_by_input(input, s);
    if input.rot != input.counter_rot {
        wallkick_result(m, input.rot, active, fallen)
    } else {
        m
    }
}

/// Piece `p` one square further down.
pub open spec fn lowered(p: PieceState) -> PieceState {
    PieceState { pivot: Pivot { x: p.pivot.x, y: (p.pivot.y + 1) as i8 }, ..p }
}

/// Where piece `p` comes to rest when it drops straight down: it moves down
/// one square at a time while the square below lets it stand, and stops at
/// the latest on row 20, past the board's last row.
pub open spec fn fall(
    p: PieceState,
    active: Map<usize, PieceState>,
    fallen: Map<(int, int), u8>,
) -> PieceState
    decreases 20 - p.pivot.y,
{
    if p.pivot.y >= 20 || collides(lowered(p), active, fallen) {
        p
    } else {
        fall(lowered(p), active, fallen)
    }
}

/// Whether dropping `p` straight down stays within `i8` arithmetic: each
/// square it is checked at can be checked.
pub open spec fn fall_defined(
    p: PieceState,
    active: Map<usize, PieceState>,
    fallen: Map<(int, int), u8>,
) -> bool
    decreases 20 - p.pivot.y,
{
    p.pivot.y >= 20 || (check_defined(lowered(p), active, fallen) && (!collides(
        lowered(p),
        active,
        fallen,
    ) ==> fall_defined(lowered(p), active, fallen)))
}

/// The piece of the player who sent `input`, once the input is applied to
/// its piece `s`: the proposed piece where it may stand, else `s`; then, for
/// a hard drop, dropped straight down as far as it may go, when it may stand
/// where it is.
pub open spec fn input_result(
    input: KeyState,
    s: PieceState,
    active: Map<usize, PieceState>,
    fallen: Map<(int, int), u8>,
) -> PieceState {
    let ns = proposed_state(input, s, active, fallen);
    let base = if !collides(ns, active, fallen) {
        ns
    } else {
        s
    };
    if input.hard_drop && !collides(base, active, fallen) {
        fall(base, active, fallen)
    } else {
        base
    }
}

/// The active pieces once the input of `input.player_id` is applied: when that
/// player is active, their piece becomes `input_result`; otherwise nothing
/// changes.
pub open spec fn after_input(
    active: Map<usize, PieceState>,
    input: KeyState,
    fallen: Map<(int, int), u8>,
) -> Map<usize, PieceState> {
    if !active.contains_key(input.player_id) {
        active
    } else {
        active.insert(
            input.player_id,
            input_result(input, active[input.player_id], active, fallen),
        )
    }
}

/// The inputs on which applying `input` to the piece `s` stays within the
/// arithmetic of its fields and of the collision checks, up to the proposed
/// piece.
pub open spec fn input_defined(
    input: KeyState,
    s: PieceState,
    active: Map<usize, PieceState>,
    fallen: Map<(int, int), u8>,
) -> bool {
    let m = moved_by_input(input, s);
    &&& input.left ==> s.pivot.x > -128
    &&& input.right ==> s.pivot.x - (if input.left {
        1int
    } else {
        0int
    }) < 127
    &&& input.rot ==> s.rotation < 255
    &&& input.counter_rot ==> (if input.rot {
        (s.rotation + 1) % 4
    } else {
        s.rotation as int
    }) <= 251
    &&& if input.rot != input.counter_rot {
        wallkick_defined(m, input.rot, active, fallen)
    } else {
        check_defined(m, active, fallen)
    }
}

/// The inputs on which `update_state` stays within `i8` arithmetic and known
/// shapes: those of the proposed piece and, for a hard drop, of the drop.
pub open spec fn update_defined(
    active: Map<usize, PieceState>,
    input: KeyState,
    fallen: Map<(int, int), u8>,
) -> bool {
    active.contains_key(input.player_id) ==> {
        let s = active[input.player_id];
        let ns = proposed_state(input, s, active, fallen);
        let base = if !collides(ns, active, fallen) {
            ns
        } else {
            s
        };
        &&& input_defined(input, s, active, fallen)
        &&& input.hard_drop ==> check_defined(base, active, fallen) && (!collides(base, active, fallen)
            ==> fall_defined(base, active, fallen))
    }
}

/// Moves and turns the piece of the player who sent `player_input`, with
/// wall kicks when it turns, and returns the piece it proposes.
fn apply_input(
    player_input: &KeyState,
    active_players: &ActivePlayersType,
    fallen_blocks: &FallenBlocks,
) -> (r: PieceState)
    requires
        active_players@.contains_key(player_input.player_id),
        input_defined(
            *player_input,
            active_players@[player_input.player_id],
            active_players@,
            fallen_blocks@,
        ),
    ensures
        r == proposed_state(
            *player_input,
            active_players@[player_input.player_id],
            active_players@,
            fallen_blocks@,
        ),
{
    // make a copy of the current player state and work with this
    let mut new_state = *active_players.get(&player_input.player_id).unwrap();
    let ghost s = new_state;
    // Move left
    if player_input.left {
        new_state.pivot.x = new_state.pivot.x - 1;
    }
    // Move right
    if player_input.right {
        new_state.pivot.x = new_state.pivot.x + 1;
    }
    // Rotate clockwise
    let mut rotated = false;
    let mut clockwise = false;
    if player_input.rot {
        clockwise = true;
        rotated = !rotated;
        new_state.rotation = (new_state.rotation + 1) % ROT_LIMIT;
    }
    // Rotate counter-clockwise
    if player_input.counter_rot {
        rotated = !rotated;
        new_state.rotation = (ROT_LIMIT + new_state.rotation - 1) % ROT_LIMIT;
    }
    assert(new_state == moved_by_input(*player_input, s));
    // Only do wallkick calculations when there is a net rotation
    if rotated {
        return wallkick(&mut new_state, clockwise, active_players, fallen_blocks);
    } else {
        return new_state;
    }
}

/// Applies a player's input: when the player is active, moves and turns
/// their piece, with wall kicks, and keeps the result only where the piece
/// may stand; on a hard drop, then drops the piece straight down as far as
/// it may go.
pub fn update_state(
    active_players: &mut ActivePlayersType,
    player_input: &KeyState,
    fallen_blocks: &FallenBlocks,
)
    requires
        update_defined(old(active_players)@, *player_input, fallen_blocks@),
    ensures
        final(active_players)@ == after_input(old(active_players)@, *player_input, fallen_blocks@),
{
    let player_id = player_input.player_id;
    // only apply the update if the player specified in player_id is active
    if !active_players.contains_key(&player_id) {
        return ;
    }
    let ghost a = active_players@;
    let new_state = apply_input(player_input, active_players, fallen_blocks);
    proof {
        lemma_proposed_checked(*player_input, a[player_id], a, fallen_blocks@);
    }
    let current = *active_players.get(&player_id).unwrap();
    let mut result = if !collision(&new_state, active_players, fallen_blocks) {
        new_state
    } else {
        current
    };
    if player_input.hard_drop {
        if !collision(&result, active_players, fallen_blocks) {
            // drop the piece straight down while the square below lets it stand
            let ghost target = fall(result, a, fallen_blocks@);
            let mut falling = true;
            while falling && result.pivot.y < 20
                invariant
                    active_players@ == a,
                    falling ==> fall(result, a, fallen_blocks@) == target,
                    falling ==> fall_defined(result, a, fallen_blocks@),
                    !falling ==> result == target,
                decreases 2 * (20 - result.pivot.y) + if falling {
                    1int
                } else {
                    0int
                },
            {
                let below = PieceState {
                    pivot: Pivot { x: result.pivot.x, y: result.pivot.y + 1 },
                    ..result
                };
                assert(below == lowered(result));
                if collision(&below, active_players, fallen_blocks) {
                    falling = false;
                } else {
                    result = below;
                }
            }
        }
    }
    active_players.insert(player_id, result);
    proof {
        assert(active_players@ =~= after_input(a, *player_input, fallen_blocks@));
    }
}

/// A piece found by the wall kicks can be checked, when the piece they start
/// from can.
proof fn lemma_kicks_checked(
    s: PieceState,
    clockwise: bool,
    active: Map<usize, PieceState>,
    fallen: Map<(int, int), u8>,
    attempt: int,
)
    requires
        0 <= attempt <= 4,
        check_defined(s, active, fallen),
        kicks_defined(s, clockwise, active, fallen, attempt),
    ensures
        check_defined(kick_search(s, clockwise, active, fallen, attempt), active, fallen),
    decreases 4 - attempt,
{
    if attempt < 4 {
        let t = shifted(
            s,
            kick_offset(s.shape, attempt, kick_column(s.rotation as int, clockwise)),
        );
        if collides(t, active, fallen) {
            lemma_kicks_checked(s, clockwise, active, fallen, attempt + 1);
        }
    }
}

/// The proposed piece can be checked, on the inputs `apply_input` takes.
proof fn lemma_proposed_checked(
    input: KeyState,
    s: PieceState,
    active: Map<usize, PieceState>,
    fallen: Map<(int, int), u8>,
)
    requires
        input_defined(input, s, active, fallen),
    ensures
        check_defined(proposed_state(input, s, active, fallen), active, fallen),
{
    let m = moved_by_input(input, s);
    if input.rot != input.counter_rot && collides(m, active, fallen) {
        lemma_kicks_checked(m, input.rot, active, fallen, 0);
    }
}

/// Tests whether piece `t` can be compared with the other active pieces.
fn players_ok(t: &PieceState, active_players: &ActivePlayersType) -> (r: bool)
    ensures
        r == players_defined(*t, active_players@),
{
    let mut ok = true;
    for entry in it: active_players.iter()
        invariant
            it.seq() == active_players.iter().remaining(),
            ok == forall|j: int|
                0 <= j < it.index() ==> {
                    let k = *#[trigger] it.seq()[j].0;
                    let o = *it.seq()[j].1;
                    k != t.player_id ==> {
                        &&& o.shape < 7
                        &&& -128 <= t.pivot.x - o.pivot.x <= 124
                        &&& -128 <= t.pivot.y - o.pivot.y <= 124
                    }
                },
    {
        let (k, o) = entry;
        let dx: i16 = t.pivot.x as i16 - o.pivot.x as i16;
        let dy: i16 = t.pivot.y as i16 - o.pivot.y as i16;
        let good = *k == t.player_id || (o.shape < 7 && -128 <= dx && dx <= 124 && -128 <= dy && dy
            <= 124);
        ok = ok && good;
    }
    proof {
        let sq = active_players.iter().remaining();
        if ok {
            assert forall|k: usize| #[trigger] active_players@.contains_key(k) && k != t.player_id implies {
                &&& active_players@[k].shape < 7
                &&& -128 <= t.pivot.x - active_players@[k].pivot.x <= 124
                &&& -128 <= t.pivot.y - active_players@[k].pivot.y <= 124
            } by {
                assert(sq.contains((&k, &active_players@[k])));
                let j = choose|j: int| 0 <= j < sq.len() && sq[j] == (&k, &active_players@[k]);
                assert(*sq[j].0 == k);
            }
        } else {
            let j = choose|j: int|
                0 <= j < sq.len() && !({
                    let k = *#[trigger] sq[j].0;
                    let o = *sq[j].1;
                    k != t.player_id ==> {
                        &&& o.shape < 7
                        &&& -128 <= t.pivot.x - o.pivot.x <= 124
                        &&& -128 <= t.pivot.y - o.pivot.y <= 124
                    }
                });
            assert(active_players@.contains_key(*sq[j].0) && active_players@[*sq[j].0] == *sq[j].1);
        }
    }
    ok
}

/// Tests whether `collision` can check piece `t`.
fn check_ok(t: &PieceState, active_players: &ActivePlayersType, fallen_blocks: &FallenBlocks) -> (r: bool)
    ensures
        r == check_defined(*t, active_players@, fallen_blocks@),
{
    if !(t.shape < 7 && t.pivot.x <= 124 && t.pivot.y <= 124) {
        return false;
    }
    match screen_collision(t) {
        CollisionType::Wall => {
            return true;
        },
        _ => {},
    }
    if fallen_blocks_collision(t, fallen_blocks) {
        return true;
    }
    players_ok(t, active_players)
}

/// Tests whether trying the wall kicks for the just turned piece `s` stays
/// within `i8` arithmetic.
fn kicks_ok(
    s: &PieceState,
    clockwise: bool,
    active_players: &ActivePlayersType,
    fallen_blocks: &FallenBlocks,
) -> (r: bool)
    requires
        clockwise ==> s.rotation <= 251,
        !clockwise ==> s.rotation <= 254,
    ensures
        r == kicks_defined(*s, clockwise, active_players@, fallen_blocks@, 0),
{
    let prev_rotation: u8 = if clockwise {
        (ROT_LIMIT + s.rotation - 1) % ROT_LIMIT
    } else {
        (s.rotation + 1) % ROT_LIMIT
    };
    let mut i: usize = 0;
    while i < 4
        invariant
            0 <= i <= 4,
            prev_rotation < 4,
            kick_column(s.rotation as int, clockwise) == 2 * prev_rotation + if clockwise {
                0int
            } else {
                1int
            },
            kicks_defined(*s, clockwise, active_players@, fallen_blocks@, 0) == kicks_defined(
                *s,
                clockwise,
                active_players@,
                fallen_blocks@,
                i as int,
            ),
        decreases 4 - i,
    {
        let index: usize = (2 * prev_rotation + (if clockwise {
            0
        } else {
            1
        })) as usize;
        let (x_test, y_test): (i8, i8) = if s.shape < 5 {
            (X_KICKS[i][index], Y_KICKS[i][index])
        } else {
            (I_BLOCK_X_KICKS[i][index], I_BLOCK_Y_KICKS[i][index])
        };
        proof {
            lemma_kick_entry(s.shape, i as int, index as int);
        }
        let nx: i16 = s.pivot.x as i16 + x_test as i16;
        let ny: i16 = s.pivot.y as i16 + y_test as i16;
        if !(-128 <= nx && nx <= 127 && -128 <= ny && ny <= 127) {
            return false;
        }
        let t = PieceState { pivot: Pivot { x: nx as i8, y: ny as i8 }, ..*s };
        assert(t == shifted(*s, kick_offset(s.shape, i as int, index as int)));
        if !check_ok(&t, active_players, fallen_blocks) {
            return false;
        }
        if !collision(&t, active_players, fallen_blocks) {
            return true;
        }
        i = i + 1;
    }
    true
}

/// Tests whether `update_state` can be applied to `player_input`: whether
/// its arithmetic, and that of each collision check it makes, stays within
/// the range of an `i8` and known shapes.
pub fn input_in_range(
    active_players: &ActivePlayersType,
    player_input: &KeyState,
    fallen_blocks: &FallenBlocks,
) -> (r: bool)
    ensures
        r == update_defined(active_players@, *player_input, fallen_blocks@),
{
    let s = match active_players.get(&player_input.player_id) {
        None => {
            return true;
        },
        Some(p) => *p,
    };
    if player_input.left && s.pivot.x == -128 {
        return false;
    }
    let mut m = s;
    if player_input.left {
        m.pivot.x = m.pivot.x - 1;
    }
    if player_input.right && m.pivot.x == 127 {
        return false;
    }
    if player_input.right {
        m.pivot.x = m.pivot.x + 1;
    }
    if player_input.rot && s.rotation == 255 {
        return false;
    }
    if player_input.rot {
        m.rotation = (m.rotation + 1) % ROT_LIMIT;
    }
    if player_input.counter_rot && m.rotation > 251 {
        return false;
    }
    if player_input.counter_rot {
        m.rotation = (ROT_LIMIT + m.rotation - 1) % ROT_LIMIT;
    }
    assert(m == moved_by_input(*player_input, s));
    if !check_ok(&m, active_players, fallen_blocks) {
        return false;
    }
    if player_input.rot != player_input.counter_rot && collision(&m, active_players, fallen_blocks) {
        let clockwise = player_input.rot;
        if clockwise && m.rotation > 251 {
            return false;
        }
        if !clockwise && m.rotation > 254 {
            return false;
        }
        if !kicks_ok(&m, clockwise, active_players, fallen_blocks) {
            return false;
        }
    }
    assert(input_defined(*player_input, s, active_players@, fallen_blocks@));
    if !player_input.hard_drop {
        return true;
    }
    let ns = apply_input(player_input, active_players, fallen_blocks);
    proof {
        lemma_proposed_checked(*player_input, s, active_players@, fallen_blocks@);
    }
    let base = if !collision(&ns, active_players, fallen_blocks) {
        ns
    } else {
        s
    };
    if !check_ok(&base, active_players, fallen_blocks) {
        return false;
    }
    if collision(&base, active_players, fallen_blocks) {
        return true;
    }
    assert(update_defined(active_players@, *player_input, fallen_blocks@) == fall_defined(
        base,
        active_players@,
        fallen_blocks@,
    ));
    let mut p = base;
    while p.pivot.y < 20
        invariant
            update_defined(active_players@, *player_input, fallen_blocks@) == fall_defined(
                base,
                active_players@,
                fallen_blocks@,
            ),
            fall_defined(base, active_players@, fallen_blocks@) == fall_defined(
                p,
                active_players@,
                fallen_blocks@,
            ),
        decreases 20 - p.pivot.y,
    {
        let below = PieceState { pivot: Pivot { x: p.pivot.x, y: p.pivot.y + 1 }, ..p };
        assert(below == lowered(p));
        if !check_ok(&below, active_players, fallen_blocks) {
            return false;
        }
        if collision(&below, active_players, fallen_blocks) {
            return true;
        }
        p = below;
    }
    true
}

} // verus!
