use vstd::prelude::*;
use vstd::std_specs::iter::IteratorSpec;
use std::collections::VecDeque;
use crate::board::FallenBlocks;
use crate::piece_state::{PieceState, Pivot};
use crate::rng::{shuffle_bag, thread_rng};
use crate::shapes::{get_shape, lemma_square_matrix_defined, read_block};
use crate::tetris::{
    fallen_blocks_collision, hits_fallen, hits_player, lowered, occupies, piece_cells, piece_width,
    player_collision, players_defined, screen_defined, ActivePlayersType,
};

verus! {

broadcast use vstd::std_specs::hash::group_hash_axioms;

/// The players waiting for a piece, in the order they get one.
pub type InactivePlayersType = VecDeque<PieceState>;

/// How long a piece may still move when it touches the bottom of the board
/// before it freezes, in milliseconds.
pub const BOTTOM_TOUCH_MS: u128 = 500;

/// How long a fast dropping piece takes to move down one square, in milliseconds.
pub const FAST_DROP_SHIFT_MS: u128 = 25;

/// The largest number of pieces in play at once.
pub const MAX_NUM_ACTIVE: usize = 2;

/// Where new pieces start: alternately at the left and the right start position.
pub const PIECE_START_X_LEFT: i8 = 5;

pub const PIECE_START_Y_LEFT: i8 = 0;

pub const PIECE_START_X_RIGHT: i8 = 12;

pub const PIECE_START_Y_RIGHT: i8 = 0;

/// Number of bags of pieces in the queue.
pub const NUM_BAGS: usize = 3;

/// Number of pieces in a bag.
pub const BAG_SIZE: usize = 14;

/// The queue of upcoming pieces: `NUM_BAGS` bags of `BAG_SIZE` shapes each,
/// dealt in order and reshuffled bag by bag.
pub type BlockQueueType = [[u8; 14]; 3];

/// The shape at position `index` of the queue `q`, counting bag by bag.
pub open spec fn queue_at(q: BlockQueueType, index: int) -> u8 {
    q@[(index / 14) % 3]@[index % 14]
}

/// Whether dealing from position `index` of queue `q` can leave queue `q2` at
/// position `index2`: the position moves on by one, round the queue; the bag
/// just emptied may be shuffled, and nothing else changes.
pub open spec fn next_piece_step(q: BlockQueueType, index: int, q2: BlockQueueType, index2: int) -> bool {
    let b = index / 14;
    &&& index2 == (index + 1) % 42
    &&& forall|c: int| 0 <= c < 3 && c != b ==> #[trigger] q2@[c] == q@[c]
    &&& if index % 14 == 13 {
        q2@[b]@.to_multiset() == q@[b]@.to_multiset()
    } else {
        q2@[b] == q@[b]
    }
}

/// Deals the next piece from the queue, moving the position on; when a bag
/// has been used up, shuffles it for its next turn.
pub fn next_piece(block_queue: &mut BlockQueueType, stored_index: &mut usize) -> (r: u8)
    requires
        *old(stored_index) < 42,
    ensures
        r == queue_at(*old(block_queue), *old(stored_index) as int),
        next_piece_step(*old(block_queue), *old(stored_index) as int, *final(block_queue), *final(stored_index) as int),
{
    let mut rng = thread_rng();
    let index = *stored_index;
    let next_piece = block_queue[index / BAG_SIZE][index % BAG_SIZE];
    // if we just used all of a bag, shuffle it so its good
    // for next time
    if index % BAG_SIZE == BAG_SIZE - 1 {
        let mut bag = block_queue[index / BAG_SIZE];
        shuffle_bag(&mut bag, &mut rng);
        block_queue[index / BAG_SIZE] = bag;
    }
    *stored_index = (index + 1) % (BAG_SIZE * NUM_BAGS);
    next_piece
}

/// The pieces that `peek_next_pieces(q, index)` lists: the `BAG_SIZE` pieces
/// dealt next from position `index` on.
pub open spec fn upcoming(q: BlockQueueType, index: int) -> Seq<u8> {
    Seq::new(14, |k: int| queue_at(q, index + k))
}

/// Gets the next fourteen pieces that will be put into play, without
/// changing the queue.
pub fn peek_next_pieces(block_queue: &BlockQueueType, block_index: usize) -> (r: Vec<u8>)
    requires
        block_index + BAG_SIZE <= usize::MAX,
    ensures
        r@ == upcoming(*block_queue, block_index as int),
{
    let mut next_bag: Vec<u8> = Vec::new();
    let mut global_index: usize = block_index;
    while global_index < block_index + BAG_SIZE
        invariant
            block_index <= global_index <= block_index + BAG_SIZE,
            block_index + BAG_SIZE <= usize::MAX,
            next_bag@.len() == global_index - block_index,
            forall|k: int|
                0 <= k < next_bag@.len() ==> #[trigger] next_bag@[k] == queue_at(
                    *block_queue,
                    block_index + k,
                ),
        decreases block_index + BAG_SIZE - global_index,
    {
        let bag = (global_index / BAG_SIZE) % NUM_BAGS;
        let index = global_index % BAG_SIZE;
        next_bag.push(block_queue[bag][index]);
        global_index = global_index + 1;
    }
    assert(next_bag@ =~= upcoming(*block_queue, block_index as int));
    next_bag
}

/// Takes a player's piece out of play and puts the player at the back of the
/// queue of waiting players.
pub fn move_to_inactive(
    player_id: usize,
    active_players: &mut ActivePlayersType,
    inactive_players: &mut InactivePlayersType,
)
    requires
        old(active_players)@.contains_key(player_id),
    ensures
        final(active_players)@ == old(active_players)@.remove(player_id),
        final(inactive_players)@ == old(inactive_players)@.push(old(active_players)@[player_id]),
{
    let player = active_players.remove(&player_id).unwrap();
    inactive_players.push_back(player);
}

/// The waiting players other than `id`, in queue order.
pub open spec fn without_player(s: Seq<PieceState>, id: usize) -> Seq<PieceState> {
    s.filter(|p: PieceState| p.player_id != id)
}

/// Removes a player from the whole game: their piece from the active
/// pieces, and every entry of theirs from the queue of waiting players,
/// keeping the order of the others. Tells whether a piece was removed from
/// each.
pub fn remove_player(
    player_id: usize,
    active_players: &mut ActivePlayersType,
    inactive_players: &mut InactivePlayersType,
) -> (r: (bool, bool))
    ensures
        final(active_players)@ == old(active_players)@.remove(player_id),
        final(inactive_players)@ == without_player(old(inactive_players)@, player_id),
        r.0 == old(active_players)@.contains_key(player_id),
        r.1 == exists|i: int|
            0 <= i < old(inactive_players)@.len() && #[trigger] old(inactive_players)@[i].player_id
                == player_id,
{
    // remove player from active_players
    let was_active = match active_players.remove(&player_id) {
        None => false,
        Some(_) => true,
    };
    // keep the waiting players other than player_id, in order
    let ghost s = inactive_players@;
    let ghost pred = |p: PieceState| p.player_id != player_id;
    let mut kept: InactivePlayersType = VecDeque::new();
    let mut found = false;
    let mut index: usize = 0;
    proof {
        reveal(Seq::filter);
        assert(s.take(0) =~= Seq::<PieceState>::empty());
    }
    while index < inactive_players.len()
        invariant
            0 <= index <= s.len(),
            inactive_players@ == s,
            kept@ == s.take(index as int).filter(pred),
            pred == (|p: PieceState| p.player_id != player_id),
            found == exists|i: int| 0 <= i < index && #[trigger] s[i].player_id == player_id,
        decreases s.len() - index,
    {
        proof {
            reveal(Seq::filter);
            assert(s.take(index + 1).drop_last() =~= s.take(index as int));
            assert(s.take(index + 1).last() == s[index as int]);
        }
        let entry = inactive_players[index];
        if entry.player_id == player_id {
            found = true;
        } else {
            kept.push_back(entry);
        }
        index = index + 1;
    }
    assert(s.take(index as int) =~= s);
    *inactive_players = kept;
    (was_active, found)
}

/// The fallen blocks once piece `p` comes to rest among `fallen`: every
/// square it covers holds a block of its shape.
pub open spec fn with_piece(fallen: Map<(int, int), u8>, p: PieceState) -> Map<(int, int), u8> {
    Map::new(
        |sq: (int, int)| fallen.contains_key(sq) || occupies(p, sq),
        |sq: (int, int)|
            if occupies(p, sq) {
                p.shape
            } else {
                fallen[sq]
            },
    )
}

/// Adds the blocks of a piece that has come to rest to the fallen blocks.
pub fn add_fallen_blocks(piece: &PieceState, fallen_blocks: &mut FallenBlocks)
    requires
        screen_defined(*piece),
    ensures
        final(fallen_blocks)@ == with_piece(old(fallen_blocks)@, *piece),
{
    let this_shape = get_shape(piece.shape);
    let width: i8 = if this_shape.len() == 9 {
        3
    } else {
        4
    };
    let this_origin = piece.pivot;
    let ghost f0 = fallen_blocks@;
    // iterate through all of the blocks that make up the
    // current piece and add them to fallen_blocks.
    let mut y: i8 = 0;
    while y < width
        invariant
            this_shape@ == piece_cells(*piece),
            width == piece_width(*piece),
            this_origin == piece.pivot,
            screen_defined(*piece),
            0 <= y <= width,
            fallen_blocks@ == Map::new(
                |sq: (int, int)|
                    f0.contains_key(sq) || (occupies(*piece, sq) && sq.1 - piece.pivot.y < y),
                |sq: (int, int)|
                    if occupies(*piece, sq) && sq.1 - piece.pivot.y < y {
                        piece.shape
                    } else {
                        f0[sq]
                    },
            ),
        decreases width - y,
    {
        let mut x: i8 = 0;
        while x < width
            invariant
                this_shape@ == piece_cells(*piece),
                width == piece_width(*piece),
                this_origin == piece.pivot,
                screen_defined(*piece),
                0 <= y < width,
                0 <= x <= width,
                fallen_blocks@ == Map::new(
                    |sq: (int, int)|
                        f0.contains_key(sq) || (occupies(*piece, sq) && (sq.1 - piece.pivot.y < y
                            || (sq.1 - piece.pivot.y == y && sq.0 - piece.pivot.x < x))),
                    |sq: (int, int)|
                        if occupies(*piece, sq) && (sq.1 - piece.pivot.y < y || (sq.1
                            - piece.pivot.y == y && sq.0 - piece.pivot.x < x)) {
                            piece.shape
                        } else {
                            f0[sq]
                        },
                ),
            decreases width - x,
        {
            let abs_x = x + this_origin.x;
            let abs_y = y + this_origin.y;
            proof {
                lemma_square_matrix_defined(this_shape@, x as int, y as int, piece.rotation as int);
            }
            if read_block(this_shape, x, y, piece.rotation) {
                let pivot = Pivot { x: abs_x, y: abs_y };
                fallen_blocks.insert(pivot, piece.shape);
            }
            assert(fallen_blocks@ =~= Map::new(
                |sq: (int, int)|
                    f0.contains_key(sq) || (occupies(*piece, sq) && (sq.1 - piece.pivot.y < y || (
                    sq.1 - piece.pivot.y == y && sq.0 - piece.pivot.x < x + 1))),
                |sq: (int, int)|
                    if occupies(*piece, sq) && (sq.1 - piece.pivot.y < y || (sq.1 - piece.pivot.y
                        == y && sq.0 - piece.pivot.x < x + 1)) {
                        piece.shape
                    } else {
                        f0[sq]
                    },
            ));
            x = x + 1;
        }
        assert(fallen_blocks@ =~= Map::new(
            |sq: (int, int)|
                f0.contains_key(sq) || (occupies(*piece, sq) && sq.1 - piece.pivot.y < y + 1),
            |sq: (int, int)|
                if occupies(*piece, sq) && sq.1 - piece.pivot.y < y + 1 {
                    piece.shape
                } else {
                    f0[sq]
                },
        ));
        y = y + 1;
    }
    assert(fallen_blocks@ =~= with_piece(f0, *piece));
}

/// The inputs on which moving the piece of `player_id` down stays within
/// `i8` arithmetic and known shapes: the piece is active, and each board and
/// player check that the move reaches can be made on the squares it checks.
pub open spec fn drop_defined(
    active: Map<usize, PieceState>,
    fallen: Map<(int, int), u8>,
    player_id: usize,
) -> bool {
    let p = active[player_id];
    let c = lowered(p);
    &&& active.contains_key(player_id)
    &&& p.pivot.y < 127
    &&& screen_defined(c)
    &&& !hits_fallen(c, fallen) ==> {
        &&& players_defined(c, active)
        &&& !hits_player(c, active) && !p.fast_drop ==> screen_defined(lowered(c))
    }
}

/// The active pieces, the fallen blocks, and whether the piece froze, once
/// the piece of `player_id` moves down one square at time `now`:
/// - when the square below is taken by a fallen block or the floor, the piece
///   freezes where it is: its blocks join the fallen ones and it stops moving;
/// - when another player's piece is in the way, it stays and stops fast dropping;
/// - otherwise it moves down, and its next move is due after the fast drop
///   period when fast dropping, after `BOTTOM_TOUCH_MS` when it now touches the
///   bottom, and after `shift_period` otherwise.
pub open spec fn drop_result(
    active: Map<usize, PieceState>,
    fallen: Map<(int, int), u8>,
    player_id: usize,
    shift_period: u128,
    now: u128,
) -> (Map<usize, PieceState>, Map<(int, int), u8>, bool) {
    let p = active[player_id];
    let c = lowered(p);
    if hits_fallen(c, fallen) {
        (
            active.insert(player_id, PieceState { next_shift_time: None, ..p }),
            with_piece(fallen, p),
            true,
        )
    } else if hits_player(c, active) {
        (active.insert(player_id, PieceState { fast_drop: false, ..p }), fallen, false)
    } else if p.fast_drop {
        (
            active.insert(
                player_id,
                PieceState { next_shift_time: Some((now + FAST_DROP_SHIFT_MS) as u128), ..c },
            ),
            fallen,
            false,
        )
    } else if hits_fallen(lowered(c), fallen) {
        (
            active.insert(
                player_id,
                PieceState { next_shift_time: Some((now + BOTTOM_TOUCH_MS) as u128), ..c },
            ),
            fallen,
            false,
        )
    } else {
        (
            active.insert(player_id, PieceState { next_shift_time: Some((now + shift_period) as u128), ..c }),
            fallen,
            false,
        )
    }
}

/// Moves a piece down by one square at time `now`; returns true when the
/// piece froze and its player is no longer active.
pub fn drop_piece(
    player_id: usize,
    fallen_blocks: &mut FallenBlocks,
    active_players: &mut ActivePlayersType,
    shift_period: u128,
    now: u128,
) -> (r: bool)
    requires
        drop_defined(old(active_players)@, old(fallen_blocks)@, player_id),
        now + BOTTOM_TOUCH_MS <= u128::MAX,
        now + shift_period <= u128::MAX,
    ensures
        (final(active_players)@, final(fallen_blocks)@, r) == drop_result(
            old(active_players)@,
            old(fallen_blocks)@,
            player_id,
            shift_period,
            now,
        ),
{
    // make a copy which we shift down and check for collision
    let mut player = *active_players.get(&player_id).unwrap();
    let mut player_copy = player;
    player_copy.pivot.y = player_copy.pivot.y + 1;
    assert(player_copy == lowered(player));
    // If piece has fallen off of the screen, remove it from play
    if fallen_blocks_collision(&player_copy, fallen_blocks) {
        add_fallen_blocks(&player, fallen_blocks);
        player.next_shift_time = None;
        active_players.insert(player_id, player);
        return true;
    }
    // if there is another piece blocking the way, don't shift down yet
    // and stop fast drop
    if player_collision(&player_copy, active_players) {
        player.fast_drop = false;
        active_players.insert(player_id, player);
        return false;
    }
    // if we've reache this point, the piece is not about to fall off of the screen
    // and there is no other player in the way
    player.pivot.y = player.pivot.y + 1;
    // if we are doing fast drop, there is no extra time added when we're about to
    // hit the bottom
    if player.fast_drop {
        player.next_shift_time = Some(now + FAST_DROP_SHIFT_MS);
        active_players.insert(player_id, player);
        return false;
    }
    // if piece is about to freeze, setup next_shift_time so that we can
    // allow the player longer to move around when their piece is almost about to collide
    player_copy.pivot.y = player_copy.pivot.y + 1;
    if fallen_blocks_collision(&player_copy, fallen_blocks) {
        player.next_shift_time = Some(now + BOTTOM_TOUCH_MS);
    } else {
        player.next_shift_time = Some(now + shift_period);
    }
    active_players.insert(player_id, player);
    false
}

/// Whether activating a piece can take the game from the active pieces
/// `active`, waiting players `inactive`, queue `q` at position `index`, to
/// `active2`, `inactive2`, `q2` at `index2`, at time `now`: when fewer than
/// `MAX_NUM_ACTIVE` pieces are in play and a player waits, the first waiting
/// player gets the next piece of the queue, unturned, at the left start
/// position when the queue position it leaves is even and at the right one
/// otherwise, due to move after `shift_period`, not fast dropping; otherwise
/// nothing changes.
pub open spec fn activation_step(
    active: Map<usize, PieceState>,
    inactive: Seq<PieceState>,
    q: BlockQueueType,
    index: int,
    shift_period: u128,
    now: u128,
    active2: Map<usize, PieceState>,
    inactive2: Seq<PieceState>,
    q2: BlockQueueType,
    index2: int,
) -> bool {
    if active.len() < MAX_NUM_ACTIVE && inactive.len() > 0 {
        let p = inactive[0];
        let start = if index2 % 2 == 0 {
            Pivot { x: PIECE_START_X_LEFT, y: PIECE_START_Y_LEFT }
        } else {
            Pivot { x: PIECE_START_X_RIGHT, y: PIECE_START_Y_RIGHT }
        };
        &&& next_piece_step(q, index, q2, index2)
        &&& inactive2 == inactive.subrange(1, inactive.len() as int)
        &&& active2 == active.insert(
            p.player_id,
            PieceState {
                shape: queue_at(q, index),
                rotation: 0,
                pivot: start,
                next_shift_time: Some((now + shift_period) as u128),
                fast_drop: false,
                ..p
            },
        )
    } else {
        &&& active2 == active
        &&& inactive2 == inactive
        &&& q2 == q
        &&& index2 == index
    }
}

/// Puts the first waiting player's piece in play, if fewer than
/// `MAX_NUM_ACTIVE` pieces are in play: it gets the next piece of the queue.
pub fn activate_piece(
    active_players: &mut ActivePlayersType,
    inactive_players: &mut InactivePlayersType,
    block_queue: &mut BlockQueueType,
    block_index: &mut usize,
    shift_period: u128,
    now: u128,
)
    requires
        old(active_players)@.len() <= MAX_NUM_ACTIVE,
        old(active_players)@.len() < MAX_NUM_ACTIVE && old(inactive_players)@.len() > 0 ==> {
            &&& *old(block_index) < 42
            &&& now + shift_period <= u128::MAX
            &&& !old(active_players)@.contains_key(old(inactive_players)@[0].player_id)
        },
    ensures
        activation_step(
            old(active_players)@,
            old(inactive_players)@,
            *old(block_queue),
            *old(block_index) as int,
            shift_period,
            now,
            final(active_players)@,
            final(inactive_players)@,
            *final(block_queue),
            *final(block_index) as int,
        ),
{
    // if we have room for more pieces in play and there are inactive pieces in the queue
    if MAX_NUM_ACTIVE - active_players.len() > 0 && inactive_players.len() > 0 {
        let mut player = inactive_players.pop_front().unwrap();
        // get the new piece type
        let piece_type: u8 = next_piece(block_queue, block_index);
        player.rotation = 0;  // reset the rotation
        player.shape = piece_type;  // update the player's piece type
        // Alternate between 2 start positions
        if *block_index % 2 == 0 {
            player.pivot.x = PIECE_START_X_LEFT;
            player.pivot.y = PIECE_START_Y_LEFT;
        } else {
            player.pivot.x = PIECE_START_X_RIGHT;
            player.pivot.y = PIECE_START_Y_RIGHT;
        }
        player.next_shift_time = Some(now + shift_period);
        // piece are NOT fast dropping by default
        player.fast_drop = false;
        // the player was waiting, so the id is not in play yet
        let previous = active_players.insert(player.player_id, player);
        assert(previous is None);
    }
}

/// Whether piece `p` is due to move down at time `now`.
pub open spec fn due(p: PieceState, now: u128) -> bool {
    p.next_shift_time matches Some(t) && now > t
}

/// Whether `order` lists each player whose piece is due at time `now` once,
/// and no other player.
pub open spec fn due_order(active: Map<usize, PieceState>, now: u128, order: Seq<usize>) -> bool {
    &&& order.no_duplicates()
    &&& forall|k: usize| #[trigger]
        order.contains(k) <==> (active.contains_key(k) && due(active[k], now))
}

/// The active pieces and fallen blocks once the pieces of `order` move down,
/// one after the other, and the players, in order, whose pieces froze.
pub open spec fn drop_all(
    active: Map<usize, PieceState>,
    fallen: Map<(int, int), u8>,
    order: Seq<usize>,
    shift_period: u128,
    now: u128,
) -> (Map<usize, PieceState>, Map<(int, int), u8>, Seq<usize>)
    decreases order.len(),
{
    if order.len() == 0 {
        (active, fallen, Seq::empty())
    } else {
        let (a1, f1, frozen) = drop_all(active, fallen, order.drop_last(), shift_period, now);
        let (a2, f2, froze) = drop_result(a1, f1, order.last(), shift_period, now);
        (a2, f2, if froze {
            frozen.push(order.last())
        } else {
            frozen
        })
    }
}

/// The active pieces and waiting players once the players `ids`, in order,
/// leave play for the back of the queue.
pub open spec fn move_all_to_inactive(
    active: Map<usize, PieceState>,
    inactive: Seq<PieceState>,
    ids: Seq<usize>,
) -> (Map<usize, PieceState>, Seq<PieceState>)
    decreases ids.len(),
{
    if ids.len() == 0 {
        (active, inactive)
    } else {
        let (a1, i1) = move_all_to_inactive(active, inactive, ids.drop_last());
        (a1.remove(ids.last()), i1.push(a1[ids.last()]))
    }
}

/// Whether one step of the game clock can take the game from `active`,
/// `inactive`, `fallen`, queue `q` at `index` with the last piece spawned at
/// `last_spawn`, to `active2`, `inactive2`, `fallen2`, `q2` at `index2` with
/// `last_spawn2`, when the pieces due move down in the order `order`: the
/// players whose pieces froze go to the back of the queue, and once more than
/// `shift_period` has passed since the last spawn, a piece is activated.
pub open spec fn shift_step(
    active: Map<usize, PieceState>,
    inactive: Seq<PieceState>,
    fallen: Map<(int, int), u8>,
    q: BlockQueueType,
    index: int,
    last_spawn: u128,
    shift_period: u128,
    now: u128,
    order: Seq<usize>,
    active2: Map<usize, PieceState>,
    inactive2: Seq<PieceState>,
    fallen2: Map<(int, int), u8>,
    q2: BlockQueueType,
    index2: int,
    last_spawn2: u128,
) -> bool {
    let (a1, f1, frozen) = drop_all(active, fallen, order, shift_period, now);
    let (a3, i3) = move_all_to_inactive(a1, inactive, frozen);
    &&& fallen2 == f1
    &&& if now - last_spawn > shift_period {
        &&& activation_step(a3, i3, q, index, shift_period, now, active2, inactive2, q2, index2)
        &&& last_spawn2 == now
    } else {
        &&& active2 == a3
        &&& inactive2 == i3
        &&& q2 == q
        &&& index2 == index
        &&& last_spawn2 == last_spawn
    }
}

/// Whether moving the pieces of `order` down, one after the other, stays
/// within `i8` arithmetic and known shapes at each move.
pub open spec fn drops_defined(
    active: Map<usize, PieceState>,
    fallen: Map<(int, int), u8>,
    order: Seq<usize>,
    shift_period: u128,
    now: u128,
) -> bool
    decreases order.len(),
{
    if order.len() == 0 {
        true
    } else {
        let (a1, f1, frozen) = drop_all(active, fallen, order.drop_last(), shift_period, now);
        &&& drops_defined(active, fallen, order.drop_last(), shift_period, now)
        &&& drop_defined(a1, f1, order.last())
    }
}

/// Whether one step of the game clock, with the due pieces moving in the
/// order `order`, stays within the arithmetic of its checks, and whether the
/// activation it may make finds the number of active pieces in range and the
/// queue position and the first waiting player as it needs them.
pub open spec fn shift_order_defined(
    active: Map<usize, PieceState>,
    inactive: Seq<PieceState>,
    fallen: Map<(int, int), u8>,
    index: int,
    last_spawn: u128,
    shift_period: u128,
    now: u128,
    order: Seq<usize>,
) -> bool {
    let (a1, f1, frozen) = drop_all(active, fallen, order, shift_period, now);
    let (a3, i3) = move_all_to_inactive(a1, inactive, frozen);
    &&& drops_defined(active, fallen, order, shift_period, now)
    &&& now - last_spawn > shift_period ==> {
        &&& a3.len() <= MAX_NUM_ACTIVE
        &&& a3.len() < MAX_NUM_ACTIVE && i3.len() > 0 ==> index < 42 && !a3.contains_key(
            i3[0].player_id,
        )
    }
}

/// The inputs on which `shift_pieces` runs: each active piece is keyed by its
/// player's id and has a time to move, and whichever order the due pieces
/// move in, the step stays within the arithmetic of its checks.
pub open spec fn shift_defined(
    active: Map<usize, PieceState>,
    inactive: Seq<PieceState>,
    fallen: Map<(int, int), u8>,
    index: int,
    last_spawn: u128,
    shift_period: u128,
    now: u128,
) -> bool {
    &&& forall|k: usize|
        #[trigger] active.contains_key(k) ==> {
            &&& active[k].player_id == k
            &&& active[k].next_shift_time is Some
        }
    &&& forall|order: Seq<usize>|
        #[trigger] due_order(active, now, order) ==> shift_order_defined(
            active,
            inactive,
            fallen,
            index,
            last_spawn,
            shift_period,
            now,
            order,
        )
}

/// When the moves of `order` stay defined, so do those of each of its
/// prefixes, and the move of each of its pieces from where the moves
/// before it left the game.
proof fn lemma_drops_defined_prefix(
    active: Map<usize, PieceState>,
    fallen: Map<(int, int), u8>,
    order: Seq<usize>,
    shift_period: u128,
    now: u128,
    i: int,
)
    requires
        drops_defined(active, fallen, order, shift_period, now),
        0 <= i < order.len(),
    ensures
        ({
            let (a1, f1, frozen) = drop_all(active, fallen, order.take(i), shift_period, now);
            drop_defined(a1, f1, order[i])
        }),
    decreases order.len(),
{
    if i == order.len() - 1 {
        assert(order.take(i) =~= order.drop_last());
    } else {
        lemma_drops_defined_prefix(active, fallen, order.drop_last(), shift_period, now, i);
        assert(order.drop_last().take(i) =~= order.take(i));
    }
}

/// Moving one piece down changes that piece only, keeping its player, shape
/// and key.
proof fn lemma_drop_result_frame(
    active: Map<usize, PieceState>,
    fallen: Map<(int, int), u8>,
    player_id: usize,
    shift_period: u128,
    now: u128,
)
    requires
        active.contains_key(player_id),
    ensures
        ({
            let a2 = drop_result(active, fallen, player_id, shift_period, now).0;
            &&& a2.dom() == active.dom()
            &&& forall|k: usize| k != player_id ==> #[trigger] a2[k] == active[k]
            &&& a2[player_id].player_id == active[player_id].player_id
            &&& a2[player_id].shape == active[player_id].shape
        }),
{
    let a2 = drop_result(active, fallen, player_id, shift_period, now).0;
    assert(a2.dom() =~= active.dom());
}

/// A state of the game in which a step of the game clock can be seen to stay
/// within `i8` arithmetic whatever order the due pieces move in: each active
/// piece is keyed by its player's id, has a time to move and a known shape,
/// lies at most at column 124 and row 122, and any two lie less far apart
/// than the arithmetic of comparing them allows after either moves down; at
/// most `MAX_NUM_ACTIVE` pieces are in play, the queue position is in range,
/// and the first waiting player is not in play.
pub open spec fn shift_bounded(active: Map<usize, PieceState>, inactive: Seq<PieceState>, index: int) -> bool {
    &&& active.dom().finite()
    &&& active.len() <= MAX_NUM_ACTIVE
    &&& 0 <= index < 42
    &&& inactive.len() > 0 ==> !active.contains_key(inactive[0].player_id)
    &&& forall|k: usize|
        #[trigger] active.contains_key(k) ==> {
            &&& active[k].player_id == k
            &&& active[k].next_shift_time is Some
            &&& active[k].shape < 7
            &&& active[k].pivot.x <= 124
            &&& active[k].pivot.y <= 122
        }
    &&& forall|k1: usize, k2: usize|
        #[trigger] active.contains_key(k1) && #[trigger] active.contains_key(k2) && k1 != k2 ==> {
            &&& -128 <= active[k1].pivot.x - active[k2].pivot.x <= 124
            &&& -128 <= active[k1].pivot.y - active[k2].pivot.y <= 123
        }
}

/// Moving pieces down keeps every piece in its column, its shape and its
/// player, moves each at most one row down, and leaves the pieces not moved
/// as they were.
proof fn lemma_drop_all_moves(
    active: Map<usize, PieceState>,
    fallen: Map<(int, int), u8>,
    order: Seq<usize>,
    shift_period: u128,
    now: u128,
)
    requires
        order.no_duplicates(),
        forall|i: int| 0 <= i < order.len() ==> active.contains_key(#[trigger] order[i]),
        forall|k: usize| #[trigger] active.contains_key(k) ==> active[k].pivot.y <= 122,
    ensures
        ({
            let a1 = drop_all(active, fallen, order, shift_period, now).0;
            &&& a1.dom() == active.dom()
            &&& forall|k: usize|
                #[trigger] a1.contains_key(k) ==> {
                    &&& a1[k].shape == active[k].shape
                    &&& a1[k].player_id == active[k].player_id
                    &&& a1[k].pivot.x == active[k].pivot.x
                    &&& active[k].pivot.y <= a1[k].pivot.y <= active[k].pivot.y + 1
                }
            &&& forall|k: usize| #[trigger] a1.contains_key(k) && !order.contains(k) ==> a1[k] == active[k]
        }),
    decreases order.len(),
{
    if order.len() > 0 {
        let prefix = order.drop_last();
        let id = order.last();
        assert forall|i: int| 0 <= i < prefix.len() implies active.contains_key(#[trigger] prefix[i]) by {
            assert(prefix[i] == order[i]);
        }
        lemma_drop_all_moves(active, fallen, prefix, shift_period, now);
        let (a1, f1, frozen1) = drop_all(active, fallen, prefix, shift_period, now);
        assert(!prefix.contains(id)) by {
            if prefix.contains(id) {
                let i = choose|i: int| 0 <= i < prefix.len() && prefix[i] == id;
                assert(order[i] == order[order.len() - 1]);
            }
        }
        assert(active.contains_key(order[order.len() - 1]));
        assert(a1[id] == active[id]);
        let a2 = drop_result(a1, f1, id, shift_period, now).0;
        assert(a2.dom() =~= a1.dom());
        assert forall|k: usize| #[trigger] a2.contains_key(k) && !order.contains(k) implies a2[k]
            == active[k] by {
            assert(k != id);
            if prefix.contains(k) {
                let i = choose|i: int| 0 <= i < prefix.len() && prefix[i] == k;
                assert(order[i] == k);
            }
        }
    }
}

/// In a bounded state, every order of the moves down stays within `i8`
/// arithmetic.
proof fn lemma_drops_bounded(
    active: Map<usize, PieceState>,
    inactive: Seq<PieceState>,
    index: int,
    fallen: Map<(int, int), u8>,
    order: Seq<usize>,
    shift_period: u128,
    now: u128,
)
    requires
        shift_bounded(active, inactive, index),
        order.no_duplicates(),
        forall|i: int| 0 <= i < order.len() ==> active.contains_key(#[trigger] order[i]),
    ensures
        drops_defined(active, fallen, order, shift_period, now),
    decreases order.len(),
{
    if order.len() > 0 {
        let prefix = order.drop_last();
        let id = order.last();
        assert forall|i: int| 0 <= i < prefix.len() implies active.contains_key(#[trigger] prefix[i]) by {
            assert(prefix[i] == order[i]);
        }
        lemma_drops_bounded(active, inactive, index, fallen, prefix, shift_period, now);
        lemma_drop_all_moves(active, fallen, prefix, shift_period, now);
        let (a1, f1, frozen1) = drop_all(active, fallen, prefix, shift_period, now);
        assert(!prefix.contains(id)) by {
            if prefix.contains(id) {
                let i = choose|i: int| 0 <= i < prefix.len() && prefix[i] == id;
                assert(order[i] == order[order.len() - 1]);
            }
        }
        assert(active.contains_key(order[order.len() - 1]));
        let p = a1[id];
        assert(p == active[id]);
        let c = lowered(p);
        assert forall|k: usize| #[trigger] a1.contains_key(k) && k != c.player_id implies {
            &&& a1[k].shape < 7
            &&& -128 <= c.pivot.x - a1[k].pivot.x <= 124
            &&& -128 <= c.pivot.y - a1[k].pivot.y <= 124
        } by {
            assert(active.contains_key(k) && active.contains_key(id) && k != id);
        }
        assert(players_defined(c, a1));
    }
}

/// In a bounded state, a step of the game clock stays within the arithmetic
/// of its checks, whatever order the due pieces move in.
pub proof fn bounded_state_can_shift(
    active: Map<usize, PieceState>,
    inactive: Seq<PieceState>,
    fallen: Map<(int, int), u8>,
    index: int,
    last_spawn: u128,
    shift_period: u128,
    now: u128,
)
    requires
        shift_bounded(active, inactive, index),
    ensures
        shift_defined(active, inactive, fallen, index, last_spawn, shift_period, now),
{
    assert forall|order: Seq<usize>| #[trigger] due_order(active, now, order) implies shift_order_defined(
        active,
        inactive,
        fallen,
        index,
        last_spawn,
        shift_period,
        now,
        order,
    ) by {
        assert forall|i: int| 0 <= i < order.len() implies active.contains_key(#[trigger] order[i]) by {
            assert(order.contains(order[i]));
        }
        lemma_drops_bounded(active, inactive, index, fallen, order, shift_period, now);
        crate::laws::lemma_drop_all_keeps(active, fallen, order, shift_period, now);
        let (a1, f1, frozen) = drop_all(active, fallen, order, shift_period, now);
        assert forall|i: int| 0 <= i < frozen.len() implies a1.contains_key(#[trigger] frozen[i]) by {
            assert(order.contains(frozen[i]));
            let j = choose|j: int| 0 <= j < order.len() && order[j] == frozen[i];
            assert(active.contains_key(order[j]));
        }
        crate::laws::lemma_move_all_keeps(a1, inactive, frozen);
        let (a3, i3) = move_all_to_inactive(a1, inactive, frozen);
        assert(a3.dom().subset_of(active.dom()));
        vstd::set_lib::lemma_len_subset(a3.dom(), active.dom());
        if i3.len() > 0 {
            if inactive.len() > 0 {
                assert(i3[0] == inactive[0]);
            } else {
                assert(i3[inactive.len() as int + 0] == a1[frozen[0]]);
                assert(a1.contains_key(frozen[0]));
                assert(frozen.contains(frozen[0]));
            }
        }
    }
}

/// Whether active piece `p`, keyed by `k`, is as `shift_bounded` asks.
spec fn entry_bounded(k: usize, p: PieceState) -> bool {
    &&& p.player_id == k
    &&& p.next_shift_time is Some
    &&& p.shape < 7
    &&& p.pivot.x <= 124
    &&& p.pivot.y <= 122
}

/// Tests whether the game is in a bounded state, in which `shift_pieces` and
/// `frame_step` can be run at any time.
pub fn shift_ready(
    active_players: &ActivePlayersType,
    inactive_players: &InactivePlayersType,
    block_index: usize,
) -> (r: bool)
    ensures
        r == shift_bounded(active_players@, inactive_players@, block_index as int),
{
    if active_players.len() > MAX_NUM_ACTIVE || block_index >= 42 {
        return false;
    }
    if inactive_players.len() > 0 && active_players.contains_key(&inactive_players[0].player_id) {
        return false;
    }
    let mut ok = true;
    for entry in it: active_players.iter()
        invariant
            it.seq() == active_players.iter().remaining(),
            ok == forall|j: int|
                0 <= j < it.index() ==> entry_bounded(*it.seq()[j].0, *#[trigger] it.seq()[j].1),
    {
        let (k, p) = entry;
        let good = p.player_id == *k && p.next_shift_time.is_some() && p.shape < 7 && p.pivot.x <= 124
            && p.pivot.y <= 122;
        ok = ok && good;
    }
    proof {
        let sq = active_players.iter().remaining();
        if ok {
            assert forall|k: usize| #[trigger] active_players@.contains_key(k) implies entry_bounded(
                k,
                active_players@[k],
            ) by {
                assert(sq.contains((&k, &active_players@[k])));
                let j = choose|j: int| 0 <= j < sq.len() && sq[j] == (&k, &active_players@[k]);
                assert(entry_bounded(*sq[j].0, *sq[j].1));
            }
        } else {
            let j = choose|j: int| 0 <= j < sq.len() && !entry_bounded(*sq[j].0, *#[trigger] sq[j].1);
            assert(active_players@.contains_key(*sq[j].0) && active_players@[*sq[j].0] == *sq[j].1);
        }
    }
    if !ok {
        return false;
    }
    let states = active_piece_states(active_players);
    let ghost keys = choose|keys: Seq<usize>| lists_active(active_players@, keys, states@);
    let mut i: usize = 0;
    while i < states.len()
        invariant
            0 <= i <= states@.len(),
            lists_active(active_players@, keys, states@),
            forall|a: int, b: int|
                0 <= a < i && 0 <= b < states@.len() && a != b ==> {
                    &&& -128 <= #[trigger] states@[a].pivot.x - #[trigger] states@[b].pivot.x <= 124
                    &&& -128 <= states@[a].pivot.y - states@[b].pivot.y <= 123
                },
        decreases states@.len() - i,
    {
        let mut j: usize = 0;
        while j < states.len()
            invariant
                0 <= i < states@.len(),
                0 <= j <= states@.len(),
                lists_active(active_players@, keys, states@),
                forall|b: int|
                    0 <= b < j && i != b ==> {
                        &&& -128 <= states@[i as int].pivot.x - #[trigger] states@[b].pivot.x <= 124
                        &&& -128 <= states@[i as int].pivot.y - states@[b].pivot.y <= 123
                    },
            decreases states@.len() - j,
        {
            if i != j {
                let dx: i16 = states[i].pivot.x as i16 - states[j].pivot.x as i16;
                let dy: i16 = states[i].pivot.y as i16 - states[j].pivot.y as i16;
                if !(-128 <= dx && dx <= 124 && -128 <= dy && dy <= 123) {
                    proof {
                        assert(keys.contains(keys[i as int]) && keys.contains(keys[j as int]));
                        assert(keys[i as int] != keys[j as int]);
                        assert(states@[i as int] == active_players@[keys[i as int]]);
                        assert(states@[j as int] == active_players@[keys[j as int]]);
                        assert(active_players@.contains_key(keys[i as int]));
                        assert(active_players@.contains_key(keys[j as int]));
                    }
                    return false;
                }
            }
            j = j + 1;
        }
        i = i + 1;
    }
    proof {
        assert forall|k1: usize, k2: usize|
            #[trigger] active_players@.contains_key(k1) && #[trigger] active_players@.contains_key(k2) && k1
                != k2 implies {
            &&& -128 <= active_players@[k1].pivot.x - active_players@[k2].pivot.x <= 124
            &&& -128 <= active_players@[k1].pivot.y - active_players@[k2].pivot.y <= 123
        } by {
            assert(keys.contains(k1) && keys.contains(k2));
            let a = choose|a: int| 0 <= a < keys.len() && keys[a] == k1;
            let b = choose|b: int| 0 <= b < keys.len() && keys[b] == k2;
            assert(states@[a] == active_players@[k1]);
            assert(states@[b] == active_players@[k2]);
        }
    }
    true
}

/// Moves down the pieces that are due at time `now`, sends the players whose
/// pieces froze to the back of the queue, and, once more than `shift_period`
/// milliseconds have passed since the last spawn, puts a new piece in play.
/// The due pieces move in the order the map of active pieces lists them.
pub fn shift_pieces(
    active_players: &mut ActivePlayersType,
    inactive_players: &mut InactivePlayersType,
    fallen_blocks: &mut FallenBlocks,
    block_queue: &mut BlockQueueType,
    block_index: &mut usize,
    last_spawn_time: &mut u128,
    shift_period: u128,
    now: u128,
)
    requires
        shift_defined(
            old(active_players)@,
            old(inactive_players)@,
            old(fallen_blocks)@,
            *old(block_index) as int,
            *old(last_spawn_time),
            shift_period,
            now,
        ),
        now + BOTTOM_TOUCH_MS <= u128::MAX,
        now + shift_period <= u128::MAX,
        now <= i128::MAX,
        *old(last_spawn_time) <= i128::MAX,
        shift_period <= i128::MAX,
    ensures
        exists|order: Seq<usize>|
            due_order(old(active_players)@, now, order) && shift_step(
                old(active_players)@,
                old(inactive_players)@,
                old(fallen_blocks)@,
                *old(block_queue),
                *old(block_index) as int,
                *old(last_spawn_time),
                shift_period,
                now,
                order,
                final(active_players)@,
                final(inactive_players)@,
                final(fallen_blocks)@,
                *final(block_queue),
                *final(block_index) as int,
                *final(last_spawn_time),
            ),
{
    let ghost a0 = active_players@;
    let ghost i0 = inactive_players@;
    let ghost f0 = fallen_blocks@;
    // convert to i128 before subtracting so that a negative result doesn't cause a panic
    let spawn_ready = now as i128 - *last_spawn_time as i128 > shift_period as i128;
    let mut player_ids_to_drop: Vec<usize> = Vec::new();
    // where, in the listing of the active pieces, each of them came from
    let ghost mut positions: Seq<int> = Seq::empty();
    let ghost mut seen: int = 0;
    let players_iter = active_players.iter();
    assert(players_iter.remaining().no_duplicates());
    for entry in it: players_iter
        invariant
            it.seq() == active_players.iter().remaining(),
            it.seq().no_duplicates(),
            active_players@ == a0,
            forall|k: usize| #[trigger] a0.contains_key(k) ==> a0[k].player_id == k,
            player_ids_to_drop@.no_duplicates(),
            positions.len() == player_ids_to_drop@.len(),
            seen == it.index(),
            forall|a: int|
                0 <= a < positions.len() ==> 0 <= #[trigger] positions[a] < it.index(),
            forall|a: int|
                0 <= a < positions.len() ==> #[trigger] player_ids_to_drop@[a] == *it.seq()[positions[a]].0,
            forall|a: int|
                0 <= a < positions.len() ==> due(*it.seq()[#[trigger] positions[a]].1, now),
            forall|j: int|
                0 <= j < it.index() && due(*it.seq()[j].1, now) ==> player_ids_to_drop@.contains(
                    *#[trigger] it.seq()[j].0,
                ),
    {
        let (key, player) = entry;
        let ghost old_ids = player_ids_to_drop@;
        let ghost cur = it.index();
        proof {
            assert(a0.contains_key(*key) && a0[*key] == *player);
            assert(player.player_id == *key);
            assert(it.seq()[cur] == (key, player));
        }
        match player.next_shift_time {
            Some(next_shift_time) => {
                if now > next_shift_time {
                    proof {
                        if old_ids.contains(*key) {
                            let a = choose|a: int| 0 <= a < old_ids.len() && old_ids[a] == *key;
                            let j = positions[a];
                            assert(*it.seq()[j].0 == *key);
                            assert(a0[*it.seq()[j].0] == *it.seq()[j].1);
                            assert(it.seq()[j] == it.seq()[cur]);
                        }
                        positions = positions.push(cur);
                    }
                    player_ids_to_drop.push(player.player_id);
                }
            },
            None => {},
        }
        proof {
            let new_ids = player_ids_to_drop@;
            assert forall|j: int|
                0 <= j < cur + 1 && due(*it.seq()[j].1, now) implies new_ids.contains(
                *#[trigger] it.seq()[j].0,
            ) by {
                if j < cur {
                    assert(old_ids.contains(*it.seq()[j].0));
                    let a = choose|a: int| 0 <= a < old_ids.len() && old_ids[a] == *it.seq()[j].0;
                    assert(new_ids[a] == old_ids[a]);
                } else {
                    assert(new_ids[new_ids.len() - 1] == *it.seq()[j].0);
                }
            }
            seen = seen + 1;
        }
    }
    proof {
        let sq = active_players.iter().remaining();
        assert(seen == sq.len());
        assert forall|k: usize| #[trigger]
            player_ids_to_drop@.contains(k) <==> (a0.contains_key(k) && due(a0[k], now)) by {
            if player_ids_to_drop@.contains(k) {
                let a = choose|a: int| 0 <= a < player_ids_to_drop@.len() && player_ids_to_drop@[a] == k;
                let j = positions[a];
                assert(a0.contains_key(*sq[j].0) && a0[*sq[j].0] == *sq[j].1);
            }
            if a0.contains_key(k) && due(a0[k], now) {
                assert(sq.contains((&k, &a0[k])));
                let j = choose|j: int| 0 <= j < sq.len() && sq[j] == (&k, &a0[k]);
                assert(due(*sq[j].1, now));
                assert(player_ids_to_drop@.contains(*sq[j].0));
            }
        }
    }
    let ghost order = player_ids_to_drop@;
    assert(due_order(a0, now, order));
    assert(shift_order_defined(a0, i0, f0, *block_index as int, *last_spawn_time, shift_period, now, order));
    // move the due pieces down
    let mut player_ids_to_remove: Vec<usize> = Vec::new();
    let mut i: usize = 0;
    assert(order.take(0) =~= Seq::<usize>::empty());
    while i < player_ids_to_drop.len()
        invariant
            0 <= i <= order.len(),
            player_ids_to_drop@ == order,
            due_order(a0, now, order),
            drops_defined(a0, f0, order, shift_period, now),
            inactive_players@ == i0,
            now + BOTTOM_TOUCH_MS <= u128::MAX,
            now + shift_period <= u128::MAX,
            drop_all(a0, f0, order.take(i as int), shift_period, now) == (
                active_players@,
                fallen_blocks@,
                player_ids_to_remove@,
            ),
            active_players@.dom() == a0.dom(),
            forall|k: usize|
                #[trigger] active_players@.contains_key(k) ==> {
                    &&& active_players@[k].player_id == k
                },
            forall|k: usize|
                active_players@.contains_key(k) && !order.take(i as int).contains(k)
                    ==> #[trigger] active_players@[k] == a0[k],
            forall|a: int|
                0 <= a < player_ids_to_remove@.len() ==> order.take(i as int).contains(
                    #[trigger] player_ids_to_remove@[a],
                ),
            player_ids_to_remove@.no_duplicates(),
        decreases order.len() - i,
    {
        let player_id = player_ids_to_drop[i];
        proof {
            assert(order.contains(player_id));
            assert(!order.take(i as int).contains(player_id)) by {
                if order.take(i as int).contains(player_id) {
                    let a = choose|a: int| 0 <= a < i && order.take(i as int)[a] == player_id;
                    assert(order[a] == order[i as int]);
                }
            }
            lemma_drops_defined_prefix(a0, f0, order, shift_period, now, i as int);
            lemma_drop_result_frame(active_players@, fallen_blocks@, player_id, shift_period, now);
            assert(order.take(i + 1).drop_last() =~= order.take(i as int));
            assert(order.take(i + 1).last() == player_id);
        }
        let ghost before = active_players@;
        if drop_piece(player_id, fallen_blocks, active_players, shift_period, now) {
            player_ids_to_remove.push(player_id);
        }
        proof {
            assert forall|k: usize|
                active_players@.contains_key(k) && !order.take(i + 1).contains(k)
                    implies #[trigger] active_players@[k] == a0[k] by {
                assert(order.take(i + 1)[i as int] == player_id);
                assert(k != player_id);
                if order.take(i as int).contains(k) {
                    let a = choose|a: int| 0 <= a < i && order.take(i as int)[a] == k;
                    assert(order.take(i + 1)[a] == k);
                }
            }
            assert forall|a: int|
                0 <= a < player_ids_to_remove@.len() implies order.take(i + 1).contains(
                #[trigger] player_ids_to_remove@[a],
            ) by {
                assert(order.take(i + 1)[i as int] == player_id);
                if a < player_ids_to_remove@.len() - 1 || player_ids_to_remove@[a] != player_id {
                    let x = player_ids_to_remove@[a];
                    if order.take(i as int).contains(x) {
                        let b = choose|b: int| 0 <= b < i && order.take(i as int)[b] == x;
                        assert(order.take(i + 1)[b] == x);
                    }
                }
            }
        }
        i = i + 1;
    }
    assert(order.take(order.len() as int) =~= order);
    // take the players whose pieces froze out of play
    let ghost a1 = active_players@;
    let ghost frozen = player_ids_to_remove@;
    let mut j: usize = 0;
    assert(frozen.take(0) =~= Seq::<usize>::empty());
    while j < player_ids_to_remove.len()
        invariant
            0 <= j <= frozen.len(),
            player_ids_to_remove@ == frozen,
            frozen.no_duplicates(),
            forall|a: int| 0 <= a < frozen.len() ==> a1.contains_key(#[trigger] frozen[a]),
            forall|k: usize| #[trigger] a1.contains_key(k) ==> a1[k].player_id == k,
            move_all_to_inactive(a1, i0, frozen.take(j as int)) == (
                active_players@,
                inactive_players@,
            ),
            forall|k: usize|
                #[trigger] active_players@.contains_key(k) <==> (a1.contains_key(k)
                    && !frozen.take(j as int).contains(k)),
            forall|k: usize|
                #[trigger] active_players@.contains_key(k) ==> active_players@[k] == a1[k],
        decreases frozen.len() - j,
    {
        let player_id = player_ids_to_remove[j];
        proof {
            assert(!frozen.take(j as int).contains(player_id)) by {
                if frozen.take(j as int).contains(player_id) {
                    let a = choose|a: int| 0 <= a < j && frozen.take(j as int)[a] == player_id;
                    assert(frozen[a] == frozen[j as int]);
                }
            }
            assert(frozen.take(j + 1).drop_last() =~= frozen.take(j as int));
            assert(frozen.take(j + 1).last() == player_id);
        }
        let ghost before_active = active_players@;
        move_to_inactive(player_id, active_players, inactive_players);
        proof {
            assert(before_active.contains_key(player_id));
            assert(a1.contains_key(player_id));
            assert(before_active[player_id].player_id == player_id);
            assert forall|k: usize| #[trigger]
                active_players@.contains_key(k) <==> (a1.contains_key(k) && !frozen.take(
                    j + 1,
                ).contains(k)) by {
                assert(frozen.take(j + 1)[j as int] == player_id);
                if frozen.take(j + 1).contains(k) && k != player_id {
                    let a = choose|a: int| 0 <= a < j + 1 && #[trigger] frozen.take(j + 1)[a] == k;
                    assert(frozen.take(j as int)[a] == k);
                }
                if frozen.take(j as int).contains(k) {
                    let a = choose|a: int| 0 <= a < j && frozen.take(j as int)[a] == k;
                    assert(frozen.take(j + 1)[a] == k);
                }
            }
        }
        j = j + 1;
    }
    assert(frozen.take(frozen.len() as int) =~= frozen);
    if spawn_ready {
        // activate a single piece
        activate_piece(active_players, inactive_players, block_queue, block_index, shift_period, now);
        *last_spawn_time = now;
    }
}

/// Whether square `sq` is one of the squares at or next to a start position,
/// where a fallen block ends the game.
pub open spec fn in_start_zone(sq: (int, int)) -> bool {
    let starts = seq![
        (PIECE_START_X_LEFT as int, PIECE_START_Y_LEFT as int),
        (PIECE_START_X_RIGHT as int, PIECE_START_Y_RIGHT as int),
    ];
    exists|i: int|
        0 <= i < 2 && {
            let s = #[trigger] starts[i];
            ||| sq == s
            ||| sq == (s.0 + 1, s.1)
            ||| sq == (s.0 - 1, s.1)
            ||| sq == (s.0, s.1 - 1)
            ||| sq == (s.0, s.1 + 1)
        }
}

/// Whether the game is over: a fallen block lies at or next to a start position.
pub open spec fn start_blocked(fallen: Map<(int, int), u8>) -> bool {
    exists|sq: (int, int)| in_start_zone(sq) && #[trigger] fallen.contains_key(sq)
}

/// Tests for the end of the game: whether a fallen block lies at, or right,
/// left, above or below, either start position.
pub fn game_over(fallen_blocks: &FallenBlocks) -> (r: bool)
    ensures
        r == start_blocked(fallen_blocks@),
{
    let start_left_pivot = Pivot { x: PIECE_START_X_LEFT, y: PIECE_START_Y_LEFT };
    let start_right_pivot = Pivot { x: PIECE_START_X_RIGHT, y: PIECE_START_Y_RIGHT };
    let starting_tiles = [start_left_pivot, start_right_pivot];
    let ghost starts = seq![
        (PIECE_START_X_LEFT as int, PIECE_START_Y_LEFT as int),
        (PIECE_START_X_RIGHT as int, PIECE_START_Y_RIGHT as int),
    ];
    let mut is_collision = false;
    let mut t: usize = 0;
    while t < 2
        invariant
            0 <= t <= 2,
            starting_tiles@ == seq![start_left_pivot, start_right_pivot],
            start_left_pivot == (Pivot { x: PIECE_START_X_LEFT, y: PIECE_START_Y_LEFT }),
            start_right_pivot == (Pivot { x: PIECE_START_X_RIGHT, y: PIECE_START_Y_RIGHT }),
            starts == seq![
                (PIECE_START_X_LEFT as int, PIECE_START_Y_LEFT as int),
                (PIECE_START_X_RIGHT as int, PIECE_START_Y_RIGHT as int),
            ],
            is_collision == exists|sq: (int, int)|
                #![trigger fallen_blocks@.contains_key(sq)]
                fallen_blocks@.contains_key(sq) && exists|i: int|
                    0 <= i < t && {
                        let s = #[trigger] starts[i];
                        ||| sq == s
                        ||| sq == (s.0 + 1, s.1)
                        ||| sq == (s.0 - 1, s.1)
                        ||| sq == (s.0, s.1 - 1)
                        ||| sq == (s.0, s.1 + 1)
                    },
        decreases 2 - t,
    {
        let starting_tile = starting_tiles[t];
        let right = Pivot { x: starting_tile.x + 1, y: starting_tile.y };
        let left = Pivot { x: starting_tile.x - 1, y: starting_tile.y };
        let above = Pivot { x: starting_tile.x, y: starting_tile.y - 1 };
        let below = Pivot { x: starting_tile.x, y: starting_tile.y + 1 };
        let to_check = [starting_tile, right, left, above, below];
        let ghost before = is_collision;
        let mut c: usize = 0;
        let mut hit = false;
        while c < 5
            invariant
                0 <= c <= 5,
                to_check@ == seq![starting_tile, right, left, above, below],
                hit == exists|d: int|
                    0 <= d < c && #[trigger] fallen_blocks@.contains_key(
                        (to_check@[d].x as int, to_check@[d].y as int),
                    ),
            decreases 5 - c,
        {
            if fallen_blocks.contains_key(&to_check[c]) {
                hit = true;
            }
            c = c + 1;
        }
        if hit {
            is_collision = true;
        }
        proof {
            let s = starts[t as int];
            assert(starting_tile.x == s.0 && starting_tile.y == s.1);
            let squares = seq![s, (s.0 + 1, s.1), (s.0 - 1, s.1), (s.0, s.1 - 1), (s.0, s.1 + 1)];
            assert forall|d: int| 0 <= d < 5 implies (to_check@[d].x as int, to_check@[d].y as int)
                == squares[d] by {}
            assert(is_collision == exists|sq: (int, int)|
                #![trigger fallen_blocks@.contains_key(sq)]
                fallen_blocks@.contains_key(sq) && exists|i: int|
                    0 <= i < t + 1 && {
                        let s = #[trigger] starts[i];
                        ||| sq == s
                        ||| sq == (s.0 + 1, s.1)
                        ||| sq == (s.0 - 1, s.1)
                        ||| sq == (s.0, s.1 - 1)
                        ||| sq == (s.0, s.1 + 1)
                    }) by {
                if hit {
                    let d = choose|d: int|
                        0 <= d < 5 && #[trigger] fallen_blocks@.contains_key(
                            (to_check@[d].x as int, to_check@[d].y as int),
                        );
                    let sq = squares[d];
                    assert(fallen_blocks@.contains_key(sq));
                    assert(starts[t as int] == s);
                }
                if !before && !hit {
                    assert forall|sq: (int, int)|
                        fallen_blocks@.contains_key(sq) implies !exists|i: int|
                        0 <= i < t + 1 && {
                            let s = #[trigger] starts[i];
                            ||| sq == s
                            ||| sq == (s.0 + 1, s.1)
                            ||| sq == (s.0 - 1, s.1)
                            ||| sq == (s.0, s.1 - 1)
                            ||| sq == (s.0, s.1 + 1)
                        } by {
                        if exists|i: int|
                            0 <= i < t + 1 && {
                                let s = #[trigger] starts[i];
                                ||| sq == s
                                ||| sq == (s.0 + 1, s.1)
                                ||| sq == (s.0 - 1, s.1)
                                ||| sq == (s.0, s.1 - 1)
                                ||| sq == (s.0, s.1 + 1)
                            } {
                            let i = choose|i: int|
                                0 <= i < t + 1 && {
                                    let s = #[trigger] starts[i];
                                    ||| sq == s
                                    ||| sq == (s.0 + 1, s.1)
                                    ||| sq == (s.0 - 1, s.1)
                                    ||| sq == (s.0, s.1 - 1)
                                    ||| sq == (s.0, s.1 + 1)
                                };
                            if i == t {
                                let d = if sq == squares[0] {
                                    0int
                                } else if sq == squares[1] {
                                    1int
                                } else if sq == squares[2] {
                                    2int
                                } else if sq == squares[3] {
                                    3int
                                } else {
                                    4int
                                };
                                assert(fallen_blocks@.contains_key(
                                    (to_check@[d].x as int, to_check@[d].y as int),
                                ));
                            }
                        }
                    }
                }
            }
        }
        t = t + 1;
    }
    is_collision
}

/// Resets every part of the game for the next one.
pub fn reset_game(
    active_players: &mut ActivePlayersType,
    inactive_players: &mut InactivePlayersType,
    fallen_blocks: &mut FallenBlocks,
    score: &mut u32,
)
    ensures
        final(active_players)@ == Map::<usize, PieceState>::empty(),
        final(inactive_players)@ == Seq::<PieceState>::empty(),
        final(fallen_blocks)@ == Map::<(int, int), u8>::empty(),
        *final(score) == 0,
{
    active_players.clear();
    inactive_players.clear();
    fallen_blocks.clear();
    *score = 0;
}

/// The ids of the waiting players, in queue order.
pub fn inactive_player_ids(inactive_players: &InactivePlayersType) -> (r: Vec<usize>)
    ensures
        r@ == inactive_players@.map_values(|p: PieceState| p.player_id),
{
    let mut ids: Vec<usize> = Vec::new();
    let mut i: usize = 0;
    while i < inactive_players.len()
        invariant
            0 <= i <= inactive_players@.len(),
            ids@ == inactive_players@.take(i as int).map_values(|p: PieceState| p.player_id),
        decreases inactive_players@.len() - i,
    {
        ids.push(inactive_players[i].player_id);
        i = i + 1;
        assert(ids@ =~= inactive_players@.take(i as int).map_values(|p: PieceState| p.player_id));
    }
    assert(inactive_players@.take(i as int) =~= inactive_players@);
    ids
}

/// Whether `states` lists the pieces of `active` in the order of `keys`, which
/// holds each of its keys once.
pub open spec fn lists_active(active: Map<usize, PieceState>, keys: Seq<usize>, states: Seq<PieceState>) -> bool {
    &&& keys.no_duplicates()
    &&& keys.len() == states.len()
    &&& forall|k: usize| #[trigger] keys.contains(k) <==> active.contains_key(k)
    &&& forall|i: int| 0 <= i < keys.len() ==> #[trigger] states[i] == active[keys[i]]
}

/// The active pieces, each once, in no particular order.
pub fn active_piece_states(active_players: &ActivePlayersType) -> (r: Vec<PieceState>)
    ensures
        r@.len() == active_players@.len(),
        exists|keys: Seq<usize>| #[trigger] lists_active(active_players@, keys, r@),
{
    let mut states: Vec<PieceState> = Vec::new();
    for entry in it: active_players.iter()
        invariant
            it.seq() == active_players.iter().remaining(),
            states@.len() == it.index(),
            forall|j: int| 0 <= j < it.index() ==> #[trigger] states@[j] == *it.seq()[j].1,
    {
        let (_, player) = entry;
        states.push(*player);
    }
    proof {
        let sq = active_players.iter().remaining();
        let keys = Seq::new(sq.len(), |i: int| *sq[i].0);
        assert(states@.len() == sq.len());
        assert forall|i: int| 0 <= i < keys.len() implies #[trigger] states@[i] == active_players@[keys[i]] by {
            assert(active_players@.contains_key(*sq[i].0) && active_players@[*sq[i].0] == *sq[i].1);
        }
        assert forall|i: int, j: int| 0 <= i < keys.len() && 0 <= j < keys.len() && i != j implies keys[i]
            != keys[j] by {
            assert(active_players@[*sq[i].0] == *sq[i].1);
            assert(active_players@[*sq[j].0] == *sq[j].1);
            if keys[i] == keys[j] {
                assert(sq[i] == sq[j]);
            }
        }
        assert forall|k: usize| #[trigger] keys.contains(k) <==> active_players@.contains_key(k) by {
            if active_players@.contains_key(k) {
                assert(sq.contains((&k, &active_players@[k])));
                let j = choose|j: int| 0 <= j < sq.len() && sq[j] == (&k, &active_players@[k]);
                assert(keys[j] == k);
            }
            if keys.contains(k) {
                let j = choose|j: int| 0 <= j < keys.len() && keys[j] == k;
                assert(active_players@.contains_key(*sq[j].0));
            }
        }
        assert(lists_active(active_players@, keys, states@));
    }
    states
}

/// The piece of a player who just connected: unset until it comes into play,
/// named "guest".
pub open spec fn new_player_state(player_id: usize) -> PieceState {
    PieceState {
        shape: 0,
        pivot: Pivot { x: 0, y: 0 },
        rotation: 0,
        player_id,
        player_name: ['g', 'u', 'e', 's', 't', ' ', ' ', ' '],
        next_shift_time: None,
        fast_drop: false,
    }
}

/// Puts a player who just connected at the back of the queue of waiting players.
pub fn join_player(player_id: usize, inactive_players: &mut InactivePlayersType)
    ensures
        final(inactive_players)@ == old(inactive_players)@.push(new_player_state(player_id)),
{
    // a "null" piece, set properly when the piece comes into play
    let new_piece_state = PieceState {
        shape: 0,
        pivot: Pivot { x: 0, y: 0 },
        rotation: 0,
        player_id: player_id,
        player_name: ['g', 'u', 'e', 's', 't', ' ', ' ', ' '],
        next_shift_time: None,
        fast_drop: false,
    };
    inactive_players.push_back(new_piece_state);
}

/// The invariant of the players that the game keeps: each active piece is
/// keyed by its player's id, has a time to move and a known shape; at most
/// `MAX_NUM_ACTIVE` pieces are in play; no waiting player is in play, and
/// each waits once.
pub open spec fn game_consistent(active: Map<usize, PieceState>, inactive: Seq<PieceState>) -> bool {
    &&& active.dom().finite()
    &&& active.len() <= MAX_NUM_ACTIVE
    &&& forall|k: usize|
        #[trigger] active.contains_key(k) ==> {
            &&& active[k].player_id == k
            &&& active[k].next_shift_time is Some
            &&& active[k].shape < 7
        }
    &&& forall|i: int| 0 <= i < inactive.len() ==> !active.contains_key(#[trigger] inactive[i].player_id)
    &&& forall|i: int, j: int|
        0 <= i < j < inactive.len() ==> #[trigger] inactive[i].player_id != #[trigger] inactive[j].player_id
}

/// Whether every piece in the queue is one of the seven shapes.
pub open spec fn queue_valid(q: BlockQueueType) -> bool {
    forall|b: int, i: int| 0 <= b < 3 && 0 <= i < 14 ==> #[trigger] q@[b]@[i] < 7
}

} // verus!
