use vstd::prelude::*;
use crate::board::FallenBlocks;
use crate::game::{
    drop_all, due_order, game_over, reset_game, shift_defined, shift_pieces, shift_step,
    start_blocked, BlockQueueType, InactivePlayersType, BOTTOM_TOUCH_MS,
};
use crate::piece_state::PieceState;
use crate::tetris::{cleared_board, clear_lines, line_points, lines_cleared, ActivePlayersType};

verus! {

/// What one frame of the game does once the pieces have moved (to `active`,
/// `inactive` and `fallen`): the full rows are cleared and scored; when a
/// fallen block then lies at or next to a start position, the game is over
/// and the players, the board and the score are reset.
pub open spec fn frame_outcome(
    active: Map<usize, PieceState>,
    inactive: Seq<PieceState>,
    fallen: Map<(int, int), u8>,
    score: u32,
    active2: Map<usize, PieceState>,
    inactive2: Seq<PieceState>,
    fallen2: Map<(int, int), u8>,
    score2: u32,
    over: bool,
) -> bool {
    let cleared = cleared_board(fallen);
    if start_blocked(cleared) {
        &&& over
        &&& active2 == Map::<usize, PieceState>::empty()
        &&& inactive2 == Seq::<PieceState>::empty()
        &&& fallen2 == Map::<(int, int), u8>::empty()
        &&& score2 == 0
    } else {
        &&& !over
        &&& active2 == active
        &&& inactive2 == inactive
        &&& fallen2 == cleared
        &&& score2 == score + line_points(lines_cleared(fallen))
    }
}

/// Runs the game logic of one frame at time `now`: moves the pieces that are
/// due and brings in a waiting player when a spawn is due (see
/// `shift_pieces`), clears and scores the full rows, and tests for the end of
/// the game, resetting the game when it is over. Returns whether the game
/// ended. The queue of pieces and the spawn time are kept across games.
pub fn frame_step(
    active_players: &mut ActivePlayersType,
    inactive_players: &mut InactivePlayersType,
    fallen_blocks: &mut FallenBlocks,
    score: &mut u32,
    block_queue: &mut BlockQueueType,
    block_index: &mut usize,
    last_spawn_time: &mut u128,
    shift_period: u128,
    now: u128,
) -> (over: bool)
    requires
        shift_defined(
            old(active_players)@,
            old(inactive_players)@,
            old(fallen_blocks)@,
            *old(block_index) as int,
            *old(last_spawn_time),
            shift_period,
            now,
        ),
        now + BOTTOM_TOUCH_MS <= u128::MAX,
        now + shift_period <= u128::MAX,
        now <= i128::MAX,
        *old(last_spawn_time) <= i128::MAX,
        shift_period <= i128::MAX,
        forall|order: Seq<usize>|
            #[trigger] due_order(old(active_players)@, now, order) ==> *old(score) + line_points(
                lines_cleared(
                    drop_all(old(active_players)@, old(fallen_blocks)@, order, shift_period, now).1,
                ),
            ) <= u32::MAX,
    ensures
        exists|
            order: Seq<usize>,
            active1: Map<usize, PieceState>,
            inactive1: Seq<PieceState>,
            fallen1: Map<(int, int), u8>,
        |
            {
                &&& due_order(old(active_players)@, now, order)
                &&& #[trigger] shift_step(
                    old(active_players)@,
                    old(inactive_players)@,
                    old(fallen_blocks)@,
                    *old(block_queue),
                    *old(block_index) as int,
                    *old(last_spawn_time),
                    shift_period,
                    now,
                    order,
                    active1,
                    inactive1,
                    fallen1,
                    *final(block_queue),
                    *final(block_index) as int,
                    *final(last_spawn_time),
                )
                &&& frame_outcome(
                    active1,
                    inactive1,
                    fallen1,
                    *old(score),
                    final(active_players)@,
                    final(inactive_players)@,
                    final(fallen_blocks)@,
                    *final(score),
                    over,
                )
            },
{
    let ghost a0 = active_players@;
    let ghost i0 = inactive_players@;
    let ghost f0 = fallen_blocks@;
    let ghost q0 = *block_queue;
    let ghost idx0 = *block_index;
    let ghost ls0 = *last_spawn_time;
    shift_pieces(
        active_players,
        inactive_players,
        fallen_blocks,
        block_queue,
        block_index,
        last_spawn_time,
        shift_period,
        now,
    );
    let ghost order = choose|order: Seq<usize>|
        due_order(a0, now, order) && shift_step(
            a0,
            i0,
            f0,
            q0,
            idx0 as int,
            ls0,
            shift_period,
            now,
            order,
            active_players@,
            inactive_players@,
            fallen_blocks@,
            *block_queue,
            *block_index as int,
            *last_spawn_time,
        );
    let ghost active1 = active_players@;
    let ghost inactive1 = inactive_players@;
    let ghost fallen1 = fallen_blocks@;
    assert(fallen1 == drop_all(a0, f0, order, shift_period, now).1);
    // clear all completed lines
    clear_lines(fallen_blocks, score);
    // if a start position is blocked, the game is over
    let over = game_over(fallen_blocks);
    if over {
        reset_game(active_players, inactive_players, fallen_blocks, score);
    }
    assert(due_order(a0, now, order));
    over
}

} // verus!
