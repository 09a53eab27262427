use vstd::prelude::*;
use crate::game::{
    new_player_state, without_player, activation_step, drop_all, drop_result, due_order, game_consistent, move_all_to_inactive,
    next_piece_step, queue_at, queue_valid, shift_step, upcoming, BlockQueueType, MAX_NUM_ACTIVE,
    in_start_zone, start_blocked, PIECE_START_X_LEFT, PIECE_START_X_RIGHT, PIECE_START_Y_LEFT, PIECE_START_Y_RIGHT,
};
use crate::frame::frame_outcome;
use crate::input::KeyState;
use crate::piece_state::{PieceState, Pivot};
use crate::tetris::{
    block_exit, first_exit, kick_search, lemma_screen_exit_at, moved_by_input, reads_before,
    screen_exit, CollisionType, after_input, fall, input_result, lowered, collides, has_block, in_box, overlaps, proposed_state, cleared_board, full_rows_below, lands_on, lemma_cleared_below_empty,
    lemma_cleared_below_source, lemma_full_rows_below_range, lines_cleared, line_points, on_board, row_full,
    BOARD_WIDTH, kick_column, kick_offset, lemma_kick_entry, shifted, I_BLOCK_X_KICKS, I_BLOCK_Y_KICKS, X_KICKS, Y_KICKS,
};

verus! {

proof fn lemma_no_full_rows_below(m: Map<(int, int), u8>, r: int)
    requires
        -1 <= r <= BOARD_WIDTH - 1,
        full_rows_below(m, r) == 0,
    ensures
        forall|r2: int| r < r2 < BOARD_WIDTH ==> !row_full(m, r2) && full_rows_below(m, r2) == 0,
    decreases BOARD_WIDTH - r,
{
    if r < BOARD_WIDTH - 1 {
        lemma_full_rows_below_range(m, r + 1);
        lemma_no_full_rows_below(m, r + 1);
    }
}

proof fn lemma_full_rows_below_zero(m: Map<(int, int), u8>, r: int)
    requires
        -1 <= r <= BOARD_WIDTH - 1,
        forall|r2: int| r < r2 < BOARD_WIDTH ==> !row_full(m, r2),
    ensures
        full_rows_below(m, r) == 0,
    decreases BOARD_WIDTH - r,
{
    if r < BOARD_WIDTH - 1 {
        lemma_full_rows_below_zero(m, r + 1);
    }
}

/// Once the full rows are cleared, no row of the board is full.
pub proof fn cleared_board_has_no_full_row(m: Map<(int, int), u8>, r: int)
    requires
        0 <= r < BOARD_WIDTH,
    ensures
        !row_full(cleared_board(m), r),
{
    if exists|r2: int| r2 > -1 && #[trigger] lands_on(m, r2, r) {
        let r2 = choose|r2: int| r2 > -1 && #[trigger] lands_on(m, r2, r);
        let c = choose|c: int| 0 <= c < BOARD_WIDTH && !#[trigger] m.contains_key((c, r2));
        lemma_cleared_below_source(m, -1, (c, r), r2);
        assert(!cleared_board(m).contains_key((c, r)));
    } else {
        lemma_cleared_below_empty(m, -1, (0, r));
        assert(!cleared_board(m).contains_key((0, r)));
    }
}

/// A board with no full row is left as it is by clearing, and earns no points.
pub proof fn clearing_without_full_rows_changes_nothing(m: Map<(int, int), u8>)
    requires
        forall|r: int| 0 <= r < BOARD_WIDTH ==> !#[trigger] row_full(m, r),
    ensures
        lines_cleared(m) == 0,
        cleared_board(m) == m,
{
    lemma_full_rows_below_zero(m, -1);
    lemma_no_full_rows_below(m, -1);
    let c = cleared_board(m);
    assert forall|sq: (int, int)|
        #![trigger c.contains_key(sq)]
        #![trigger m.contains_key(sq)]
        c.contains_key(sq) == m.contains_key(sq) && (c.contains_key(sq) ==> c[sq] == m[sq]) by {
        if on_board(sq) {
            assert(lands_on(m, sq.1, sq.1));
            lemma_cleared_below_source(m, -1, sq, sq.1);
        }
    }
    assert(c =~= m);
}

/// Clearing the full rows twice is clearing them once; the second time earns
/// no points.
pub proof fn clearing_is_idempotent(m: Map<(int, int), u8>)
    ensures
        lines_cleared(cleared_board(m)) == 0,
        cleared_board(cleared_board(m)) == cleared_board(m),
{
    assert forall|r: int| 0 <= r < BOARD_WIDTH implies !#[trigger] row_full(cleared_board(m), r) by {
        cleared_board_has_no_full_row(m, r);
    }
    clearing_without_full_rows_changes_nothing(cleared_board(m));
}

/// Clearing rows leaves the squares off the board as they are.
pub proof fn clearing_keeps_squares_off_the_board(m: Map<(int, int), u8>, sq: (int, int))
    requires
        !on_board(sq),
    ensures
        cleared_board(m).contains_key(sq) == m.contains_key(sq),
        m.contains_key(sq) ==> cleared_board(m)[sq] == m[sq],
{
}

/// The number of rows cleared at once is at most the height of the board.
pub proof fn lines_cleared_at_most_board_height(m: Map<(int, int), u8>)
    ensures
        0 <= lines_cleared(m) <= BOARD_WIDTH,
{
    lemma_full_rows_below_range(m, -1);
}

/// An input only ever moves its own player's piece, to the piece that
/// `input_result` gives, and only to where the piece may stand, hard drop
/// included; the input of a player who is not active changes nothing.
pub proof fn input_moves_only_own_piece(
    active: Map<usize, PieceState>,
    input: KeyState,
    fallen: Map<(int, int), u8>,
)
    ensures
        after_input(active, input, fallen).dom() == active.dom(),
        forall|k: usize|
            k != input.player_id && #[trigger] active.contains_key(k) ==> after_input(
                active,
                input,
                fallen,
            )[k] == active[k],
        !active.contains_key(input.player_id) ==> after_input(active, input, fallen) == active,
        active.contains_key(input.player_id) ==> after_input(active, input, fallen)[input.player_id]
            == input_result(input, active[input.player_id], active, fallen),
        active.contains_key(input.player_id) && after_input(active, input, fallen)[input.player_id]
            != active[input.player_id] ==> !collides(
            after_input(active, input, fallen)[input.player_id],
            active,
            fallen,
        ),
{
    if active.contains_key(input.player_id) {
        assert(after_input(active, input, fallen).dom() =~= active.dom());
        let s = active[input.player_id];
        let ns = proposed_state(input, s, active, fallen);
        let base = if !collides(ns, active, fallen) {
            ns
        } else {
            s
        };
        if input.hard_drop && !collides(base, active, fallen) {
            fall_keeps_the_piece_standing(base, active, fallen);
        }
    }
}

/// A piece dropped straight down stays in its column and keeps everything
/// but its row, which it never leaves upwards; dropped from where it may
/// stand, it comes to rest where it may stand.
pub proof fn fall_keeps_the_piece_standing(
    p: PieceState,
    active: Map<usize, PieceState>,
    fallen: Map<(int, int), u8>,
)
    ensures
        !collides(p, active, fallen) ==> !collides(fall(p, active, fallen), active, fallen),
        fall(p, active, fallen) == (PieceState {
            pivot: Pivot { x: p.pivot.x, y: fall(p, active, fallen).pivot.y },
            ..p
        }),
        fall(p, active, fallen).pivot.y >= p.pivot.y,
    decreases 20 - p.pivot.y,
{
    if !(p.pivot.y >= 20 || collides(lowered(p), active, fallen)) {
        fall_keeps_the_piece_standing(lowered(p), active, fallen);
    }
}

/// Two pieces overlap exactly when they cover a common square, whichever of
/// them is looked at first.
pub proof fn overlap_is_symmetric(p: PieceState, o: PieceState)
    ensures
        overlaps(p, o) == overlaps(o, p),
{
    if overlaps(p, o) {
        let (x, y) = choose|x: int, y: int|
            in_box(p, x, y) && #[trigger] has_block(p, x, y) && has_block(
                o,
                x + p.pivot.x - o.pivot.x,
                y + p.pivot.y - o.pivot.y,
            );
        let x2 = x + p.pivot.x - o.pivot.x;
        let y2 = y + p.pivot.y - o.pivot.y;
        assert(has_block(o, x2, y2) && has_block(p, x2 + o.pivot.x - p.pivot.x, y2 + o.pivot.y - p.pivot.y));
        assert(in_box(o, x2, y2));
    }
    if overlaps(o, p) {
        let (x, y) = choose|x: int, y: int|
            in_box(o, x, y) && #[trigger] has_block(o, x, y) && has_block(
                p,
                x + o.pivot.x - p.pivot.x,
                y + o.pivot.y - p.pivot.y,
            );
        let x2 = x + o.pivot.x - p.pivot.x;
        let y2 = y + o.pivot.y - p.pivot.y;
        assert(has_block(p, x2, y2) && has_block(o, x2 + p.pivot.x - o.pivot.x, y2 + p.pivot.y - o.pivot.y));
        assert(in_box(p, x2, y2));
    }
}

proof fn lemma_queue_period(q: BlockQueueType, x: int)
    requires
        x >= 0,
    ensures
        queue_at(q, x % 42) == queue_at(q, x),
{
    let a = x / 42;
    let r = x % 42;
    assert(x == 42 * a + r && 0 <= r < 42 && a >= 0) by (nonlinear_arith)
        requires
            x >= 0,
            a == x / 42,
            r == x % 42,
    ;
    let k = r / 14;
    assert(x / 14 == 3 * a + k && x % 14 == r % 14 && 0 <= k < 3) by (nonlinear_arith)
        requires
            x == 42 * a + r,
            0 <= r < 42,
            a >= 0,
            k == r / 14,
    ;
    assert((3 * a + k) % 3 == k % 3) by (nonlinear_arith)
        requires
            a >= 0,
            0 <= k < 3,
    ;
}

/// The piece that `next_piece` deals is the first one that
/// `peek_next_pieces` lists, and once it is dealt, the list from the new
/// position starts with the rest of the old list.
pub proof fn next_piece_deals_peeked_pieces(
    q: BlockQueueType,
    index: int,
    q2: BlockQueueType,
    index2: int,
)
    requires
        0 <= index < 42,
        next_piece_step(q, index, q2, index2),
    ensures
        queue_at(q, index) == upcoming(q, index)[0],
        upcoming(q2, index2).take(13) == upcoming(q, index).skip(1),
{
    let b = index / 14;
    assert forall|k: int| 0 <= k < 13 implies #[trigger] upcoming(q2, index2)[k] == upcoming(
        q,
        index,
    )[k + 1] by {
        lemma_queue_period(q2, index + 1 + k);
        let x = index + 1 + k;
        let c = (x / 14) % 3;
        if index % 14 == 13 {
            assert(c != b);
        }
        assert(q2@[c] == q@[c]);
    }
    assert(upcoming(q2, index2).take(13) =~= upcoming(q, index).skip(1));
}

/// After `i` deals in a row, at most fourteen, the list of upcoming pieces
/// starts with the rest of the list from before the first deal.
proof fn lemma_deals_follow(qs: Seq<BlockQueueType>, idxs: Seq<int>, i: int)
    requires
        qs.len() == idxs.len(),
        0 <= i < qs.len(),
        i <= 14,
        0 <= idxs[0] < 42,
        forall|j: int|
            0 <= j < qs.len() - 1 ==> #[trigger] next_piece_step(qs[j], idxs[j], qs[j + 1], idxs[j + 1]),
    ensures
        0 <= idxs[i] < 42,
        upcoming(qs[i], idxs[i]).take(14 - i) == upcoming(qs[0], idxs[0]).skip(i),
    decreases i,
{
    if i == 0 {
        assert(upcoming(qs[0], idxs[0]).take(14) =~= upcoming(qs[0], idxs[0]).skip(0));
    } else {
        lemma_deals_follow(qs, idxs, i - 1);
        let j = i - 1;
        assert(next_piece_step(qs[j], idxs[j], qs[j + 1], idxs[j + 1]));
        assert(j + 1 == i);
        next_piece_deals_peeked_pieces(qs[i - 1], idxs[i - 1], qs[i], idxs[i]);
        let u = upcoming(qs[0], idxs[0]);
        let prev = upcoming(qs[i - 1], idxs[i - 1]);
        let cur = upcoming(qs[i], idxs[i]);
        assert(cur.take(14 - i) =~= cur.take(13).take(14 - i));
        assert(prev.skip(1).take(14 - i) =~= prev.take(15 - i).skip(1));
        assert(u.skip(i - 1).skip(1) =~= u.skip(i));
    }
}

/// Dealing up to fourteen pieces in a row, one `next_piece` after the other,
/// deals the pieces that `peek_next_pieces` listed before the first deal, in
/// order, whichever way the emptied bags are shuffled on the way.
pub proof fn deals_give_the_peeked_pieces(qs: Seq<BlockQueueType>, idxs: Seq<int>)
    requires
        qs.len() == idxs.len(),
        1 <= qs.len() <= 15,
        0 <= idxs[0] < 42,
        forall|j: int|
            0 <= j < qs.len() - 1 ==> #[trigger] next_piece_step(qs[j], idxs[j], qs[j + 1], idxs[j + 1]),
    ensures
        forall|i: int|
            0 <= i < qs.len() - 1 ==> #[trigger] queue_at(qs[i], idxs[i]) == upcoming(qs[0], idxs[0])[i],
{
    assert forall|i: int| 0 <= i < qs.len() - 1 implies #[trigger] queue_at(qs[i], idxs[i]) == upcoming(
        qs[0],
        idxs[0],
    )[i] by {
        lemma_deals_follow(qs, idxs, i);
        assert(upcoming(qs[i], idxs[i]).take(14 - i)[0] == upcoming(qs[0], idxs[0]).skip(i)[0]);
    }
}

proof fn lemma_drop_result_keeps(
    active: Map<usize, PieceState>,
    fallen: Map<(int, int), u8>,
    id: usize,
    shift_period: u128,
    now: u128,
)
    requires
        active.contains_key(id),
    ensures
        ({
            let (a2, f2, froze) = drop_result(active, fallen, id, shift_period, now);
            &&& a2.dom() == active.dom()
            &&& forall|k: usize| k != id ==> #[trigger] a2[k] == active[k]
            &&& a2[id].player_id == active[id].player_id
            &&& a2[id].shape == active[id].shape
            &&& froze ==> a2[id].next_shift_time is None
            &&& !froze && active[id].next_shift_time is Some ==> a2[id].next_shift_time is Some
        }),
{
    let a2 = drop_result(active, fallen, id, shift_period, now).0;
    assert(a2.dom() =~= active.dom());
}

pub(crate) proof fn lemma_drop_all_keeps(
    active: Map<usize, PieceState>,
    fallen: Map<(int, int), u8>,
    order: Seq<usize>,
    shift_period: u128,
    now: u128,
)
    requires
        order.no_duplicates(),
        forall|i: int| 0 <= i < order.len() ==> active.contains_key(#[trigger] order[i]),
    ensures
        ({
            let (a1, f1, frozen) = drop_all(active, fallen, order, shift_period, now);
            &&& a1.dom() == active.dom()
            &&& forall|k: usize|
                #[trigger] a1.contains_key(k) ==> {
                    &&& a1[k].player_id == active[k].player_id
                    &&& a1[k].shape == active[k].shape
                    &&& active[k].next_shift_time is Some && !frozen.contains(k)
                        ==> a1[k].next_shift_time is Some
                }
            &&& frozen.no_duplicates()
            &&& forall|i: int| 0 <= i < frozen.len() ==> order.contains(#[trigger] frozen[i])
        }),
    decreases order.len(),
{
    if order.len() > 0 {
        let prefix = order.drop_last();
        let id = order.last();
        assert forall|i: int| 0 <= i < prefix.len() implies active.contains_key(#[trigger] prefix[i]) by {
            assert(prefix[i] == order[i]);
        }
        lemma_drop_all_keeps(active, fallen, prefix, shift_period, now);
        let (a1, f1, frozen1) = drop_all(active, fallen, prefix, shift_period, now);
        assert(active.contains_key(order[order.len() - 1]));
        lemma_drop_result_keeps(a1, f1, id, shift_period, now);
        let (a2, f2, froze) = drop_result(a1, f1, id, shift_period, now);
        let frozen = if froze {
            frozen1.push(id)
        } else {
            frozen1
        };
        assert(!prefix.contains(id)) by {
            if prefix.contains(id) {
                let i = choose|i: int| 0 <= i < prefix.len() && prefix[i] == id;
                assert(order[i] == order[order.len() - 1]);
            }
        }
        assert forall|i: int| 0 <= i < frozen.len() implies order.contains(#[trigger] frozen[i]) by {
            if i < frozen1.len() {
                assert(prefix.contains(frozen1[i]));
                let j = choose|j: int| 0 <= j < prefix.len() && prefix[j] == frozen1[i];
                assert(order[j] == frozen1[i]);
            } else {
                assert(order[order.len() - 1] == id);
            }
        }
        if froze {
            assert forall|i: int, j: int| 0 <= i < j < frozen.len() implies frozen[i] != frozen[j] by {
                if j == frozen1.len() {
                    assert(prefix.contains(frozen1[i]));
                }
            }
        }
        assert forall|k: usize| #[trigger] a2.contains_key(k) implies {
            &&& a2[k].player_id == active[k].player_id
            &&& a2[k].shape == active[k].shape
            &&& active[k].next_shift_time is Some && !frozen.contains(k) ==> a2[k].next_shift_time is Some
        } by {
            if k != id {
                assert(a1.contains_key(k));
                if !frozen.contains(k) {
                    assert(!frozen1.contains(k)) by {
                        if frozen1.contains(k) {
                            let i = choose|i: int| 0 <= i < frozen1.len() && frozen1[i] == k;
                            assert(frozen[i] == k);
                        }
                    }
                }
            } else {
                assert(!frozen1.contains(id)) by {
                    if frozen1.contains(id) {
                        let i = choose|i: int| 0 <= i < frozen1.len() && frozen1[i] == id;
                        assert(prefix.contains(frozen1[i]));
                    }
                }
                if froze {
                    assert(frozen[frozen.len() - 1] == id);
                }
            }
        }
    }
}

pub(crate) proof fn lemma_move_all_keeps(
    active: Map<usize, PieceState>,
    inactive: Seq<PieceState>,
    ids: Seq<usize>,
)
    requires
        ids.no_duplicates(),
        forall|i: int| 0 <= i < ids.len() ==> active.contains_key(#[trigger] ids[i]),
    ensures
        ({
            let (a3, i3) = move_all_to_inactive(active, inactive, ids);
            &&& forall|k: usize|
                #[trigger] a3.contains_key(k) <==> active.contains_key(k) && !ids.contains(k)
            &&& forall|k: usize| #[trigger] a3.contains_key(k) ==> a3[k] == active[k]
            &&& i3.len() == inactive.len() + ids.len()
            &&& forall|i: int| 0 <= i < inactive.len() ==> #[trigger] i3[i] == inactive[i]
            &&& forall|j: int| 0 <= j < ids.len() ==> #[trigger] i3[inactive.len() + j] == active[ids[j]]
        }),
    decreases ids.len(),
{
    if ids.len() > 0 {
        let prefix = ids.drop_last();
        let id = ids.last();
        assert forall|i: int| 0 <= i < prefix.len() implies active.contains_key(#[trigger] prefix[i]) by {
            assert(prefix[i] == ids[i]);
        }
        lemma_move_all_keeps(active, inactive, prefix);
        let (a1, i1) = move_all_to_inactive(active, inactive, prefix);
        assert(!prefix.contains(id)) by {
            if prefix.contains(id) {
                let i = choose|i: int| 0 <= i < prefix.len() && prefix[i] == id;
                assert(ids[i] == ids[ids.len() - 1]);
            }
        }
        assert(active.contains_key(ids[ids.len() - 1]));
        assert(a1.contains_key(id));
        let (a3, i3) = move_all_to_inactive(active, inactive, ids);
        assert forall|k: usize| #[trigger] a3.contains_key(k) <==> active.contains_key(k) && !ids.contains(k) by {
            if ids.contains(k) && k != id {
                let i = choose|i: int| 0 <= i < ids.len() && ids[i] == k;
                assert(prefix[i] == k);
            }
            if prefix.contains(k) {
                let i = choose|i: int| 0 <= i < prefix.len() && prefix[i] == k;
                assert(ids[i] == k);
            }
            if k == id {
                assert(ids[ids.len() - 1] == id);
            }
        }
        assert forall|j: int| 0 <= j < ids.len() implies #[trigger] i3[inactive.len() + j] == active[ids[j]] by {
            if j < prefix.len() {
                assert(i1[inactive.len() + j] == active[prefix[j]]);
            }
        }
    }
}

/// Each step of the game clock keeps the invariant of the players: the
/// active pieces stay keyed by their players and due to move, with known
/// shapes, at most `MAX_NUM_ACTIVE` of them; no waiting player is in play, and
/// each waits once. The queue keeps only known shapes.
pub proof fn shift_keeps_game_consistent(
    active: Map<usize, PieceState>,
    inactive: Seq<PieceState>,
    fallen: Map<(int, int), u8>,
    q: BlockQueueType,
    index: int,
    last_spawn: u128,
    shift_period: u128,
    now: u128,
    order: Seq<usize>,
    active2: Map<usize, PieceState>,
    inactive2: Seq<PieceState>,
    fallen2: Map<(int, int), u8>,
    q2: BlockQueueType,
    index2: int,
    last_spawn2: u128,
)
    requires
        game_consistent(active, inactive),
        queue_valid(q),
        0 <= index < 42,
        due_order(active, now, order),
        shift_step(
            active,
            inactive,
            fallen,
            q,
            index,
            last_spawn,
            shift_period,
            now,
            order,
            active2,
            inactive2,
            fallen2,
            q2,
            index2,
            last_spawn2,
        ),
    ensures
        game_consistent(active2, inactive2),
        queue_valid(q2),
        0 <= index2 < 42,
{
    assert forall|i: int| 0 <= i < order.len() implies active.contains_key(#[trigger] order[i]) by {
        assert(order.contains(order[i]));
    }
    lemma_drop_all_keeps(active, fallen, order, shift_period, now);
    let (a1, f1, frozen) = drop_all(active, fallen, order, shift_period, now);
    assert forall|i: int| 0 <= i < frozen.len() implies a1.contains_key(#[trigger] frozen[i]) by {
        assert(order.contains(frozen[i]));
        let j = choose|j: int| 0 <= j < order.len() && order[j] == frozen[i];
        assert(active.contains_key(order[j]));
    }
    lemma_move_all_keeps(a1, inactive, frozen);
    let (a3, i3) = move_all_to_inactive(a1, inactive, frozen);
    // the players after the pieces froze
    assert(a3.dom().subset_of(active.dom()));
    vstd::set_lib::lemma_len_subset(a3.dom(), active.dom());
    assert forall|k: usize| #[trigger] a3.contains_key(k) implies {
        &&& a3[k].player_id == k
        &&& a3[k].next_shift_time is Some
        &&& a3[k].shape < 7
    } by {
        assert(active.contains_key(k));
    }
    assert forall|i: int| 0 <= i < i3.len() implies !a3.contains_key(#[trigger] i3[i].player_id) by {
        if i < inactive.len() {
            assert(i3[i] == inactive[i]);
            assert(!active.contains_key(inactive[i].player_id));
        } else {
            let j = i - inactive.len();
            assert(i3[inactive.len() + j] == a1[frozen[j]]);
            assert(a1.contains_key(frozen[j]));
            assert(a1[frozen[j]].player_id == frozen[j]);
            assert(frozen.contains(frozen[j]));
        }
    }
    assert forall|i: int, j: int| 0 <= i < j < i3.len() implies #[trigger] i3[i].player_id
        != #[trigger] i3[j].player_id by {
        if j < inactive.len() {
            assert(i3[i] == inactive[i] && i3[j] == inactive[j]);
        } else if i < inactive.len() {
            let b = j - inactive.len();
            assert(i3[inactive.len() + b] == a1[frozen[b]]);
            assert(a1[frozen[b]].player_id == frozen[b]);
            assert(i3[i] == inactive[i]);
            assert(!active.contains_key(inactive[i].player_id));
        } else {
            let a = i - inactive.len();
            let b = j - inactive.len();
            assert(i3[inactive.len() + a] == a1[frozen[a]]);
            assert(i3[inactive.len() + b] == a1[frozen[b]]);
            assert(a1[frozen[a]].player_id == frozen[a]);
            assert(a1[frozen[b]].player_id == frozen[b]);
        }
    }
    assert(game_consistent(a3, i3));
    if now - last_spawn > shift_period {
        lemma_activation_keeps(a3, i3, q, index, shift_period, now, active2, inactive2, q2, index2);
    }
}

proof fn lemma_activation_keeps(
    active: Map<usize, PieceState>,
    inactive: Seq<PieceState>,
    q: BlockQueueType,
    index: int,
    shift_period: u128,
    now: u128,
    active2: Map<usize, PieceState>,
    inactive2: Seq<PieceState>,
    q2: BlockQueueType,
    index2: int,
)
    requires
        game_consistent(active, inactive),
        queue_valid(q),
        0 <= index < 42,
        activation_step(active, inactive, q, index, shift_period, now, active2, inactive2, q2, index2),
    ensures
        game_consistent(active2, inactive2),
        queue_valid(q2),
        0 <= index2 < 42,
{
    if active.len() < 2 && inactive.len() > 0 {
        let p = inactive[0];
        assert(!active.contains_key(p.player_id));
        assert(active2.dom() =~= active.dom().insert(p.player_id));
        assert(queue_at(q, index) < 7);
        assert forall|i: int| 0 <= i < inactive2.len() implies !active2.contains_key(
            #[trigger] inactive2[i].player_id,
        ) by {
            assert(inactive2[i] == inactive[i + 1]);
            assert(inactive[0].player_id != inactive[i + 1].player_id);
        }
        assert forall|i: int, j: int| 0 <= i < j < inactive2.len() implies #[trigger] inactive2[i].player_id
            != #[trigger] inactive2[j].player_id by {
            assert(inactive2[i] == inactive[i + 1] && inactive2[j] == inactive[j + 1]);
        }
        let b = index / 14;
        assert forall|c: int, i: int| 0 <= c < 3 && 0 <= i < 14 implies #[trigger] q2@[c]@[i] < 7 by {
            if c == b && index % 14 == 13 {
                let s = q2@[b]@;
                vstd::seq_lib::to_multiset_contains(s, s[i]);
                vstd::seq_lib::to_multiset_contains(q@[b]@, s[i]);
                assert(s.contains(s[i]));
                let k = choose|k: int| 0 <= k < q@[b]@.len() && q@[b]@[k] == s[i];
                assert(q@[b]@[k] < 7);
            } else {
                assert(q2@[c] == q@[c]);
            }
        }
    }
}

proof fn lemma_first_exit_exists(p: PieceState, x: int, y: int)
    requires
        in_box(p, x, y),
        block_exit(p, x, y) != CollisionType::NoCollision,
    ensures
        exists|x2: int, y2: int| first_exit(p, x2, y2),
    decreases y, x,
{
    if exists|x2: int, y2: int|
        in_box(p, x2, y2) && reads_before(x2, y2, x, y) && #[trigger] block_exit(p, x2, y2)
            != CollisionType::NoCollision {
        let (x2, y2) = choose|x2: int, y2: int|
            in_box(p, x2, y2) && reads_before(x2, y2, x, y) && #[trigger] block_exit(p, x2, y2)
                != CollisionType::NoCollision;
        lemma_first_exit_exists(p, x2, y2);
    } else {
        assert(first_exit(p, x, y));
    }
}

/// A piece passes the board check exactly when every one of its blocks lies
/// on the board.
pub proof fn screen_check_passes_iff_on_board(p: PieceState)
    ensures
        (screen_exit(p) == CollisionType::NoCollision) == (forall|x: int, y: int|
            in_box(p, x, y) && #[trigger] has_block(p, x, y) ==> on_board(
                (p.pivot.x + x, p.pivot.y + y),
            )),
{
    if exists|x: int, y: int|
        in_box(p, x, y) && #[trigger] has_block(p, x, y) && !on_board((p.pivot.x + x, p.pivot.y + y)) {
        let (x, y) = choose|x: int, y: int|
            in_box(p, x, y) && #[trigger] has_block(p, x, y) && !on_board(
                (p.pivot.x + x, p.pivot.y + y),
            );
        assert(block_exit(p, x, y) != CollisionType::NoCollision);
        lemma_first_exit_exists(p, x, y);
        let (x2, y2) = choose|x2: int, y2: int| first_exit(p, x2, y2);
        lemma_screen_exit_at(p, x2, y2);
    } else {
        if exists|x: int, y: int| first_exit(p, x, y) {
            let (x2, y2) = choose|x2: int, y2: int| first_exit(p, x2, y2);
            assert(has_block(p, x2, y2));
        }
    }
}

proof fn lemma_kick_search_keeps(
    s: PieceState,
    clockwise: bool,
    active: Map<usize, PieceState>,
    fallen: Map<(int, int), u8>,
    attempt: int,
)
    ensures
        ({
            let t = kick_search(s, clockwise, active, fallen, attempt);
            t.player_id == s.player_id && t.shape == s.shape && t.next_shift_time
                == s.next_shift_time
        }),
    decreases 4 - attempt,
{
    if 0 <= attempt < 4 {
        lemma_kick_search_keeps(s, clockwise, active, fallen, attempt + 1);
    }
}

/// Applying an input keeps the invariant of the players.
pub proof fn input_keeps_game_consistent(
    active: Map<usize, PieceState>,
    inactive: Seq<PieceState>,
    input: KeyState,
    fallen: Map<(int, int), u8>,
)
    requires
        game_consistent(active, inactive),
    ensures
        game_consistent(after_input(active, input, fallen), inactive),
{
    if active.contains_key(input.player_id) {
        let s = active[input.player_id];
        let m = moved_by_input(input, s);
        lemma_kick_search_keeps(m, input.rot, active, fallen, 0);
        let ns = proposed_state(input, s, active, fallen);
        let base = if !collides(ns, active, fallen) {
            ns
        } else {
            s
        };
        fall_keeps_the_piece_standing(base, active, fallen);
        let a2 = after_input(active, input, fallen);
        assert(a2.dom() =~= active.dom());
    }
}

/// A player who connects, and is nowhere in the game yet, joins the back of
/// the queue, keeping the invariant of the players: the game then holds the
/// same players and the new one.
pub proof fn joining_keeps_game_consistent(
    active: Map<usize, PieceState>,
    inactive: Seq<PieceState>,
    player_id: usize,
)
    requires
        game_consistent(active, inactive),
        !active.contains_key(player_id),
        forall|i: int| 0 <= i < inactive.len() ==> #[trigger] inactive[i].player_id != player_id,
    ensures
        game_consistent(active, inactive.push(new_player_state(player_id))),
        players_in_game(active, inactive.push(new_player_state(player_id))) == players_in_game(
            active,
            inactive,
        ).insert(player_id),
{
    let i2 = inactive.push(new_player_state(player_id));
    let s0 = players_in_game(active, inactive);
    let s2 = players_in_game(active, i2);
    assert forall|id: usize| s2.contains(id) <==> s0.insert(player_id).contains(id) by {
        if s2.contains(id) && !active.contains_key(id) && id != player_id {
            let i = choose|i: int| 0 <= i < i2.len() && #[trigger] i2[i].player_id == id;
            assert(i < inactive.len());
            assert(inactive[i] == i2[i]);
        }
        if id == player_id {
            assert(i2[inactive.len() as int].player_id == id);
        } else if s0.contains(id) && !active.contains_key(id) {
            let i = choose|i: int| 0 <= i < inactive.len() && #[trigger] inactive[i].player_id == id;
            assert(i2[i] == inactive[i]);
        }
    }
    assert(s2 =~= s0.insert(player_id));
    assert forall|i: int| 0 <= i < i2.len() implies !active.contains_key(#[trigger] i2[i].player_id) by {
        if i < inactive.len() {
            assert(i2[i] == inactive[i]);
        }
    }
    assert forall|i: int, j: int| 0 <= i < j < i2.len() implies #[trigger] i2[i].player_id
        != #[trigger] i2[j].player_id by {
        assert(i2[i] == inactive[i]);
        if j < inactive.len() {
            assert(i2[j] == inactive[j]);
        }
    }
}

/// Taking a player's entries out of a queue whose entries belong to
/// different players leaves entries of the queue, of different players, none
/// of them that player's, and every other entry.
proof fn lemma_without_player(s: Seq<PieceState>, id: usize)
    requires
        forall|i: int, j: int|
            0 <= i < j < s.len() ==> #[trigger] s[i].player_id != #[trigger] s[j].player_id,
    ensures
        ({
            let w = without_player(s, id);
            &&& forall|i: int| 0 <= i < w.len() ==> #[trigger] w[i].player_id != id
            &&& forall|i: int| 0 <= i < w.len() ==> s.contains(#[trigger] w[i])
            &&& forall|i: int, j: int|
                0 <= i < j < w.len() ==> #[trigger] w[i].player_id != #[trigger] w[j].player_id
            &&& forall|j: int| 0 <= j < s.len() && s[j].player_id != id ==> w.contains(#[trigger] s[j])
        }),
    decreases s.len(),
{
    reveal(Seq::filter);
    if s.len() > 0 {
        let d = s.drop_last();
        assert forall|i: int, j: int| 0 <= i < j < d.len() implies #[trigger] d[i].player_id
            != #[trigger] d[j].player_id by {
            assert(d[i] == s[i] && d[j] == s[j]);
        }
        lemma_without_player(d, id);
        let wd = without_player(d, id);
        let w = without_player(s, id);
        assert forall|i: int| 0 <= i < w.len() implies s.contains(#[trigger] w[i]) by {
            if i < wd.len() {
                assert(d.contains(wd[i]));
                let k = choose|k: int| 0 <= k < d.len() && d[k] == wd[i];
                assert(s[k] == d[k]);
            } else {
                assert(s[s.len() - 1] == s.last());
            }
        }
        assert forall|j: int| 0 <= j < s.len() && s[j].player_id != id implies w.contains(#[trigger] s[j]) by {
            if j < d.len() {
                assert(d[j] == s[j]);
                assert(wd.contains(d[j]));
                let k = choose|k: int| 0 <= k < wd.len() && wd[k] == d[j];
                assert(w[k] == wd[k]);
            } else {
                assert(w[w.len() - 1] == s.last());
            }
        }
        if s.last().player_id != id {
            assert forall|i: int, j: int| 0 <= i < j < w.len() implies #[trigger] w[i].player_id
                != #[trigger] w[j].player_id by {
                if j == wd.len() {
                    assert(d.contains(wd[i]));
                    let k = choose|k: int| 0 <= k < d.len() && d[k] == wd[i];
                    assert(s[k] == d[k]);
                    assert(s[s.len() - 1] == s.last());
                } else {
                    assert(w[i] == wd[i] && w[j] == wd[j]);
                }
            }
        }
    }
}

/// Removing a player keeps the invariant of the players, and leaves the
/// player nowhere in the game and every other player in it.
pub proof fn removing_keeps_game_consistent(
    active: Map<usize, PieceState>,
    inactive: Seq<PieceState>,
    player_id: usize,
)
    requires
        game_consistent(active, inactive),
    ensures
        ({
            let i2 = without_player(inactive, player_id);
            &&& game_consistent(active.remove(player_id), i2)
            &&& !active.remove(player_id).contains_key(player_id)
            &&& forall|i: int| 0 <= i < i2.len() ==> #[trigger] i2[i].player_id != player_id
            &&& players_in_game(active.remove(player_id), i2) == players_in_game(active, inactive).remove(
                player_id,
            )
        }),
{
    lemma_without_player(inactive, player_id);
    let i2 = without_player(inactive, player_id);
    let a2 = active.remove(player_id);
    assert(a2.dom().subset_of(active.dom()));
    vstd::set_lib::lemma_len_subset(a2.dom(), active.dom());
    assert forall|i: int| 0 <= i < i2.len() implies !a2.contains_key(#[trigger] i2[i].player_id) by {
        assert(inactive.contains(i2[i]));
        let k = choose|k: int| 0 <= k < inactive.len() && inactive[k] == i2[i];
        assert(!active.contains_key(inactive[k].player_id));
    }
    let s0 = players_in_game(active, inactive);
    let s2 = players_in_game(a2, i2);
    assert forall|id: usize| s2.contains(id) <==> s0.remove(player_id).contains(id) by {
        if s2.contains(id) && !a2.contains_key(id) {
            let i = choose|i: int| 0 <= i < i2.len() && #[trigger] i2[i].player_id == id;
            assert(inactive.contains(i2[i]));
            let k = choose|k: int| 0 <= k < inactive.len() && inactive[k] == i2[i];
            assert(inactive[k].player_id == id);
        }
        if s0.contains(id) && id != player_id && !active.contains_key(id) {
            let k = choose|k: int| 0 <= k < inactive.len() && #[trigger] inactive[k].player_id == id;
            assert(i2.contains(inactive[k]));
            let i = choose|i: int| 0 <= i < i2.len() && i2[i] == inactive[k];
            assert(i2[i].player_id == id);
        }
    }
    assert(s2 =~= s0.remove(player_id));
}

/// The players in the game: those in play and those waiting.
pub open spec fn players_in_game(active: Map<usize, PieceState>, inactive: Seq<PieceState>) -> Set<usize> {
    Set::new(
        |id: usize|
            active.contains_key(id) || exists|i: int|
                0 <= i < inactive.len() && #[trigger] inactive[i].player_id == id,
    )
}

/// A step of the game clock neither loses nor adds a player: the players
/// whose pieces froze wait again, and the player brought into play leaves
/// the queue.
pub proof fn shift_keeps_players(
    active: Map<usize, PieceState>,
    inactive: Seq<PieceState>,
    fallen: Map<(int, int), u8>,
    q: BlockQueueType,
    index: int,
    last_spawn: u128,
    shift_period: u128,
    now: u128,
    order: Seq<usize>,
    active2: Map<usize, PieceState>,
    inactive2: Seq<PieceState>,
    fallen2: Map<(int, int), u8>,
    q2: BlockQueueType,
    index2: int,
    last_spawn2: u128,
)
    requires
        game_consistent(active, inactive),
        due_order(active, now, order),
        shift_step(
            active,
            inactive,
            fallen,
            q,
            index,
            last_spawn,
            shift_period,
            now,
            order,
            active2,
            inactive2,
            fallen2,
            q2,
            index2,
            last_spawn2,
        ),
    ensures
        players_in_game(active2, inactive2) == players_in_game(active, inactive),
{
    assert forall|i: int| 0 <= i < order.len() implies active.contains_key(#[trigger] order[i]) by {
        assert(order.contains(order[i]));
    }
    lemma_drop_all_keeps(active, fallen, order, shift_period, now);
    let (a1, f1, frozen) = drop_all(active, fallen, order, shift_period, now);
    assert forall|i: int| 0 <= i < frozen.len() implies a1.contains_key(#[trigger] frozen[i]) by {
        assert(order.contains(frozen[i]));
        let j = choose|j: int| 0 <= j < order.len() && order[j] == frozen[i];
        assert(active.contains_key(order[j]));
    }
    lemma_move_all_keeps(a1, inactive, frozen);
    let (a3, i3) = move_all_to_inactive(a1, inactive, frozen);
    let s0 = players_in_game(active, inactive);
    let s3 = players_in_game(a3, i3);
    assert forall|id: usize| s3.contains(id) implies s0.contains(id) by {
        if !a3.contains_key(id) {
            let i = choose|i: int| 0 <= i < i3.len() && #[trigger] i3[i].player_id == id;
            if i < inactive.len() {
                assert(inactive[i].player_id == id);
            } else {
                let j = i - inactive.len();
                assert(i3[inactive.len() + j] == a1[frozen[j]]);
                assert(a1.contains_key(frozen[j]));
                assert(active.contains_key(frozen[j]));
            }
        }
    }
    assert forall|id: usize| s0.contains(id) implies s3.contains(id) by {
        if active.contains_key(id) {
            if frozen.contains(id) {
                let j = choose|j: int| 0 <= j < frozen.len() && frozen[j] == id;
                assert(a1.contains_key(frozen[j]));
                assert(i3[inactive.len() + j] == a1[frozen[j]]);
                assert(i3[inactive.len() + j].player_id == id);
            } else {
                assert(a1.contains_key(id));
                assert(a3.contains_key(id));
            }
        } else {
            let i = choose|i: int| 0 <= i < inactive.len() && #[trigger] inactive[i].player_id == id;
            assert(i3[i] == inactive[i]);
        }
    }
    assert(s3 =~= s0);
    if now - last_spawn > shift_period && a3.len() < MAX_NUM_ACTIVE && i3.len() > 0 {
        let p = i3[0];
        let s2 = players_in_game(active2, inactive2);
        assert(inactive2 == i3.subrange(1, i3.len() as int));
        assert forall|id: usize| s2.contains(id) implies s3.contains(id) by {
            if !active2.contains_key(id) {
                let i = choose|i: int| 0 <= i < inactive2.len() && #[trigger] inactive2[i].player_id == id;
                assert(i3[i + 1] == inactive2[i]);
            } else if id == p.player_id {
                assert(i3[0].player_id == id);
            }
        }
        assert forall|id: usize| s3.contains(id) implies s2.contains(id) by {
            if !a3.contains_key(id) && id != p.player_id {
                let i = choose|i: int| 0 <= i < i3.len() && #[trigger] i3[i].player_id == id;
                assert(i != 0);
                assert(inactive2[i - 1] == i3[i]);
            }
        }
        assert(s2 =~= s3);
    }
}

/// One frame of the game keeps the invariant of the players and the queue
/// of pieces, whether or not the game ended in it.
pub proof fn frame_keeps_game_consistent(
    active: Map<usize, PieceState>,
    inactive: Seq<PieceState>,
    fallen: Map<(int, int), u8>,
    score: u32,
    q: BlockQueueType,
    index: int,
    last_spawn: u128,
    shift_period: u128,
    now: u128,
    order: Seq<usize>,
    active1: Map<usize, PieceState>,
    inactive1: Seq<PieceState>,
    fallen1: Map<(int, int), u8>,
    q2: BlockQueueType,
    index2: int,
    last_spawn2: u128,
    active2: Map<usize, PieceState>,
    inactive2: Seq<PieceState>,
    fallen2: Map<(int, int), u8>,
    score2: u32,
    over: bool,
)
    requires
        game_consistent(active, inactive),
        queue_valid(q),
        0 <= index < 42,
        due_order(active, now, order),
        shift_step(
            active,
            inactive,
            fallen,
            q,
            index,
            last_spawn,
            shift_period,
            now,
            order,
            active1,
            inactive1,
            fallen1,
            q2,
            index2,
            last_spawn2,
        ),
        frame_outcome(active1, inactive1, fallen1, score, active2, inactive2, fallen2, score2, over),
    ensures
        game_consistent(active2, inactive2),
        queue_valid(q2),
        0 <= index2 < 42,
{
    shift_keeps_game_consistent(
        active,
        inactive,
        fallen,
        q,
        index,
        last_spawn,
        shift_period,
        now,
        order,
        active1,
        inactive1,
        fallen1,
        q2,
        index2,
        last_spawn2,
    );
    if over {
        assert(active2.dom() =~= Set::<usize>::empty());
    }
}

/// One frame of the game keeps every player in the game, unless the game
/// ended in it, which leaves no player in it.
pub proof fn frame_keeps_players(
    active: Map<usize, PieceState>,
    inactive: Seq<PieceState>,
    fallen: Map<(int, int), u8>,
    score: u32,
    q: BlockQueueType,
    index: int,
    last_spawn: u128,
    shift_period: u128,
    now: u128,
    order: Seq<usize>,
    active1: Map<usize, PieceState>,
    inactive1: Seq<PieceState>,
    fallen1: Map<(int, int), u8>,
    q2: BlockQueueType,
    index2: int,
    last_spawn2: u128,
    active2: Map<usize, PieceState>,
    inactive2: Seq<PieceState>,
    fallen2: Map<(int, int), u8>,
    score2: u32,
    over: bool,
)
    requires
        game_consistent(active, inactive),
        due_order(active, now, order),
        shift_step(
            active,
            inactive,
            fallen,
            q,
            index,
            last_spawn,
            shift_period,
            now,
            order,
            active1,
            inactive1,
            fallen1,
            q2,
            index2,
            last_spawn2,
        ),
        frame_outcome(active1, inactive1, fallen1, score, active2, inactive2, fallen2, score2, over),
    ensures
        !over ==> players_in_game(active2, inactive2) == players_in_game(active, inactive),
        over ==> players_in_game(active2, inactive2) == Set::<usize>::empty(),
{
    shift_keeps_players(
        active,
        inactive,
        fallen,
        q,
        index,
        last_spawn,
        shift_period,
        now,
        order,
        active1,
        inactive1,
        fallen1,
        q2,
        index2,
        last_spawn2,
    );
    if over {
        assert(players_in_game(active2, inactive2) =~= Set::<usize>::empty());
    }
}

/// The offset of the `attempt`-th wall kick, as the kick tables list it, for
/// a piece of shape `shape` turned from rotation `from`, clockwise or not:
/// column `2 * from` of the table for a clockwise turn, `2 * from + 1` for a
/// counter-clockwise one; the I and O pieces have tables of their own.
pub open spec fn table_kick(shape: u8, attempt: int, from: int, clockwise: bool) -> (int, int) {
    let col = 2 * from + if clockwise {
        0int
    } else {
        1int
    };
    if shape < 5 {
        (X_KICKS@[attempt]@[col] as int, Y_KICKS@[attempt]@[col] as int)
    } else {
        (I_BLOCK_X_KICKS@[attempt]@[col] as int, I_BLOCK_Y_KICKS@[attempt]@[col] as int)
    }
}

proof fn lemma_first_fitting_kick(
    m: PieceState,
    clockwise: bool,
    from: int,
    active: Map<usize, PieceState>,
    fallen: Map<(int, int), u8>,
    attempt: int,
    i: int,
)
    requires
        0 <= from < 4,
        kick_column(m.rotation as int, clockwise) == 2 * from + if clockwise {
            0int
        } else {
            1int
        },
        0 <= attempt <= i,
        i <= 4,
        forall|j: int|
            attempt <= j < i ==> collides(
                #[trigger] shifted(m, table_kick(m.shape, j, from, clockwise)),
                active,
                fallen,
            ),
    ensures
        i < 4 && !collides(shifted(m, table_kick(m.shape, i, from, clockwise)), active, fallen)
            ==> kick_search(m, clockwise, active, fallen, attempt) == shifted(
            m,
            table_kick(m.shape, i, from, clockwise),
        ),
        i == 4 ==> kick_search(m, clockwise, active, fallen, attempt) == m,
    decreases 4 - attempt,
{
    if attempt < 4 {
        let col = kick_column(m.rotation as int, clockwise);
        lemma_kick_entry(m.shape, attempt, col);
        assert(kick_offset(m.shape, attempt, col) == table_kick(m.shape, attempt, from, clockwise));
        if attempt < i {
            lemma_first_fitting_kick(m, clockwise, from, active, fallen, attempt + 1, i);
        }
    }
}

/// A turn of a piece at rotation `s.rotation` ends at the next rotation
/// clockwise, or counter-clockwise; where it collides, the wall kicks tried,
/// in order, are those the tables list for the rotation it turns from, and
/// the first one that lets it stand places it; when none does, the turned
/// piece stays where it was turned.
pub proof fn turns_use_the_kicks_of_the_rotation_turned_from(
    input: KeyState,
    s: PieceState,
    active: Map<usize, PieceState>,
    fallen: Map<(int, int), u8>,
)
    requires
        s.rotation < 4,
        input.rot != input.counter_rot,
    ensures
        ({
            let m = moved_by_input(input, s);
            let cw = input.rot;
            let kicked = |j: int| shifted(m, table_kick(s.shape, j, s.rotation as int, cw));
            let p = proposed_state(input, s, active, fallen);
            &&& m.rotation == if cw {
                (s.rotation + 1) % 4
            } else {
                (s.rotation + 3) % 4
            }
            &&& !collides(m, active, fallen) ==> p == m
            &&& forall|i: int|
                0 <= i < 4 && collides(m, active, fallen) && (forall|j: int|
                    0 <= j < i ==> collides(#[trigger] kicked(j), active, fallen)) && !collides(
                    #[trigger] kicked(i),
                    active,
                    fallen,
                ) ==> p == kicked(i)
            &&& collides(m, active, fallen) && (forall|j: int|
                0 <= j < 4 ==> collides(#[trigger] kicked(j), active, fallen)) ==> p == m
        }),
{
    let m = moved_by_input(input, s);
    let cw = input.rot;
    let from = s.rotation as int;
    assert(kick_column(m.rotation as int, cw) == 2 * from + if cw {
        0int
    } else {
        1int
    });
    let kicked = |j: int| shifted(m, table_kick(s.shape, j, from, cw));
    assert forall|i: int|
        0 <= i < 4 && collides(m, active, fallen) && (forall|j: int|
            0 <= j < i ==> collides(#[trigger] kicked(j), active, fallen)) && !collides(
            #[trigger] kicked(i),
            active,
            fallen,
        ) implies proposed_state(input, s, active, fallen) == kicked(i) by {
        assert forall|j: int| 0 <= j < i implies collides(
            #[trigger] shifted(m, table_kick(m.shape, j, from, cw)),
            active,
            fallen,
        ) by {
            assert(collides(kicked(j), active, fallen));
        }
        lemma_first_fitting_kick(m, cw, from, active, fallen, 0, i);
    }
    if collides(m, active, fallen) && (forall|j: int|
        0 <= j < 4 ==> collides(#[trigger] kicked(j), active, fallen)) {
        assert forall|j: int| 0 <= j < 4 implies collides(
            #[trigger] shifted(m, table_kick(m.shape, j, from, cw)),
            active,
            fallen,
        ) by {
            assert(collides(kicked(j), active, fallen));
        }
        lemma_first_fitting_kick(m, cw, from, active, fallen, 0, 4);
    }
}

/// Whether a block of `m` lies on one of the ten squares at or next to the
/// start positions (5, 0) and (12, 0): the start square itself, or the square
/// right of it, left of it, above or below it.
pub open spec fn start_squares_taken(m: Map<(int, int), u8>) -> bool {
    ||| m.contains_key((5, 0))
    ||| m.contains_key((6, 0))
    ||| m.contains_key((4, 0))
    ||| m.contains_key((5, -1))
    ||| m.contains_key((5, 1))
    ||| m.contains_key((12, 0))
    ||| m.contains_key((13, 0))
    ||| m.contains_key((11, 0))
    ||| m.contains_key((12, -1))
    ||| m.contains_key((12, 1))
}

/// The game is over exactly when a fallen block lies on one of the ten start
/// squares; a block anywhere else, such as two squares right of a start,
/// does not end it.
pub proof fn game_ends_on_the_start_squares_only(fallen: Map<(int, int), u8>)
    ensures
        start_blocked(fallen) == start_squares_taken(fallen),
{
    let starts = seq![
        (PIECE_START_X_LEFT as int, PIECE_START_Y_LEFT as int),
        (PIECE_START_X_RIGHT as int, PIECE_START_Y_RIGHT as int),
    ];
    if start_blocked(fallen) {
        let sq = choose|sq: (int, int)| in_start_zone(sq) && #[trigger] fallen.contains_key(sq);
        let i = choose|i: int|
            0 <= i < 2 && {
                let s = #[trigger] starts[i];
                ||| sq == s
                ||| sq == (s.0 + 1, s.1)
                ||| sq == (s.0 - 1, s.1)
                ||| sq == (s.0, s.1 - 1)
                ||| sq == (s.0, s.1 + 1)
            };
        assert(i == 0 || i == 1);
    }
    if start_squares_taken(fallen) {
        let s0 = starts[0];
        let s1 = starts[1];
        let cands = seq![
            (5int, 0int),
            (6int, 0int),
            (4int, 0int),
            (5int, -1int),
            (5int, 1int),
            (12int, 0int),
            (13int, 0int),
            (11int, 0int),
            (12int, -1int),
            (12int, 1int),
        ];
        let k = choose|k: int| 0 <= k < 10 && fallen.contains_key(#[trigger] cands[k]);
        let sq = cands[k];
        if k < 5 {
            assert(in_start_zone(sq)) by {
                assert(starts[0] == s0);
            }
        } else {
            assert(in_start_zone(sq)) by {
                assert(starts[1] == s1);
            }
        }
        assert(fallen.contains_key(sq));
    }
}

/// A frame ends the game exactly when, once the full rows are cleared, a
/// block lies on one of the ten start squares; a game that goes on has
/// cleared the full rows of the board the moves left, scored them, and kept
/// its players, and one that ends is reset.
pub proof fn frame_ends_the_game_on_the_cleared_board(
    active1: Map<usize, PieceState>,
    inactive1: Seq<PieceState>,
    fallen1: Map<(int, int), u8>,
    score: u32,
    active2: Map<usize, PieceState>,
    inactive2: Seq<PieceState>,
    fallen2: Map<(int, int), u8>,
    score2: u32,
    over: bool,
)
    requires
        frame_outcome(active1, inactive1, fallen1, score, active2, inactive2, fallen2, score2, over),
    ensures
        over == start_squares_taken(cleared_board(fallen1)),
        !over ==> {
            &&& fallen2 == cleared_board(fallen1)
            &&& !start_squares_taken(fallen2)
            &&& score2 == score + line_points(lines_cleared(fallen1))
            &&& active2 == active1
            &&& inactive2 == inactive1
        },
        over ==> {
            &&& fallen2 == Map::<(int, int), u8>::empty()
            &&& active2 == Map::<usize, PieceState>::empty()
            &&& inactive2 == Seq::<PieceState>::empty()
            &&& score2 == 0
        },
{
    game_ends_on_the_start_squares_only(cleared_board(fallen1));
}

} // verus!
