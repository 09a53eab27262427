use std::collections::{HashMap, VecDeque};
use coop_tetris::board::FallenBlocks;
use coop_tetris::game::{
    activate_piece, active_piece_states, add_fallen_blocks, drop_piece, game_over, shift_ready,
    inactive_player_ids, join_player, move_to_inactive, remove_player, reset_game, shift_pieces,
    BlockQueueType, InactivePlayersType, BOTTOM_TOUCH_MS, FAST_DROP_SHIFT_MS, NUM_BAGS,
};
use coop_tetris::frame::frame_step;
use coop_tetris::tetris::ActivePlayersType;
use coop_tetris::{PieceState, Pivot};

fn piece(shape: u8, x: i8, y: i8, player_id: usize, next_shift_time: Option<u128>) -> PieceState {
    PieceState {
        shape,
        pivot: Pivot { x, y },
        rotation: 0,
        player_id,
        player_name: ['t', 'e', 's', 't', ' ', ' ', ' ', ' '],
        next_shift_time,
        fast_drop: false,
    }
}

fn guest(player_id: usize) -> PieceState {
    PieceState {
        shape: 0,
        pivot: Pivot { x: 0, y: 0 },
        rotation: 0,
        player_id,
        player_name: ['g', 'u', 'e', 's', 't', ' ', ' ', ' '],
        next_shift_time: None,
        fast_drop: false,
    }
}

fn standard_queue() -> BlockQueueType {
    [[0, 1, 2, 3, 4, 5, 6, 0, 1, 2, 3, 4, 5, 6]; NUM_BAGS]
}

fn contents(fallen: &FallenBlocks) -> Vec<(i8, i8, u8)> {
    let mut v: Vec<(i8, i8, u8)> =
        fallen.blocks().iter().map(|b| (b.position.x, b.position.y, b.original_shape)).collect();
    v.sort();
    v
}

fn ids(inactive: &InactivePlayersType) -> Vec<usize> {
    inactive_player_ids(inactive)
}

#[test]
fn join_player_queues_a_guest() {
    let mut inactive: InactivePlayersType = VecDeque::new();
    join_player(4, &mut inactive);
    join_player(2, &mut inactive);
    assert_eq!(inactive.len(), 2);
    assert_eq!(inactive[0], guest(4));
    assert_eq!(inactive[1], guest(2));
    assert_eq!(ids(&inactive), vec![4, 2]);
}

#[test]
fn move_to_inactive_sends_the_player_to_the_back() {
    let mut active: ActivePlayersType = HashMap::new();
    active.insert(1, piece(4, 5, 5, 1, Some(10)));
    let mut inactive: InactivePlayersType = VecDeque::new();
    join_player(2, &mut inactive);
    move_to_inactive(1, &mut active, &mut inactive);
    assert!(active.is_empty());
    assert_eq!(ids(&inactive), vec![2, 1]);
    assert_eq!(inactive[1], piece(4, 5, 5, 1, Some(10)));
}

#[test]
fn remove_player_takes_the_player_out_of_the_game() {
    let mut active: ActivePlayersType = HashMap::new();
    active.insert(1, piece(4, 5, 5, 1, Some(10)));
    let mut inactive: InactivePlayersType = VecDeque::new();
    join_player(2, &mut inactive);
    join_player(3, &mut inactive);
    assert_eq!(remove_player(1, &mut active, &mut inactive), (true, false));
    assert!(active.is_empty());
    assert_eq!(ids(&inactive), vec![2, 3]);
    assert_eq!(remove_player(3, &mut active, &mut inactive), (false, true));
    assert_eq!(ids(&inactive), vec![2]);
    assert_eq!(remove_player(7, &mut active, &mut inactive), (false, false));
    assert_eq!(ids(&inactive), vec![2]);
}

#[test]
fn remove_player_takes_every_entry_of_a_player_queued_twice() {
    let mut active: ActivePlayersType = HashMap::new();
    let mut inactive: InactivePlayersType = VecDeque::new();
    inactive.push_back(piece(1, 0, 0, 2, None));
    join_player(3, &mut inactive);
    inactive.push_back(piece(2, 0, 0, 2, None));
    join_player(4, &mut inactive);
    assert_eq!(remove_player(2, &mut active, &mut inactive), (false, true));
    assert_eq!(inactive.len(), 2);
    assert_eq!(inactive[0], guest(3));
    assert_eq!(inactive[1], guest(4));
}

#[test]
fn add_fallen_blocks_leaves_the_piece_on_the_board() {
    let mut fallen = FallenBlocks::new();
    fallen.insert(Pivot { x: 0, y: 19 }, 1);
    add_fallen_blocks(&piece(4, 5, 5, 1, None), &mut fallen);
    assert_eq!(contents(&fallen), vec![(0, 19, 1), (5, 6, 4), (6, 5, 4), (6, 6, 4), (7, 6, 4)]);
    let mut turned = piece(5, 10, 10, 2, None);
    turned.rotation = 1;
    add_fallen_blocks(&turned, &mut fallen);
    assert_eq!(fallen.get(&Pivot { x: 12, y: 10 }), Some(5));
    assert_eq!(fallen.get(&Pivot { x: 12, y: 13 }), Some(5));
    assert_eq!(contents(&fallen).len(), 9);
}

#[test]
fn drop_piece_on_the_floor_freezes_it() {
    let mut fallen = FallenBlocks::new();
    let mut active: ActivePlayersType = HashMap::new();
    active.insert(1, piece(4, 5, 18, 1, Some(900)));
    assert!(drop_piece(1, &mut fallen, &mut active, 400, 1000));
    assert_eq!(active[&1], piece(4, 5, 18, 1, None));
    assert_eq!(contents(&fallen), vec![(5, 19, 4), (6, 18, 4), (6, 19, 4), (7, 19, 4)]);
}

#[test]
fn drop_piece_onto_a_fallen_block_freezes_it() {
    let mut fallen = FallenBlocks::new();
    fallen.insert(Pivot { x: 6, y: 12 }, 0);
    let mut active: ActivePlayersType = HashMap::new();
    active.insert(1, piece(4, 5, 10, 1, Some(900)));
    assert!(drop_piece(1, &mut fallen, &mut active, 400, 1000));
    assert_eq!(active[&1].pivot, Pivot { x: 5, y: 10 });
    assert_eq!(active[&1].next_shift_time, None);
    assert_eq!(contents(&fallen).len(), 5);
}

#[test]
fn drop_piece_blocked_by_another_player_waits_and_stops_fast_drop() {
    let mut fallen = FallenBlocks::new();
    let mut active: ActivePlayersType = HashMap::new();
    let mut p = piece(4, 5, 5, 1, Some(900));
    p.fast_drop = true;
    active.insert(1, p);
    active.insert(2, piece(6, 5, 6, 2, Some(2000)));
    assert!(!drop_piece(1, &mut fallen, &mut active, 400, 1000));
    assert_eq!(active[&1], piece(4, 5, 5, 1, Some(900)));
    assert_eq!(active[&2], piece(6, 5, 6, 2, Some(2000)));
    assert!(contents(&fallen).is_empty());
}

#[test]
fn drop_piece_while_fast_dropping_comes_back_soon() {
    let mut fallen = FallenBlocks::new();
    let mut active: ActivePlayersType = HashMap::new();
    let mut p = piece(4, 5, 5, 1, Some(900));
    p.fast_drop = true;
    active.insert(1, p);
    assert!(!drop_piece(1, &mut fallen, &mut active, 400, 1000));
    assert_eq!(active[&1].pivot, Pivot { x: 5, y: 6 });
    assert_eq!(active[&1].next_shift_time, Some(1000 + FAST_DROP_SHIFT_MS));
    assert!(active[&1].fast_drop);
}

#[test]
fn drop_piece_touching_the_bottom_gets_extra_time() {
    let mut fallen = FallenBlocks::new();
    let mut active: ActivePlayersType = HashMap::new();
    active.insert(1, piece(4, 5, 17, 1, Some(900)));
    assert!(!drop_piece(1, &mut fallen, &mut active, 400, 1000));
    assert_eq!(active[&1], piece(4, 5, 18, 1, Some(1000 + BOTTOM_TOUCH_MS)));
}

#[test]
fn drop_piece_in_open_space_waits_one_shift_period() {
    let mut fallen = FallenBlocks::new();
    let mut active: ActivePlayersType = HashMap::new();
    active.insert(1, piece(4, 5, 5, 1, Some(900)));
    assert!(!drop_piece(1, &mut fallen, &mut active, 250, 1000));
    assert_eq!(active[&1], piece(4, 5, 6, 1, Some(1250)));
}

#[test]
fn activate_piece_deals_a_piece_at_the_alternating_starts() {
    let mut active: ActivePlayersType = HashMap::new();
    let mut inactive: InactivePlayersType = VecDeque::new();
    join_player(7, &mut inactive);
    join_player(8, &mut inactive);
    join_player(9, &mut inactive);
    let mut queue = standard_queue();
    let mut index: usize = 0;
    activate_piece(&mut active, &mut inactive, &mut queue, &mut index, 400, 1000);
    assert_eq!(index, 1);
    let mut expected = guest(7);
    expected.pivot = Pivot { x: 12, y: 0 };
    expected.next_shift_time = Some(1400);
    assert_eq!(active[&7], expected);
    assert_eq!(ids(&inactive), vec![8, 9]);

    activate_piece(&mut active, &mut inactive, &mut queue, &mut index, 300, 2000);
    assert_eq!(index, 2);
    let mut expected = guest(8);
    expected.shape = 1;
    expected.pivot = Pivot { x: 5, y: 0 };
    expected.next_shift_time = Some(2300);
    assert_eq!(active[&8], expected);

    // two pieces are in play: nobody else gets one
    activate_piece(&mut active, &mut inactive, &mut queue, &mut index, 300, 3000);
    assert_eq!(index, 2);
    assert_eq!(active.len(), 2);
    assert_eq!(ids(&inactive), vec![9]);
}

#[test]
fn activate_piece_with_nobody_waiting_does_nothing() {
    let mut active: ActivePlayersType = HashMap::new();
    let mut inactive: InactivePlayersType = VecDeque::new();
    let mut queue = standard_queue();
    let mut index: usize = 5;
    activate_piece(&mut active, &mut inactive, &mut queue, &mut index, 400, 1000);
    assert!(active.is_empty());
    assert_eq!(index, 5);
    assert_eq!(queue, standard_queue());
}

#[test]
fn shift_pieces_moves_due_pieces_and_spawns_when_ready() {
    let mut active: ActivePlayersType = HashMap::new();
    active.insert(1, piece(4, 5, 5, 1, Some(900)));
    let mut inactive: InactivePlayersType = VecDeque::new();
    join_player(2, &mut inactive);
    let mut fallen = FallenBlocks::new();
    let mut queue = standard_queue();
    let mut index: usize = 3;
    let mut last_spawn: u128 = 0;
    shift_pieces(&mut active, &mut inactive, &mut fallen, &mut queue, &mut index, &mut last_spawn, 400, 1000);
    assert_eq!(active[&1], piece(4, 5, 6, 1, Some(1400)));
    let mut expected = guest(2);
    expected.shape = 3;
    expected.pivot = Pivot { x: 5, y: 0 };
    expected.next_shift_time = Some(1400);
    assert_eq!(active[&2], expected);
    assert!(inactive.is_empty());
    assert_eq!(index, 4);
    assert_eq!(last_spawn, 1000);
}

#[test]
fn shift_pieces_leaves_pieces_that_are_not_due() {
    let mut active: ActivePlayersType = HashMap::new();
    active.insert(1, piece(4, 5, 5, 1, Some(1000)));
    let mut inactive: InactivePlayersType = VecDeque::new();
    join_player(2, &mut inactive);
    let mut fallen = FallenBlocks::new();
    let mut queue = standard_queue();
    let mut index: usize = 0;
    let mut last_spawn: u128 = 700;
    shift_pieces(&mut active, &mut inactive, &mut fallen, &mut queue, &mut index, &mut last_spawn, 400, 1000);
    assert_eq!(active.len(), 1);
    assert_eq!(active[&1], piece(4, 5, 5, 1, Some(1000)));
    assert_eq!(ids(&inactive), vec![2]);
    assert_eq!(index, 0);
    assert_eq!(last_spawn, 700);
}

#[test]
fn shift_pieces_freezes_landed_pieces_and_queues_their_players() {
    let mut active: ActivePlayersType = HashMap::new();
    active.insert(1, piece(4, 5, 18, 1, Some(900)));
    let mut inactive: InactivePlayersType = VecDeque::new();
    let mut fallen = FallenBlocks::new();
    let mut queue = standard_queue();
    let mut index: usize = 0;
    let mut last_spawn: u128 = 900;
    shift_pieces(&mut active, &mut inactive, &mut fallen, &mut queue, &mut index, &mut last_spawn, 400, 1000);
    assert!(active.is_empty());
    assert_eq!(ids(&inactive), vec![1]);
    assert_eq!(inactive[0].next_shift_time, None);
    assert_eq!(contents(&fallen), vec![(5, 19, 4), (6, 18, 4), (6, 19, 4), (7, 19, 4)]);
    assert_eq!(last_spawn, 900);
}

#[test]
fn shift_pieces_keeps_the_players_consistent() {
    let mut active: ActivePlayersType = HashMap::new();
    active.insert(1, piece(4, 5, 18, 1, Some(900)));
    active.insert(2, piece(5, 12, 3, 2, Some(950)));
    let mut inactive: InactivePlayersType = VecDeque::new();
    join_player(3, &mut inactive);
    join_player(4, &mut inactive);
    let mut fallen = FallenBlocks::new();
    let mut queue = standard_queue();
    let mut index: usize = 13;
    let mut last_spawn: u128 = 0;
    for step in 0..40u128 {
        let now = 1000 + 100 * step;
        shift_pieces(&mut active, &mut inactive, &mut fallen, &mut queue, &mut index, &mut last_spawn, 400, now);
        assert!(active.len() <= 2);
        assert!(index < 42);
        for (k, p) in active.iter() {
            assert_eq!(*k, p.player_id);
            assert!(p.next_shift_time.is_some());
            assert!(p.shape < 7);
        }
        let waiting = ids(&inactive);
        for id in waiting.iter() {
            assert!(!active.contains_key(id));
        }
        assert_eq!(active.len() + waiting.len(), 4);
    }
}

#[test]
fn game_is_over_when_a_start_square_or_its_neighbour_is_taken() {
    assert!(!game_over(&FallenBlocks::new()));
    for (x, y) in [(5, 0), (6, 0), (4, 0), (5, -1), (5, 1), (12, 0), (13, 0), (11, 0), (12, -1), (12, 1)] {
        let mut fallen = FallenBlocks::new();
        fallen.insert(Pivot { x, y }, 0);
        assert!(game_over(&fallen), "({}, {})", x, y);
    }
    for (x, y) in [(4, 1), (6, 1), (8, 0), (10, 0), (12, 2), (5, 2), (0, 19)] {
        let mut fallen = FallenBlocks::new();
        fallen.insert(Pivot { x, y }, 0);
        assert!(!game_over(&fallen), "({}, {})", x, y);
    }
}

#[test]
fn reset_game_empties_everything() {
    let mut active: ActivePlayersType = HashMap::new();
    active.insert(1, piece(4, 5, 5, 1, Some(10)));
    let mut inactive: InactivePlayersType = VecDeque::new();
    join_player(2, &mut inactive);
    let mut fallen = FallenBlocks::new();
    fallen.insert(Pivot { x: 5, y: 0 }, 1);
    let mut score: u32 = 1200;
    reset_game(&mut active, &mut inactive, &mut fallen, &mut score);
    assert!(active.is_empty());
    assert!(inactive.is_empty());
    assert!(contents(&fallen).is_empty());
    assert_eq!(score, 0);
}

#[test]
fn active_piece_states_lists_every_active_piece() {
    let mut active: ActivePlayersType = HashMap::new();
    assert!(active_piece_states(&active).is_empty());
    active.insert(1, piece(4, 5, 5, 1, Some(10)));
    active.insert(2, piece(0, 12, 0, 2, Some(20)));
    let states = active_piece_states(&active);
    assert_eq!(states.len(), 2);
    assert!(states.contains(&piece(4, 5, 5, 1, Some(10))));
    assert!(states.contains(&piece(0, 12, 0, 2, Some(20))));
}

#[test]
fn frame_step_freezes_a_piece_and_clears_the_row_it_completes() {
    let mut active: ActivePlayersType = HashMap::new();
    active.insert(1, piece(5, 0, 18, 1, Some(900)));
    let mut inactive: InactivePlayersType = VecDeque::new();
    let mut fallen = FallenBlocks::new();
    for x in 4..20 {
        fallen.insert(Pivot { x, y: 19 }, 2);
    }
    fallen.insert(Pivot { x: 9, y: 18 }, 6);
    let mut score: u32 = 300;
    let mut queue = standard_queue();
    let mut index: usize = 0;
    let mut last_spawn: u128 = 1000;
    let over = frame_step(
        &mut active, &mut inactive, &mut fallen, &mut score, &mut queue, &mut index, &mut last_spawn,
        400, 1000,
    );
    assert!(!over);
    assert!(active.is_empty());
    assert_eq!(ids(&inactive), vec![1]);
    assert_eq!(contents(&fallen), vec![(9, 19, 6)]);
    assert_eq!(score, 400);
    assert_eq!(index, 0);
    assert_eq!(last_spawn, 1000);
}

#[test]
fn frame_step_ends_and_resets_a_game_with_a_blocked_start() {
    let mut active: ActivePlayersType = HashMap::new();
    active.insert(1, piece(4, 12, 8, 1, Some(5000)));
    let mut inactive: InactivePlayersType = VecDeque::new();
    join_player(2, &mut inactive);
    let mut fallen = FallenBlocks::new();
    fallen.insert(Pivot { x: 13, y: 0 }, 3);
    let mut score: u32 = 500;
    let mut queue = standard_queue();
    let mut index: usize = 4;
    let mut last_spawn: u128 = 0;
    let over = frame_step(
        &mut active, &mut inactive, &mut fallen, &mut score, &mut queue, &mut index, &mut last_spawn,
        400, 1000,
    );
    assert!(over);
    assert!(active.is_empty());
    assert!(inactive.is_empty());
    assert!(contents(&fallen).is_empty());
    assert_eq!(score, 0);
    // the queue and the spawn time go on into the next game
    assert_eq!(index, 5);
    assert_eq!(last_spawn, 1000);
}

#[test]
fn frame_step_without_anything_due_changes_nothing() {
    let mut active: ActivePlayersType = HashMap::new();
    active.insert(1, piece(4, 3, 8, 1, Some(5000)));
    let mut inactive: InactivePlayersType = VecDeque::new();
    let mut fallen = FallenBlocks::new();
    fallen.insert(Pivot { x: 0, y: 19 }, 3);
    let mut score: u32 = 100;
    let mut queue = standard_queue();
    let mut index: usize = 4;
    let mut last_spawn: u128 = 900;
    let over = frame_step(
        &mut active, &mut inactive, &mut fallen, &mut score, &mut queue, &mut index, &mut last_spawn,
        400, 1000,
    );
    assert!(!over);
    assert_eq!(active[&1], piece(4, 3, 8, 1, Some(5000)));
    assert_eq!(contents(&fallen), vec![(0, 19, 3)]);
    assert_eq!(score, 100);
    assert_eq!(index, 4);
    assert_eq!(last_spawn, 900);
}

#[test]
fn shift_ready_tests_for_a_bounded_state() {
    let mut active: ActivePlayersType = HashMap::new();
    let mut inactive: InactivePlayersType = VecDeque::new();
    assert!(shift_ready(&active, &inactive, 0));
    active.insert(1, piece(4, 5, 5, 1, Some(10)));
    active.insert(2, piece(6, 12, 0, 2, Some(10)));
    join_player(3, &mut inactive);
    assert!(shift_ready(&active, &inactive, 41));
    assert!(!shift_ready(&active, &inactive, 42));

    let mut no_time = active.clone();
    no_time.insert(2, piece(6, 12, 0, 2, None));
    assert!(!shift_ready(&no_time, &inactive, 0));

    let mut wrong_key = HashMap::new();
    wrong_key.insert(5, piece(4, 5, 5, 1, Some(10)));
    assert!(!shift_ready(&wrong_key, &inactive, 0));

    // far from the board, but within what the checks can compute
    let mut far = HashMap::new();
    far.insert(1, piece(4, 100, 90, 1, Some(10)));
    far.insert(2, piece(6, 0, -20, 2, Some(10)));
    assert!(shift_ready(&far, &inactive, 0));
    // too far down for the checks below a piece
    far.insert(2, piece(6, 0, 123, 2, Some(10)));
    assert!(!shift_ready(&far, &inactive, 0));
    // too far apart to compare
    far.insert(2, piece(6, -30, 0, 2, Some(10)));
    assert!(!shift_ready(&far, &inactive, 0));

    let mut too_many = active.clone();
    too_many.insert(4, piece(0, 1, 1, 4, Some(10)));
    assert!(!shift_ready(&too_many, &VecDeque::new(), 0));

    // a waiting player who is also in play is fine, unless first in the queue
    join_player(1, &mut inactive);
    assert!(shift_ready(&active, &inactive, 0));
    let mut first_in_play: InactivePlayersType = VecDeque::new();
    join_player(1, &mut first_in_play);
    assert!(!shift_ready(&active, &first_in_play, 0));
}

#[test]
fn shift_pieces_works_far_from_the_board() {
    let mut active: ActivePlayersType = HashMap::new();
    active.insert(1, piece(4, 100, 90, 1, Some(900)));
    let mut inactive: InactivePlayersType = VecDeque::new();
    let mut fallen = FallenBlocks::new();
    let mut queue = standard_queue();
    let mut index: usize = 0;
    let mut last_spawn: u128 = 1000;
    shift_pieces(&mut active, &mut inactive, &mut fallen, &mut queue, &mut index, &mut last_spawn, 400, 1000);
    assert_eq!(active[&1], piece(4, 100, 91, 1, Some(1400)));
}
