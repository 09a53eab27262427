use std::collections::HashMap;
use coop_tetris::board::FallenBlocks;
use coop_tetris::tetris::{input_in_range, ActivePlayersType};
use coop_tetris::{update_state, KeyState, PieceState, Pivot};

fn piece(shape: u8, x: i8, y: i8, rotation: u8, player_id: usize) -> PieceState {
    PieceState {
        shape,
        pivot: Pivot { x, y },
        rotation,
        player_id,
        player_name: ['t', 'e', 's', 't', ' ', ' ', ' ', ' '],
        next_shift_time: Some(1000),
        fast_drop: false,
    }
}

fn keys(player_id: usize) -> KeyState {
    KeyState { player_id, player_name: String::from("test"), ..Default::default() }
}

fn one_player(p: PieceState) -> ActivePlayersType {
    let mut active: ActivePlayersType = HashMap::new();
    active.insert(p.player_id, p);
    active
}

#[test]
fn left_and_right_move_the_piece() {
    let fallen = FallenBlocks::new();
    let mut active = one_player(piece(4, 5, 5, 0, 1));
    update_state(&mut active, &KeyState { left: true, ..keys(1) }, &fallen);
    assert_eq!(active[&1].pivot, Pivot { x: 4, y: 5 });
    update_state(&mut active, &KeyState { right: true, ..keys(1) }, &fallen);
    update_state(&mut active, &KeyState { right: true, ..keys(1) }, &fallen);
    assert_eq!(active[&1].pivot, Pivot { x: 6, y: 5 });
    // both at once cancel out
    update_state(&mut active, &KeyState { left: true, right: true, ..keys(1) }, &fallen);
    assert_eq!(active[&1], piece(4, 6, 5, 0, 1));
}

#[test]
fn input_of_a_waiting_player_changes_nothing() {
    let fallen = FallenBlocks::new();
    let mut active = one_player(piece(4, 5, 5, 0, 1));
    update_state(&mut active, &KeyState { left: true, rot: true, ..keys(9) }, &fallen);
    assert_eq!(active.len(), 1);
    assert_eq!(active[&1], piece(4, 5, 5, 0, 1));
}

#[test]
fn move_into_the_wall_is_refused() {
    let fallen = FallenBlocks::new();
    let mut active = one_player(piece(4, 0, 5, 0, 1));
    update_state(&mut active, &KeyState { left: true, ..keys(1) }, &fallen);
    assert_eq!(active[&1], piece(4, 0, 5, 0, 1));
}

#[test]
fn move_into_a_fallen_block_is_refused() {
    let mut fallen = FallenBlocks::new();
    fallen.insert(Pivot { x: 4, y: 6 }, 3);
    let mut active = one_player(piece(4, 5, 5, 0, 1));
    update_state(&mut active, &KeyState { left: true, ..keys(1) }, &fallen);
    assert_eq!(active[&1], piece(4, 5, 5, 0, 1));
}

#[test]
fn move_into_another_piece_is_refused_and_leaves_it_alone() {
    let fallen = FallenBlocks::new();
    let mut active = one_player(piece(4, 5, 5, 0, 1));
    active.insert(2, piece(6, 7, 4, 0, 2));
    update_state(&mut active, &KeyState { right: true, ..keys(1) }, &fallen);
    assert_eq!(active[&1], piece(4, 5, 5, 0, 1));
    assert_eq!(active[&2], piece(6, 7, 4, 0, 2));
    // a move elsewhere is taken, and the other piece stays as it was
    update_state(&mut active, &KeyState { left: true, ..keys(1) }, &fallen);
    assert_eq!(active[&1], piece(4, 4, 5, 0, 1));
    assert_eq!(active[&2], piece(6, 7, 4, 0, 2));
}

#[test]
fn rotation_keys_turn_the_piece() {
    let fallen = FallenBlocks::new();
    let mut active = one_player(piece(4, 5, 5, 0, 1));
    update_state(&mut active, &KeyState { rot: true, ..keys(1) }, &fallen);
    assert_eq!(active[&1], piece(4, 5, 5, 1, 1));
    update_state(&mut active, &KeyState { counter_rot: true, ..keys(1) }, &fallen);
    update_state(&mut active, &KeyState { counter_rot: true, ..keys(1) }, &fallen);
    assert_eq!(active[&1], piece(4, 5, 5, 3, 1));
    update_state(&mut active, &KeyState { rot: true, ..keys(1) }, &fallen);
    assert_eq!(active[&1], piece(4, 5, 5, 0, 1));
    // both rotation keys at once cancel out
    update_state(&mut active, &KeyState { rot: true, counter_rot: true, ..keys(1) }, &fallen);
    assert_eq!(active[&1], piece(4, 5, 5, 0, 1));
}

#[test]
fn turning_against_the_wall_kicks_the_piece_off_it() {
    let fallen = FallenBlocks::new();
    // a T pointing right, its stem against the left wall
    let mut active = one_player(piece(4, -1, 5, 1, 1));
    // turning it back to point up would put a block past the wall:
    // the first kick moves it one square to the right
    update_state(&mut active, &KeyState { counter_rot: true, ..keys(1) }, &fallen);
    assert_eq!(active[&1], piece(4, 0, 5, 0, 1));
}

#[test]
fn turn_that_no_kick_can_fit_keeps_the_piece() {
    // an I piece standing in a one-square well between fallen columns
    let mut fallen = FallenBlocks::new();
    for y in 0..20 {
        for x in 0..20 {
            if x != 5 {
                fallen.insert(Pivot { x, y }, 0);
            }
        }
    }
    let mut active = one_player(piece(5, 3, 10, 1, 1));
    update_state(&mut active, &KeyState { rot: true, ..keys(1) }, &fallen);
    assert_eq!(active[&1], piece(5, 3, 10, 1, 1));
    update_state(&mut active, &KeyState { counter_rot: true, ..keys(1) }, &fallen);
    assert_eq!(active[&1], piece(5, 3, 10, 1, 1));
}

#[test]
fn fast_drop_key_changes_nothing() {
    let fallen = FallenBlocks::new();
    let mut active = one_player(piece(2, 5, 5, 2, 1));
    update_state(&mut active, &KeyState { fast_drop: true, ..keys(1) }, &fallen);
    assert_eq!(active[&1], piece(2, 5, 5, 2, 1));
}

#[test]
fn input_in_range_tests_the_update_preconditions() {
    let empty = FallenBlocks::new();
    let mut active = one_player(piece(4, 5, 5, 0, 1));
    active.insert(2, piece(6, 12, 0, 3, 2));
    assert!(input_in_range(&active, &KeyState { rot: true, counter_rot: true, ..keys(1) }, &empty));
    // input of a waiting player
    assert!(input_in_range(&active, &KeyState { left: true, ..keys(9) }, &empty));
    // far off the board, within what the checks can compute
    let far = one_player(piece(4, 124, 5, 0, 1));
    assert!(input_in_range(&far, &keys(1), &empty));
    assert!(input_in_range(&far, &KeyState { left: true, ..keys(1) }, &empty));
    // one square further right is past what the board checks can compute
    assert!(!input_in_range(&far, &KeyState { right: true, ..keys(1) }, &empty));
    // another piece too far away to compare with
    let mut other_far = one_player(piece(4, 5, 5, 0, 1));
    other_far.insert(2, piece(6, 12, -125, 0, 2));
    assert!(!input_in_range(&other_far, &keys(1), &empty));
    other_far.insert(2, piece(6, 12, -119, 0, 2));
    assert!(input_in_range(&other_far, &keys(1), &empty));
    // ... though not once a hard drop takes the piece further down
    assert!(!input_in_range(&other_far, &KeyState { hard_drop: true, ..keys(1) }, &empty));
    // a turn that would overflow the rotation
    let worn = one_player(piece(4, 5, 5, 255, 1));
    assert!(!input_in_range(&worn, &KeyState { rot: true, ..keys(1) }, &empty));
    assert!(input_in_range(&worn, &KeyState { left: true, ..keys(1) }, &empty));
    let worn = one_player(piece(4, 5, 5, 252, 1));
    assert!(!input_in_range(&worn, &KeyState { counter_rot: true, ..keys(1) }, &empty));
    assert!(input_in_range(&worn, &KeyState { rot: true, counter_rot: true, ..keys(1) }, &empty));
}

#[test]
fn hard_drop_drops_the_piece_to_the_floor() {
    let fallen = FallenBlocks::new();
    let mut active = one_player(piece(6, 5, 0, 0, 1));
    update_state(&mut active, &KeyState { hard_drop: true, ..keys(1) }, &fallen);
    assert_eq!(active[&1], piece(6, 5, 17, 0, 1));
}

#[test]
fn hard_drop_stops_on_fallen_blocks_and_other_pieces() {
    let mut fallen = FallenBlocks::new();
    fallen.insert(Pivot { x: 6, y: 10 }, 2);
    let mut active = one_player(piece(6, 5, 0, 0, 1));
    update_state(&mut active, &KeyState { hard_drop: true, ..keys(1) }, &fallen);
    assert_eq!(active[&1], piece(6, 5, 7, 0, 1));

    let fallen = FallenBlocks::new();
    let mut active = one_player(piece(6, 5, 0, 0, 1));
    active.insert(2, piece(4, 5, 12, 0, 2));
    update_state(&mut active, &KeyState { hard_drop: true, ..keys(1) }, &fallen);
    assert_eq!(active[&1], piece(6, 5, 9, 0, 1));
    assert_eq!(active[&2], piece(4, 5, 12, 0, 2));
}

#[test]
fn hard_drop_comes_after_the_move() {
    let fallen = FallenBlocks::new();
    let mut active = one_player(piece(6, 5, 0, 0, 1));
    update_state(&mut active, &KeyState { left: true, hard_drop: true, ..keys(1) }, &fallen);
    assert_eq!(active[&1], piece(6, 4, 17, 0, 1));
    // a refused move still drops the piece from where it is
    let mut active = one_player(piece(6, -1, 0, 0, 1));
    update_state(&mut active, &KeyState { left: true, hard_drop: true, ..keys(1) }, &fallen);
    assert_eq!(active[&1], piece(6, -1, 17, 0, 1));
}

#[test]
fn hard_drop_leaves_a_piece_that_cannot_stand_where_it_is() {
    let mut fallen = FallenBlocks::new();
    fallen.insert(Pivot { x: 6, y: 1 }, 2);
    let mut active = one_player(piece(6, 5, 0, 0, 1));
    update_state(&mut active, &KeyState { hard_drop: true, ..keys(1) }, &fallen);
    assert_eq!(active[&1], piece(6, 5, 0, 0, 1));
}
