use std::collections::HashMap;
use coop_tetris::board::FallenBlocks;
use coop_tetris::tetris::{collision, player_collision, ActivePlayersType};
use coop_tetris::{fallen_blocks_collision, screen_collision, CollisionType, PieceState, Pivot};

fn piece(shape: u8, x: i8, y: i8, rotation: u8, player_id: usize) -> PieceState {
    PieceState {
        shape,
        pivot: Pivot { x, y },
        rotation,
        player_id,
        player_name: ['t', 'e', 's', 't', ' ', ' ', ' ', ' '],
        next_shift_time: Some(0),
        fast_drop: false,
    }
}

#[test]
fn piece_on_the_board_does_not_leave_it() {
    assert!(matches!(screen_collision(&piece(4, 5, 0, 0, 1)), CollisionType::NoCollision));
    assert!(matches!(screen_collision(&piece(4, 17, 18, 0, 1)), CollisionType::NoCollision));
    // the empty top row of the I piece's box may lie above the board
    assert!(matches!(screen_collision(&piece(5, 0, -1, 0, 1)), CollisionType::NoCollision));
}

#[test]
fn piece_past_a_side_hits_the_wall() {
    assert!(matches!(screen_collision(&piece(4, -1, 5, 0, 1)), CollisionType::Wall));
    assert!(matches!(screen_collision(&piece(4, 18, 5, 0, 1)), CollisionType::Wall));
}

#[test]
fn piece_above_the_board_hits_the_ceiling() {
    assert!(matches!(screen_collision(&piece(4, 5, -1, 0, 1)), CollisionType::Ceiling));
}

#[test]
fn piece_below_the_board_hits_the_floor() {
    assert!(matches!(screen_collision(&piece(4, 5, 19, 0, 1)), CollisionType::Floor));
}

#[test]
fn first_block_off_the_board_decides_the_exit() {
    // the top block of the T lies both right of the board and above it: wall first
    assert!(matches!(screen_collision(&piece(4, 19, -1, 0, 1)), CollisionType::Wall));
    // the top block is above the board only; it comes before the row past the wall
    assert!(matches!(screen_collision(&piece(4, 18, -1, 0, 1)), CollisionType::Ceiling));
}

#[test]
fn fallen_blocks_collision_sees_the_floor_and_the_blocks() {
    let mut fallen = FallenBlocks::new();
    assert!(!fallen_blocks_collision(&piece(4, 5, 18, 0, 1), &fallen));
    assert!(fallen_blocks_collision(&piece(4, 5, 19, 0, 1), &fallen));
    fallen.insert(Pivot { x: 6, y: 18 }, 2);
    assert!(fallen_blocks_collision(&piece(4, 5, 18, 0, 1), &fallen));
    // a fallen block in an empty cell of the piece's box is no collision
    assert!(!fallen_blocks_collision(&piece(4, 6, 18, 0, 1), &fallen));
    // the ceiling is no collision with the fallen blocks
    assert!(!fallen_blocks_collision(&piece(4, 5, -1, 0, 1), &FallenBlocks::new()));
}

#[test]
fn player_collision_sees_other_pieces_only() {
    let mut active: ActivePlayersType = HashMap::new();
    active.insert(2, piece(6, 5, 6, 0, 2));
    let t = piece(4, 5, 6, 0, 1);
    assert!(player_collision(&t, &active));
    assert!(!player_collision(&piece(4, 5, 5, 0, 1), &active));
    assert!(!player_collision(&piece(4, 10, 10, 0, 1), &active));
    // a piece does not collide with its own player's piece
    assert!(!player_collision(&piece(4, 5, 6, 0, 2), &active));
}

#[test]
fn overlap_goes_both_ways() {
    let a = piece(4, 5, 6, 0, 1);
    let b = piece(6, 5, 6, 0, 2);
    let c = piece(5, 3, 4, 1, 3);
    for (p, q) in [(a, b), (a, c), (b, c)] {
        let mut with_q: ActivePlayersType = HashMap::new();
        with_q.insert(q.player_id, q);
        let mut with_p: ActivePlayersType = HashMap::new();
        with_p.insert(p.player_id, p);
        assert_eq!(player_collision(&p, &with_q), player_collision(&q, &with_p));
    }
}

#[test]
fn collision_counts_walls_floor_blocks_and_players_but_not_the_ceiling() {
    let mut active: ActivePlayersType = HashMap::new();
    let mut fallen = FallenBlocks::new();
    assert!(!collision(&piece(4, 5, 5, 0, 1), &active, &fallen));
    assert!(collision(&piece(4, -1, 5, 0, 1), &active, &fallen));
    assert!(collision(&piece(4, 5, 19, 0, 1), &active, &fallen));
    assert!(!collision(&piece(4, 5, -1, 0, 1), &active, &fallen));
    fallen.insert(Pivot { x: 7, y: 6 }, 0);
    assert!(collision(&piece(4, 5, 5, 0, 1), &active, &fallen));
    let fallen = FallenBlocks::new();
    active.insert(2, piece(6, 5, 6, 0, 2));
    assert!(collision(&piece(4, 5, 6, 0, 1), &active, &fallen));
    assert!(!collision(&piece(4, 10, 6, 0, 1), &active, &fallen));
}
