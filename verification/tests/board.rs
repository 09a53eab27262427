use coop_tetris::board::FallenBlocks;
use coop_tetris::{clear_lines, BlockState, Pivot};

fn fill_row(fallen: &mut FallenBlocks, y: i8, shape: u8) {
    for x in 0..20 {
        fallen.insert(Pivot { x, y }, shape);
    }
}

/// The fallen blocks as (x, y, shape), sorted.
fn contents(fallen: &FallenBlocks) -> Vec<(i8, i8, u8)> {
    let mut v: Vec<(i8, i8, u8)> =
        fallen.blocks().iter().map(|b| (b.position.x, b.position.y, b.original_shape)).collect();
    v.sort();
    v
}

#[test]
fn fallen_blocks_insert_get_remove_clear() {
    let mut fallen = FallenBlocks::new();
    assert!(contents(&fallen).is_empty());
    let p = Pivot { x: 3, y: 7 };
    assert!(!fallen.contains_key(&p));
    assert_eq!(fallen.get(&p), None);
    fallen.insert(p, 4);
    assert!(fallen.contains_key(&p));
    assert_eq!(fallen.get(&p), Some(4));
    fallen.insert(p, 2);
    assert_eq!(fallen.get(&p), Some(2));
    // squares far off the board can be held too
    let far = Pivot { x: -128, y: 127 };
    fallen.insert(far, 6);
    assert_eq!(fallen.get(&far), Some(6));
    assert_eq!(contents(&fallen), vec![(-128, 127, 6), (3, 7, 2)]);
    fallen.remove(&p);
    assert!(!fallen.contains_key(&p));
    fallen.remove(&p);
    assert_eq!(contents(&fallen), vec![(-128, 127, 6)]);
    fallen.clear();
    assert!(!fallen.contains_key(&far));
    assert!(contents(&fallen).is_empty());
}

#[test]
fn blocks_lists_each_square_once() {
    let mut fallen = FallenBlocks::new();
    fallen.insert(Pivot { x: 0, y: 19 }, 1);
    fallen.insert(Pivot { x: 1, y: 19 }, 5);
    fallen.insert(Pivot { x: 0, y: 19 }, 3);
    let blocks = fallen.blocks();
    assert_eq!(blocks.len(), 2);
    assert!(blocks.contains(&BlockState { original_shape: 3, position: Pivot { x: 0, y: 19 } }));
    assert!(blocks.contains(&BlockState { original_shape: 5, position: Pivot { x: 1, y: 19 } }));
}

#[test]
fn clearing_one_row_scores_one_hundred_and_drops_the_rows_above() {
    let mut fallen = FallenBlocks::new();
    fill_row(&mut fallen, 19, 0);
    fallen.insert(Pivot { x: 3, y: 18 }, 2);
    fallen.insert(Pivot { x: 8, y: 10 }, 6);
    let mut score: u32 = 0;
    clear_lines(&mut fallen, &mut score);
    assert_eq!(score, 100);
    assert_eq!(contents(&fallen), vec![(3, 19, 2), (8, 11, 6)]);
}

#[test]
fn clearing_two_rows_apart_closes_both_gaps() {
    let mut fallen = FallenBlocks::new();
    fill_row(&mut fallen, 19, 1);
    fallen.insert(Pivot { x: 4, y: 18 }, 2);
    fill_row(&mut fallen, 17, 3);
    fallen.insert(Pivot { x: 7, y: 16 }, 4);
    let mut score: u32 = 50;
    clear_lines(&mut fallen, &mut score);
    assert_eq!(score, 250);
    assert_eq!(contents(&fallen), vec![(4, 19, 2), (7, 18, 4)]);
}

#[test]
fn clearing_three_rows_scores_three_hundred() {
    let mut fallen = FallenBlocks::new();
    for y in 17..20 {
        fill_row(&mut fallen, y, 5);
    }
    let mut score: u32 = 0;
    clear_lines(&mut fallen, &mut score);
    assert_eq!(score, 300);
    assert!(contents(&fallen).is_empty());
}

#[test]
fn clearing_four_rows_at_once_scores_eight_hundred() {
    let mut fallen = FallenBlocks::new();
    for y in 16..20 {
        fill_row(&mut fallen, y, 5);
    }
    fallen.insert(Pivot { x: 0, y: 15 }, 1);
    let mut score: u32 = 1000;
    clear_lines(&mut fallen, &mut score);
    assert_eq!(score, 1800);
    assert_eq!(contents(&fallen), vec![(0, 19, 1)]);
}

#[test]
fn clearing_five_rows_scores_five_hundred() {
    let mut fallen = FallenBlocks::new();
    for y in 0..5 {
        fill_row(&mut fallen, y, 2);
    }
    let mut score: u32 = 0;
    clear_lines(&mut fallen, &mut score);
    assert_eq!(score, 500);
    assert!(contents(&fallen).is_empty());
}

#[test]
fn board_without_full_rows_is_left_alone() {
    let mut fallen = FallenBlocks::new();
    for x in 0..19 {
        fallen.insert(Pivot { x, y: 19 }, 0);
    }
    fallen.insert(Pivot { x: 5, y: 0 }, 3);
    let before = contents(&fallen);
    let mut score: u32 = 700;
    clear_lines(&mut fallen, &mut score);
    assert_eq!(score, 700);
    assert_eq!(contents(&fallen), before);
}

#[test]
fn clearing_twice_clears_nothing_more() {
    let mut fallen = FallenBlocks::new();
    fill_row(&mut fallen, 19, 0);
    fill_row(&mut fallen, 18, 0);
    fallen.insert(Pivot { x: 2, y: 17 }, 1);
    let mut score: u32 = 0;
    clear_lines(&mut fallen, &mut score);
    let once = contents(&fallen);
    clear_lines(&mut fallen, &mut score);
    assert_eq!(score, 200);
    assert_eq!(contents(&fallen), once);
}

#[test]
fn squares_off_the_board_stay_where_they_are() {
    let mut fallen = FallenBlocks::new();
    fill_row(&mut fallen, 19, 0);
    fallen.insert(Pivot { x: 25, y: 18 }, 4);
    fallen.insert(Pivot { x: -3, y: 10 }, 5);
    fallen.insert(Pivot { x: 2, y: -1 }, 6);
    fallen.insert(Pivot { x: 2, y: 0 }, 1);
    let mut score: u32 = 0;
    clear_lines(&mut fallen, &mut score);
    assert_eq!(score, 100);
    assert_eq!(contents(&fallen), vec![(-3, 10, 5), (2, -1, 6), (2, 1, 1), (25, 18, 4)]);
}

#[test]
fn row_full_only_with_all_twenty_columns() {
    let mut fallen = FallenBlocks::new();
    for x in 1..21 {
        fallen.insert(Pivot { x, y: 19 }, 0);
    }
    let mut score: u32 = 0;
    clear_lines(&mut fallen, &mut score);
    assert_eq!(score, 0);
    assert_eq!(contents(&fallen).len(), 20);
    fallen.insert(Pivot { x: 0, y: 19 }, 0);
    clear_lines(&mut fallen, &mut score);
    assert_eq!(score, 100);
    assert_eq!(contents(&fallen), vec![(20, 19, 0)]);
}

#[test]
fn clearing_a_full_board_clears_all_twenty_rows() {
    let mut fallen = FallenBlocks::new();
    for y in 0..20 {
        fill_row(&mut fallen, y, 3);
    }
    fallen.insert(Pivot { x: 4, y: -1 }, 2);
    let mut score: u32 = 0;
    clear_lines(&mut fallen, &mut score);
    assert_eq!(score, 2000);
    assert_eq!(contents(&fallen), vec![(4, -1, 2)]);
}
