use coop_tetris::{get_shape, read_block};

/// The squares of a shape in one rotation, row by row.
fn squares(shape: u8, rot: u8) -> Vec<(i8, i8)> {
    let piece = get_shape(shape);
    let width: i8 = if piece.len() == 9 { 3 } else { 4 };
    let mut out = Vec::new();
    for y in 0..width {
        for x in 0..width {
            if read_block(piece, x, y, rot) {
                out.push((x, y));
            }
        }
    }
    out
}

#[test]
fn shapes_have_their_matrices() {
    assert_eq!(get_shape(0), &[true, true, false, false, true, true, false, false, false]);
    assert_eq!(get_shape(1), &[false, true, true, true, true, false, false, false, false]);
    assert_eq!(get_shape(2), &[true, false, false, true, true, true, false, false, false]);
    assert_eq!(get_shape(3), &[false, false, true, true, true, true, false, false, false]);
    assert_eq!(get_shape(4), &[false, true, false, true, true, true, false, false, false]);
    assert_eq!(get_shape(5).len(), 16);
    assert_eq!(get_shape(6).len(), 16);
    assert_eq!(squares(5, 0), vec![(0, 1), (1, 1), (2, 1), (3, 1)]);
    assert_eq!(squares(6, 0), vec![(1, 1), (2, 1), (1, 2), (2, 2)]);
}

#[test]
fn every_shape_has_four_blocks_in_every_rotation() {
    for shape in 0..7u8 {
        for rot in 0..4u8 {
            assert_eq!(squares(shape, rot).len(), 4, "shape {} rotation {}", shape, rot);
        }
    }
}

#[test]
fn read_block_turns_the_t_piece() {
    // pointing up
    assert_eq!(squares(4, 0), vec![(1, 0), (0, 1), (1, 1), (2, 1)]);
    // turned clockwise: pointing right
    assert_eq!(squares(4, 1), vec![(1, 0), (1, 1), (2, 1), (1, 2)]);
    // upside down: pointing down
    assert_eq!(squares(4, 2), vec![(0, 1), (1, 1), (2, 1), (1, 2)]);
    // turned counter-clockwise: pointing left
    assert_eq!(squares(4, 3), vec![(1, 0), (0, 1), (1, 1), (1, 2)]);
}

#[test]
fn read_block_turns_the_i_piece_on_end() {
    assert_eq!(squares(5, 1), vec![(2, 0), (2, 1), (2, 2), (2, 3)]);
    assert_eq!(squares(5, 2), vec![(0, 2), (1, 2), (2, 2), (3, 2)]);
    assert_eq!(squares(5, 3), vec![(1, 0), (1, 1), (1, 2), (1, 3)]);
}

#[test]
fn read_block_outside_the_matrix_is_empty() {
    let z = get_shape(0);
    assert!(read_block(z, 0, 0, 0));
    assert!(!read_block(z, 3, 0, 0));
    assert!(!read_block(z, 0, 3, 0));
    assert!(!read_block(z, -1, 0, 0));
    assert!(!read_block(z, 0, -1, 0));
    let i = get_shape(5);
    assert!(read_block(i, 3, 1, 0));
    assert!(!read_block(i, 4, 1, 0));
}

#[test]
fn read_block_with_an_unknown_rotation_is_empty() {
    let z = get_shape(0);
    for rot in 4..10u8 {
        for y in 0..3 {
            for x in 0..3 {
                assert!(!read_block(z, x, y, rot));
            }
        }
    }
}
