use coop_tetris::game::{BlockQueueType, BAG_SIZE, NUM_BAGS};
use coop_tetris::{next_piece, peek_next_pieces};

fn standard_queue() -> BlockQueueType {
    [[0, 1, 2, 3, 4, 5, 6, 0, 1, 2, 3, 4, 5, 6]; NUM_BAGS]
}

/// A queue whose every position holds a different number: bag `b`, place `i`
/// holds `14 * b + i`.
fn numbered_queue() -> BlockQueueType {
    let mut q = [[0u8; BAG_SIZE]; NUM_BAGS];
    for b in 0..NUM_BAGS {
        for i in 0..BAG_SIZE {
            q[b][i] = (b * BAG_SIZE + i) as u8;
        }
    }
    q
}

fn sorted(bag: [u8; BAG_SIZE]) -> Vec<u8> {
    let mut v = bag.to_vec();
    v.sort();
    v
}

#[test]
#[allow(unused_comparisons)]
fn test_next_piece() {
    let mut queue = standard_queue();
    let mut index: usize = 0;
    assert!(next_piece(&mut queue, &mut index) >= 0);
    assert!(next_piece(&mut queue, &mut index) <= 7);
}

#[test]
fn next_piece_deals_in_order_and_moves_on() {
    let mut queue = numbered_queue();
    let mut index: usize = 0;
    for expected in 0..5u8 {
        assert_eq!(next_piece(&mut queue, &mut index), expected);
        assert_eq!(index, expected as usize + 1);
    }
    assert_eq!(queue, numbered_queue());
}

#[test]
fn next_piece_wraps_round_the_queue() {
    let mut queue = numbered_queue();
    let mut index: usize = 41;
    assert_eq!(next_piece(&mut queue, &mut index), 41);
    assert_eq!(index, 0);
    // the last bag was used up: it is shuffled, the others stay as they were
    assert_eq!(sorted(queue[2]), sorted(numbered_queue()[2]));
    assert_eq!(queue[0], numbered_queue()[0]);
    assert_eq!(queue[1], numbered_queue()[1]);
}

#[test]
fn emptied_bag_is_shuffled() {
    let mut queue = numbered_queue();
    let mut index: usize = 13;
    assert_eq!(next_piece(&mut queue, &mut index), 13);
    assert_eq!(index, 14);
    // the bag keeps its pieces ...
    assert_eq!(sorted(queue[0]), sorted(numbered_queue()[0]));
    // ... in a new order (all 14! orders are equally likely)
    assert_ne!(queue[0], numbered_queue()[0]);
    assert_eq!(queue[1], numbered_queue()[1]);
    assert_eq!(queue[2], numbered_queue()[2]);
}

#[test]
fn peek_lists_the_next_fourteen_pieces() {
    let queue = numbered_queue();
    assert_eq!(peek_next_pieces(&queue, 0), (0..14u8).collect::<Vec<u8>>());
    assert_eq!(peek_next_pieces(&queue, 5), (5..19u8).collect::<Vec<u8>>());
    let mut wrapped: Vec<u8> = vec![40, 41];
    wrapped.extend(0..12u8);
    assert_eq!(peek_next_pieces(&queue, 40), wrapped);
}

#[test]
fn peek_leaves_the_queue_alone() {
    let queue = standard_queue();
    let peeked = peek_next_pieces(&queue, 7);
    assert_eq!(peeked, vec![0, 1, 2, 3, 4, 5, 6, 0, 1, 2, 3, 4, 5, 6]);
    assert_eq!(queue, standard_queue());
}

#[test]
fn next_piece_deals_the_first_peeked_piece() {
    let mut queue = numbered_queue();
    let mut index: usize = 20;
    let before = peek_next_pieces(&queue, index);
    let dealt = next_piece(&mut queue, &mut index);
    assert_eq!(dealt, before[0]);
    let after = peek_next_pieces(&queue, index);
    assert_eq!(after[..13], before[1..]);
}

#[test]
fn dealing_a_whole_round_gives_every_piece_of_every_bag() {
    let mut queue = standard_queue();
    let mut index: usize = 0;
    let mut counts = [0usize; 7];
    for _ in 0..(BAG_SIZE * NUM_BAGS) {
        let piece = next_piece(&mut queue, &mut index);
        counts[piece as usize] += 1;
    }
    assert_eq!(index, 0);
    assert_eq!(counts, [6; 7]);
}

#[test]
fn fourteen_deals_give_the_peeked_pieces() {
    for start in [0usize, 5, 13, 20, 40] {
        let mut queue = standard_queue();
        let mut index: usize = start;
        let peeked = peek_next_pieces(&queue, index);
        let dealt: Vec<u8> = (0..BAG_SIZE).map(|_| next_piece(&mut queue, &mut index)).collect();
        assert_eq!(dealt, peeked, "from position {}", start);
    }
}
