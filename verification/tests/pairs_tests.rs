use tilematch::board::{State, Unit};

fn board_with(tiles: &[(usize, u8, u8)]) -> State {
    let mut units = vec![Unit::vacant(); 120];
    for &(pos, point, kind) in tiles {
        units[pos] = Unit::new(point, kind);
    }
    State::from_units(units).unwrap()
}

#[test]
fn every_returned_pair_is_free_and_matching() {
    // A mix of identities, some blocked, some free.
    let board = board_with(&[
        (0, 5, 1),
        (9, 5, 1),
        (20, 3, 0),
        (29, 3, 0),
        (55, 7, 2),
        (15, 7, 2),
        (95, 1, 0),
        (52, 1, 0),
        (58, 2, 0),
    ]);
    let pairs = board.find_pair();
    assert!(!pairs.is_empty());
    for &(a, b) in &pairs {
        assert!(a < b && b < 120);
        assert!(board.is_unit_free(a as u8));
        assert!(board.is_unit_free(b as u8));
        assert_eq!(board.at(a), board.at(b));
        assert!(board.at(a) != Unit::vacant());
    }
}

#[test]
fn a_free_singleton_yields_no_pair() {
    let board = board_with(&[(0, 5, 1)]);
    assert!(board.find_pair().is_empty());
}

#[test]
fn two_free_copies_yield_one_pair() {
    let board = board_with(&[(0, 5, 1), (9, 5, 1)]);
    assert_eq!(board.find_pair(), vec![(0, 9)]);
}

#[test]
fn three_free_copies_yield_three_pairs() {
    let board = board_with(&[(0, 5, 1), (4, 5, 1), (9, 5, 1)]);
    assert_eq!(board.find_pair(), vec![(0, 4), (0, 9), (4, 9)]);
}

#[test]
fn four_free_copies_yield_six_pairs() {
    let board = board_with(&[(0, 5, 1), (3, 5, 1), (6, 5, 1), (9, 5, 1)]);
    assert_eq!(
        board.find_pair(),
        vec![(0, 3), (0, 6), (0, 9), (3, 6), (3, 9), (6, 9)]
    );
}

#[test]
fn a_blocked_copy_joins_no_pair() {
    // Three copies, one of them surrounded: only the free two pair up.
    let board = board_with(&[
        (0, 5, 1),
        (9, 5, 1),
        (55, 5, 1),
        (15, 1, 0),
        (95, 2, 0),
        (52, 3, 0),
        (58, 4, 0),
    ]);
    let pairs = board.find_pair();
    assert!(pairs.contains(&(0, 9)));
    for &(a, b) in &pairs {
        assert!(a != 55 && b != 55);
    }
}

#[test]
fn an_empty_board_yields_no_pair() {
    let board = State::from_units(vec![Unit::vacant(); 120]).unwrap();
    assert!(board.find_pair().is_empty());
}

#[test]
fn one_matching_pair_on_the_top_boundary() {
    // Exactly one matching pair at positions 0 and 1, both on row 0 and
    // hence free; all other 118 slots vacant.
    let mut board = board_with(&[(0, 4, 2), (1, 4, 2)]);
    assert_eq!(board.find_pair(), vec![(0, 1)]);
    assert_eq!(board.remove_pair((0, 1)), Ok(4));
    for pos in 0..120 {
        assert_eq!(board.at(pos), Unit::vacant());
    }
}

#[test]
fn removing_one_of_six_pairs_leaves_one() {
    // Four free copies of one identity: six candidates; removing any one
    // pair leaves two copies and exactly one candidate.
    let mut board = board_with(&[(0, 9, 1), (3, 9, 1), (6, 9, 1), (9, 9, 1)]);
    let pairs = board.find_pair();
    assert_eq!(pairs.len(), 6);
    assert_eq!(board.remove_pair(pairs[0]), Ok(9));
    let rest = board.find_pair();
    assert_eq!(rest, vec![(6, 9)]);
}

#[test]
fn pairs_come_in_identity_order_then_position_order() {
    let board = board_with(&[(0, 2, 0), (5, 2, 0), (9, 1, 1), (19, 1, 1)]);
    // Identity (1, 1) precedes (2, 0) in rank-major order.
    assert_eq!(board.find_pair(), vec![(9, 19), (0, 5)]);
}
