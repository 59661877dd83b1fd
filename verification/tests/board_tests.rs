use tilematch::board::{PairError, State, Unit};

fn vacant_units() -> Vec<Unit> {
    vec![Unit::vacant(); 120]
}

fn board_with(tiles: &[(usize, u8, u8)]) -> State {
    let mut units = vacant_units();
    for &(pos, point, kind) in tiles {
        units[pos] = Unit::new(point, kind);
    }
    State::from_units(units).unwrap()
}

#[test]
fn from_units_accepts_a_full_well_formed_board() {
    assert!(State::from_units(vacant_units()).is_some());
}

#[test]
fn from_units_rejects_a_short_board() {
    let units = vec![Unit::vacant(); 119];
    assert!(State::from_units(units).is_none());
}

#[test]
fn from_units_rejects_a_malformed_identity() {
    let mut units = vacant_units();
    units[3] = Unit::new(11, 0);
    assert!(State::from_units(units).is_none());
    let mut units = vacant_units();
    units[3] = Unit::new(2, 3);
    assert!(State::from_units(units).is_none());
}

#[test]
fn edge_tiles_are_always_free() {
    // A tile on row 0, row 11, column 0 or column 9 is free even when the
    // rest of its row and column is fully occupied.
    let mut tiles = Vec::new();
    for pos in 0..120 {
        tiles.push((pos, 4u8, 1u8));
    }
    let board = board_with(&tiles);
    for pos in 0..120u8 {
        let row = pos / 10;
        let col = pos % 10;
        if row == 0 || row == 11 || col == 0 || col == 9 {
            assert!(board.is_unit_free(pos));
        } else {
            assert!(!board.is_unit_free(pos));
        }
    }
}

#[test]
fn a_surrounded_tile_is_not_free() {
    // Position 55 = (row 5, col 5); one blocker on each of the four lines.
    let board = board_with(&[
        (55, 7, 0),
        (15, 1, 0),
        (95, 2, 0),
        (52, 3, 0),
        (58, 4, 0),
    ]);
    assert!(!board.is_unit_free(55));
    // Each blocker still has a clear line of its own.
    assert!(board.is_unit_free(15));
    assert!(board.is_unit_free(95));
    assert!(board.is_unit_free(52));
    assert!(board.is_unit_free(58));
}

#[test]
fn a_tile_behind_vacant_slots_is_free() {
    // Only tile on its row and column: every direction is clear.
    let board = board_with(&[(55, 7, 0)]);
    assert!(board.is_unit_free(55));
}

#[test]
fn find_free_returns_only_occupied_positions_in_order() {
    let board = board_with(&[(55, 7, 0), (15, 1, 0), (95, 2, 0), (52, 3, 0), (58, 4, 0)]);
    let free = board.find_free();
    assert_eq!(free, vec![15, 52, 58, 95]);
    for &p in &free {
        let u = board.at(p);
        assert!(!(u.point == 0 && u.kind == 0));
    }
}

#[test]
fn remove_pair_rejects_differing_identities_and_leaves_the_board() {
    let mut board = board_with(&[(0, 2, 0), (1, 3, 0)]);
    let r = board.remove_pair((0, 1));
    assert_eq!(r, Err(PairError::InvalidPair));
    assert_eq!(board.at(0), Unit::new(2, 0));
    assert_eq!(board.at(1), Unit::new(3, 0));
}

#[test]
fn remove_pair_rejects_vacant_positions() {
    let mut board = board_with(&[(0, 2, 0), (1, 2, 0)]);
    assert_eq!(board.remove_pair((4, 5)), Err(PairError::InvalidPair));
    assert_eq!(board.at(0), Unit::new(2, 0));
    assert_eq!(board.at(1), Unit::new(2, 0));
}

#[test]
fn remove_pair_rejects_out_of_range_positions() {
    let mut board = board_with(&[(0, 2, 0), (1, 2, 0)]);
    assert_eq!(board.remove_pair((0, 200)), Err(PairError::InvalidPair));
    assert_eq!(board.remove_pair((200, 0)), Err(PairError::InvalidPair));
    assert_eq!(board.at(0), Unit::new(2, 0));
}

#[test]
fn remove_pair_vacates_both_slots_and_returns_the_rank() {
    let mut board = board_with(&[(7, 9, 2), (83, 9, 2)]);
    let r = board.remove_pair((7, 83));
    assert_eq!(r, Ok(9));
    assert_eq!(board.at(7), Unit::vacant());
    assert_eq!(board.at(83), Unit::vacant());
}

#[test]
fn init_board_has_four_copies_of_each_identity() {
    let board = State::init();
    let mut total = 0;
    for point in 1..=10u8 {
        for kind in 0..3u8 {
            let mut count = 0;
            for pos in 0..120 {
                if board.at(pos) == Unit::new(point, kind) {
                    count += 1;
                }
            }
            assert_eq!(count, 4);
            total += count;
        }
    }
    assert_eq!(total, 120);
    for pos in 0..120 {
        assert!(board.at(pos) != Unit::vacant());
    }
}
