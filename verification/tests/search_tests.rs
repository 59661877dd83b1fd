use tilematch::board::{State, Unit};
use tilematch::search::step;

fn board_with(tiles: &[(usize, u8, u8)]) -> State {
    let mut units = vec![Unit::vacant(); 120];
    for &(pos, point, kind) in tiles {
        units[pos] = Unit::new(point, kind);
    }
    State::from_units(units).unwrap()
}

#[test]
fn a_solved_board_returns_the_accumulated_score() {
    let board = board_with(&[]);
    assert_eq!(step(&board, 0, 0, 1000), 0);
    assert_eq!(step(&board, 17, 0, 1000), 17);
    assert_eq!(step(&board, 17, 3, 1000), 17);
}

#[test]
fn a_reached_turn_bound_returns_the_accumulated_score() {
    let board = board_with(&[(0, 4, 2), (1, 4, 2)]);
    assert_eq!(step(&board, 17, 5, 5), 17);
    assert_eq!(step(&board, 17, 9, 5), 17);
}

#[test]
fn a_single_pair_scores_its_rank_on_a_maximizing_turn() {
    let board = board_with(&[(0, 3, 0), (1, 3, 0)]);
    assert_eq!(step(&board, 0, 0, 1000), 3);
}

#[test]
fn a_single_pair_scores_nothing_on_a_minimizing_turn() {
    let board = board_with(&[(0, 3, 0), (1, 3, 0)]);
    assert_eq!(step(&board, 5, 1, 1000), 5);
}

#[test]
fn the_maximizer_takes_the_higher_of_two_pairs() {
    // Two disjoint free pairs of ranks 2 and 9. Taking the 9-pair banks 9;
    // the minimizer then removes the 2-pair without banking. Taking the
    // 2-pair banks only 2. The optimum is 9.
    let board = board_with(&[(0, 2, 0), (1, 2, 0), (8, 9, 0), (9, 9, 0)]);
    assert_eq!(step(&board, 0, 0, 1000), 9);
}

#[test]
fn the_minimizer_steers_toward_the_lower_pair() {
    // Same two pairs, but the minimizer moves first: whichever pair it
    // removes, the maximizer banks the other. It leaves the 2-pair.
    let board = board_with(&[(0, 2, 0), (1, 2, 0), (8, 9, 0), (9, 9, 0)]);
    assert_eq!(step(&board, 5, 1, 1000), 7);
}

#[test]
fn a_bound_of_one_caps_the_search_to_a_single_ply() {
    // With bound 1 every child is terminal: the value is the best single
    // removal from the start position.
    let board = board_with(&[(0, 2, 0), (1, 2, 0), (8, 9, 0), (9, 9, 0)]);
    assert_eq!(step(&board, 0, 0, 1), 9);
}

#[test]
fn suit_does_not_affect_the_score() {
    let a = board_with(&[(0, 6, 0), (1, 6, 0)]);
    let b = board_with(&[(0, 6, 2), (1, 6, 2)]);
    assert_eq!(step(&a, 0, 0, 1000), step(&b, 0, 0, 1000));
    assert_eq!(step(&a, 0, 0, 1000), 6);
}
