use superdoku::{Board, Number};

fn number_of(v: usize) -> Number {
    match v {
        1 => Number::One,
        2 => Number::Two,
        3 => Number::Three,
        4 => Number::Four,
        5 => Number::Five,
        6 => Number::Six,
        7 => Number::Seven,
        8 => Number::Eight,
        9 => Number::Nine,
        _ => panic!("not a digit"),
    }
}

/// A complete valid grid: cell (r, c) holds (r * 3 + r / 3 + c) % 9 + 1.
fn solved_board() -> Board {
    let mut board = Board::default();
    for r in 0..9 {
        for c in 0..9 {
            let digit = (r * 3 + r / 3 + c) % 9 + 1;
            assert!(board.try_move(number_of(digit), (r, c)));
        }
    }
    board
}

#[test]
fn conflicting_digit_is_rejected_at_peers() {
    let mut board = Board::default();
    assert!(board.try_move(Number::One, (0, 0)));
    // same row
    assert!(!board.try_move(Number::One, (0, 5)));
    // same column
    assert!(!board.try_move(Number::One, (5, 0)));
    // same box
    assert!(!board.try_move(Number::One, (1, 1)));
    // no peer relation
    assert!(board.try_move(Number::One, (3, 3)));
}

#[test]
fn commit_affects_exactly_the_peers() {
    let mut board = Board::default();
    assert!(board.try_move(Number::Five, (0, 2)));
    for q in Board::find_neighbor_locations((0, 2)) {
        // the digit is gone from every peer's candidates
        let mut copy = board;
        assert!(!copy.try_move(Number::Five, q));
    }
    for r in 0..9 {
        for c in 0..9 {
            if (r, c) != (0, 2) && !Board::find_neighbor_locations((0, 2)).contains(&(r, c)) {
                // cells out of reach still accept the digit
                let mut copy = board;
                assert!(copy.try_move(Number::Five, (r, c)));
            }
        }
    }
}

#[test]
fn undo_restores_the_default_board() {
    let mut board = Board::default();
    let blank = board.render();
    assert!(board.try_move(Number::Five, (0, 2)));
    assert!(board.try_undo_move((0, 2)));
    assert_eq!(blank, board.render());
    // the undone move can be made again
    assert!(board.try_move(Number::Five, (0, 2)));
}

#[test]
fn undo_is_gated_by_provenance() {
    let mut board = Board::default();
    assert!(board.try_set(Number::Seven, (2, 3)));
    assert!(board.try_move(Number::Four, (6, 6)));

    // the wrong undo is a no-op
    assert!(!board.try_undo_move((2, 3)));
    assert!(!board.try_undo_set((6, 6)));
    // undoing an open cell is a no-op
    assert!(!board.try_undo_move((8, 8)));
    assert!(!board.try_undo_set((8, 8)));

    assert!(board.try_undo_set((2, 3)));
    assert!(board.try_undo_move((6, 6)));
    assert_eq!(Board::default().render(), board.render());
}

#[test]
fn undo_restores_candidates_held_by_other_peers() {
    let mut board = Board::default();
    // two commits whose peer sets overlap at (0, 4)
    assert!(board.try_move(Number::Nine, (0, 0)));
    assert!(board.try_move(Number::Nine, (1, 4)));
    // (0, 4) sees both, so Nine stays barred after undoing only one
    assert!(board.try_undo_move((0, 0)));
    assert!(!board.try_move(Number::Nine, (0, 4)));
    // after the second undo the digit is legal again
    assert!(board.try_undo_move((1, 4)));
    assert!(board.try_move(Number::Nine, (0, 4)));
}

#[test]
fn is_solved_and_reset() {
    let mut board = solved_board();
    assert!(board.is_solved());
    // no open cell is left, so a random move is impossible
    assert_eq!(None, board.try_random_move());
    assert_eq!(None, board.try_random_set());

    assert!(board.try_undo_move((4, 4)));
    assert!(!board.is_solved());
    // the reopened cell has exactly one legal digit again
    assert!(!board.try_move(Number::One, (4, 4)));
    assert!(board.try_move(number_of((4 * 3 + 4 / 3 + 4) % 9 + 1), (4, 4)));
    assert!(board.is_solved());

    board.reset();
    assert!(!board.is_solved());
    assert_eq!(Board::default().render(), board.render());
}

#[test]
fn random_move_plays_a_legal_digit() {
    let mut board = Board::default();
    let (number, location) = board.try_random_move().expect("a fresh board has moves");
    // the cell is now committed: the same move cannot happen again
    assert!(!board.try_move(number, location));
    // its peers no longer accept the digit
    for q in Board::find_neighbor_locations(location) {
        let mut copy = board;
        assert!(!copy.try_move(number, q));
    }
}

#[test]
fn random_set_places_a_starting_clue() {
    let mut board = Board::default();
    let (_, location) = board.try_random_set().expect("a fresh board has clues");
    // the clue is undoable only as a clue
    assert!(!board.try_undo_move(location));
    assert!(board.try_undo_set(location));
    assert_eq!(Board::default().render(), board.render());
}

#[test]
fn random_move_fails_on_a_dead_board() {
    let mut board = Board::default();
    // empty the candidates of (0, 0) by committing its whole row elsewhere
    // and its whole column, leaving (0, 0) open with nothing legal
    for c in 1..9 {
        assert!(board.try_move(number_of(c), (0, c)));
    }
    assert!(board.try_move(Number::Nine, (5, 0)));
    // (0, 0) is open but has no candidates: the board is dead
    assert!(!board.try_move(Number::Nine, (0, 0)));
    assert_eq!(None, board.try_random_move());
    // seeding a clue is still possible elsewhere
    assert!(board.try_random_set().is_some());
}
