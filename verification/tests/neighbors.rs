use superdoku::Board;

use std::collections::HashSet;

fn correct_neighbors_of_e5() -> HashSet<(usize, usize)> {
    HashSet::from([
        (3, 3),
        (3, 4),
        (3, 5),
        (4, 3),
        (4, 5),
        (5, 3),
        (5, 4),
        (5, 5),
        (4, 0),
        (4, 1),
        (4, 2),
        (4, 6),
        (4, 7),
        (4, 8),
        (0, 4),
        (1, 4),
        (2, 4),
        (6, 4),
        (7, 4),
        (8, 4),
    ])
}

#[test]
fn board_find_neighbor_locations_finds_correct_locations() {
    // 5e or e5
    let location = (4, 4);
    let found: HashSet<(usize, usize)> =
        Board::find_neighbor_locations(location).into_iter().collect();

    assert_eq!(correct_neighbors_of_e5(), found);
}

#[test]
fn lib_find_neighbor_locations_finds_correct_locations() {
    // 5e or e5
    let location = (4, 4);
    let found: HashSet<(usize, usize)> =
        Board::find_neighbor_locations(location).into_iter().collect();

    assert_eq!(correct_neighbors_of_e5(), found);
}

#[test]
fn every_cell_has_twenty_distinct_neighbors() {
    for r in 0..9 {
        for c in 0..9 {
            let neighbors = Board::find_neighbor_locations((r, c));
            assert_eq!(20, neighbors.len());
            let set: HashSet<(usize, usize)> = neighbors.iter().copied().collect();
            assert_eq!(20, set.len());
            assert!(!set.contains(&(r, c)));
        }
    }
}
