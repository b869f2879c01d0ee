use superdoku::{Number, Square, Superposition};

#[test]
fn square_displays_correctly() {
    let square_displays: Vec<_> = vec![
        Square::Starting(Number::One),
        Square::Starting(Number::Two),
        Square::Starting(Number::Three),
        Square::Starting(Number::Four),
        Square::Starting(Number::Five),
        Square::Starting(Number::Six),
        Square::Starting(Number::Seven),
        Square::Starting(Number::Eight),
        Square::Starting(Number::Nine),
        Square::PlayerMove(Number::One),
        Square::PlayerMove(Number::Two),
        Square::PlayerMove(Number::Three),
        Square::PlayerMove(Number::Four),
        Square::PlayerMove(Number::Five),
        Square::PlayerMove(Number::Six),
        Square::PlayerMove(Number::Seven),
        Square::PlayerMove(Number::Eight),
        Square::PlayerMove(Number::Nine),
        Square::default(),
        {
            // Square with only one superposition option
            let mut superposition = Superposition::default();
            for number in &Number::all()[0..8] {
                superposition.remove(*number);
            }
            Square::Incomplete(superposition)
        },
        {
            // Square with no possible options
            let mut superposition = Superposition::default();
            for number in Number::all() {
                superposition.remove(number);
            }
            Square::Incomplete(superposition)
        },
    ]
    .into_iter()
    .map(|square| square.render())
    .collect();

    let correct_displays = vec![
        "1", "2", "3", "4", "5", "6", "7", "8", "9", "1", "2", "3", "4", "5", "6", "7", "8",
        "9", "?", "!", "0",
    ];

    assert_eq!(correct_displays, square_displays);
}

#[test]
fn superposition_counts_and_membership() {
    let mut sp = Superposition::default();
    assert_eq!(9, sp.superposition_number());
    assert!(sp.contains(Number::Four));

    assert!(sp.remove(Number::Four));
    assert_eq!(8, sp.superposition_number());
    assert!(!sp.contains(Number::Four));

    // removing again reports absence
    assert!(!sp.remove(Number::Four));
    assert_eq!(8, sp.superposition_number());
}

#[test]
fn superposition_candidates_are_ascending() {
    let mut sp = Superposition::default();
    sp.remove(Number::Two);
    sp.remove(Number::Seven);
    let left: Vec<Number> = sp.candidates();
    assert_eq!(
        vec![
            Number::One,
            Number::Three,
            Number::Four,
            Number::Five,
            Number::Six,
            Number::Eight,
            Number::Nine
        ],
        left
    );
}

#[test]
fn collapse_random_is_forced_with_one_candidate() {
    let mut sp = Superposition::default();
    for number in &Number::all()[0..8] {
        sp.remove(*number);
    }
    // only Nine is left, so the random choice is forced
    assert_eq!(Some(Number::Nine), sp.collapse_random());
    assert_eq!(1, sp.superposition_number());
}

#[test]
fn collapse_random_fails_on_empty_set() {
    let mut sp = Superposition::default();
    for number in Number::all() {
        sp.remove(number);
    }
    assert_eq!(None, sp.collapse_random());
}

#[test]
fn square_transitions_follow_the_table() {
    // a commit needs the digit among the candidates
    let mut sq = Square::default();
    assert!(sq.try_move(Number::Five));
    assert_eq!(Some(Number::Five), sq.collapsed_number());
    assert_eq!(None, sq.superposition_number());

    // committed cells reject further commits and removals
    assert!(!sq.try_move(Number::Six));
    assert!(!sq.try_set(Number::Six));
    assert!(!sq.remove(Number::Five));
    assert_eq!(None, sq.try_random_move());

    // only the matching undo applies
    assert!(!sq.try_undo_set());
    assert!(sq.try_undo_move());
    assert_eq!(None, sq.collapsed_number());
    assert_eq!(Some(9), sq.superposition_number());

    let mut clue = Square::default();
    assert!(clue.try_set(Number::One));
    assert!(!clue.try_undo_move());
    assert!(clue.try_undo_set());

    // a digit outside the candidates is rejected
    let mut narrowed = Square::default();
    narrowed.remove(Number::Three);
    assert!(!narrowed.try_move(Number::Three));
    assert!(narrowed.try_move(Number::Two));
}
