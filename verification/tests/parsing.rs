use superdoku::{
    location_to_string, parse_coordinate, parse_location, parse_number, GameChoice, Number,
    SetupChoice, StartChoice,
};

#[test]
fn coordinates_parse_from_digits_and_letters() {
    assert_eq!(Some(0), parse_coordinate(b'1'));
    assert_eq!(Some(4), parse_coordinate(b'5'));
    assert_eq!(Some(8), parse_coordinate(b'9'));
    assert_eq!(Some(0), parse_coordinate(b'A'));
    assert_eq!(Some(8), parse_coordinate(b'I'));
    assert_eq!(None, parse_coordinate(b'0'));
    assert_eq!(None, parse_coordinate(b'J'));
    assert_eq!(None, parse_coordinate(b'a'));
}

#[test]
fn locations_parse_in_either_order() {
    assert_eq!(Some((0, 0)), parse_location("A1"));
    assert_eq!(Some((0, 0)), parse_location("1A"));
    assert_eq!(Some((4, 4)), parse_location("5E"));
    assert_eq!(Some((8, 2)), parse_location("C9"));
    assert_eq!(None, parse_location("11"));
    assert_eq!(None, parse_location("AA"));
    assert_eq!(None, parse_location("A10"));
    assert_eq!(None, parse_location(""));
    // lower case is the shell's concern; raw lower case does not parse
    assert_eq!(None, parse_location("a1"));
}

#[test]
fn numbers_parse_from_single_digits() {
    assert_eq!(Some(Number::One), parse_number("1"));
    assert_eq!(Some(Number::Nine), parse_number("9"));
    assert_eq!(None, parse_number("0"));
    assert_eq!(None, parse_number("12"));
    assert_eq!(None, parse_number(""));
    assert_eq!(None, parse_number("x"));
}

#[test]
fn location_names_round_trip() {
    assert_eq!("c1", location_to_string((0, 2)));
    assert_eq!("e5", location_to_string((4, 4)));
    assert_eq!("a1", location_to_string((0, 0)));
    assert_eq!("i9", location_to_string((8, 8)));

    for r in 0..9 {
        for c in 0..9 {
            let name = location_to_string((r, c)).to_uppercase();
            assert_eq!(Some((r, c)), parse_location(&name));
        }
    }
}

#[test]
fn game_commands_parse() {
    assert_eq!(Some(GameChoice::MoveRandom), GameChoice::parse("R"));
    assert_eq!(Some(GameChoice::End), GameChoice::parse("Q"));
    assert_eq!(
        Some(GameChoice::Move(Number::Five, (0, 0))),
        GameChoice::parse("M 5 A1")
    );
    assert_eq!(
        Some(GameChoice::Move(Number::Five, (0, 0))),
        GameChoice::parse("M5 A1")
    );
    assert_eq!(Some(GameChoice::Undo((4, 4))), GameChoice::parse("U E5"));
    assert_eq!(None, GameChoice::parse("M 5  A1"));
    assert_eq!(None, GameChoice::parse("M 55 A1"));
    assert_eq!(None, GameChoice::parse("M"));
    assert_eq!(None, GameChoice::parse("X"));
    assert_eq!(None, GameChoice::parse(""));
}

#[test]
fn setup_commands_parse() {
    assert_eq!(Some(SetupChoice::SetRandom), SetupChoice::parse("R"));
    assert_eq!(Some(SetupChoice::Finish), SetupChoice::parse("F"));
    assert_eq!(Some(SetupChoice::End), SetupChoice::parse("Q"));
    assert_eq!(
        Some(SetupChoice::Place(Number::Three, (1, 1))),
        SetupChoice::parse("S 3 B2")
    );
    assert_eq!(Some(SetupChoice::Undo((1, 1))), SetupChoice::parse("U B2"));
    assert_eq!(None, SetupChoice::parse("S 3"));
    assert_eq!(None, SetupChoice::parse("Z"));
}

#[test]
fn start_answers_parse() {
    assert_eq!(Some(StartChoice::StartGame), StartChoice::parse(""));
    assert_eq!(Some(StartChoice::StartGame), StartChoice::parse("Y"));
    assert_eq!(Some(StartChoice::StartGame), StartChoice::parse("YES"));
    assert_eq!(Some(StartChoice::Quit), StartChoice::parse("N"));
    assert_eq!(Some(StartChoice::Quit), StartChoice::parse("NO"));
    assert_eq!(None, StartChoice::parse("MAYBE"));
}
