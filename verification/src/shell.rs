use vstd::prelude::*;

use crate::number::Number;

verus! {

/// The board coordinate named by one byte of shell input: an ASCII digit
/// `1`..`9` (a rank) or an upper-case letter `A`..`I` (a file).
pub open spec fn spec_parse_coordinate(b: u8) -> Option<usize> {
    if 49 <= b <= 57 {
        Some((b - 49) as usize)
    } else if 65 <= b <= 73 {
        Some((b - 65) as usize)
    } else {
        None
    }
}

pub fn parse_coordinate(coordinate: u8) -> (r: Option<usize>)
    ensures
        r == spec_parse_coordinate(coordinate),
{
    if 49 <= coordinate && coordinate <= 57 {
        Some((coordinate - 49) as usize)
    } else if 65 <= coordinate && coordinate <= 73 {
        Some((coordinate - 65) as usize)
    } else {
        None
    }
}

/// The same reading, over a character of the input.
pub open spec fn spec_coord_char(c: char) -> Option<usize> {
    if ('1' as u32) <= (c as u32) && (c as u32) <= ('9' as u32) {
        Some(((c as u32) - ('1' as u32)) as usize)
    } else if ('A' as u32) <= (c as u32) && (c as u32) <= ('I' as u32) {
        Some(((c as u32) - ('A' as u32)) as usize)
    } else {
        None
    }
}

fn coord_char(c: char) -> (r: Option<usize>)
    ensures
        r == spec_coord_char(c),
{
    let v = c as u32;
    if 49 <= v && v <= 57 {
        Some((v - 49) as usize)
    } else if 65 <= v && v <= 73 {
        Some((v - 65) as usize)
    } else {
        None
    }
}

pub open spec fn spec_is_ascii_digit(c: char) -> bool {
    ('0' as u32) <= (c as u32) && (c as u32) <= ('9' as u32)
}

fn is_ascii_digit_char(c: char) -> (r: bool)
    ensures
        r == spec_is_ascii_digit(c),
{
    let v = c as u32;
    48 <= v && v <= 57
}

/// A two-character location token, one digit and one upper-case letter in
/// either order, read as `(row, column)`.
pub open spec fn spec_parse_location(s: Seq<char>) -> Option<(usize, usize)> {
    if s.len() != 2 {
        None
    } else {
        let d0 = spec_is_ascii_digit(s[0]);
        let d1 = spec_is_ascii_digit(s[1]);
        if d0 && !d1 {
            match (spec_coord_char(s[0]), spec_coord_char(s[1])) {
                (Some(a), Some(b)) => Some((a, b)),
                _ => None,
            }
        } else if !d0 && d1 {
            match (spec_coord_char(s[1]), spec_coord_char(s[0])) {
                (Some(a), Some(b)) => Some((a, b)),
                _ => None,
            }
        } else {
            None
        }
    }
}

pub fn parse_location(location: &str) -> (r: Option<(usize, usize)>)
    ensures
        r == spec_parse_location(location@),
{
    let n = location.unicode_len();
    if n != 2 {
        return None;
    }
    let c0 = location.get_char(0);
    let c1 = location.get_char(1);
    let d0 = is_ascii_digit_char(c0);
    let d1 = is_ascii_digit_char(c1);
    if d0 && !d1 {
        match (coord_char(c0), coord_char(c1)) {
            (Some(a), Some(b)) => Some((a, b)),
            _ => None,
        }
    } else if !d0 && d1 {
        match (coord_char(c1), coord_char(c0)) {
            (Some(a), Some(b)) => Some((a, b)),
            _ => None,
        }
    } else {
        None
    }
}

/// A one-character digit token.
pub open spec fn spec_parse_number(s: Seq<char>) -> Option<Number> {
    if s.len() != 1 {
        None
    } else if s[0] == '1' {
        Some(Number::One)
    } else if s[0] == '2' {
        Some(Number::Two)
    } else if s[0] == '3' {
        Some(Number::Three)
    } else if s[0] == '4' {
        Some(Number::Four)
    } else if s[0] == '5' {
        Some(Number::Five)
    } else if s[0] == '6' {
        Some(Number::Six)
    } else if s[0] == '7' {
        Some(Number::Seven)
    } else if s[0] == '8' {
        Some(Number::Eight)
    } else if s[0] == '9' {
        Some(Number::Nine)
    } else {
        None
    }
}

pub fn parse_number(number: &str) -> (r: Option<Number>)
    ensures
        r == spec_parse_number(number@),
{
    if number.unicode_len() != 1 {
        return None;
    }
    let c = number.get_char(0);
    if c == '1' {
        Some(Number::One)
    } else if c == '2' {
        Some(Number::Two)
    } else if c == '3' {
        Some(Number::Three)
    } else if c == '4' {
        Some(Number::Four)
    } else if c == '5' {
        Some(Number::Five)
    } else if c == '6' {
        Some(Number::Six)
    } else if c == '7' {
        Some(Number::Seven)
    } else if c == '8' {
        Some(Number::Eight)
    } else if c == '9' {
        Some(Number::Nine)
    } else {
        None
    }
}

/// ASCII whitespace, as the shell strips it around tokens.
pub open spec fn is_space_char(c: char) -> bool {
    c == ' ' || c == '\t' || c == '\n' || c == '\r'
}

fn is_space(c: char) -> (r: bool)
    ensures
        r == is_space_char(c),
{
    c == ' ' || c == '\t' || c == '\n' || c == '\r'
}

/// The input without its leading whitespace.
pub open spec fn spec_trim_start(s: Seq<char>) -> Seq<char>
    decreases s.len(),
{
    if s.len() > 0 && is_space_char(s[0]) {
        spec_trim_start(s.drop_first())
    } else {
        s
    }
}

/// The input without its trailing whitespace.
pub open spec fn spec_trim_end(s: Seq<char>) -> Seq<char>
    decreases s.len(),
{
    if s.len() > 0 && is_space_char(s.last()) {
        spec_trim_end(s.drop_last())
    } else {
        s
    }
}

/// The input without leading or trailing whitespace.
pub open spec fn spec_trim(s: Seq<char>) -> Seq<char> {
    spec_trim_end(spec_trim_start(s))
}

fn trim_start<'a>(s: &'a str) -> (r: &'a str)
    ensures
        r@ == spec_trim_start(s@),
    decreases s@.len(),
{
    let n = s.unicode_len();
    if n > 0 && is_space(s.get_char(0)) {
        let rest = s.substring_char(1, n);
        proof {
            assert(rest@ =~= s@.drop_first());
        }
        trim_start(rest)
    } else {
        s
    }
}

fn trim_end<'a>(s: &'a str) -> (r: &'a str)
    ensures
        r@ == spec_trim_end(s@),
    decreases s@.len(),
{
    let n = s.unicode_len();
    if n > 0 && is_space(s.get_char(n - 1)) {
        let rest = s.substring_char(0, n - 1);
        proof {
            assert(rest@ =~= s@.drop_last());
        }
        trim_end(rest)
    } else {
        s
    }
}

fn trim<'a>(s: &'a str) -> (r: &'a str)
    ensures
        r@ == spec_trim(s@),
{
    trim_end(trim_start(s))
}

/// How many times `ch` occurs in `s`.
pub open spec fn count_char(s: Seq<char>, ch: char) -> int
    decreases s.len(),
{
    if s.len() == 0 {
        0
    } else {
        count_char(s.drop_last(), ch) + if s.last() == ch {
            1int
        } else {
            0int
        }
    }
}

proof fn lemma_count_char_two(s: Seq<char>, ch: char, i: int, j: int)
    requires
        0 <= i < j < s.len(),
        s[i] == ch,
        s[j] == ch,
    ensures
        count_char(s, ch) >= 2,
    decreases s.len(),
{
    if j + 1 < s.len() {
        lemma_count_char_two(s.drop_last(), ch, i, j);
    } else {
        lemma_count_char_positive(s.drop_last(), ch, i);
    }
}

proof fn lemma_count_char_positive(s: Seq<char>, ch: char, i: int)
    requires
        0 <= i < s.len(),
        s[i] == ch,
    ensures
        count_char(s, ch) >= 1,
    decreases s.len(),
{
    if i + 1 < s.len() {
        lemma_count_char_positive(s.drop_last(), ch, i);
    } else {
        lemma_count_char_nonneg(s.drop_last(), ch);
    }
}

proof fn lemma_count_char_nonneg(s: Seq<char>, ch: char)
    ensures
        count_char(s, ch) >= 0,
    decreases s.len(),
{
    if s.len() > 0 {
        lemma_count_char_nonneg(s.drop_last(), ch);
    }
}

/// The index of the first space, if any, and the number of spaces.
fn first_space_and_count(s: &str) -> (r: (usize, usize))
    ensures
        r.1 == count_char(s@, ' '),
        r.1 > 0 ==> r.0 < s@.len() && s@[r.0 as int] == ' ',
        r.1 == 0 ==> r.0 == s@.len(),
{
    let n = s.unicode_len();
    let mut count: usize = 0;
    let mut first: usize = n;
    let mut i: usize = 0;
    while i < n
        invariant
            i <= n,
            n == s@.len(),
            count == count_char(s@.take(i as int), ' '),
            count <= i,
            count > 0 ==> first < i && s@[first as int] == ' ',
            count == 0 ==> first == n,
        decreases n - i,
    {
        proof {
            assert(s@.take(i + 1).drop_last() =~= s@.take(i as int));
        }
        if s.get_char(i) == ' ' {
            if count == 0 {
                first = i;
            }
            count = count + 1;
        }
        i = i + 1;
    }
    proof {
        assert(s@.take(n as int) =~= s@);
    }
    (first, count)
}

/// The two fields of an input holding exactly one space.
pub open spec fn spec_split_space(s: Seq<char>) -> Option<(Seq<char>, Seq<char>)> {
    if count_char(s, ' ') == 1 {
        let i = choose|i: int| 0 <= i < s.len() && s[i] == ' ';
        Some((s.subrange(0, i), s.subrange(i + 1, s.len() as int)))
    } else {
        None
    }
}

/// The outcome of the start menu.
#[derive(Debug, Clone, Copy, PartialEq, Eq, Structural)]
pub enum Choice {
    StartGame,
    Quit,
}

/// The outcome of the start prompt.
#[derive(Debug, Clone, Copy, PartialEq, Eq, Structural)]
pub enum StartChoice {
    StartGame,
    Quit,
}

impl StartChoice {
    /// The reading of an upper-cased answer to the start prompt: an empty
    /// line, `Y` or `YES` starts a game, `N` or `NO` quits.
    pub open spec fn spec_parse(s: Seq<char>) -> Option<StartChoice> {
        if s.len() == 0 || s == seq!['Y'] || s == seq!['Y', 'E', 'S'] {
            Some(StartChoice::StartGame)
        } else if s == seq!['N'] || s == seq!['N', 'O'] {
            Some(StartChoice::Quit)
        } else {
            None
        }
    }

    pub fn parse(choice: &str) -> (r: Option<StartChoice>)
        ensures
            r == Self::spec_parse(choice@),
    {
        let n = choice.unicode_len();
        if n == 0 {
            return Some(StartChoice::StartGame);
        }
        if n == 1 {
            let c = choice.get_char(0);
            if c == 'Y' {
                proof {
                    assert(choice@ =~= seq!['Y']);
                }
                return Some(StartChoice::StartGame);
            }
            if c == 'N' {
                proof {
                    assert(choice@ =~= seq!['N']);
                }
                return Some(StartChoice::Quit);
            }
            return None;
        }
        if n == 2 && choice.get_char(0) == 'N' && choice.get_char(1) == 'O' {
            proof {
                assert(choice@ =~= seq!['N', 'O']);
            }
            return Some(StartChoice::Quit);
        }
        if n == 3 && choice.get_char(0) == 'Y' && choice.get_char(1) == 'E' && choice.get_char(2)
            == 'S' {
            proof {
                assert(choice@ =~= seq!['Y', 'E', 'S']);
            }
            return Some(StartChoice::StartGame);
        }
        None
    }
}

/// A player's command during the game.
#[derive(Debug, Clone, Copy, PartialEq, Eq)]
pub enum GameChoice {
    Move(Number, (usize, usize)),
    MoveRandom,
    Undo((usize, usize)),
    End,
}

impl GameChoice {
    /// The reading of the fields of a move command: a digit, one space, a
    /// location.
    pub open spec fn spec_parse_move(s: Seq<char>) -> Option<GameChoice> {
        match spec_split_space(s) {
            Some(parts) => match (spec_parse_number(parts.0), spec_parse_location(parts.1)) {
                (Some(n), Some(l)) => Some(GameChoice::Move(n, l)),
                _ => None,
            },
            None => None,
        }
    }

    pub fn parse_move(choice: &str) -> (r: Option<GameChoice>)
        ensures
            r == Self::spec_parse_move(choice@),
    {
        let (first, count) = first_space_and_count(choice);
        if count != 1 {
            return None;
        }
        let n = choice.unicode_len();
        proof {
            let j = choose|j: int| 0 <= j < choice@.len() && choice@[j] == ' ';
            if j < first as int {
                lemma_count_char_two(choice@, ' ', j, first as int);
            } else if j > first as int {
                lemma_count_char_two(choice@, ' ', first as int, j);
            }
        }
        let num = choice.substring_char(0, first);
        let loc = choice.substring_char(first + 1, n);
        match (parse_number(num), parse_location(loc)) {
            (Some(n2), Some(l)) => Some(GameChoice::Move(n2, l)),
            _ => None,
        }
    }

    /// The reading of the field of an undo command: a location alone.
    pub open spec fn spec_parse_undo(s: Seq<char>) -> Option<GameChoice> {
        if count_char(s, ' ') == 0 {
            match spec_parse_location(s) {
                Some(l) => Some(GameChoice::Undo(l)),
                None => None,
            }
        } else {
            None
        }
    }

    pub fn parse_undo(choice: &str) -> (r: Option<GameChoice>)
        ensures
            r == Self::spec_parse_undo(choice@),
    {
        let (_, count) = first_space_and_count(choice);
        if count != 0 {
            return None;
        }
        match parse_location(choice) {
            Some(l) => Some(GameChoice::Undo(l)),
            None => None,
        }
    }

    /// The reading of a whole upper-cased game command: `R` moves at random,
    /// `Q` ends the game, `M digit location` is a move, `U location` an undo.
    pub open spec fn spec_parse(s: Seq<char>) -> Option<GameChoice> {
        if s == seq!['R'] {
            Some(GameChoice::MoveRandom)
        } else if s == seq!['Q'] {
            Some(GameChoice::End)
        } else if s.len() >= 1 && s[0] == 'M' {
            Self::spec_parse_move(spec_trim(s.subrange(1, s.len() as int)))
        } else if s.len() >= 1 && s[0] == 'U' {
            Self::spec_parse_undo(spec_trim(s.subrange(1, s.len() as int)))
        } else {
            None
        }
    }

    pub fn parse(choice: &str) -> (r: Option<GameChoice>)
        ensures
            r == Self::spec_parse(choice@),
    {
        let n = choice.unicode_len();
        if n == 1 && choice.get_char(0) == 'R' {
            proof {
                assert(choice@ =~= seq!['R']);
            }
            return Some(GameChoice::MoveRandom);
        }
        if n == 1 && choice.get_char(0) == 'Q' {
            proof {
                assert(choice@ =~= seq!['Q']);
            }
            return Some(GameChoice::End);
        }
        if n >= 1 {
            let c0 = choice.get_char(0);
            if c0 == 'M' {
                let rest = trim(choice.substring_char(1, n));
                return Self::parse_move(rest);
            }
            if c0 == 'U' {
                let rest = trim(choice.substring_char(1, n));
                return Self::parse_undo(rest);
            }
        }
        None
    }
}

/// A player's command while seeding the starting clues.
#[derive(Debug, Clone, Copy, PartialEq, Eq)]
pub enum SetupChoice {
    Place(Number, (usize, usize)),
    SetRandom,
    Undo((usize, usize)),
    Finish,
    End,
}

impl SetupChoice {
    /// The reading of the fields of a set command: a digit, one space, a
    /// location.
    pub open spec fn spec_parse_set(s: Seq<char>) -> Option<SetupChoice> {
        match spec_split_space(s) {
            Some(parts) => match (spec_parse_number(parts.0), spec_parse_location(parts.1)) {
                (Some(n), Some(l)) => Some(SetupChoice::Place(n, l)),
                _ => None,
            },
            None => None,
        }
    }

    pub fn parse_set(choice: &str) -> (r: Option<SetupChoice>)
        ensures
            r == Self::spec_parse_set(choice@),
    {
        let (first, count) = first_space_and_count(choice);
        if count != 1 {
            return None;
        }
        let n = choice.unicode_len();
        proof {
            let j = choose|j: int| 0 <= j < choice@.len() && choice@[j] == ' ';
            if j < first as int {
                lemma_count_char_two(choice@, ' ', j, first as int);
            } else if j > first as int {
                lemma_count_char_two(choice@, ' ', first as int, j);
            }
        }
        let num = choice.substring_char(0, first);
        let loc = choice.substring_char(first + 1, n);
        match (parse_number(num), parse_location(loc)) {
            (Some(n2), Some(l)) => Some(SetupChoice::Place(n2, l)),
            _ => None,
        }
    }

    /// The reading of the field of an undo command: a location alone.
    pub open spec fn spec_parse_undo(s: Seq<char>) -> Option<SetupChoice> {
        if count_char(s, ' ') == 0 {
            match spec_parse_location(s) {
                Some(l) => Some(SetupChoice::Undo(l)),
                None => None,
            }
        } else {
            None
        }
    }

    pub fn parse_undo(choice: &str) -> (r: Option<SetupChoice>)
        ensures
            r == Self::spec_parse_undo(choice@),
    {
        let (_, count) = first_space_and_count(choice);
        if count != 0 {
            return None;
        }
        match parse_location(choice) {
            Some(l) => Some(SetupChoice::Undo(l)),
            None => None,
        }
    }

    /// The reading of a whole upper-cased setup command: `R` seeds at random,
    /// `F` finishes seeding, `Q` ends the game, `S digit location` places a
    /// clue, `U location` removes one.
    pub open spec fn spec_parse(s: Seq<char>) -> Option<SetupChoice> {
        if s == seq!['R'] {
            Some(SetupChoice::SetRandom)
        } else if s == seq!['F'] {
            Some(SetupChoice::Finish)
        } else if s == seq!['Q'] {
            Some(SetupChoice::End)
        } else if s.len() >= 1 && s[0] == 'S' {
            Self::spec_parse_set(spec_trim(s.subrange(1, s.len() as int)))
        } else if s.len() >= 1 && s[0] == 'U' {
            Self::spec_parse_undo(spec_trim(s.subrange(1, s.len() as int)))
        } else {
            None
        }
    }

    pub fn parse(choice: &str) -> (r: Option<SetupChoice>)
        ensures
            r == Self::spec_parse(choice@),
    {
        let n = choice.unicode_len();
        if n == 1 && choice.get_char(0) == 'R' {
            proof {
                assert(choice@ =~= seq!['R']);
            }
            return Some(SetupChoice::SetRandom);
        }
        if n == 1 && choice.get_char(0) == 'F' {
            proof {
                assert(choice@ =~= seq!['F']);
            }
            return Some(SetupChoice::Finish);
        }
        if n == 1 && choice.get_char(0) == 'Q' {
            proof {
                assert(choice@ =~= seq!['Q']);
            }
            return Some(SetupChoice::End);
        }
        if n >= 1 {
            let c0 = choice.get_char(0);
            if c0 == 'S' {
                let rest = trim(choice.substring_char(1, n));
                return Self::parse_set(rest);
            }
            if c0 == 'U' {
                let rest = trim(choice.substring_char(1, n));
                return Self::parse_undo(rest);
            }
        }
        None
    }
}

/// The file letter of a column index.
pub open spec fn file_char(c: int) -> char {
    if c == 0 {
        'a'
    } else if c == 1 {
        'b'
    } else if c == 2 {
        'c'
    } else if c == 3 {
        'd'
    } else if c == 4 {
        'e'
    } else if c == 5 {
        'f'
    } else if c == 6 {
        'g'
    } else if c == 7 {
        'h'
    } else {
        'i'
    }
}

/// The rank digit of a row index.
pub open spec fn rank_char(r: int) -> char {
    if r == 0 {
        '1'
    } else if r == 1 {
        '2'
    } else if r == 2 {
        '3'
    } else if r == 3 {
        '4'
    } else if r == 4 {
        '5'
    } else if r == 5 {
        '6'
    } else if r == 6 {
        '7'
    } else if r == 7 {
        '8'
    } else {
        '9'
    }
}

fn file_str(c: usize) -> (r: &'static str)
    requires
        c < 9,
    ensures
        r@ == seq![file_char(c as int)],
{
    if c == 0 {
        proof {
            reveal_strlit("a");
            assert("a"@ =~= seq!['a']);
        }
        "a"
    } else if c == 1 {
        proof {
            reveal_strlit("b");
            assert("b"@ =~= seq!['b']);
        }
        "b"
    } else if c == 2 {
        proof {
            reveal_strlit("c");
            assert("c"@ =~= seq!['c']);
        }
        "c"
    } else if c == 3 {
        proof {
            reveal_strlit("d");
            assert("d"@ =~= seq!['d']);
        }
        "d"
    } else if c == 4 {
        proof {
            reveal_strlit("e");
            assert("e"@ =~= seq!['e']);
        }
        "e"
    } else if c == 5 {
        proof {
            reveal_strlit("f");
            assert("f"@ =~= seq!['f']);
        }
        "f"
    } else if c == 6 {
        proof {
            reveal_strlit("g");
            assert("g"@ =~= seq!['g']);
        }
        "g"
    } else if c == 7 {
        proof {
            reveal_strlit("h");
            assert("h"@ =~= seq!['h']);
        }
        "h"
    } else {
        proof {
            reveal_strlit("i");
            assert("i"@ =~= seq!['i']);
        }
        "i"
    }
}

fn rank_str(r: usize) -> (out: &'static str)
    requires
        r < 9,
    ensures
        out@ == seq![rank_char(r as int)],
{
    if r == 0 {
        proof {
            reveal_strlit("1");
            assert("1"@ =~= seq!['1']);
        }
        "1"
    } else if r == 1 {
        proof {
            reveal_strlit("2");
            assert("2"@ =~= seq!['2']);
        }
        "2"
    } else if r == 2 {
        proof {
            reveal_strlit("3");
            assert("3"@ =~= seq!['3']);
        }
        "3"
    } else if r == 3 {
        proof {
            reveal_strlit("4");
            assert("4"@ =~= seq!['4']);
        }
        "4"
    } else if r == 4 {
        proof {
            reveal_strlit("5");
            assert("5"@ =~= seq!['5']);
        }
        "5"
    } else if r == 5 {
        proof {
            reveal_strlit("6");
            assert("6"@ =~= seq!['6']);
        }
        "6"
    } else if r == 6 {
        proof {
            reveal_strlit("7");
            assert("7"@ =~= seq!['7']);
        }
        "7"
    } else if r == 7 {
        proof {
            reveal_strlit("8");
            assert("8"@ =~= seq!['8']);
        }
        "8"
    } else {
        proof {
            reveal_strlit("9");
            assert("9"@ =~= seq!['9']);
        }
        "9"
    }
}

/// The two-character name of a board location, file letter then rank digit:
/// `(0, 2)` is `c1`.
pub fn location_to_string(location: (usize, usize)) -> (r: String)
    requires
        location.0 < 9,
        location.1 < 9,
    ensures
        r@ == seq![file_char(location.1 as int), rank_char(location.0 as int)],
{
    let mut out = String::from_str(file_str(location.1));
    out.append(rank_str(location.0));
    proof {
        assert(out@ =~= seq![file_char(location.1 as int), rank_char(location.0 as int)]);
    }
    out
}

/// The command-line options of the program.
#[derive(Debug, Clone, Copy)]
pub struct Args {
    /// Whether to run the terminal interface.
    pub cli: bool,
}

} // verus!
