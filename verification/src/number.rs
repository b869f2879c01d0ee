use vstd::prelude::*;

verus! {

/// One of the nine Sudoku digits.
#[derive(Clone, Copy, Debug, PartialEq, Eq, Structural)]
pub enum Number {
    One,
    Two,
    Three,
    Four,
    Five,
    Six,
    Seven,
    Eight,
    Nine,
}

impl Number {
    /// The digit as a mathematical value, in 1..=9.
    pub open spec fn val(self) -> int {
        match self {
            Number::One => 1,
            Number::Two => 2,
            Number::Three => 3,
            Number::Four => 4,
            Number::Five => 5,
            Number::Six => 6,
            Number::Seven => 7,
            Number::Eight => 8,
            Number::Nine => 9,
        }
    }

    /// Zero-based position of the digit, for table lookups.
    pub fn index(self) -> (r: usize)
        ensures
            r == self.val() - 1,
    {
        match self {
            Number::One => 0,
            Number::Two => 1,
            Number::Three => 2,
            Number::Four => 3,
            Number::Five => 4,
            Number::Six => 5,
            Number::Seven => 6,
            Number::Eight => 7,
            Number::Nine => 8,
        }
    }

    /// The digit at a zero-based position.
    pub fn from_index(i: usize) -> (r: Number)
        requires
            i < 9,
        ensures
            r.val() == i + 1,
    {
        if i == 0 {
            Number::One
        } else if i == 1 {
            Number::Two
        } else if i == 2 {
            Number::Three
        } else if i == 3 {
            Number::Four
        } else if i == 4 {
            Number::Five
        } else if i == 5 {
            Number::Six
        } else if i == 6 {
            Number::Seven
        } else if i == 7 {
            Number::Eight
        } else {
            Number::Nine
        }
    }

    /// All nine digits in ascending order.
    pub fn all() -> (r: Vec<Number>)
        ensures
            r@.len() == 9,
            forall|i: int| 0 <= i < 9 ==> (#[trigger] r@[i]).val() == i + 1,
    {
        let mut r: Vec<Number> = Vec::new();
        let mut i: usize = 0;
        while i < 9
            invariant
                i <= 9,
                r@.len() == i,
                forall|k: int| 0 <= k < i ==> (#[trigger] r@[k]).val() == k + 1,
            decreases 9 - i,
        {
            r.push(Number::from_index(i));
            i = i + 1;
        }
        r
    }

    /// The digit's printable form, `'1'` through `'9'`.
    pub open spec fn spec_char(self) -> char {
        match self {
            Number::One => '1',
            Number::Two => '2',
            Number::Three => '3',
            Number::Four => '4',
            Number::Five => '5',
            Number::Six => '6',
            Number::Seven => '7',
            Number::Eight => '8',
            Number::Nine => '9',
        }
    }

    /// The digit as a one-character string.
    pub fn char_str(self) -> (r: &'static str)
        ensures
            r@ == seq![self.spec_char()],
    {
        match self {
            Number::One => {
                proof {
                    reveal_strlit("1");
                    assert("1"@ =~= seq!['1']);
                }
                "1"
            },
            Number::Two => {
                proof {
                    reveal_strlit("2");
                    assert("2"@ =~= seq!['2']);
                }
                "2"
            },
            Number::Three => {
                proof {
                    reveal_strlit("3");
                    assert("3"@ =~= seq!['3']);
                }
                "3"
            },
            Number::Four => {
                proof {
                    reveal_strlit("4");
                    assert("4"@ =~= seq!['4']);
                }
                "4"
            },
            Number::Five => {
                proof {
                    reveal_strlit("5");
                    assert("5"@ =~= seq!['5']);
                }
                "5"
            },
            Number::Six => {
                proof {
                    reveal_strlit("6");
                    assert("6"@ =~= seq!['6']);
                }
                "6"
            },
            Number::Seven => {
                proof {
                    reveal_strlit("7");
                    assert("7"@ =~= seq!['7']);
                }
                "7"
            },
            Number::Eight => {
                proof {
                    reveal_strlit("8");
                    assert("8"@ =~= seq!['8']);
                }
                "8"
            },
            Number::Nine => {
                proof {
                    reveal_strlit("9");
                    assert("9"@ =~= seq!['9']);
                }
                "9"
            },
        }
    }
}

} // verus!
