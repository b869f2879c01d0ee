use vstd::prelude::*;

use crate::number::Number;
use crate::superposition::Superposition;

verus! {

/// One cell of the grid: either still a set of candidate digits, or collapsed
/// to a single digit, placed either during play or as a starting clue.
#[derive(Debug, Clone, Copy)]
pub enum Square {
    Incomplete(Superposition),
    PlayerMove(Number),
    Starting(Number),
}

impl Square {
    /// The digit the cell is committed to, if any.
    pub open spec fn committed(self) -> Option<Number> {
        match self {
            Square::Incomplete(_) => None,
            Square::PlayerMove(n) => Some(n),
            Square::Starting(n) => Some(n),
        }
    }

    /// Whether the cell is committed to the digit value `d`.
    pub open spec fn commits(self, d: int) -> bool {
        match self {
            Square::Incomplete(_) => false,
            Square::PlayerMove(n) => n.val() == d,
            Square::Starting(n) => n.val() == d,
        }
    }

    /// Whether the digit value `d` is still a candidate for the cell.
    pub open spec fn has(self, d: int) -> bool {
        match self {
            Square::Incomplete(sp) => sp.has(d),
            Square::PlayerMove(_) => false,
            Square::Starting(_) => false,
        }
    }

    /// The candidate count of an open cell; zero on a committed one.
    pub open spec fn open_count(self) -> int {
        match self {
            Square::Incomplete(sp) => sp.count(),
            Square::PlayerMove(_) => 0,
            Square::Starting(_) => 0,
        }
    }

    /// An open cell never has more than nine candidates.
    pub proof fn lemma_open_count_bounds(self)
        ensures
            0 <= self.open_count() <= 9,
    {
        match self {
            Square::Incomplete(sp) => sp.lemma_count_bounds(),
            Square::PlayerMove(_) => {},
            Square::Starting(_) => {},
        }
    }

    /// Same variant, and the same digit where committed; says nothing about
    /// candidates.
    pub open spec fn same_status(self, other: Square) -> bool {
        match (self, other) {
            (Square::Incomplete(_), Square::Incomplete(_)) => true,
            (Square::PlayerMove(a), Square::PlayerMove(b)) => a == b,
            (Square::Starting(a), Square::Starting(b)) => a == b,
            _ => false,
        }
    }

    /// Cells that agree on variant, committed digit and candidates are the
    /// same value.
    pub proof fn lemma_ext(a: Square, b: Square)
        requires
            a.same_status(b),
            forall|d: int| 1 <= d <= 9 ==> a.has(d) == b.has(d),
        ensures
            a == b,
    {
        match (a, b) {
            (Square::Incomplete(x), Square::Incomplete(y)) => {
                assert forall|d: int| 1 <= d <= 9 implies x.has(d) == y.has(d) by {
                    assert(a.has(d) == b.has(d));
                }
                Superposition::lemma_ext(x, y);
            },
            _ => {},
        }
    }

    pub fn collapsed_number(&self) -> (r: Option<Number>)
        ensures
            r == self.committed(),
    {
        match self {
            Square::Incomplete(_) => None,
            Square::PlayerMove(n) => Some(*n),
            Square::Starting(n) => Some(*n),
        }
    }

    /// Delete `number` from an open cell's candidates; a committed cell is
    /// untouched.
    pub fn remove(&mut self, number: Number) -> (r: bool)
        ensures
            r == old(self).has(number.val()),
            final(self).same_status(*old(self)),
            forall|d: int| final(self).has(d) <==> old(self).has(d) && d != number.val(),
    {
        match self {
            Square::Incomplete(sp) => sp.remove(number),
            Square::PlayerMove(_) => false,
            Square::Starting(_) => false,
        }
    }

    /// The candidate count, or `None` on a committed cell.
    pub fn superposition_number(&self) -> (r: Option<usize>)
        ensures
            (r is Some) == (*self is Incomplete),
            r matches Some(c) ==> c == self.open_count(),
    {
        match self {
            Square::Incomplete(sp) => Some(sp.superposition_number()),
            Square::PlayerMove(_) => None,
            Square::Starting(_) => None,
        }
    }

    /// Commit an open cell to `number` as a play, if it is a candidate.
    pub fn try_move(&mut self, number: Number) -> (r: bool)
        ensures
            r == old(self).has(number.val()),
            r ==> *final(self) == Square::PlayerMove(number),
            !r ==> *final(self) == *old(self),
    {
        let ok = match self {
            Square::Incomplete(sp) => sp.contains(number),
            Square::PlayerMove(_) => false,
            Square::Starting(_) => false,
        };
        if ok {
            *self = Square::PlayerMove(number);
            true
        } else {
            false
        }
    }

    /// Commit an open cell to `number` as a starting clue, if it is a
    /// candidate.
    pub fn try_set(&mut self, number: Number) -> (r: bool)
        ensures
            r == old(self).has(number.val()),
            r ==> *final(self) == Square::Starting(number),
            !r ==> *final(self) == *old(self),
    {
        let ok = match self {
            Square::Incomplete(sp) => sp.contains(number),
            Square::PlayerMove(_) => false,
            Square::Starting(_) => false,
        };
        if ok {
            *self = Square::Starting(number);
            true
        } else {
            false
        }
    }

    /// Commit an open cell to a random candidate as a play.
    pub fn try_random_move(&mut self) -> (r: Option<Number>)
        ensures
            (r is Some) == (*old(self) is Incomplete && old(self).open_count() > 0),
            r matches Some(n) ==> old(self).has(n.val()) && *final(self) == Square::PlayerMove(n),
            r is None ==> *final(self) == *old(self),
    {
        let picked = match self {
            Square::Incomplete(sp) => sp.collapse_random(),
            Square::PlayerMove(_) => None,
            Square::Starting(_) => None,
        };
        match picked {
            Some(number) => {
                *self = Square::PlayerMove(number);
                Some(number)
            },
            None => None,
        }
    }

    /// Commit an open cell to a random candidate as a starting clue.
    pub fn try_random_set(&mut self) -> (r: Option<Number>)
        ensures
            (r is Some) == (*old(self) is Incomplete && old(self).open_count() > 0),
            r matches Some(n) ==> old(self).has(n.val()) && *final(self) == Square::Starting(n),
            r is None ==> *final(self) == *old(self),
    {
        let picked = match self {
            Square::Incomplete(sp) => sp.collapse_random(),
            Square::PlayerMove(_) => None,
            Square::Starting(_) => None,
        };
        match picked {
            Some(number) => {
                *self = Square::Starting(number);
                Some(number)
            },
            None => None,
        }
    }

    /// Reopen a played cell with the full candidate set; the board is in
    /// charge of subtracting the digits of committed peers afterwards.
    pub fn try_undo_move(&mut self) -> (r: bool)
        ensures
            r == (*old(self) is PlayerMove),
            r ==> *final(self) is Incomplete,
            r ==> forall|d: int| final(self).has(d) <==> 1 <= d <= 9,
            r ==> final(self).open_count() == 9,
            !r ==> *final(self) == *old(self),
    {
        match self {
            Square::PlayerMove(_) => {
                *self = Square::Incomplete(Superposition::default());
                true
            },
            Square::Incomplete(_) => false,
            Square::Starting(_) => false,
        }
    }

    /// Reopen a starting clue with the full candidate set.
    pub fn try_undo_set(&mut self) -> (r: bool)
        ensures
            r == (*old(self) is Starting),
            r ==> *final(self) is Incomplete,
            r ==> forall|d: int| final(self).has(d) <==> 1 <= d <= 9,
            r ==> final(self).open_count() == 9,
            !r ==> *final(self) == *old(self),
    {
        match self {
            Square::Starting(_) => {
                *self = Square::Incomplete(Superposition::default());
                true
            },
            Square::Incomplete(_) => false,
            Square::PlayerMove(_) => false,
        }
    }

    /// The cell's one-character rendering: the digit where committed; for an
    /// open cell `'0'` with no candidates left, `'!'` with exactly one, `'?'`
    /// otherwise.
    pub open spec fn glyph(self) -> char {
        match self {
            Square::Incomplete(sp) => if sp.count() == 0 {
                '0'
            } else if sp.count() == 1 {
                '!'
            } else {
                '?'
            },
            Square::PlayerMove(n) => n.spec_char(),
            Square::Starting(n) => n.spec_char(),
        }
    }

    pub fn render(&self) -> (r: &'static str)
        ensures
            r@ == seq![self.glyph()],
    {
        match self {
            Square::Incomplete(sp) => {
                let c = sp.superposition_number();
                if c == 0 {
                    proof {
                        reveal_strlit("0");
                        assert("0"@ =~= seq![self.glyph()]);
                    }
                    "0"
                } else if c == 1 {
                    proof {
                        reveal_strlit("!");
                        assert("!"@ =~= seq![self.glyph()]);
                    }
                    "!"
                } else {
                    proof {
                        reveal_strlit("?");
                        assert("?"@ =~= seq![self.glyph()]);
                    }
                    "?"
                }
            },
            Square::PlayerMove(n) => n.char_str(),
            Square::Starting(n) => n.char_str(),
        }
    }
}

impl Default for Square {
    /// An open cell with the full candidate set.
    fn default() -> (r: Self)
        ensures
            r is Incomplete,
            forall|d: int| r.has(d) <==> 1 <= d <= 9,
            r.open_count() == 9,
    {
        Square::Incomplete(Superposition::default())
    }
}

} // verus!
