use vstd::prelude::*;

use crate::number::Number;

verus! {

/// How many entries of a table are set.
pub open spec fn count_true(s: Seq<bool>) -> int
    decreases s.len(),
{
    if s.len() == 0 {
        0
    } else {
        count_true(s.drop_last()) + if s.last() {
            1int
        } else {
            0int
        }
    }
}

pub proof fn lemma_count_true_bounds(s: Seq<bool>)
    ensures
        0 <= count_true(s) <= s.len(),
    decreases s.len(),
{
    if s.len() > 0 {
        lemma_count_true_bounds(s.drop_last());
    }
}

pub proof fn lemma_count_true_all(s: Seq<bool>)
    requires
        forall|i: int| 0 <= i < s.len() ==> s[i],
    ensures
        count_true(s) == s.len(),
    decreases s.len(),
{
    if s.len() > 0 {
        lemma_count_true_all(s.drop_last());
    }
}

/// The set of digits still legal for an empty cell, stored as one flag per
/// digit.
#[derive(Debug, Clone, Copy)]
pub struct Superposition {
    present: [bool; 9],
}

impl Superposition {
    /// Whether digit `d` is still a candidate.
    pub closed spec fn has(self, d: int) -> bool {
        1 <= d <= 9 && self.present@[d - 1]
    }

    /// The number of candidates left.
    pub closed spec fn count(self) -> int {
        count_true(self.present@)
    }

    pub fn contains(&self, number: Number) -> (r: bool)
        ensures
            r == self.has(number.val()),
    {
        let i = number.index();
        self.present[i]
    }

    /// Delete `number` from the candidates; reports whether it was present.
    pub fn remove(&mut self, number: Number) -> (r: bool)
        ensures
            r == old(self).has(number.val()),
            forall|d: int| final(self).has(d) <==> old(self).has(d) && d != number.val(),
    {
        let i = number.index();
        if self.present[i] {
            self.present[i] = false;
            true
        } else {
            false
        }
    }

    /// The size of the candidate set.
    pub fn superposition_number(&self) -> (r: usize)
        ensures
            r == self.count(),
    {
        let mut acc: usize = 0;
        let mut i: usize = 0;
        while i < 9
            invariant
                i <= 9,
                acc == count_true(self.present@.take(i as int)),
                acc <= i,
            decreases 9 - i,
        {
            proof {
                assert(self.present@.take(i + 1).drop_last() =~= self.present@.take(i as int));
            }
            if self.present[i] {
                acc = acc + 1;
            }
            i = i + 1;
        }
        proof {
            assert(self.present@.take(9) =~= self.present@);
        }
        acc
    }

    /// The candidates, every one of them, in ascending order.
    pub fn candidates(&self) -> (r: Vec<Number>)
        ensures
            r@.len() == self.count(),
            forall|k: int| 0 <= k < r@.len() ==> self.has((#[trigger] r@[k]).val()),
            forall|k1: int, k2: int|
                0 <= k1 < k2 < r@.len() ==> r@[k1].val() < r@[k2].val(),
            forall|d: int| self.has(d) ==> exists|k: int| 0 <= k < r@.len() && r@[k].val() == d,
    {
        let mut r: Vec<Number> = Vec::new();
        let mut i: usize = 0;
        while i < 9
            invariant
                i <= 9,
                r@.len() == count_true(self.present@.take(i as int)),
                forall|k: int| 0 <= k < r@.len() ==> self.has((#[trigger] r@[k]).val()),
                forall|k: int| 0 <= k < r@.len() ==> (#[trigger] r@[k]).val() <= i,
                forall|k1: int, k2: int|
                    0 <= k1 < k2 < r@.len() ==> r@[k1].val() < r@[k2].val(),
                forall|d: int|
                    1 <= d <= i && self.has(d) ==> exists|k: int|
                        0 <= k < r@.len() && (#[trigger] r@[k]).val() == d,
            decreases 9 - i,
        {
            proof {
                assert(self.present@.take(i + 1).drop_last() =~= self.present@.take(i as int));
            }
            let ghost r_prev = r@;
            if self.present[i] {
                r.push(Number::from_index(i));
            }
            i = i + 1;
            proof {
                assert forall|d: int| 1 <= d <= i && self.has(d) implies exists|k: int|
                    0 <= k < r@.len() && (#[trigger] r@[k]).val() == d by {
                    if d < i {
                        let k = choose|k: int|
                            0 <= k < r_prev.len() && (#[trigger] r_prev[k]).val() == d;
                        assert(r@[k].val() == d);
                    } else {
                        assert(r@[r@.len() - 1].val() == d);
                    }
                }
            }
        }
        proof {
            assert(self.present@.take(9) =~= self.present@);
        }
        r
    }

    /// Pick a candidate at random; `None` exactly when the set is empty.
    pub fn collapse_random(&self) -> (r: Option<Number>)
        ensures
            (r is Some) == (self.count() > 0),
            r matches Some(n) ==> self.has(n.val()),
    {
        let options = self.candidates();
        proof {
            lemma_count_true_bounds(self.present@);
        }
        if options.len() == 0 {
            None
        } else {
            let k = crate::rng::random_below(options.len());
            Some(options[k])
        }
    }

    /// A candidate set never holds more than the nine digits.
    pub proof fn lemma_count_bounds(self)
        ensures
            0 <= self.count() <= 9,
    {
        lemma_count_true_bounds(self.present@);
    }

    /// Candidate sets with the same members are the same value.
    pub proof fn lemma_ext(a: Superposition, b: Superposition)
        requires
            forall|d: int| 1 <= d <= 9 ==> a.has(d) == b.has(d),
        ensures
            a == b,
    {
        assert forall|i: int| 0 <= i < 9 implies a.present@[i] == b.present@[i] by {
            assert(a.has(i + 1) == b.has(i + 1));
        }
        assert(a.present =~= b.present);
    }
}

impl Default for Superposition {
    /// The full candidate set, all nine digits.
    fn default() -> (r: Self)
        ensures
            forall|d: int| r.has(d) <==> 1 <= d <= 9,
            r.count() == 9,
    {
        let present: [bool; 9] = [true; 9];
        proof {
            lemma_count_true_all(present@);
        }
        Superposition { present }
    }
}

} // verus!
