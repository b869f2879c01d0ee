use vstd::prelude::*;

use crate::number::Number;
use crate::square::Square;

verus! {

broadcast use vstd::seq_lib::lemma_seq_contains_after_push;

/// A row or column index on the 9-by-9 grid.
pub open spec fn valid_loc(r: int, c: int) -> bool {
    0 <= r < 9 && 0 <= c < 9
}

/// Two distinct cells that share a row, a column or a 3-by-3 box. Every cell
/// has exactly twenty peers.
pub open spec fn is_peer(r1: int, c1: int, r2: int, c2: int) -> bool {
    &&& valid_loc(r1, c1)
    &&& valid_loc(r2, c2)
    &&& !(r1 == r2 && c1 == c2)
    &&& (r1 == r2 || c1 == c2 || (r1 / 3 == r2 / 3 && c1 / 3 == c2 / 3))
}

/// The corner coordinate of the 3-by-3 box holding coordinate `x`.
spec fn box_corner(x: int) -> int {
    3 * (x / 3)
}

/// A cell of the same box as `(lr, lc)`, other than `(lr, lc)` itself.
spec fn in_box_peer(lr: int, lc: int, p: (usize, usize)) -> bool {
    let r2 = p.0 as int;
    let c2 = p.1 as int;
    &&& box_corner(lr) <= r2 < box_corner(lr) + 3
    &&& box_corner(lc) <= c2 < box_corner(lc) + 3
    &&& !(r2 == lr && c2 == lc)
}

/// The reading-order position of `p` within the box of `(lr, lc)`.
spec fn box_pos(lr: int, lc: int, p: (usize, usize)) -> int {
    3 * (p.0 as int - box_corner(lr)) + (p.1 as int - box_corner(lc))
}

/// A cell of row `lr` whose column lies outside the box of column `lc`.
spec fn row_peer(lr: int, lc: int, p: (usize, usize)) -> bool {
    let r2 = p.0 as int;
    let c2 = p.1 as int;
    r2 == lr && 0 <= c2 < 9 && c2 / 3 != lc / 3
}

/// A cell of column `lc` whose row lies outside the box of row `lr`.
spec fn col_peer(lr: int, lc: int, p: (usize, usize)) -> bool {
    let r2 = p.0 as int;
    let c2 = p.1 as int;
    c2 == lc && 0 <= r2 < 9 && r2 / 3 != lr / 3
}

/// Whether `(r2, c2)` occurs among the first `k` entries of `s`.
spec fn in_prefix(s: Seq<(usize, usize)>, k: int, r2: int, c2: int) -> bool {
    exists|k2: int| 0 <= k2 < k && s[k2] == (r2 as usize, c2 as usize)
}

/// Some of the first `k` entries of `s` name a cell of `b` committed to `d`.
spec fn prefix_commits(b: Board, s: Seq<(usize, usize)>, k: int, d: int) -> bool {
    exists|k2: int|
        0 <= k2 < k && (#[trigger] b.sq(s[k2].0 as int, s[k2].1 as int)).commits(d)
}

/// How many coordinates below `x` fall in the box with corner `corner`.
spec fn skipped_before(x: int, corner: int) -> int {
    if x <= corner {
        0
    } else if x >= corner + 3 {
        3
    } else {
        x - corner
    }
}

/// The 9-by-9 grid of cells, row-major, row 0 at the bottom of the display.
#[derive(Debug, Clone, Copy)]
pub struct Board {
    squares: [Square; 81],
}

impl Board {
    /// The cell at row `r`, column `c`.
    pub closed spec fn sq(self, r: int, c: int) -> Square {
        self.squares@[r * 9 + c]
    }

    /// Whether the cell at `(r, c)` is still open.
    pub open spec fn open_at(self, r: int, c: int) -> bool {
        self.sq(r, c) is Incomplete
    }

    /// The candidate count of the open cell at `(r, c)`.
    pub open spec fn count_at(self, r: int, c: int) -> int {
        self.sq(r, c).open_count()
    }

    /// Some peer of `(r, c)` is committed to the digit value `d`.
    pub open spec fn peer_commits(self, r: int, c: int, d: int) -> bool {
        exists|r2: int, c2: int|
            is_peer(r, c, r2, c2) && (#[trigger] self.sq(r2, c2)).commits(d)
    }

    /// The candidates of the open cell at `(r, c)` are exactly the digits no
    /// peer is committed to.
    pub open spec fn cell_consistent(self, r: int, c: int) -> bool {
        self.sq(r, c) is Incomplete ==> forall|d: int|
            1 <= d <= 9 ==> ((#[trigger] self.sq(r, c).has(d)) <==> !self.peer_commits(r, c, d))
    }

    /// The board-wide invariant: every open cell's candidate set equals the
    /// digits not committed by any of its twenty peers. Every operation
    /// preserves it.
    pub open spec fn propagated(self) -> bool {
        forall|r: int, c: int| valid_loc(r, c) ==> #[trigger] self.cell_consistent(r, c)
    }

    /// Every cell open with the full candidate set.
    pub open spec fn is_default_state(self) -> bool {
        &&& forall|r: int, c: int| valid_loc(r, c) ==> (#[trigger] self.sq(r, c)) is Incomplete
        &&& forall|r: int, c: int, d: int|
            valid_loc(r, c) && 1 <= d <= 9 ==> #[trigger] self.sq(r, c).has(d)
    }

    /// Boards that agree cell by cell are the same value.
    pub proof fn lemma_ext(a: Board, b: Board)
        requires
            forall|r: int, c: int|
                valid_loc(r, c) ==> (#[trigger] a.sq(r, c)).same_status(b.sq(r, c)),
            forall|r: int, c: int, d: int|
                valid_loc(r, c) && 1 <= d <= 9 ==> ((#[trigger] a.sq(r, c).has(d)) == b.sq(r, c).has(
                d)),
        ensures
            a == b,
    {
        assert forall|i: int| 0 <= i < 81 implies a.squares@[i] == b.squares@[i] by {
            let r = i / 9;
            let c = i % 9;
            assert(i == r * 9 + c);
            assert(a.sq(r, c).same_status(b.sq(r, c)));
            assert forall|d: int| 1 <= d <= 9 implies a.sq(r, c).has(d) == b.sq(r, c).has(d) by {
                assert(a.sq(r, c).has(d) == b.sq(r, c).has(d));
            }
            Square::lemma_ext(a.sq(r, c), b.sq(r, c));
        }
        assert(a.squares =~= b.squares);
    }

    /// Boards whose cells all have the same status agree on which peers
    /// commit which digits.
    pub proof fn lemma_peer_commits_agree(a: Board, b: Board, r: int, c: int, d: int)
        requires
            forall|r2: int, c2: int|
                valid_loc(r2, c2) ==> (#[trigger] a.sq(r2, c2)).same_status(b.sq(r2, c2)),
        ensures
            a.peer_commits(r, c, d) == b.peer_commits(r, c, d),
    {
        if a.peer_commits(r, c, d) {
            let (r2, c2) = choose|r2: int, c2: int|
                is_peer(r, c, r2, c2) && (#[trigger] a.sq(r2, c2)).commits(d);
            assert(b.sq(r2, c2).commits(d));
        }
        if b.peer_commits(r, c, d) {
            let (r2, c2) = choose|r2: int, c2: int|
                is_peer(r, c, r2, c2) && (#[trigger] b.sq(r2, c2)).commits(d);
            assert(a.sq(r2, c2).commits(d));
        }
    }

    fn get(&self, location: (usize, usize)) -> (r: &Square)
        requires
            valid_loc(location.0 as int, location.1 as int),
        ensures
            *r == self.sq(location.0 as int, location.1 as int),
    {
        &self.squares[location.0 * 9 + location.1]
    }

    fn set_sq(&mut self, location: (usize, usize), square: Square)
        requires
            valid_loc(location.0 as int, location.1 as int),
        ensures
            final(self).sq(location.0 as int, location.1 as int) == square,
            forall|r: int, c: int|
                valid_loc(r, c) && !(r == location.0 as int && c == location.1 as int)
                    ==> #[trigger] final(self).sq(r, c) == old(self).sq(r, c),
    {
        self.squares[location.0 * 9 + location.1] = square;
    }

    /// The twenty peers of `location`, in a fixed order: the rest of its box,
    /// then its row-mates outside the box, then its column-mates outside the
    /// box.
    #[verifier::loop_isolation(false)]
    #[verifier::rlimit(60)]
    pub fn find_neighbor_locations(location: (usize, usize)) -> (r: Vec<(usize, usize)>)
        requires
            valid_loc(location.0 as int, location.1 as int),
        ensures
            r@.len() == 20,
            forall|k: int|
                0 <= k < r@.len() ==> is_peer(
                    location.0 as int,
                    location.1 as int,
                    (#[trigger] r@[k]).0 as int,
                    r@[k].1 as int,
                ),
            forall|r2: int, c2: int|
                #[trigger] is_peer(location.0 as int, location.1 as int, r2, c2) ==> r@.contains(
                    (r2 as usize, c2 as usize),
                ),
            forall|k1: int, k2: int| 0 <= k1 < k2 < r@.len() ==> r@[k1] != r@[k2],
    {
        let lr = location.0;
        let lc = location.1;
        let br = (lr / 3) * 3;
        let bc = (lc / 3) * 3;
        let oi = lr - br;
        let oj = lc - bc;
        let mut neighbors: Vec<(usize, usize)> = Vec::new();

        // The other eight cells of the box, in reading order.
        let mut t: usize = 0;
        while t < 9
            invariant
                t <= 9,
                neighbors@.len() == t - (if 3 * (oi as int) + (oj as int) < t {
                    1int
                } else {
                    0int
                }),
                forall|k: int|
                    0 <= k < neighbors@.len() ==> in_box_peer(
                        lr as int,
                        lc as int,
                        #[trigger] neighbors@[k],
                    ) && box_pos(lr as int, lc as int, neighbors@[k]) < t,
                forall|r2: usize, c2: usize|
                    in_box_peer(lr as int, lc as int, (r2, c2)) && box_pos(
                        lr as int,
                        lc as int,
                        (r2, c2),
                    ) < t ==> #[trigger] neighbors@.contains((r2, c2)),
                forall|k1: int, k2: int|
                    0 <= k1 < k2 < neighbors@.len() ==> neighbors@[k1] != neighbors@[k2],
            decreases 9 - t,
        {
            let di = t / 3;
            let dj = t % 3;
            proof {
                assert(t as int == 3 * (di as int) + (dj as int));
            }
            if !(di == oi && dj == oj) {
                neighbors.push((br + di, bc + dj));
            }
            t = t + 1;
        }

        // The six row-mates whose column lies outside the box.
        let mut j: usize = 0;
        while j < 9
            invariant
                j <= 9,
                neighbors@.len() == 8 + j - skipped_before(j as int, bc as int),
                forall|k: int|
                    0 <= k < neighbors@.len() ==> in_box_peer(
                        lr as int,
                        lc as int,
                        #[trigger] neighbors@[k],
                    ) || (row_peer(lr as int, lc as int, neighbors@[k]) && (neighbors@[k].1 as int)
                        < j),
                forall|r2: usize, c2: usize|
                    in_box_peer(lr as int, lc as int, (r2, c2)) ==> #[trigger] neighbors@.contains(
                        (r2, c2),
                    ),
                forall|c2: usize|
                    c2 < j && (c2 as int) / 3 != (lc as int) / 3 ==> #[trigger] neighbors@.contains(
                        (lr, c2),
                    ),
                forall|k1: int, k2: int|
                    0 <= k1 < k2 < neighbors@.len() ==> neighbors@[k1] != neighbors@[k2],
            decreases 9 - j,
        {
            if j / 3 != lc / 3 {
                neighbors.push((lr, j));
            }
            j = j + 1;
        }

        // The six column-mates whose row lies outside the box.
        let mut i: usize = 0;
        while i < 9
            invariant
                i <= 9,
                neighbors@.len() == 14 + i - skipped_before(i as int, br as int),
                forall|k: int|
                    0 <= k < neighbors@.len() ==> in_box_peer(
                        lr as int,
                        lc as int,
                        #[trigger] neighbors@[k],
                    ) || row_peer(lr as int, lc as int, neighbors@[k]) || (col_peer(
                        lr as int,
                        lc as int,
                        neighbors@[k],
                    ) && (neighbors@[k].0 as int) < i),
                forall|r2: usize, c2: usize|
                    in_box_peer(lr as int, lc as int, (r2, c2)) ==> #[trigger] neighbors@.contains(
                        (r2, c2),
                    ),
                forall|c2: usize|
                    c2 < 9 && (c2 as int) / 3 != (lc as int) / 3 ==> #[trigger] neighbors@.contains(
                        (lr, c2),
                    ),
                forall|r2: usize|
                    r2 < i && (r2 as int) / 3 != (lr as int) / 3 ==> #[trigger] neighbors@.contains(
                        (r2, lc),
                    ),
                forall|k1: int, k2: int|
                    0 <= k1 < k2 < neighbors@.len() ==> neighbors@[k1] != neighbors@[k2],
            decreases 9 - i,
        {
            if i / 3 != lr / 3 {
                neighbors.push((i, lc));
            }
            i = i + 1;
        }

        proof {
            assert forall|k: int| 0 <= k < neighbors@.len() implies is_peer(
                lr as int,
                lc as int,
                (#[trigger] neighbors@[k]).0 as int,
                neighbors@[k].1 as int,
            ) by {
                let p = neighbors@[k];
                let r2 = p.0 as int;
                let c2 = p.1 as int;
                if in_box_peer(lr as int, lc as int, p) {
                    assert(r2 / 3 == (lr as int) / 3 && c2 / 3 == (lc as int) / 3);
                }
            }
            assert forall|r2: int, c2: int|
                #[trigger] is_peer(lr as int, lc as int, r2, c2) implies neighbors@.contains(
                (r2 as usize, c2 as usize),
            ) by {
                let lri = lr as int;
                let lci = lc as int;
                let r2u = r2 as usize;
                let c2u = c2 as usize;
                assert(r2u as int == r2 && c2u as int == c2);
                if r2 / 3 == lri / 3 && c2 / 3 == lci / 3 {
                    assert(in_box_peer(lri, lci, (r2u, c2u)));
                    assert(neighbors@.contains((r2u, c2u)));
                } else if r2 == lri {
                    assert(c2 / 3 != lci / 3);
                    assert(neighbors@.contains((lr, c2u)));
                } else {
                    assert(c2 == lci && r2 / 3 != lri / 3);
                    assert(neighbors@.contains((r2u, lc)));
                }
            }
        }
        neighbors
    }

    /// Committing a digit and deleting it from the twenty peers restores the
    /// board-wide invariant.
    proof fn lemma_commit_propagation(pre: Board, post: Board, n: Number, r0: int, c0: int)
        requires
            pre.propagated(),
            valid_loc(r0, c0),
            pre.sq(r0, c0) is Incomplete,
            post.sq(r0, c0).commits(n.val()),
            !(post.sq(r0, c0) is Incomplete),
            forall|r2: int, c2: int|
                #[trigger] is_peer(r0, c0, r2, c2) ==> post.sq(r2, c2).same_status(pre.sq(r2, c2))
                    && (forall|d: int|
                    1 <= d <= 9 ==> ((#[trigger] post.sq(r2, c2).has(d)) <==> pre.sq(r2, c2).has(d)
                        && d != n.val())),
            forall|r2: int, c2: int|
                valid_loc(r2, c2) && !is_peer(r0, c0, r2, c2) && !(r2 == r0 && c2 == c0)
                    ==> #[trigger] post.sq(r2, c2) == pre.sq(r2, c2),
        ensures
            post.propagated(),
    {
        assert forall|r: int, c: int| valid_loc(r, c) implies post.cell_consistent(r, c) by {
            if post.sq(r, c) is Incomplete {
                if r == r0 && c == c0 {
                } else if is_peer(r0, c0, r, c) {
                    assert(pre.sq(r, c) is Incomplete);
                    assert(pre.cell_consistent(r, c));
                    assert forall|d: int| 1 <= d <= 9 implies ((#[trigger] post.sq(r, c).has(d))
                        <==> !post.peer_commits(r, c, d)) by {
                        if d == n.val() {
                            assert(is_peer(r, c, r0, c0));
                            assert(post.sq(r0, c0).commits(d));
                            assert(post.peer_commits(r, c, d));
                            assert(!post.sq(r, c).has(d));
                        } else {
                            if post.peer_commits(r, c, d) {
                                let (r2, c2) = choose|r2: int, c2: int|
                                    is_peer(r, c, r2, c2) && (#[trigger] post.sq(r2, c2)).commits(
                                    d);
                                assert(!(r2 == r0 && c2 == c0));
                                assert(pre.sq(r2, c2).commits(d));
                                assert(pre.peer_commits(r, c, d));
                            }
                            if pre.peer_commits(r, c, d) {
                                let (r2, c2) = choose|r2: int, c2: int|
                                    is_peer(r, c, r2, c2) && (#[trigger] pre.sq(r2, c2)).commits(
                                    d);
                                assert(!(r2 == r0 && c2 == c0));
                                assert(post.sq(r2, c2).commits(d));
                                assert(post.peer_commits(r, c, d));
                            }
                            assert(pre.sq(r, c).has(d) <==> !pre.peer_commits(r, c, d));
                        }
                    }
                } else {
                    assert(post.sq(r, c) == pre.sq(r, c));
                    assert(pre.cell_consistent(r, c));
                    assert forall|d: int| 1 <= d <= 9 implies ((#[trigger] post.sq(r, c).has(d))
                        <==> !post.peer_commits(r, c, d)) by {
                        if post.peer_commits(r, c, d) {
                            let (r2, c2) = choose|r2: int, c2: int|
                                is_peer(r, c, r2, c2) && (#[trigger] post.sq(r2, c2)).commits(d);
                            assert(!(r2 == r0 && c2 == c0));
                            if is_peer(r0, c0, r2, c2) {
                                assert(pre.sq(r2, c2).commits(d));
                            }
                            assert(pre.peer_commits(r, c, d));
                        }
                        if pre.peer_commits(r, c, d) {
                            let (r2, c2) = choose|r2: int, c2: int|
                                is_peer(r, c, r2, c2) && (#[trigger] pre.sq(r2, c2)).commits(d);
                            assert(!(r2 == r0 && c2 == c0));
                            if is_peer(r0, c0, r2, c2) {
                                assert(post.sq(r2, c2).commits(d));
                            }
                            assert(post.peer_commits(r, c, d));
                        }
                        assert(pre.sq(r, c).has(d) <==> !pre.peer_commits(r, c, d));
                    }
                }
            }
        }
    }

    /// Delete `number` from the candidates of each of the twenty peers of
    /// `location`; committed peers are unaffected.
    #[verifier::loop_isolation(false)]
    fn propagate_collapse(&mut self, number: Number, location: (usize, usize))
        requires
            valid_loc(location.0 as int, location.1 as int),
        ensures
            forall|r2: int, c2: int|
                #[trigger] is_peer(location.0 as int, location.1 as int, r2, c2) ==> final(self).sq(
                    r2,
                    c2,
                ).same_status(old(self).sq(r2, c2)) && (forall|d: int|
                    1 <= d <= 9 ==> ((#[trigger] final(self).sq(r2, c2).has(d)) <==> old(self).sq(
                        r2,
                        c2,
                    ).has(d) && d != number.val())),
            forall|r2: int, c2: int|
                valid_loc(r2, c2) && !is_peer(location.0 as int, location.1 as int, r2, c2)
                    ==> #[trigger] final(self).sq(r2, c2) == old(self).sq(r2, c2),
    {
        let neighbors = Self::find_neighbor_locations(location);
        let mut k: usize = 0;
        while k < 20
            invariant
                k <= 20,
                forall|r2: int, c2: int|
                    valid_loc(r2, c2) && #[trigger] in_prefix(neighbors@, k as int, r2, c2)
                        ==> self.sq(r2, c2).same_status(old(self).sq(r2, c2)) && (forall|d: int|
                        1 <= d <= 9 ==> ((#[trigger] self.sq(r2, c2).has(d)) <==> old(self).sq(
                            r2,
                            c2,
                        ).has(d) && d != number.val())),
                forall|r2: int, c2: int|
                    valid_loc(r2, c2) && !in_prefix(neighbors@, k as int, r2, c2)
                        ==> #[trigger] self.sq(r2, c2) == old(self).sq(r2, c2),
            decreases 20 - k,
        {
            let q = neighbors[k];
            proof {
                assert(is_peer(
                    location.0 as int,
                    location.1 as int,
                    neighbors@[k as int].0 as int,
                    neighbors@[k as int].1 as int,
                ));
                assert(!in_prefix(neighbors@, k as int, q.0 as int, q.1 as int));
            }
            let mut s = *self.get(q);
            s.remove(number);
            self.set_sq(q, s);
            k = k + 1;
            proof {
                assert forall|r2: int, c2: int|
                    valid_loc(r2, c2) && #[trigger] in_prefix(
                        neighbors@,
                        k as int,
                        r2,
                        c2,
                    ) implies self.sq(r2, c2).same_status(old(self).sq(r2, c2)) && (forall|d: int|
                    1 <= d <= 9 ==> ((#[trigger] self.sq(r2, c2).has(d)) <==> old(self).sq(
                        r2,
                        c2,
                    ).has(d) && d != number.val())) by {
                    if r2 == q.0 as int && c2 == q.1 as int {
                    } else {
                        assert(in_prefix(neighbors@, k as int - 1, r2, c2));
                    }
                }
            }
        }
        proof {
            let l0 = location.0 as int;
            let l1 = location.1 as int;
            assert forall|r2: int, c2: int| #[trigger] is_peer(l0, l1, r2, c2) implies in_prefix(
                neighbors@,
                20,
                r2,
                c2,
            ) by {
                assert(neighbors@.contains((r2 as usize, c2 as usize)));
                let k2 = choose|k2: int|
                    0 <= k2 < neighbors@.len() && neighbors@[k2] == (r2 as usize, c2 as usize);
                assert(0 <= k2 < 20 && neighbors@[k2] == (r2 as usize, c2 as usize));
            }
            assert forall|r2: int, c2: int|
                valid_loc(r2, c2) && !is_peer(l0, l1, r2, c2) implies !in_prefix(
                neighbors@,
                20,
                r2,
                c2,
            ) by {
                if in_prefix(neighbors@, 20, r2, c2) {
                    let k2 = choose|k2: int|
                        0 <= k2 < 20 && neighbors@[k2] == (r2 as usize, c2 as usize);
                    assert(is_peer(
                        l0,
                        l1,
                        neighbors@[k2].0 as int,
                        neighbors@[k2].1 as int,
                    ));
                }
            }
        }
    }

    /// Commit `number` at `location` as a play, if the cell is open and the
    /// digit is one of its candidates; otherwise leave the board unchanged.
    pub fn try_move(&mut self, number: Number, location: (usize, usize)) -> (r: bool)
        requires
            old(self).propagated(),
            valid_loc(location.0 as int, location.1 as int),
        ensures
            final(self).propagated(),
            r == old(self).sq(location.0 as int, location.1 as int).has(number.val()),
            !r ==> *final(self) == *old(self),
            r ==> final(self).sq(location.0 as int, location.1 as int) == Square::PlayerMove(
                number,
            ),
            r ==> forall|r2: int, c2: int|
                valid_loc(r2, c2) && !(r2 == location.0 as int && c2 == location.1 as int) ==> (
                #[trigger] final(self).sq(r2, c2)).same_status(old(self).sq(r2, c2)),
    {
        let mut s = *self.get(location);
        if s.try_move(number) {
            self.set_sq(location, s);
            self.propagate_collapse(number, location);
            proof {
                let l0 = location.0 as int;
                let l1 = location.1 as int;
                assert(!is_peer(l0, l1, l0, l1));
                Board::lemma_commit_propagation(*old(self), *self, number, l0, l1);
            }
            true
        } else {
            false
        }
    }

    /// Commit `number` at `location` as a starting clue, if the cell is open
    /// and the digit is one of its candidates; otherwise leave the board
    /// unchanged.
    pub fn try_set(&mut self, number: Number, location: (usize, usize)) -> (r: bool)
        requires
            old(self).propagated(),
            valid_loc(location.0 as int, location.1 as int),
        ensures
            final(self).propagated(),
            r == old(self).sq(location.0 as int, location.1 as int).has(number.val()),
            !r ==> *final(self) == *old(self),
            r ==> final(self).sq(location.0 as int, location.1 as int) == Square::Starting(number),
            r ==> forall|r2: int, c2: int|
                valid_loc(r2, c2) && !(r2 == location.0 as int && c2 == location.1 as int) ==> (
                #[trigger] final(self).sq(r2, c2)).same_status(old(self).sq(r2, c2)),
    {
        let mut s = *self.get(location);
        if s.try_set(number) {
            self.set_sq(location, s);
            self.propagate_collapse(number, location);
            proof {
                let l0 = location.0 as int;
                let l1 = location.1 as int;
                assert(!is_peer(l0, l1, l0, l1));
                Board::lemma_commit_propagation(*old(self), *self, number, l0, l1);
            }
            true
        } else {
            false
        }
    }

    /// A cell whose own square and whose peers' statuses are unchanged keeps
    /// its consistency.
    proof fn lemma_consistent_unchanged(pre: Board, post: Board, r: int, c: int)
        requires
            pre.cell_consistent(r, c),
            valid_loc(r, c),
            post.sq(r, c) == pre.sq(r, c),
            forall|r2: int, c2: int|
                is_peer(r, c, r2, c2) ==> (#[trigger] post.sq(r2, c2)).same_status(
                    pre.sq(r2, c2),
                ),
        ensures
            post.cell_consistent(r, c),
    {
        if post.sq(r, c) is Incomplete {
            assert forall|d: int| 1 <= d <= 9 implies ((#[trigger] post.sq(r, c).has(d))
                <==> !post.peer_commits(r, c, d)) by {
                if post.peer_commits(r, c, d) {
                    let (r2, c2) = choose|r2: int, c2: int|
                        is_peer(r, c, r2, c2) && (#[trigger] post.sq(r2, c2)).commits(d);
                    assert(pre.sq(r2, c2).commits(d));
                    assert(pre.peer_commits(r, c, d));
                }
                if pre.peer_commits(r, c, d) {
                    let (r2, c2) = choose|r2: int, c2: int|
                        is_peer(r, c, r2, c2) && (#[trigger] pre.sq(r2, c2)).commits(d);
                    assert(post.sq(r2, c2).commits(d));
                    assert(post.peer_commits(r, c, d));
                }
            }
        }
    }

    /// Rebuild the candidates of the cell at `location` from scratch: reset
    /// it to the full set, then delete the digit of each committed peer.
    #[verifier::loop_isolation(false)]
    fn update_superposition(&mut self, location: (usize, usize))
        requires
            valid_loc(location.0 as int, location.1 as int),
        ensures
            forall|r2: int, c2: int|
                valid_loc(r2, c2) && !(r2 == location.0 as int && c2 == location.1 as int)
                    ==> #[trigger] final(self).sq(r2, c2) == old(self).sq(r2, c2),
            final(self).sq(location.0 as int, location.1 as int) is Incomplete,
            forall|d: int|
                1 <= d <= 9 ==> ((#[trigger] final(self).sq(
                    location.0 as int,
                    location.1 as int,
                ).has(d)) <==> !old(self).peer_commits(location.0 as int, location.1 as int, d)),
    {
        self.set_sq(location, Square::default());
        let neighbors = Self::find_neighbor_locations(location);
        let mut k: usize = 0;
        while k < 20
            invariant
                k <= 20,
                forall|r2: int, c2: int|
                    valid_loc(r2, c2) && !(r2 == location.0 as int && c2 == location.1 as int)
                        ==> #[trigger] self.sq(r2, c2) == old(self).sq(r2, c2),
                self.sq(location.0 as int, location.1 as int) is Incomplete,
                forall|d: int|
                    1 <= d <= 9 ==> ((#[trigger] self.sq(
                        location.0 as int,
                        location.1 as int,
                    ).has(d)) <==> !prefix_commits(*old(self), neighbors@, k as int, d)),
            decreases 20 - k,
        {
            let q = neighbors[k];
            proof {
                assert(is_peer(
                    location.0 as int,
                    location.1 as int,
                    neighbors@[k as int].0 as int,
                    neighbors@[k as int].1 as int,
                ));
            }
            let cn = self.get(q).collapsed_number();
            match cn {
                Some(n) => {
                    let mut s = *self.get(location);
                    s.remove(n);
                    self.set_sq(location, s);
                },
                None => {},
            }
            k = k + 1;
            proof {
                let ghost kk = k as int;
                assert forall|d: int| 1 <= d <= 9 implies (prefix_commits(
                    *old(self),
                    neighbors@,
                    kk,
                    d,
                ) <==> (prefix_commits(*old(self), neighbors@, kk - 1, d) || old(self).sq(
                    q.0 as int,
                    q.1 as int,
                ).commits(d))) by {
                    if prefix_commits(*old(self), neighbors@, kk, d) {
                        let k2 = choose|k2: int|
                            0 <= k2 < kk && (#[trigger] old(self).sq(
                                neighbors@[k2].0 as int,
                                neighbors@[k2].1 as int,
                            )).commits(d);
                        if k2 < kk - 1 {
                            assert(prefix_commits(*old(self), neighbors@, kk - 1, d));
                        }
                    }
                    if prefix_commits(*old(self), neighbors@, kk - 1, d) {
                        let k2 = choose|k2: int|
                            0 <= k2 < kk - 1 && (#[trigger] old(self).sq(
                                neighbors@[k2].0 as int,
                                neighbors@[k2].1 as int,
                            )).commits(d);
                        assert(prefix_commits(*old(self), neighbors@, kk, d));
                    }
                    if old(self).sq(q.0 as int, q.1 as int).commits(d) {
                        assert(neighbors@[kk - 1] == q);
                        assert(prefix_commits(*old(self), neighbors@, kk, d));
                    }
                }
            }
        }
        proof {
            let l0 = location.0 as int;
            let l1 = location.1 as int;
            assert forall|d: int| 1 <= d <= 9 implies (prefix_commits(
                *old(self),
                neighbors@,
                20,
                d,
            ) == old(self).peer_commits(l0, l1, d)) by {
                if prefix_commits(*old(self), neighbors@, 20, d) {
                    let k2 = choose|k2: int|
                        0 <= k2 < 20 && (#[trigger] old(self).sq(
                            neighbors@[k2].0 as int,
                            neighbors@[k2].1 as int,
                        )).commits(d);
                    assert(is_peer(l0, l1, neighbors@[k2].0 as int, neighbors@[k2].1 as int));
                    assert(old(self).peer_commits(l0, l1, d));
                }
                if old(self).peer_commits(l0, l1, d) {
                    let (r2, c2) = choose|r2: int, c2: int|
                        is_peer(l0, l1, r2, c2) && (#[trigger] old(self).sq(r2, c2)).commits(d);
                    assert(neighbors@.contains((r2 as usize, c2 as usize)));
                    let k2 = choose|k2: int|
                        0 <= k2 < neighbors@.len() && neighbors@[k2] == (r2 as usize, c2 as usize);
                    assert(old(self).sq(
                        neighbors@[k2].0 as int,
                        neighbors@[k2].1 as int,
                    ).commits(d));
                    assert(prefix_commits(*old(self), neighbors@, 20, d));
                }
            }
        }
    }

    /// After the cell at `location` has been reopened with the full candidate
    /// set, restore the invariant: delete each committed peer's digit from it,
    /// and rebuild every open peer's candidates from scratch.
    #[verifier::loop_isolation(false)]
    fn propagate_undo_collapse(&mut self, location: (usize, usize))
        requires
            valid_loc(location.0 as int, location.1 as int),
            old(self).sq(location.0 as int, location.1 as int) is Incomplete,
            forall|d: int|
                1 <= d <= 9 ==> #[trigger] old(self).sq(
                    location.0 as int,
                    location.1 as int,
                ).has(d),
            forall|r2: int, c2: int|
                valid_loc(r2, c2) && !is_peer(location.0 as int, location.1 as int, r2, c2) && !(r2
                    == location.0 as int && c2 == location.1 as int)
                    ==> #[trigger] old(self).cell_consistent(r2, c2),
        ensures
            final(self).propagated(),
            forall|r2: int, c2: int|
                valid_loc(r2, c2) ==> (#[trigger] final(self).sq(r2, c2)).same_status(
                    old(self).sq(r2, c2),
                ),
            forall|r2: int, c2: int|
                valid_loc(r2, c2) && !is_peer(location.0 as int, location.1 as int, r2, c2) && !(r2
                    == location.0 as int && c2 == location.1 as int)
                    ==> #[trigger] final(self).sq(r2, c2) == old(self).sq(r2, c2),
    {
        let ghost l0 = location.0 as int;
        let ghost l1 = location.1 as int;
        let neighbors = Self::find_neighbor_locations(location);
        let mut k: usize = 0;
        while k < 20
            invariant
                k <= 20,
                forall|r2: int, c2: int|
                    valid_loc(r2, c2) && !is_peer(l0, l1, r2, c2) && !(r2 == l0 && c2 == l1)
                        ==> #[trigger] self.sq(r2, c2) == old(self).sq(r2, c2),
                forall|r2: int, c2: int|
                    is_peer(l0, l1, r2, c2) && !in_prefix(neighbors@, k as int, r2, c2)
                        ==> #[trigger] self.sq(r2, c2) == old(self).sq(r2, c2),
                forall|r2: int, c2: int|
                    valid_loc(r2, c2) ==> (#[trigger] self.sq(r2, c2)).same_status(
                        old(self).sq(r2, c2),
                    ),
                self.sq(l0, l1) is Incomplete,
                forall|d: int|
                    1 <= d <= 9 ==> ((#[trigger] self.sq(l0, l1).has(d)) <==> !prefix_commits(
                        *old(self),
                        neighbors@,
                        k as int,
                        d,
                    )),
                forall|r2: int, c2: int|
                    valid_loc(r2, c2) && #[trigger] in_prefix(neighbors@, k as int, r2, c2) && old(
                        self,
                    ).sq(r2, c2) is Incomplete ==> self.sq(r2, c2) is Incomplete && (forall|d: int|
                        1 <= d <= 9 ==> ((#[trigger] self.sq(r2, c2).has(d)) <==> !old(
                            self,
                        ).peer_commits(r2, c2, d))),
            decreases 20 - k,
        {
            let q = neighbors[k];
            proof {
                assert(is_peer(l0, l1, neighbors@[k as int].0 as int, neighbors@[k as int].1 as int));
                assert(!in_prefix(neighbors@, k as int, q.0 as int, q.1 as int));
                assert(self.sq(q.0 as int, q.1 as int) == old(self).sq(q.0 as int, q.1 as int));
            }
            let ghost mid = *self;
            let cn = self.get(q).collapsed_number();
            match cn {
                Some(n) => {
                    let mut s = *self.get(location);
                    s.remove(n);
                    self.set_sq(location, s);
                },
                None => {
                    self.update_superposition(q);
                    proof {
                        assert forall|d: int| 1 <= d <= 9 implies ((#[trigger] self.sq(
                            q.0 as int,
                            q.1 as int,
                        ).has(d)) <==> !old(self).peer_commits(q.0 as int, q.1 as int, d)) by {
                            Board::lemma_peer_commits_agree(
                                mid,
                                *old(self),
                                q.0 as int,
                                q.1 as int,
                                d,
                            );
                        }
                    }
                },
            }
            k = k + 1;
            proof {
                let ghost kk = k as int;
                assert forall|d: int| 1 <= d <= 9 implies (prefix_commits(
                    *old(self),
                    neighbors@,
                    kk,
                    d,
                ) <==> (prefix_commits(*old(self), neighbors@, kk - 1, d) || old(self).sq(
                    q.0 as int,
                    q.1 as int,
                ).commits(d))) by {
                    if prefix_commits(*old(self), neighbors@, kk, d) {
                        let k2 = choose|k2: int|
                            0 <= k2 < kk && (#[trigger] old(self).sq(
                                neighbors@[k2].0 as int,
                                neighbors@[k2].1 as int,
                            )).commits(d);
                        if k2 < kk - 1 {
                            assert(prefix_commits(*old(self), neighbors@, kk - 1, d));
                        }
                    }
                    if prefix_commits(*old(self), neighbors@, kk - 1, d) {
                        let k2 = choose|k2: int|
                            0 <= k2 < kk - 1 && (#[trigger] old(self).sq(
                                neighbors@[k2].0 as int,
                                neighbors@[k2].1 as int,
                            )).commits(d);
                        assert(prefix_commits(*old(self), neighbors@, kk, d));
                    }
                    if old(self).sq(q.0 as int, q.1 as int).commits(d) {
                        assert(neighbors@[kk - 1] == q);
                        assert(prefix_commits(*old(self), neighbors@, kk, d));
                    }
                }
                assert forall|r2: int, c2: int|
                    valid_loc(r2, c2) && #[trigger] in_prefix(neighbors@, kk, r2, c2) && old(
                        self,
                    ).sq(r2, c2) is Incomplete implies self.sq(r2, c2) is Incomplete && (forall|
                    d: int,
                |
                    1 <= d <= 9 ==> ((#[trigger] self.sq(r2, c2).has(d)) <==> !old(
                        self,
                    ).peer_commits(r2, c2, d))) by {
                    if r2 == q.0 as int && c2 == q.1 as int {
                    } else {
                        assert(in_prefix(neighbors@, kk - 1, r2, c2));
                    }
                }
            }
        }
        proof {
            assert forall|r2: int, c2: int| #[trigger] is_peer(l0, l1, r2, c2) implies in_prefix(
                neighbors@,
                20,
                r2,
                c2,
            ) by {
                assert(neighbors@.contains((r2 as usize, c2 as usize)));
                let k2 = choose|k2: int|
                    0 <= k2 < neighbors@.len() && neighbors@[k2] == (r2 as usize, c2 as usize);
                assert(0 <= k2 < 20 && neighbors@[k2] == (r2 as usize, c2 as usize));
            }
            assert forall|d: int| 1 <= d <= 9 implies (prefix_commits(
                *old(self),
                neighbors@,
                20,
                d,
            ) == old(self).peer_commits(l0, l1, d)) by {
                if prefix_commits(*old(self), neighbors@, 20, d) {
                    let k2 = choose|k2: int|
                        0 <= k2 < 20 && (#[trigger] old(self).sq(
                            neighbors@[k2].0 as int,
                            neighbors@[k2].1 as int,
                        )).commits(d);
                    assert(is_peer(l0, l1, neighbors@[k2].0 as int, neighbors@[k2].1 as int));
                    assert(old(self).peer_commits(l0, l1, d));
                }
                if old(self).peer_commits(l0, l1, d) {
                    let (r2, c2) = choose|r2: int, c2: int|
                        is_peer(l0, l1, r2, c2) && (#[trigger] old(self).sq(r2, c2)).commits(d);
                    assert(neighbors@.contains((r2 as usize, c2 as usize)));
                    let k2 = choose|k2: int|
                        0 <= k2 < neighbors@.len() && neighbors@[k2] == (r2 as usize, c2 as usize);
                    assert(old(self).sq(
                        neighbors@[k2].0 as int,
                        neighbors@[k2].1 as int,
                    ).commits(d));
                    assert(prefix_commits(*old(self), neighbors@, 20, d));
                }
            }
            assert forall|r: int, c: int| valid_loc(r, c) implies self.cell_consistent(r, c) by {
                if self.sq(r, c) is Incomplete {
                    if r == l0 && c == l1 {
                        assert forall|d: int| 1 <= d <= 9 implies ((#[trigger] self.sq(r, c).has(
                            d,
                        )) <==> !self.peer_commits(r, c, d)) by {
                            Board::lemma_peer_commits_agree(*self, *old(self), r, c, d);
                        }
                    } else if is_peer(l0, l1, r, c) {
                        assert(old(self).sq(r, c) is Incomplete);
                        assert(in_prefix(neighbors@, 20, r, c));
                        assert forall|d: int| 1 <= d <= 9 implies ((#[trigger] self.sq(r, c).has(
                            d,
                        )) <==> !self.peer_commits(r, c, d)) by {
                            Board::lemma_peer_commits_agree(*self, *old(self), r, c, d);
                        }
                    } else {
                        assert(old(self).cell_consistent(r, c));
                        assert(self.sq(r, c) == old(self).sq(r, c));
                        assert forall|r2: int, c2: int| is_peer(r, c, r2, c2) implies (
                        #[trigger] self.sq(r2, c2)).same_status(old(self).sq(r2, c2)) by {}
                        Board::lemma_consistent_unchanged(*old(self), *self, r, c);
                    }
                }
            }
        }
    }

    /// Undo the play at `location`, if it is one, and restore the invariant;
    /// starting clues and open cells are left alone.
    pub fn try_undo_move(&mut self, location: (usize, usize)) -> (r: bool)
        requires
            old(self).propagated(),
            valid_loc(location.0 as int, location.1 as int),
        ensures
            final(self).propagated(),
            r == (old(self).sq(location.0 as int, location.1 as int) is PlayerMove),
            !r ==> *final(self) == *old(self),
            r ==> final(self).sq(location.0 as int, location.1 as int) is Incomplete,
            r ==> forall|r2: int, c2: int|
                valid_loc(r2, c2) && !(r2 == location.0 as int && c2 == location.1 as int) ==> (
                #[trigger] final(self).sq(r2, c2)).same_status(old(self).sq(r2, c2)),
    {
        let mut s = *self.get(location);
        if s.try_undo_move() {
            self.set_sq(location, s);
            proof {
                self.lemma_mid_undo_consistent(*old(self), location.0 as int, location.1 as int);
            }
            self.propagate_undo_collapse(location);
            true
        } else {
            false
        }
    }

    /// Undo the starting clue at `location`, if it is one, and restore the
    /// invariant; plays and open cells are left alone.
    pub fn try_undo_set(&mut self, location: (usize, usize)) -> (r: bool)
        requires
            old(self).propagated(),
            valid_loc(location.0 as int, location.1 as int),
        ensures
            final(self).propagated(),
            r == (old(self).sq(location.0 as int, location.1 as int) is Starting),
            !r ==> *final(self) == *old(self),
            r ==> final(self).sq(location.0 as int, location.1 as int) is Incomplete,
            r ==> forall|r2: int, c2: int|
                valid_loc(r2, c2) && !(r2 == location.0 as int && c2 == location.1 as int) ==> (
                #[trigger] final(self).sq(r2, c2)).same_status(old(self).sq(r2, c2)),
    {
        let mut s = *self.get(location);
        if s.try_undo_set() {
            self.set_sq(location, s);
            proof {
                self.lemma_mid_undo_consistent(*old(self), location.0 as int, location.1 as int);
            }
            self.propagate_undo_collapse(location);
            true
        } else {
            false
        }
    }

    /// After reopening one cell of a consistent board, every cell away from
    /// the reopened one is still consistent.
    proof fn lemma_mid_undo_consistent(self, pre: Board, l0: int, l1: int)
        requires
            pre.propagated(),
            valid_loc(l0, l1),
            forall|r2: int, c2: int|
                valid_loc(r2, c2) && !(r2 == l0 && c2 == l1) ==> #[trigger] self.sq(r2, c2)
                    == pre.sq(r2, c2),
        ensures
            forall|r2: int, c2: int|
                valid_loc(r2, c2) && !is_peer(l0, l1, r2, c2) && !(r2 == l0 && c2 == l1)
                    ==> #[trigger] self.cell_consistent(r2, c2),
    {
        assert forall|r2: int, c2: int|
            valid_loc(r2, c2) && !is_peer(l0, l1, r2, c2) && !(r2 == l0 && c2 == l1) implies (
        #[trigger] self.cell_consistent(r2, c2)) by {
            assert(pre.cell_consistent(r2, c2));
            assert forall|r3: int, c3: int| is_peer(r2, c2, r3, c3) implies (#[trigger] self.sq(
                r3,
                c3,
            )).same_status(pre.sq(r3, c3)) by {
                assert(!(r3 == l0 && c3 == l1));
            }
            Board::lemma_consistent_unchanged(pre, self, r2, c2);
        }
    }

    /// Some cell is open and no open cell has run out of candidates: a
    /// random play is possible.
    pub open spec fn mrv_available(self) -> bool {
        &&& exists|r: int, c: int| valid_loc(r, c) && #[trigger] self.open_at(r, c)
        &&& forall|r: int, c: int|
            valid_loc(r, c) && #[trigger] self.open_at(r, c) ==> self.count_at(r, c) > 0
    }

    /// Some open cell still has a candidate: a random clue is possible.
    pub open spec fn set_available(self) -> bool {
        exists|r: int, c: int|
            valid_loc(r, c) && #[trigger] self.open_at(r, c) && self.count_at(r, c) > 0
    }

    /// The open cells with the smallest candidate count, or `None` when no
    /// cell is open or the smallest count is zero (the puzzle is dead).
    #[verifier::loop_isolation(false)]
    fn find_lowest_superpositions(&self) -> (r: Option<Vec<(usize, usize)>>)
        ensures
            (r is Some) == self.mrv_available(),
            r matches Some(v) ==> {
                &&& v@.len() > 0
                &&& forall|k: int|
                    0 <= k < v@.len() ==> valid_loc((#[trigger] v@[k]).0 as int, v@[k].1 as int)
                        && self.open_at(v@[k].0 as int, v@[k].1 as int) && self.count_at(
                        v@[k].0 as int,
                        v@[k].1 as int,
                    ) == self.count_at(v@[0].0 as int, v@[0].1 as int)
                &&& self.count_at(v@[0].0 as int, v@[0].1 as int) > 0
                &&& forall|r2: int, c2: int|
                    valid_loc(r2, c2) && #[trigger] self.open_at(r2, c2) ==> self.count_at(r2, c2)
                        >= self.count_at(v@[0].0 as int, v@[0].1 as int)
                &&& forall|r2: int, c2: int|
                    valid_loc(r2, c2) && #[trigger] self.open_at(r2, c2) && self.count_at(r2, c2)
                        == self.count_at(v@[0].0 as int, v@[0].1 as int) ==> v@.contains(
                        (r2 as usize, c2 as usize),
                    )
                &&& forall|k1: int, k2: int| 0 <= k1 < k2 < v@.len() ==> v@[k1] != v@[k2]
            },
    {
        let mut v: Vec<(usize, usize)> = Vec::new();
        let mut low: usize = 9;
        let mut rr: usize = 0;
        while rr < 9
            invariant
                rr <= 9,
                forall|k: int|
                    0 <= k < v@.len() ==> valid_loc((#[trigger] v@[k]).0 as int, v@[k].1 as int)
                        && self.open_at(v@[k].0 as int, v@[k].1 as int) && self.count_at(
                        v@[k].0 as int,
                        v@[k].1 as int,
                    ) == low && (v@[k].0 as int) < rr,
                forall|r2: int, c2: int|
                    0 <= r2 < rr && 0 <= c2 < 9 && #[trigger] self.open_at(r2, c2)
                        ==> self.count_at(r2, c2) >= low,
                forall|r2: int, c2: int|
                    0 <= r2 < rr && 0 <= c2 < 9 && #[trigger] self.open_at(r2, c2)
                        && self.count_at(r2, c2) == low ==> v@.contains((r2 as usize, c2 as usize)),
                v@.len() == 0 ==> low == 9 && forall|r2: int, c2: int|
                    0 <= r2 < rr && 0 <= c2 < 9 ==> !(#[trigger] self.open_at(r2, c2)),
                forall|k1: int, k2: int| 0 <= k1 < k2 < v@.len() ==> v@[k1] != v@[k2],
            decreases 9 - rr,
        {
            let mut cc: usize = 0;
            while cc < 9
                invariant
                    cc <= 9,
                    forall|k: int|
                        0 <= k < v@.len() ==> valid_loc(
                            (#[trigger] v@[k]).0 as int,
                            v@[k].1 as int,
                        ) && self.open_at(v@[k].0 as int, v@[k].1 as int) && self.count_at(
                            v@[k].0 as int,
                            v@[k].1 as int,
                        ) == low && ((v@[k].0 as int) < rr || (v@[k].0 as int == rr && (v@[k].1
                            as int) < cc)),
                    forall|r2: int, c2: int|
                        0 <= r2 < 9 && 0 <= c2 < 9 && (r2 < rr || (r2 == rr && c2 < cc))
                            && #[trigger] self.open_at(r2, c2) ==> self.count_at(r2, c2) >= low,
                    forall|r2: int, c2: int|
                        0 <= r2 < 9 && 0 <= c2 < 9 && (r2 < rr || (r2 == rr && c2 < cc))
                            && #[trigger] self.open_at(r2, c2) && self.count_at(r2, c2) == low
                            ==> v@.contains((r2 as usize, c2 as usize)),
                    v@.len() == 0 ==> low == 9 && forall|r2: int, c2: int|
                        0 <= r2 < 9 && 0 <= c2 < 9 && (r2 < rr || (r2 == rr && c2 < cc)) ==> !(
                        #[trigger] self.open_at(r2, c2)),
                    forall|k1: int, k2: int| 0 <= k1 < k2 < v@.len() ==> v@[k1] != v@[k2],
                decreases 9 - cc,
            {
                proof {
                    Square::lemma_open_count_bounds(self.sq(rr as int, cc as int));
                }
                match self.get((rr, cc)).superposition_number() {
                    Some(c) => {
                        if c < low {
                            v.clear();
                            v.push((rr, cc));
                            low = c;
                        } else if c == low {
                            v.push((rr, cc));
                        }
                    },
                    None => {},
                }
                cc = cc + 1;
            }
            rr = rr + 1;
        }
        if low == 0 || v.len() == 0 {
            proof {
                if self.mrv_available() {
                    if v@.len() == 0 {
                        let (r2, c2) = choose|r2: int, c2: int|
                            valid_loc(r2, c2) && #[trigger] self.open_at(r2, c2);
                        assert(false);
                    } else {
                        assert(self.open_at(v@[0].0 as int, v@[0].1 as int));
                        assert(self.count_at(v@[0].0 as int, v@[0].1 as int) == 0);
                        assert(false);
                    }
                }
            }
            None
        } else {
            proof {
                assert(self.open_at(v@[0].0 as int, v@[0].1 as int));
            }
            Some(v)
        }
    }

    /// The open cells with the largest candidate count, or `None` when every
    /// open cell has run out of candidates.
    #[verifier::loop_isolation(false)]
    fn find_highest_superpositions(&self) -> (r: Option<Vec<(usize, usize)>>)
        ensures
            (r is Some) == self.set_available(),
            r matches Some(v) ==> {
                &&& v@.len() > 0
                &&& forall|k: int|
                    0 <= k < v@.len() ==> valid_loc((#[trigger] v@[k]).0 as int, v@[k].1 as int)
                        && self.open_at(v@[k].0 as int, v@[k].1 as int) && self.count_at(
                        v@[k].0 as int,
                        v@[k].1 as int,
                    ) == self.count_at(v@[0].0 as int, v@[0].1 as int)
                &&& self.count_at(v@[0].0 as int, v@[0].1 as int) > 0
                &&& forall|r2: int, c2: int|
                    valid_loc(r2, c2) && #[trigger] self.open_at(r2, c2) ==> self.count_at(r2, c2)
                        <= self.count_at(v@[0].0 as int, v@[0].1 as int)
                &&& forall|r2: int, c2: int|
                    valid_loc(r2, c2) && #[trigger] self.open_at(r2, c2) && self.count_at(r2, c2)
                        == self.count_at(v@[0].0 as int, v@[0].1 as int) ==> v@.contains(
                        (r2 as usize, c2 as usize),
                    )
                &&& forall|k1: int, k2: int| 0 <= k1 < k2 < v@.len() ==> v@[k1] != v@[k2]
            },
    {
        let mut v: Vec<(usize, usize)> = Vec::new();
        let mut high: usize = 0;
        let mut rr: usize = 0;
        while rr < 9
            invariant
                rr <= 9,
                forall|k: int|
                    0 <= k < v@.len() ==> valid_loc((#[trigger] v@[k]).0 as int, v@[k].1 as int)
                        && self.open_at(v@[k].0 as int, v@[k].1 as int) && self.count_at(
                        v@[k].0 as int,
                        v@[k].1 as int,
                    ) == high && (v@[k].0 as int) < rr,
                forall|r2: int, c2: int|
                    0 <= r2 < rr && 0 <= c2 < 9 && #[trigger] self.open_at(r2, c2)
                        ==> self.count_at(r2, c2) <= high,
                forall|r2: int, c2: int|
                    0 <= r2 < rr && 0 <= c2 < 9 && #[trigger] self.open_at(r2, c2)
                        && self.count_at(r2, c2) == high ==> v@.contains((r2 as usize, c2 as usize)),
                high > 0 ==> v@.len() > 0,
                forall|k1: int, k2: int| 0 <= k1 < k2 < v@.len() ==> v@[k1] != v@[k2],
            decreases 9 - rr,
        {
            let mut cc: usize = 0;
            while cc < 9
                invariant
                    cc <= 9,
                    forall|k: int|
                        0 <= k < v@.len() ==> valid_loc(
                            (#[trigger] v@[k]).0 as int,
                            v@[k].1 as int,
                        ) && self.open_at(v@[k].0 as int, v@[k].1 as int) && self.count_at(
                            v@[k].0 as int,
                            v@[k].1 as int,
                        ) == high && ((v@[k].0 as int) < rr || (v@[k].0 as int == rr && (v@[k].1
                            as int) < cc)),
                    forall|r2: int, c2: int|
                        0 <= r2 < 9 && 0 <= c2 < 9 && (r2 < rr || (r2 == rr && c2 < cc))
                            && #[trigger] self.open_at(r2, c2) ==> self.count_at(r2, c2) <= high,
                    forall|r2: int, c2: int|
                        0 <= r2 < 9 && 0 <= c2 < 9 && (r2 < rr || (r2 == rr && c2 < cc))
                            && #[trigger] self.open_at(r2, c2) && self.count_at(r2, c2) == high
                            ==> v@.contains((r2 as usize, c2 as usize)),
                    high > 0 ==> v@.len() > 0,
                    forall|k1: int, k2: int| 0 <= k1 < k2 < v@.len() ==> v@[k1] != v@[k2],
                decreases 9 - cc,
            {
                match self.get((rr, cc)).superposition_number() {
                    Some(c) => {
                        if c > high {
                            v.clear();
                            v.push((rr, cc));
                            high = c;
                        } else if c == high {
                            v.push((rr, cc));
                        }
                    },
                    None => {},
                }
                cc = cc + 1;
            }
            rr = rr + 1;
        }
        if high == 0 {
            proof {
                if self.set_available() {
                    let (r2, c2) = choose|r2: int, c2: int|
                        valid_loc(r2, c2) && #[trigger] self.open_at(r2, c2) && self.count_at(
                            r2,
                            c2,
                        ) > 0;
                    assert(false);
                }
            }
            None
        } else {
            proof {
                assert(self.open_at(v@[0].0 as int, v@[0].1 as int));
            }
            Some(v)
        }
    }

    /// Play a random candidate at one of the open cells with the fewest
    /// candidates left, the minimum-remaining-values heuristic; `None`, with
    /// the board unchanged, when no cell is open or some open cell has no
    /// candidate left.
    pub fn try_random_move(&mut self) -> (r: Option<(Number, (usize, usize))>)
        requires
            old(self).propagated(),
        ensures
            final(self).propagated(),
            (r is Some) == old(self).mrv_available(),
            r is None ==> *final(self) == *old(self),
            r matches Some((n, location)) ==> {
                &&& valid_loc(location.0 as int, location.1 as int)
                &&& old(self).open_at(location.0 as int, location.1 as int)
                &&& old(self).sq(location.0 as int, location.1 as int).has(n.val())
                &&& forall|r2: int, c2: int|
                    valid_loc(r2, c2) && #[trigger] old(self).open_at(r2, c2) ==> old(
                        self,
                    ).count_at(r2, c2) >= old(self).count_at(
                        location.0 as int,
                        location.1 as int,
                    )
                &&& final(self).sq(location.0 as int, location.1 as int) == Square::PlayerMove(n)
                &&& forall|r2: int, c2: int|
                    valid_loc(r2, c2) && !(r2 == location.0 as int && c2 == location.1 as int)
                        ==> (#[trigger] final(self).sq(r2, c2)).same_status(old(self).sq(r2, c2))
            },
    {
        match self.find_lowest_superpositions() {
            None => None,
            Some(v) => {
                let k = crate::rng::random_below(v.len());
                let location = v[k];
                let mut s = *self.get(location);
                match s.try_random_move() {
                    Some(number) => {
                        self.set_sq(location, s);
                        self.propagate_collapse(number, location);
                        proof {
                            let l0 = location.0 as int;
                            let l1 = location.1 as int;
                            assert(!is_peer(l0, l1, l0, l1));
                            Board::lemma_commit_propagation(*old(self), *self, number, l0, l1);
                        }
                        Some((number, location))
                    },
                    None => {
                        // The chosen cell is open with a candidate left, so
                        // the cell-level draw cannot have failed.
                        proof {
                            assert(false);
                        }
                        None
                    },
                }
            },
        }
    }

    /// Place a random candidate as a starting clue at one of the open cells
    /// with the most candidates left, the least-constrained cells; `None`,
    /// with the board unchanged, when no open cell has a candidate left.
    pub fn try_random_set(&mut self) -> (r: Option<(Number, (usize, usize))>)
        requires
            old(self).propagated(),
        ensures
            final(self).propagated(),
            (r is Some) == old(self).set_available(),
            r is None ==> *final(self) == *old(self),
            r matches Some((n, location)) ==> {
                &&& valid_loc(location.0 as int, location.1 as int)
                &&& old(self).open_at(location.0 as int, location.1 as int)
                &&& old(self).sq(location.0 as int, location.1 as int).has(n.val())
                &&& forall|r2: int, c2: int|
                    valid_loc(r2, c2) && #[trigger] old(self).open_at(r2, c2) ==> old(
                        self,
                    ).count_at(r2, c2) <= old(self).count_at(
                        location.0 as int,
                        location.1 as int,
                    )
                &&& final(self).sq(location.0 as int, location.1 as int) == Square::Starting(n)
                &&& forall|r2: int, c2: int|
                    valid_loc(r2, c2) && !(r2 == location.0 as int && c2 == location.1 as int)
                        ==> (#[trigger] final(self).sq(r2, c2)).same_status(old(self).sq(r2, c2))
            },
    {
        match self.find_highest_superpositions() {
            None => None,
            Some(v) => {
                let k = crate::rng::random_below(v.len());
                let location = v[k];
                let mut s = *self.get(location);
                match s.try_random_set() {
                    Some(number) => {
                        self.set_sq(location, s);
                        self.propagate_collapse(number, location);
                        proof {
                            let l0 = location.0 as int;
                            let l1 = location.1 as int;
                            assert(!is_peer(l0, l1, l0, l1));
                            Board::lemma_commit_propagation(*old(self), *self, number, l0, l1);
                        }
                        Some((number, location))
                    },
                    None => {
                        // The chosen cell is open with a candidate left, so
                        // the cell-level draw cannot have failed.
                        proof {
                            assert(false);
                        }
                        None
                    },
                }
            },
        }
    }

    /// Whether every cell is committed.
    pub open spec fn solved(self) -> bool {
        forall|r: int, c: int| valid_loc(r, c) ==> !((#[trigger] self.sq(r, c)) is Incomplete)
    }

    pub fn is_solved(&self) -> (r: bool)
        ensures
            r == self.solved(),
    {
        let mut rr: usize = 0;
        while rr < 9
            invariant
                rr <= 9,
                forall|r: int, c: int|
                    0 <= r < rr && 0 <= c < 9 ==> !((#[trigger] self.sq(r, c)) is Incomplete),
            decreases 9 - rr,
        {
            let mut cc: usize = 0;
            while cc < 9
                invariant
                    rr < 9,
                    cc <= 9,
                    forall|r: int, c: int|
                        0 <= r < rr && 0 <= c < 9 ==> !((#[trigger] self.sq(r, c)) is Incomplete),
                    forall|c: int|
                        0 <= c < cc ==> !((#[trigger] self.sq(rr as int, c)) is Incomplete),
                decreases 9 - cc,
            {
                if self.get((rr, cc)).collapsed_number().is_none() {
                    return false;
                }
                cc = cc + 1;
            }
            rr = rr + 1;
        }
        true
    }

    /// Replace the board with a default one.
    pub fn reset(&mut self)
        ensures
            final(self).is_default_state(),
            final(self).propagated(),
    {
        *self = Board::default();
    }
}

/// The blank top line of the display: 28 characters, then a newline.
pub open spec fn blank_line_spec() -> Seq<char> {
    "                            \n"@
}

/// A horizontal separator line of the display.
pub open spec fn sep_line_spec() -> Seq<char> {
    "  |-------|-------|-------| \n"@
}

/// The file labels at the bottom of the display.
pub open spec fn files_line_spec() -> Seq<char> {
    "    a b c   d e f   g h i   \n"@
}

/// The rank label and left border of the display row for board row `i`;
/// board row 0 is rank 1.
pub open spec fn rank_label_spec(i: int) -> Seq<char> {
    if i == 8 {
        "9 | "@
    } else if i == 7 {
        "8 | "@
    } else if i == 6 {
        "7 | "@
    } else if i == 5 {
        "6 | "@
    } else if i == 4 {
        "5 | "@
    } else if i == 3 {
        "4 | "@
    } else if i == 2 {
        "3 | "@
    } else if i == 1 {
        "2 | "@
    } else {
        "1 | "@
    }
}

impl Board {
    /// One display row: the rank label, then the nine cell glyphs in groups
    /// of three, each group closed by its border.
    pub open spec fn row_spec(self, i: int) -> Seq<char> {
        rank_label_spec(i) + seq![self.sq(i, 0).glyph()] + " "@ + seq![self.sq(i, 1).glyph()]
            + " "@ + seq![self.sq(i, 2).glyph()] + " "@ + "| "@ + seq![self.sq(i, 3).glyph()]
            + " "@ + seq![self.sq(i, 4).glyph()] + " "@ + seq![self.sq(i, 5).glyph()] + " "@
            + "| "@ + seq![self.sq(i, 6).glyph()] + " "@ + seq![self.sq(i, 7).glyph()] + " "@
            + seq![self.sq(i, 8).glyph()] + " "@ + "| "@ + "\n"@
    }

    /// The full 15-line display: rank 9 at the top down to rank 1, with a
    /// separator above each band of three rows and below the last.
    pub open spec fn render_spec(self) -> Seq<char> {
        blank_line_spec() + sep_line_spec() + self.row_spec(8) + self.row_spec(7) + self.row_spec(
            6,
        ) + sep_line_spec() + self.row_spec(5) + self.row_spec(4) + self.row_spec(3)
            + sep_line_spec() + self.row_spec(2) + self.row_spec(1) + self.row_spec(0)
            + sep_line_spec() + files_line_spec()
    }

    /// Round trip: a play made on the default board and then undone restores
    /// a board bit-identical to the default one. The hypotheses are exactly
    /// what `try_move` and `try_undo_move` ensure on success.
    pub proof fn lemma_move_undo_round_trip(
        b0: Board,
        b1: Board,
        b2: Board,
        n: Number,
        r0: int,
        c0: int,
    )
        requires
            b0.is_default_state(),
            valid_loc(r0, c0),
            b1.sq(r0, c0) == Square::PlayerMove(n),
            forall|r2: int, c2: int|
                valid_loc(r2, c2) && !(r2 == r0 && c2 == c0) ==> (#[trigger] b1.sq(r2,
                c2)).same_status(b0.sq(r2, c2)),
            b2.sq(r0, c0) is Incomplete,
            forall|r2: int, c2: int|
                valid_loc(r2, c2) && !(r2 == r0 && c2 == c0) ==> (#[trigger] b2.sq(r2,
                c2)).same_status(b1.sq(r2, c2)),
            b2.propagated(),
        ensures
            b2 == b0,
    {
        assert forall|r: int, c: int| valid_loc(r, c) implies (#[trigger] b2.sq(r,
        c)) is Incomplete by {
            if !(r == r0 && c == c0) {
                assert(b1.sq(r, c).same_status(b0.sq(r, c)));
                assert(b2.sq(r, c).same_status(b1.sq(r, c)));
            }
        }
        assert forall|r: int, c: int, d: int|
            valid_loc(r, c) && 1 <= d <= 9 implies #[trigger] b2.sq(r, c).has(d) by {
            assert(b2.cell_consistent(r, c));
            if b2.peer_commits(r, c, d) {
                let (r2, c2) = choose|r2: int, c2: int|
                    is_peer(r, c, r2, c2) && (#[trigger] b2.sq(r2, c2)).commits(d);
                assert(b2.sq(r2, c2) is Incomplete);
            }
        }
        assert forall|r: int, c: int| valid_loc(r, c) implies (#[trigger] b2.sq(r, c)).same_status(
            b0.sq(r, c),
        ) by {}
        Board::lemma_ext(b2, b0);
    }

    /// A commit blocks its own digit at every peer: on a board where the cell
    /// at `(r0, c0)` is committed to `n` and the invariant holds, `n` is not
    /// a candidate of any peer, so `try_move(n, ..)` there returns false.
    pub proof fn lemma_commit_blocks_peers(b: Board, n: Number, r0: int, c0: int, r2: int, c2: int)
        requires
            b.sq(r0, c0).commits(n.val()),
            b.propagated(),
            is_peer(r0, c0, r2, c2),
        ensures
            !b.sq(r2, c2).has(n.val()),
    {
        if b.sq(r2, c2) is Incomplete {
            assert(b.cell_consistent(r2, c2));
            assert(is_peer(r2, c2, r0, c0));
            assert(b.peer_commits(r2, c2, n.val()));
        }
    }

    fn rank_label(i: usize) -> (r: &'static str)
        requires
            i < 9,
        ensures
            r@ == rank_label_spec(i as int),
    {
        if i == 8 {
            "9 | "
        } else if i == 7 {
            "8 | "
        } else if i == 6 {
            "7 | "
        } else if i == 5 {
            "6 | "
        } else if i == 4 {
            "5 | "
        } else if i == 3 {
            "4 | "
        } else if i == 2 {
            "3 | "
        } else if i == 1 {
            "2 | "
        } else {
            "1 | "
        }
    }

    fn render_row(&self, i: usize) -> (out: String)
        requires
            i < 9,
        ensures
            out@ == self.row_spec(i as int),
    {
        let mut out = String::from_str(Self::rank_label(i));
        out.append(self.get((i, 0)).render());
        out.append(" ");
        out.append(self.get((i, 1)).render());
        out.append(" ");
        out.append(self.get((i, 2)).render());
        out.append(" ");
        out.append("| ");
        out.append(self.get((i, 3)).render());
        out.append(" ");
        out.append(self.get((i, 4)).render());
        out.append(" ");
        out.append(self.get((i, 5)).render());
        out.append(" ");
        out.append("| ");
        out.append(self.get((i, 6)).render());
        out.append(" ");
        out.append(self.get((i, 7)).render());
        out.append(" ");
        out.append(self.get((i, 8)).render());
        out.append(" ");
        out.append("| ");
        out.append("\n");
        out
    }

    /// The fixed 15-line ASCII picture of the board.
    pub fn render(&self) -> (out: String)
        ensures
            out@ == self.render_spec(),
    {
        let mut out = String::from_str("                            \n");
        out.append("  |-------|-------|-------| \n");
        let row8 = self.render_row(8);
        out.append(row8.as_str());
        let row7 = self.render_row(7);
        out.append(row7.as_str());
        let row6 = self.render_row(6);
        out.append(row6.as_str());
        out.append("  |-------|-------|-------| \n");
        let row5 = self.render_row(5);
        out.append(row5.as_str());
        let row4 = self.render_row(4);
        out.append(row4.as_str());
        let row3 = self.render_row(3);
        out.append(row3.as_str());
        out.append("  |-------|-------|-------| \n");
        let row2 = self.render_row(2);
        out.append(row2.as_str());
        let row1 = self.render_row(1);
        out.append(row1.as_str());
        let row0 = self.render_row(0);
        out.append(row0.as_str());
        out.append("  |-------|-------|-------| \n");
        out.append("    a b c   d e f   g h i   \n");
        out
    }
}

impl Default for Board {
    /// The board of 81 open cells, each with the full candidate set.
    fn default() -> (r: Self)
        ensures
            r.is_default_state(),
            r.propagated(),
    {
        let open_square = Square::default();
        let squares: [Square; 81] = [open_square; 81];
        let board = Board { squares };
        proof {
            let filled = vstd::array::spec_array_fill_for_copy_type::<Square, 81>(open_square);
            assert forall|r: int, c: int| valid_loc(r, c) implies (#[trigger] board.sq(r, c))
                == open_square by {
                assert(filled.view()[r * 9 + c] == open_square);
            }
        }
        board
    }
}

} // verus!
