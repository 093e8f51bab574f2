use std::collections::HashSet;
use vstd::prelude::*;

verus! {

broadcast use vstd::std_specs::hash::group_hash_axioms;

/// A square of the board: (row, column).
#[derive(PartialEq, Eq, Structural, Debug, Clone, Copy, Hash, PartialOrd, Ord)]
pub struct Pos(pub i8, pub i8);

/// The four lines through a square: its row, its column, its left diagonal
/// (row - column) and its right diagonal (row + column).
#[derive(PartialEq, Eq, Structural, Debug, Clone, Copy)]
pub struct See {
    pub row: i8,
    pub col: i8,
    pub ldiag: i8,
    pub rdiag: i8,
}

/// Both diagonals of `p` fit in an `i8`.
pub open spec fn diagonals_fit(p: Pos) -> bool {
    i8::MIN <= p.0 - p.1 <= i8::MAX && i8::MIN <= p.0 + p.1 <= i8::MAX
}

/// The signature of a square.
pub open spec fn see_of(p: Pos) -> See {
    See { row: p.0, col: p.1, ldiag: (p.0 - p.1) as i8, rdiag: (p.0 + p.1) as i8 }
}

/// Two queens attack each other: same row, column or diagonal.
pub open spec fn attacks(p: Pos, q: Pos) -> bool {
    p.0 == q.0 || p.1 == q.1 || p.0 - p.1 == q.0 - q.1 || p.0 + p.1 == q.0 + q.1
}

/// Two signatures have a line in common.
pub open spec fn shares_line(s: See, t: See) -> bool {
    s.row == t.row || s.col == t.col || s.ldiag == t.ldiag || s.rdiag == t.rdiag
}

/// For squares whose diagonals fit, sharing a line is attacking.
pub proof fn lemma_shares_line_iff_attacks(p: Pos, q: Pos)
    requires
        diagonals_fit(p),
        diagonals_fit(q),
    ensures
        shares_line(see_of(p), see_of(q)) == attacks(p, q),
{
}

impl See {
    /// A queen on `pos` sees every square of its row, its column and its two
    /// diagonals. Squares on one left diagonal share row - column, squares on
    /// one right diagonal share row + column.
    pub fn new(pos: &Pos) -> (r: See)
        requires
            diagonals_fit(*pos),
        ensures
            r == see_of(*pos),
    {
        let (r, c) = (pos.0, pos.1);
        See { row: r, col: c, ldiag: r - c, rdiag: r + c }
    }
}

/// The trail of placed queens with the lines they occupy.
pub struct Visited {
    pub pos: Vec<Pos>,
    pub seen: Vec<See>,
    pub rows: HashSet<i8>,
    pub cols: HashSet<i8>,
    pub ldiags: HashSet<i8>,
    pub rdiags: HashSet<i8>,
}

/// The rows occupied by a sequence of signatures.
pub open spec fn rows_of(seen: Seq<See>) -> Set<i8> {
    Set::new(|x: i8| exists|i: int| 0 <= i < seen.len() && seen[i].row == x)
}

/// The columns occupied by a sequence of signatures.
pub open spec fn cols_of(seen: Seq<See>) -> Set<i8> {
    Set::new(|x: i8| exists|i: int| 0 <= i < seen.len() && seen[i].col == x)
}

/// The left diagonals occupied by a sequence of signatures.
pub open spec fn ldiags_of(seen: Seq<See>) -> Set<i8> {
    Set::new(|x: i8| exists|i: int| 0 <= i < seen.len() && seen[i].ldiag == x)
}

/// The right diagonals occupied by a sequence of signatures.
pub open spec fn rdiags_of(seen: Seq<See>) -> Set<i8> {
    Set::new(|x: i8| exists|i: int| 0 <= i < seen.len() && seen[i].rdiag == x)
}

/// No two signatures of the sequence share a line.
pub open spec fn lines_distinct(seen: Seq<See>) -> bool {
    forall|i: int, j: int|
        0 <= i < seen.len() && 0 <= j < seen.len() && i != j ==> !shares_line(
            #[trigger] seen[i],
            #[trigger] seen[j],
        )
}

impl Visited {
    /// The four sets hold exactly the lines of the signatures on the trail,
    /// each line at most once, and there is one signature per square.
    pub open spec fn wf(&self) -> bool {
        &&& self.pos@.len() == self.seen@.len()
        &&& self.rows@ == rows_of(self.seen@)
        &&& self.cols@ == cols_of(self.seen@)
        &&& self.ldiags@ == ldiags_of(self.seen@)
        &&& self.rdiags@ == rdiags_of(self.seen@)
        &&& lines_distinct(self.seen@)
    }

    /// Each signature on the trail is the one of its square.
    pub open spec fn signatures_match(&self) -> bool {
        forall|i: int| 0 <= i < self.seen@.len() ==> #[trigger] self.seen@[i] == see_of(self.pos@[i])
    }

    /// No line of `see` is occupied.
    pub open spec fn admits(&self, see: See) -> bool {
        &&& !self.rows@.contains(see.row)
        &&& !self.cols@.contains(see.col)
        &&& !self.ldiags@.contains(see.ldiag)
        &&& !self.rdiags@.contains(see.rdiag)
    }

    /// `self` is `prev` with `pos` and `see` added on top.
    pub open spec fn pushed_from(&self, prev: &Visited, pos: Pos, see: See) -> bool {
        &&& self.pos@ == prev.pos@.push(pos)
        &&& self.seen@ == prev.seen@.push(see)
        &&& self.rows@ == prev.rows@.insert(see.row)
        &&& self.cols@ == prev.cols@.insert(see.col)
        &&& self.ldiags@ == prev.ldiags@.insert(see.ldiag)
        &&& self.rdiags@ == prev.rdiags@.insert(see.rdiag)
    }

    /// `self` is `prev` with its top square and signature taken off.
    pub open spec fn popped_from(&self, prev: &Visited) -> bool {
        let see = prev.seen@.last();
        &&& self.pos@ == prev.pos@.drop_last()
        &&& self.seen@ == prev.seen@.drop_last()
        &&& self.rows@ == prev.rows@.remove(see.row)
        &&& self.cols@ == prev.cols@.remove(see.col)
        &&& self.ldiags@ == prev.ldiags@.remove(see.ldiag)
        &&& self.rdiags@ == prev.rdiags@.remove(see.rdiag)
    }

    /// The same trail, contents and sets.
    pub open spec fn same_as(&self, other: &Visited) -> bool {
        &&& self.pos@ == other.pos@
        &&& self.seen@ == other.seen@
        &&& self.rows@ == other.rows@
        &&& self.cols@ == other.cols@
        &&& self.ldiags@ == other.ldiags@
        &&& self.rdiags@ == other.rdiags@
    }

    /// An empty trail.
    pub fn new() -> (r: Visited)
        ensures
            r.wf(),
            r.pos@.len() == 0,
            r.seen@.len() == 0,
            r.rows@.is_empty(),
            r.cols@.is_empty(),
            r.ldiags@.is_empty(),
            r.rdiags@.is_empty(),
    {
        let r = Visited {
            pos: Vec::new(),
            seen: Vec::new(),
            rows: HashSet::new(),
            cols: HashSet::new(),
            ldiags: HashSet::new(),
            rdiags: HashSet::new(),
        };
        assert(r.rows@ =~= rows_of(r.seen@));
        assert(r.cols@ =~= cols_of(r.seen@));
        assert(r.ldiags@ =~= ldiags_of(r.seen@));
        assert(r.rdiags@ =~= rdiags_of(r.seen@));
        r
    }

    /// Places `pos`, with signature `see`, on top of the trail.
    pub fn push(&mut self, pos: &Pos, see: &See)
        requires
            old(self).wf(),
            old(self).admits(*see),
        ensures
            final(self).wf(),
            final(self).pushed_from(old(self), *pos, *see),
    {
        proof {
            let s = old(self).seen@.push(*see);
            assert(rows_of(s) =~= old(self).rows@.insert(see.row)) by {
                assert(s[s.len() - 1] == *see);
                assert forall|x: i8| old(self).rows@.contains(x) implies rows_of(s).contains(x) by {
                    let i = choose|i: int| 0 <= i < old(self).seen@.len() && old(self).seen@[i].row == x;
                    assert(s[i] == old(self).seen@[i]);
                }
            }
            assert(cols_of(s) =~= old(self).cols@.insert(see.col)) by {
                assert(s[s.len() - 1] == *see);
                assert forall|x: i8| old(self).cols@.contains(x) implies cols_of(s).contains(x) by {
                    let i = choose|i: int| 0 <= i < old(self).seen@.len() && old(self).seen@[i].col == x;
                    assert(s[i] == old(self).seen@[i]);
                }
            }
            assert(ldiags_of(s) =~= old(self).ldiags@.insert(see.ldiag)) by {
                assert(s[s.len() - 1] == *see);
                assert forall|x: i8| old(self).ldiags@.contains(x) implies ldiags_of(s).contains(x) by {
                    let i = choose|i: int| 0 <= i < old(self).seen@.len() && old(self).seen@[i].ldiag == x;
                    assert(s[i] == old(self).seen@[i]);
                }
            }
            assert(rdiags_of(s) =~= old(self).rdiags@.insert(see.rdiag)) by {
                assert(s[s.len() - 1] == *see);
                assert forall|x: i8| old(self).rdiags@.contains(x) implies rdiags_of(s).contains(x) by {
                    let i = choose|i: int| 0 <= i < old(self).seen@.len() && old(self).seen@[i].rdiag == x;
                    assert(s[i] == old(self).seen@[i]);
                }
            }
            assert forall|i: int, j: int|
                0 <= i < s.len() && 0 <= j < s.len() && i != j implies !shares_line(
                    #[trigger] s[i],
                    #[trigger] s[j],
                ) by {
                if i == s.len() - 1 {
                    assert(old(self).rows@.contains(s[j].row));
                    assert(old(self).cols@.contains(s[j].col));
                    assert(old(self).ldiags@.contains(s[j].ldiag));
                    assert(old(self).rdiags@.contains(s[j].rdiag));
                } else if j == s.len() - 1 {
                    assert(old(self).rows@.contains(s[i].row));
                    assert(old(self).cols@.contains(s[i].col));
                    assert(old(self).ldiags@.contains(s[i].ldiag));
                    assert(old(self).rdiags@.contains(s[i].rdiag));
                } else {
                    assert(s[i] == old(self).seen@[i] && s[j] == old(self).seen@[j]);
                }
            }
        }
        self.pos.push(*pos);
        self.seen.push(*see);
        self.rows.insert(see.row);
        self.cols.insert(see.col);
        self.ldiags.insert(see.ldiag);
        self.rdiags.insert(see.rdiag);
    }

    /// Takes the top square and its signature off the trail.
    pub fn pop(&mut self)
        requires
            old(self).wf(),
            old(self).seen@.len() > 0,
        ensures
            final(self).wf(),
            final(self).popped_from(old(self)),
    {
        let end: usize = self.seen.len() - 1;
        let see: See = self.seen[end];
        proof {
            let s = old(self).seen@;
            let t = s.drop_last();
            assert(rows_of(t) =~= rows_of(s).remove(see.row)) by {
                assert forall|x: i8| rows_of(s).contains(x) && x != see.row implies rows_of(t).contains(x) by {
                    let i = choose|i: int| 0 <= i < s.len() && s[i].row == x;
                    assert(t[i] == s[i]);
                }
                assert forall|x: i8| rows_of(t).contains(x) implies x != see.row by {
                    let i = choose|i: int| 0 <= i < t.len() && t[i].row == x;
                    assert(t[i] == s[i] && !shares_line(s[i], s[end as int]));
                }
            }
            assert(cols_of(t) =~= cols_of(s).remove(see.col)) by {
                assert forall|x: i8| cols_of(s).contains(x) && x != see.col implies cols_of(t).contains(x) by {
                    let i = choose|i: int| 0 <= i < s.len() && s[i].col == x;
                    assert(t[i] == s[i]);
                }
                assert forall|x: i8| cols_of(t).contains(x) implies x != see.col by {
                    let i = choose|i: int| 0 <= i < t.len() && t[i].col == x;
                    assert(t[i] == s[i] && !shares_line(s[i], s[end as int]));
                }
            }
            assert(ldiags_of(t) =~= ldiags_of(s).remove(see.ldiag)) by {
                assert forall|x: i8| ldiags_of(s).contains(x) && x != see.ldiag implies ldiags_of(t).contains(x) by {
                    let i = choose|i: int| 0 <= i < s.len() && s[i].ldiag == x;
                    assert(t[i] == s[i]);
                }
                assert forall|x: i8| ldiags_of(t).contains(x) implies x != see.ldiag by {
                    let i = choose|i: int| 0 <= i < t.len() && t[i].ldiag == x;
                    assert(t[i] == s[i] && !shares_line(s[i], s[end as int]));
                }
            }
            assert(rdiags_of(t) =~= rdiags_of(s).remove(see.rdiag)) by {
                assert forall|x: i8| rdiags_of(s).contains(x) && x != see.rdiag implies rdiags_of(t).contains(x) by {
                    let i = choose|i: int| 0 <= i < s.len() && s[i].rdiag == x;
                    assert(t[i] == s[i]);
                }
                assert forall|x: i8| rdiags_of(t).contains(x) implies x != see.rdiag by {
                    let i = choose|i: int| 0 <= i < t.len() && t[i].rdiag == x;
                    assert(t[i] == s[i] && !shares_line(s[i], s[end as int]));
                }
            }
            assert forall|i: int, j: int|
                0 <= i < t.len() && 0 <= j < t.len() && i != j implies !shares_line(
                    #[trigger] t[i],
                    #[trigger] t[j],
                ) by {
                assert(t[i] == s[i] && t[j] == s[j]);
            }
        }
        self.rows.remove(&see.row);
        self.cols.remove(&see.col);
        self.ldiags.remove(&see.ldiag);
        self.rdiags.remove(&see.rdiag);
        self.seen.remove(end);
        self.pos.remove(end);
        proof {
            assert(self.seen@ =~= old(self).seen@.drop_last());
            assert(self.pos@ =~= old(self).pos@.drop_last());
        }
    }

    /// Whether a queen with signature `see` can be placed: none of its four
    /// lines is occupied.
    pub fn can_push(&self, see: &See) -> (r: bool)
        ensures
            r == self.admits(*see),
    {
        !(self.rows.contains(&see.row) || self.cols.contains(&see.col) || self.ldiags.contains(
            &see.ldiag,
        ) || self.rdiags.contains(&see.rdiag))
    }
}

/// Pushing a signature that the trail admits and popping it again gives back
/// the trail as it was: its squares, its signatures and all four sets.
pub proof fn lemma_push_pop_round_trip(v0: Visited, v1: Visited, v2: Visited, pos: Pos, see: See)
    requires
        v0.wf(),
        v0.admits(see),
        v1.pushed_from(&v0, pos, see),
        v2.popped_from(&v1),
    ensures
        v2.same_as(&v0),
{
    assert(v2.pos@ =~= v0.pos@);
    assert(v2.seen@ =~= v0.seen@);
    assert(v2.rows@ =~= v0.rows@);
    assert(v2.cols@ =~= v0.cols@);
    assert(v2.ldiags@ =~= v0.ldiags@);
    assert(v2.rdiags@ =~= v0.rdiags@);
}

/// The occupied lines, and so the answer of `can_push`, depend only on which
/// signatures were placed, not on the order in which they were placed.
pub proof fn lemma_attack_sets_order_free(a: Visited, b: Visited)
    requires
        a.wf(),
        b.wf(),
        forall|s: See| a.seen@.contains(s) <==> b.seen@.contains(s),
    ensures
        a.rows@ == b.rows@,
        a.cols@ == b.cols@,
        a.ldiags@ == b.ldiags@,
        a.rdiags@ == b.rdiags@,
        forall|see: See| a.admits(see) == b.admits(see),
{
    assert forall|s: See| a.seen@.contains(s) implies b.seen@.contains(s) by {}
    assert(a.rows@ =~= b.rows@) by {
        assert forall|x: i8| a.rows@.contains(x) implies b.rows@.contains(x) by {
            let i = choose|i: int| 0 <= i < a.seen@.len() && a.seen@[i].row == x;
            assert(b.seen@.contains(a.seen@[i]));
        }
        assert forall|x: i8| b.rows@.contains(x) implies a.rows@.contains(x) by {
            let i = choose|i: int| 0 <= i < b.seen@.len() && b.seen@[i].row == x;
            assert(a.seen@.contains(b.seen@[i]));
        }
    }
    assert(a.cols@ =~= b.cols@) by {
        assert forall|x: i8| a.cols@.contains(x) implies b.cols@.contains(x) by {
            let i = choose|i: int| 0 <= i < a.seen@.len() && a.seen@[i].col == x;
            assert(b.seen@.contains(a.seen@[i]));
        }
        assert forall|x: i8| b.cols@.contains(x) implies a.cols@.contains(x) by {
            let i = choose|i: int| 0 <= i < b.seen@.len() && b.seen@[i].col == x;
            assert(a.seen@.contains(b.seen@[i]));
        }
    }
    assert(a.ldiags@ =~= b.ldiags@) by {
        assert forall|x: i8| a.ldiags@.contains(x) implies b.ldiags@.contains(x) by {
            let i = choose|i: int| 0 <= i < a.seen@.len() && a.seen@[i].ldiag == x;
            assert(b.seen@.contains(a.seen@[i]));
        }
        assert forall|x: i8| b.ldiags@.contains(x) implies a.ldiags@.contains(x) by {
            let i = choose|i: int| 0 <= i < b.seen@.len() && b.seen@[i].ldiag == x;
            assert(a.seen@.contains(b.seen@[i]));
        }
    }
    assert(a.rdiags@ =~= b.rdiags@) by {
        assert forall|x: i8| a.rdiags@.contains(x) implies b.rdiags@.contains(x) by {
            let i = choose|i: int| 0 <= i < a.seen@.len() && a.seen@[i].rdiag == x;
            assert(b.seen@.contains(a.seen@[i]));
        }
        assert forall|x: i8| b.rdiags@.contains(x) implies a.rdiags@.contains(x) by {
            let i = choose|i: int| 0 <= i < b.seen@.len() && b.seen@[i].rdiag == x;
            assert(a.seen@.contains(b.seen@[i]));
        }
    }
}

/// The squares of one row of an `n`-column board, in increasing column order.
pub open spec fn row_squares(row: int, n: int) -> Seq<Pos> {
    Seq::new(n as nat, |c: int| Pos(row as i8, c as i8))
}

/// `sees` gives, at `[r][c]`, the signature of each square of an `n` x `n` board.
pub open spec fn is_sees_table(sees: Seq<Vec<See>>, n: int) -> bool {
    &&& sees.len() == n
    &&& forall|r: int| 0 <= r < n ==> (#[trigger] sees[r])@.len() == n
    &&& forall|r: int, c: int|
        0 <= r < n && 0 <= c < n ==> #[trigger] sees[r]@[c] == see_of(Pos(r as i8, c as i8))
}

/// `p` has an entry in `sees`.
pub open spec fn in_table(sees: Seq<Vec<See>>, p: Pos) -> bool {
    0 <= p.0 < sees.len() && 0 <= p.1 < sees[p.0 as int]@.len()
}

/// The entry of `p` in `sees`.
pub open spec fn table_see(sees: Seq<Vec<See>>, p: Pos) -> See {
    sees[p.0 as int]@[p.1 as int]
}

/// `p` has an entry in `sees`, and `visited` admits it.
pub open spec fn table_admits(sees: Seq<Vec<See>>, visited: Visited, p: Pos) -> bool {
    in_table(sees, p) && visited.admits(table_see(sees, p))
}

/// The test that `calc_unattacked` applies to each square.
pub open spec fn admitted_by(sees: Seq<Vec<See>>, visited: Visited) -> spec_fn(Pos) -> bool {
    |p: Pos| table_admits(sees, visited, p)
}

/// The `n` squares of row `row`, columns in increasing order.
pub fn calc_squares(row: usize, n: usize) -> (r: Vec<Pos>)
    requires
        row <= i8::MAX,
        n <= i8::MAX + 1,
    ensures
        r@ == row_squares(row as int, n as int),
{
    let mut squares: Vec<Pos> = vec![];
    let mut col: usize = 0;
    while col < n
        invariant
            col <= n,
            n <= i8::MAX + 1,
            row <= i8::MAX,
            squares@ =~= row_squares(row as int, col as int),
        decreases n - col,
    {
        let pos: Pos = Pos(row as i8, col as i8);
        squares.push(pos);
        col += 1;
    }
    squares
}

/// The signature of every square of an `n` x `n` board, by row and column.
pub fn calc_sees(n: usize) -> (r: Vec<Vec<See>>)
    requires
        n <= 64,
    ensures
        is_sees_table(r@, n as int),
{
    let mut sees: Vec<Vec<See>> = Vec::new();
    let mut row: usize = 0;
    while row < n
        invariant
            row <= n <= 64,
            sees@.len() == row,
            forall|r: int| 0 <= r < row ==> (#[trigger] sees@[r])@.len() == n,
            forall|r: int, c: int|
                0 <= r < row && 0 <= c < n ==> #[trigger] sees@[r]@[c] == see_of(
                    Pos(r as i8, c as i8),
                ),
        decreases n - row,
    {
        let mut line: Vec<See> = Vec::new();
        let mut col: usize = 0;
        while col < n
            invariant
                row < n <= 64,
                col <= n,
                line@.len() == col,
                forall|c: int| 0 <= c < col ==> #[trigger] line@[c] == see_of(Pos(row as i8, c as i8)),
            decreases n - col,
        {
            let pos: Pos = Pos(row as i8, col as i8);
            let see: See = See::new(&pos);
            line.push(see);
            col += 1;
        }
        sees.push(line);
        row += 1;
    }
    sees
}

/// The squares of `squares`, in their order, that have an entry in `sees`
/// and that `visited` admits.
pub fn calc_unattacked(squares: &[Pos], visited: &Visited, sees: &Vec<Vec<See>>) -> (r: Vec<Pos>)
    ensures
        r@ == squares@.filter(admitted_by(sees@, *visited)),
{
    let ghost pred = admitted_by(sees@, *visited);
    let mut unattacked: Vec<Pos> = vec![];
    let mut i: usize = 0;
    while i < squares.len()
        invariant
            i <= squares@.len(),
            pred == admitted_by(sees@, *visited),
            unattacked@ == squares@.subrange(0, i as int).filter(pred),
        decreases squares@.len() - i,
    {
        let pos = squares[i];
        let mut keep: bool = false;
        if 0 <= pos.0 && (pos.0 as usize) < sees.len() && 0 <= pos.1 && (pos.1 as usize)
            < sees[pos.0 as usize].len() {
            let see = sees[pos.0 as usize][pos.1 as usize];
            keep = visited.can_push(&see);
        }
        proof {
            let next = squares@.subrange(0, i + 1);
            assert(next.drop_last() =~= squares@.subrange(0, i as int));
            assert(next.last() == pos);
            assert(keep == table_admits(sees@, *visited, pos));
            assert(pred == admitted_by(sees@, *visited));
            assert(admitted_by(sees@, *visited)(pos) == table_admits(sees@, *visited, pos));
            assert(keep == pred(pos));
            reveal(Seq::filter);
            assert(next.filter(pred) == if pred(pos) {
                squares@.subrange(0, i as int).filter(pred).push(pos)
            } else {
                squares@.subrange(0, i as int).filter(pred)
            });
        }
        if keep {
            unattacked.push(pos);
        }
        i += 1;
    }
    proof {
        assert(squares@.subrange(0, squares@.len() as int) =~= squares@);
    }
    unattacked
}

} // verus!
