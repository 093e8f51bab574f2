use vstd::prelude::*;

use crate::utils::{
    Pos,
    See,
    Visited,
    attacks,
    admitted_by,
    calc_squares,
    calc_unattacked,
    is_sees_table,
    row_squares,
    see_of,
    lemma_shares_line_iff_attacks,
    lemma_push_pop_round_trip,
};

verus! {

/// The outcome of a search: a full placement was found, or none exists below
/// the current trail.
#[derive(PartialEq, Eq, Structural, Debug, Clone, Copy)]
pub enum Placed {
    Success,
    Failure,
}

/// No queen of `prefix` attacks `p`.
pub open spec fn safe(prefix: Seq<Pos>, p: Pos) -> bool {
    forall|i: int| 0 <= i < prefix.len() ==> !attacks(#[trigger] prefix[i], p)
}

/// The squares of the next row that no queen of `prefix` attacks, in
/// increasing column order.
pub open spec fn candidates(n: int, prefix: Seq<Pos>) -> Seq<Pos> {
    row_squares(prefix.len() as int, n).filter(|p: Pos| safe(prefix, p))
}

/// The first full placement, in depth-first order with columns tried in
/// increasing order, that extends `prefix` row by row; `None` if there is none.
pub open spec fn first_completion(n: int, prefix: Seq<Pos>) -> Option<Seq<Pos>>
    decreases n - prefix.len(), 1int, 0int,
{
    if prefix.len() >= n {
        Some(prefix)
    } else {
        first_among(n, prefix, candidates(n, prefix))
    }
}

/// The first full placement that extends `prefix` by one of `cands`, tried
/// in order.
pub open spec fn first_among(n: int, prefix: Seq<Pos>, cands: Seq<Pos>) -> Option<Seq<Pos>>
    decreases n - prefix.len(), 0int, cands.len(),
{
    if cands.len() == 0 || prefix.len() >= n {
        None
    } else {
        match first_completion(n, prefix.push(cands[0])) {
            Some(s) => Some(s),
            None => first_among(n, prefix, cands.drop_first()),
        }
    }
}

/// Every square of `s` lies on the `n` x `n` board.
pub open spec fn on_board(n: int, s: Seq<Pos>) -> bool {
    forall|i: int| 0 <= i < s.len() ==> 0 <= (#[trigger] s[i]).0 < n && 0 <= s[i].1 < n
}

/// `s` holds one queen for each of its first rows, in row order, on the
/// board, and no two of them attack each other.
pub open spec fn is_partial(n: int, s: Seq<Pos>) -> bool {
    &&& s.len() <= n
    &&& on_board(n, s)
    &&& forall|i: int| 0 <= i < s.len() ==> (#[trigger] s[i]).0 == i
    &&& forall|i: int, j: int|
        0 <= i < s.len() && 0 <= j < s.len() && i != j ==> !attacks(#[trigger] s[i], #[trigger] s[j])
}

/// `s` is a solution: `n` queens, one in each row, none attacking another.
pub open spec fn is_solution(n: int, s: Seq<Pos>) -> bool {
    is_partial(n, s) && s.len() == n
}

proof fn lemma_filter_congruent(s: Seq<Pos>, f: spec_fn(Pos) -> bool, g: spec_fn(Pos) -> bool)
    requires
        forall|i: int| 0 <= i < s.len() ==> f(#[trigger] s[i]) == g(s[i]),
    ensures
        s.filter(f) == s.filter(g),
    decreases s.len(),
{
    reveal(Seq::filter);
    if s.len() > 0 {
        let t = s.drop_last();
        assert forall|i: int| 0 <= i < t.len() implies f(#[trigger] t[i]) == g(t[i]) by {
            assert(t[i] == s[i]);
        }
        lemma_filter_congruent(t, f, g);
    }
}

/// Under a trail whose signatures match its squares on the board, the squares
/// of the next row that `calc_unattacked` keeps are the candidates.
proof fn lemma_unattacked_are_candidates(visited: Visited, sees: Seq<Vec<See>>, n: int)
    requires
        visited.wf(),
        visited.signatures_match(),
        is_sees_table(sees, n),
        0 <= visited.pos@.len() < n <= 64,
        on_board(n, visited.pos@),
    ensures
        row_squares(visited.pos@.len() as int, n).filter(admitted_by(sees, visited)) == candidates(
            n,
            visited.pos@,
        ),
{
    let prefix = visited.pos@;
    let row = prefix.len() as int;
    let squares = row_squares(row, n);
    let f = admitted_by(sees, visited);
    let g = |p: Pos| safe(prefix, p);
    assert forall|k: int| 0 <= k < squares.len() implies f(#[trigger] squares[k]) == g(squares[k]) by {
        let p = squares[k];
        assert(p == Pos(row as i8, k as i8));
        assert(sees[row]@[k] == see_of(p));
        if visited.admits(see_of(p)) {
            assert forall|i: int| 0 <= i < prefix.len() implies !attacks(#[trigger] prefix[i], p) by {
                let q = prefix[i];
                lemma_shares_line_iff_attacks(q, p);
                assert(visited.seen@[i] == see_of(q));
                if visited.seen@[i].row == see_of(p).row {
                    assert(visited.rows@.contains(see_of(p).row));
                }
                if visited.seen@[i].col == see_of(p).col {
                    assert(visited.cols@.contains(see_of(p).col));
                }
                if visited.seen@[i].ldiag == see_of(p).ldiag {
                    assert(visited.ldiags@.contains(see_of(p).ldiag));
                }
                if visited.seen@[i].rdiag == see_of(p).rdiag {
                    assert(visited.rdiags@.contains(see_of(p).rdiag));
                }
            }
        }
        if safe(prefix, p) {
            if visited.rows@.contains(see_of(p).row) {
                let i = choose|i: int| 0 <= i < visited.seen@.len() && visited.seen@[i].row == see_of(p).row;
                lemma_shares_line_iff_attacks(prefix[i], p);
            }
            if visited.cols@.contains(see_of(p).col) {
                let i = choose|i: int| 0 <= i < visited.seen@.len() && visited.seen@[i].col == see_of(p).col;
                lemma_shares_line_iff_attacks(prefix[i], p);
            }
            if visited.ldiags@.contains(see_of(p).ldiag) {
                let i = choose|i: int| 0 <= i < visited.seen@.len() && visited.seen@[i].ldiag == see_of(p).ldiag;
                lemma_shares_line_iff_attacks(prefix[i], p);
            }
            if visited.rdiags@.contains(see_of(p).rdiag) {
                let i = choose|i: int| 0 <= i < visited.seen@.len() && visited.seen@[i].rdiag == see_of(p).rdiag;
                lemma_shares_line_iff_attacks(prefix[i], p);
            }
        }
    }
    lemma_filter_congruent(squares, f, g);
}

/// Places queens on rows `row..n`, row by row, above the trail `visited`
/// that holds rows `0..row`.
///
/// Each row's free squares are tried in increasing column order: a queen is
/// pushed and the next row searched. On `Success` the trail holds the first
/// full placement found and is left in place; on `Failure` every tentative
/// queen has been popped and the trail is as it was.
pub fn place_queens(visited: &mut Visited, sees: &Vec<Vec<See>>, row: usize, n: usize) -> (r: Placed)
    requires
        old(visited).wf(),
        old(visited).signatures_match(),
        is_sees_table(sees@, n as int),
        n <= 64,
        row <= n,
        old(visited).pos@.len() == row,
        on_board(n as int, old(visited).pos@),
    ensures
        final(visited).wf(),
        final(visited).signatures_match(),
        on_board(n as int, final(visited).pos@),
        r == Placed::Success <==> first_completion(n as int, old(visited).pos@) is Some,
        r == Placed::Success ==> first_completion(n as int, old(visited).pos@) == Some(
            final(visited).pos@,
        ),
        r == Placed::Success && is_partial(n as int, old(visited).pos@) ==> is_solution(
            n as int,
            final(visited).pos@,
        ),
        r == Placed::Failure ==> final(visited).same_as(old(visited)),
    decreases n - row,
{
    proof {
        if is_partial(n as int, old(visited).pos@) {
            lemma_completion_sound(n as int, old(visited).pos@);
        }
    }
    if row == n {
        return Placed::Success;
    }
    let ghost prefix = visited.pos@;
    let squares: Vec<Pos> = calc_squares(row, n);
    let unattacked: Vec<Pos> = calc_unattacked(&squares, visited, sees);
    proof {
        lemma_unattacked_are_candidates(*visited, sees@, n as int);
        assert(unattacked@ == candidates(n as int, prefix));
        assert(unattacked@.subrange(0, unattacked@.len() as int) =~= unattacked@);
    }
    let mut i: usize = 0;
    while i < unattacked.len()
        invariant
            i <= unattacked@.len(),
            row < n <= 64,
            is_sees_table(sees@, n as int),
            prefix == old(visited).pos@,
            prefix.len() == row,
            unattacked@ == candidates(n as int, prefix),
            visited.wf(),
            visited.signatures_match(),
            visited.same_as(old(visited)),
            on_board(n as int, prefix),
            is_partial(n as int, prefix) ==> (first_completion(n as int, prefix) matches Some(s)
                ==> is_solution(n as int, s)),
            first_completion(n as int, prefix) == first_among(
                n as int,
                prefix,
                unattacked@.subrange(i as int, unattacked@.len() as int),
            ),
        decreases unattacked@.len() - i,
    {
        let pos: Pos = unattacked[i];
        let ghost rest = unattacked@.subrange(i as int, unattacked@.len() as int);
        proof {
            assert(rest[0] == pos);
            assert(rest.drop_first() =~= unattacked@.subrange(i + 1, unattacked@.len() as int));
            assert(candidates(n as int, prefix).contains(pos));
            row_squares(row as int, n as int).lemma_filter_contains_rev(|p: Pos| safe(prefix, p), pos);
            assert(row_squares(row as int, n as int).contains(pos));
        }
        let see: See = sees[pos.0 as usize][pos.1 as usize];
        let ghost before = *visited;
        proof {
            assert(see == see_of(pos));
            assert(on_board(n as int, prefix.push(pos)));
            assert(visited.admits(see)) by {
                assert(unattacked@.contains(pos));
                assert(row_squares(row as int, n as int).filter(admitted_by(sees@, before)).contains(pos));
            }
        }
        visited.push(&pos, &see);
        match place_queens(visited, sees, row + 1, n) {
            Placed::Success => {
                return Placed::Success;
            },
            Placed::Failure => {
                let ghost pushed = *visited;
                visited.pop();
                proof {
                    lemma_push_pop_round_trip(before, pushed, *visited, pos, see);
                }
            },
        }
        i += 1;
    }
    Placed::Failure
}

/// Every completion that the search finds from a valid partial placement is a
/// full solution that begins with that placement.
pub proof fn lemma_completion_sound(n: int, prefix: Seq<Pos>)
    requires
        n <= 64,
        is_partial(n, prefix),
    ensures
        first_completion(n, prefix) matches Some(s) ==> is_solution(n, s) && prefix.len() <= s.len()
            && s.subrange(0, prefix.len() as int) == prefix,
    decreases n - prefix.len(), 1int, 0int,
{
    if prefix.len() >= n {
        assert(prefix.subrange(0, prefix.len() as int) =~= prefix);
    } else {
        let cands = candidates(n, prefix);
        assert forall|k: int| 0 <= k < cands.len() implies (#[trigger] cands[k]).0 == prefix.len() && 0
            <= cands[k].1 < n && safe(prefix, cands[k]) by {
            row_squares(prefix.len() as int, n).lemma_filter_pred(|p: Pos| safe(prefix, p), k);
            assert(cands.contains(cands[k]));
            row_squares(prefix.len() as int, n).lemma_filter_contains_rev(
                |p: Pos| safe(prefix, p),
                cands[k],
            );
        }
        lemma_among_sound(n, prefix, cands);
    }
}

/// The search over a list of safe squares of the next row finds only full
/// solutions that begin with `prefix`.
pub proof fn lemma_among_sound(n: int, prefix: Seq<Pos>, cands: Seq<Pos>)
    requires
        n <= 64,
        is_partial(n, prefix),
        forall|k: int|
            0 <= k < cands.len() ==> (#[trigger] cands[k]).0 == prefix.len() && 0 <= cands[k].1 < n
                && safe(prefix, cands[k]),
    ensures
        first_among(n, prefix, cands) matches Some(s) ==> is_solution(n, s) && prefix.len() <= s.len()
            && s.subrange(0, prefix.len() as int) == prefix,
    decreases n - prefix.len(), 0int, cands.len(),
{
    if cands.len() > 0 && prefix.len() < n {
        let p = cands[0];
        let next = prefix.push(p);
        assert(is_partial(n, next)) by {
            assert forall|i: int, j: int|
                0 <= i < next.len() && 0 <= j < next.len() && i != j implies !attacks(
                #[trigger] next[i],
                #[trigger] next[j],
            ) by {
                if i < prefix.len() && j < prefix.len() {
                    assert(next[i] == prefix[i] && next[j] == prefix[j]);
                } else if i < prefix.len() {
                    assert(next[i] == prefix[i] && !attacks(prefix[i], p));
                } else {
                    assert(next[j] == prefix[j] && !attacks(prefix[j], p));
                }
            }
        }
        lemma_completion_sound(n, next);
        match first_completion(n, next) {
            Some(s) => {
                assert(s.subrange(0, prefix.len() as int) =~= s.subrange(0, next.len() as int).subrange(
                    0,
                    prefix.len() as int,
                ));
                assert(prefix =~= next.subrange(0, prefix.len() as int));
            },
            None => {
                let rest = cands.drop_first();
                assert forall|k: int| 0 <= k < rest.len() implies (#[trigger] rest[k]).0 == prefix.len()
                    && 0 <= rest[k].1 < n && safe(prefix, rest[k]) by {
                    assert(rest[k] == cands[k + 1]);
                }
                lemma_among_sound(n, prefix, rest);
            },
        }
    }
}

/// A valid partial placement that some solution begins with has a completion:
/// the search does not miss it.
pub proof fn lemma_completion_complete(n: int, prefix: Seq<Pos>, s: Seq<Pos>)
    requires
        0 <= n <= 64,
        is_partial(n, prefix),
        is_solution(n, s),
        prefix.len() <= s.len(),
        s.subrange(0, prefix.len() as int) == prefix,
    ensures
        first_completion(n, prefix) is Some,
    decreases n - prefix.len(), 1int, 0int,
{
    if prefix.len() < n {
        let len = prefix.len() as int;
        let p = s[len];
        let squares = row_squares(len, n);
        assert(squares[p.1 as int] == p);
        assert(safe(prefix, p)) by {
            assert forall|i: int| 0 <= i < prefix.len() implies !attacks(#[trigger] prefix[i], p) by {
                assert(prefix[i] == s.subrange(0, len)[i]);
            }
        }
        squares.lemma_filter_contains(|q: Pos| safe(prefix, q), p.1 as int);
        lemma_among_complete(n, prefix, candidates(n, prefix), s);
    }
}

/// The search over a list that holds the next square of a solution beginning
/// with `prefix` finds a completion.
pub proof fn lemma_among_complete(n: int, prefix: Seq<Pos>, cands: Seq<Pos>, s: Seq<Pos>)
    requires
        0 <= n <= 64,
        is_partial(n, prefix),
        is_solution(n, s),
        prefix.len() < s.len(),
        s.subrange(0, prefix.len() as int) == prefix,
        cands.contains(s[prefix.len() as int]),
    ensures
        first_among(n, prefix, cands) is Some,
    decreases n - prefix.len(), 0int, cands.len(),
{
    let len = prefix.len() as int;
    let next = prefix.push(cands[0]);
    if cands[0] == s[len] {
        assert(s.subrange(0, len + 1) =~= next);
        assert(is_partial(n, next)) by {
            assert forall|i: int| 0 <= i < next.len() implies #[trigger] next[i] == s[i] by {}
        }
        lemma_completion_complete(n, next, s);
    } else if first_completion(n, next) is None {
        let k = choose|k: int| 0 <= k < cands.len() && cands[k] == s[len];
        assert(cands.drop_first()[k - 1] == s[len]);
        lemma_among_complete(n, prefix, cands.drop_first(), s);
    }
}

/// A placement that the search returns from the empty board is a solution:
/// `n` queens, one per row, and no two of them share a row, a column or a
/// diagonal.
pub proof fn lemma_found_is_solution(n: int, s: Seq<Pos>)
    requires
        0 <= n <= 64,
        first_completion(n, Seq::empty()) == Some(s),
    ensures
        is_solution(n, s),
        s.len() == n,
        forall|i: int, j: int|
            0 <= i < s.len() && 0 <= j < s.len() && i != j ==> {
                &&& (#[trigger] s[i]).0 != (#[trigger] s[j]).0
                &&& s[i].1 != s[j].1
                &&& s[i].0 - s[i].1 != s[j].0 - s[j].1
                &&& s[i].0 + s[i].1 != s[j].0 + s[j].1
            },
{
    lemma_completion_sound(n, Seq::empty());
}

/// The search from the empty board fails only where no solution exists.
pub proof fn lemma_failure_means_no_solution(n: int, s: Seq<Pos>)
    requires
        0 <= n <= 64,
        first_completion(n, Seq::empty()) is None,
    ensures
        !is_solution(n, s),
{
    if is_solution(n, s) {
        assert(s.subrange(0, 0) =~= Seq::<Pos>::empty());
        lemma_completion_complete(n, Seq::empty(), s);
    }
}

/// The search is deterministic: two runs on the same board size from the
/// empty board return the same placement, not merely two valid ones.
pub proof fn lemma_search_deterministic(n: int, a: Seq<Pos>, b: Seq<Pos>)
    requires
        first_completion(n, Seq::empty()) == Some(a),
        first_completion(n, Seq::empty()) == Some(b),
    ensures
        a == b,
{
}

} // verus!
