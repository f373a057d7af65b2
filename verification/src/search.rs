//! The search engine: recursive constrained backtracking over the 81
//! positions in row-major order, trying candidate digits in ascending
//! order and propagating the first success.
//!
//! The working grid starts as a copy of the input. A position holding a
//! clue keeps it; an empty position takes any digit its three units still
//! allow. The contracts pin the outcome completely: a returned grid is a
//! solution, it is the lexicographically least one, and a dead end means
//! no solution exists.

use crate::constraints::constraints_for_pos;
use crate::constraints::digit_blocked;
use crate::constraints::pos_constraints;
use crate::grid::cell_ok;
use crate::grid::cluster;
use crate::grid::filled;
use crate::grid::grid_ok;
use vstd::prelude::*;

verus! {

/// Every cell of the grid holds a digit.
pub open spec fn complete(g: Seq<i8>) -> bool {
    forall|i: int| 0 <= i < 81 ==> filled(#[trigger] g[i])
}

/// Every clue of `f` is kept unchanged in `g`.
pub open spec fn extends(f: Seq<i8>, g: Seq<i8>) -> bool {
    forall|i: int| 0 <= i < 81 && filled(#[trigger] f[i]) ==> g[i] == f[i]
}

/// One pair of mutually constraining positions is in order: if both hold
/// digits and they are not both clues of `f`, the digits differ. (Two
/// clues are the input's own responsibility: the search never questions
/// them.)
pub open spec fn pair_ok(f: Seq<i8>, g: Seq<i8>, p: int, q: int) -> bool {
    (filled(g[p]) && filled(g[q]) && !(filled(f[p]) && filled(f[q]))) ==> g[p] != g[q]
}

/// Every pair of distinct positions sharing a unit is in order.
pub open spec fn consistent(f: Seq<i8>, g: Seq<i8>) -> bool {
    forall|p: int, q: int|
        0 <= p < 81 && 0 <= q < 81 && p != q && cluster(p, q) ==> #[trigger] pair_ok(f, g, p, q)
}

/// `h` is an acceptable outcome of searching from input `f`: a complete
/// well-formed grid that keeps every clue and violates no constraint the
/// search checks.
pub open spec fn solution_for(f: Seq<i8>, h: Seq<i8>) -> bool {
    grid_ok(h) && complete(h) && extends(f, h) && consistent(f, h)
}

/// The input has no two equal clues in a shared unit.
pub open spec fn clues_ok(f: Seq<i8>) -> bool {
    forall|p: int, q: int|
        0 <= p < 81 && 0 <= q < 81 && p != q && cluster(p, q) && filled(#[trigger] f[p])
            && filled(#[trigger] f[q]) ==> f[p] != f[q]
}

/// The shape of a working grid `g` at search depth `pos` over input `f`:
/// positions not yet reached still hold the input, reached positions hold
/// digits, clues are kept, and no checked constraint is violated.
pub open spec fn state_ok(f: Seq<i8>, g: Seq<i8>, pos: int) -> bool {
    &&& f.len() == 81
    &&& g.len() == 81
    &&& forall|i: int| pos <= i < 81 ==> #[trigger] g[i] == f[i]
    &&& forall|i: int| 0 <= i < pos && i < 81 ==> filled(#[trigger] g[i])
    &&& extends(f, g)
    &&& consistent(f, g)
}

/// `h` is a solution for `f` that agrees with the working grid `g` on all
/// positions already decided, those before `pos`.
pub open spec fn completes(f: Seq<i8>, g: Seq<i8>, pos: int, h: Seq<i8>) -> bool {
    solution_for(f, h) && (forall|i: int| 0 <= i < pos && i < 81 ==> #[trigger] h[i] == g[i])
}

/// `a` comes strictly before `b` in row-major lexicographic order.
pub open spec fn lex_lt(a: Seq<i8>, b: Seq<i8>) -> bool {
    exists|k: int|
        0 <= k < 81 && #[trigger] a[k] < b[k] && (forall|m: int| 0 <= m < k ==> #[trigger] a[m] == b[m])
}

/// The outcome of a search: either no completion exists from the given
/// state, or a fully solved grid.
#[derive(Debug)]
pub enum Solution {
    DeadEnd,
    Solved(Vec<i8>),
}

impl PartialEq for Solution {
    fn eq(&self, other: &Self) -> bool {
        match (self, other) {
            (Solution::DeadEnd, Solution::DeadEnd) => true,
            (Solution::Solved(a), Solution::Solved(b)) => grids_equal(a, b),
            _ => false,
        }
    }
}

impl vstd::std_specs::cmp::PartialEqSpecImpl for Solution {
    open spec fn obeys_eq_spec() -> bool {
        true
    }

    open spec fn eq_spec(&self, other: &Solution) -> bool {
        match (self, other) {
            (Solution::DeadEnd, Solution::DeadEnd) => true,
            (Solution::Solved(a), Solution::Solved(b)) => a@ == b@,
            _ => false,
        }
    }
}

/// The two user-visible failures: an input that is not 81 cells long, and
/// an exhausted search.
#[derive(Debug, PartialEq, Eq, Structural)]
pub enum SolveError {
    WrongSize,
    Unsolvable,
}

fn grids_equal(a: &Vec<i8>, b: &Vec<i8>) -> (r: bool)
    ensures
        r <==> a@ == b@,
{
    if a.len() != b.len() {
        return false;
    }
    let mut i: usize = 0;
    while i < a.len()
        invariant
            a@.len() == b@.len(),
            i <= a@.len(),
            forall|j: int| 0 <= j < i ==> #[trigger] a@[j] == b@[j],
        decreases a@.len() - i,
    {
        if a[i] != b[i] {
            return false;
        }
        i += 1;
    }
    proof {
        assert(a@ =~= b@);
    }
    true
}

fn grid_copy(src: &Vec<i8>) -> (r: Vec<i8>)
    ensures
        r@ == src@,
{
    let mut r: Vec<i8> = Vec::new();
    let mut i: usize = 0;
    while i < src.len()
        invariant
            i <= src@.len(),
            r@.len() == i,
            forall|j: int| 0 <= j < i ==> #[trigger] r@[j] == src@[j],
        decreases src@.len() - i,
    {
        r.push(src[i]);
        i += 1;
    }
    proof {
        assert(r@ =~= src@);
    }
    r
}

/// Any completion of a state whose next position is empty in the input
/// must put there a digit that no unit mate currently blocks.
proof fn lemma_completion_digit_legal(f: Seq<i8>, g: Seq<i8>, pos: int, h: Seq<i8>)
    requires
        state_ok(f, g, pos),
        0 <= pos < 81,
        f[pos] == -1,
        completes(f, g, pos, h),
    ensures
        filled(h[pos]),
        !digit_blocked(g, pos, h[pos] as int),
{
    assert(filled(h[pos]));
    if digit_blocked(g, pos, h[pos] as int) {
        let q = choose|q: int| 0 <= q < 81 && cluster(pos, q) && #[trigger] g[q] == h[pos] as int;
        assert(filled(g[q]));
        if q == pos {
            assert(g[pos] == f[pos]);
            assert(false);
        } else if q < pos {
            assert(h[q] == g[q]);
            assert(pair_ok(f, h, pos, q));
            assert(false);
        } else {
            assert(g[q] == f[q]);
            assert(filled(f[q]));
            assert(h[q] == f[q]);
            assert(pair_ok(f, h, pos, q));
            assert(false);
        }
    }
}

/// Placing an unblocked digit at an empty position keeps the search state
/// well shaped and moves it one position forward.
proof fn lemma_place_empty(f: Seq<i8>, g: Seq<i8>, pos: int, d: i8)
    requires
        grid_ok(f),
        grid_ok(g),
        state_ok(f, g, pos),
        0 <= pos < 81,
        f[pos] == -1,
        filled(d),
        !digit_blocked(g, pos, d as int),
    ensures
        state_ok(f, g.update(pos, d), pos + 1),
        grid_ok(g.update(pos, d)),
{
    let g2 = g.update(pos, d);
    assert forall|i: int| 0 <= i < 81 implies cell_ok(#[trigger] g2[i]) by {
        if i != pos {
            assert(g2[i] == g[i]);
        }
    }
    assert forall|i: int| 0 <= i < 81 && filled(#[trigger] f[i]) implies g2[i] == f[i] by {
        if i != pos {
            assert(g2[i] == g[i]);
        }
    }
    assert forall|p: int, q: int|
        0 <= p < 81 && 0 <= q < 81 && p != q && cluster(p, q) implies #[trigger] pair_ok(
        f,
        g2,
        p,
        q,
    ) by {
        if p != pos && q != pos {
            assert(pair_ok(f, g, p, q));
            assert(g2[p] == g[p] && g2[q] == g[q]);
        } else if p == pos && filled(g[q]) {
            assert(!(0 <= q < 81 && cluster(pos, q) && g[q] == d as int));
            assert(g2[q] == g[q]);
        } else if q == pos && filled(g[p]) {
            assert(!(0 <= p < 81 && cluster(pos, p) && g[p] == d as int));
            assert(cluster(pos, p));
            assert(g2[p] == g[p]);
        }
    }
}

/// The recursive search. From a well-shaped state it returns either the
/// lexicographically least grid completing that state, or a dead end
/// exactly when no grid completes it.
pub fn solve_impl(field: &Vec<i8>, result: Vec<i8>, pos: usize) -> (res: Solution)
    requires
        grid_ok(field@),
        grid_ok(result@),
        state_ok(field@, result@, pos as int),
    ensures
        pos > 81 ==> res is DeadEnd,
        pos <= 81 && res is DeadEnd ==> forall|h: Seq<i8>|
            !completes(field@, result@, pos as int, h),
        res matches Solution::Solved(sol) ==> completes(field@, result@, pos as int, sol@) && (
        forall|h: Seq<i8>| completes(field@, result@, pos as int, h) ==> !lex_lt(h, sol@)),
    decreases 82 - pos as int,
{
    let ghost f = field@;
    let ghost g0 = result@;
    let len = field.len();
    if pos > len {
        return Solution::DeadEnd;
    }
    if pos == len {
        proof {
            assert(complete(g0));
            assert(completes(f, g0, 81, g0));
            assert forall|h: Seq<i8>| completes(f, g0, 81, h) implies !lex_lt(h, g0) by {
                if lex_lt(h, g0) {
                    let k = choose|k: int|
                        0 <= k < 81 && #[trigger] h[k] < g0[k] && (forall|m: int|
                            0 <= m < k ==> #[trigger] h[m] == g0[m]);
                    assert(h[k] == g0[k]);
                }
            }
        }
        return Solution::Solved(result);
    }
    proof {
        assert(cell_ok(f[pos as int]));
    }
    let mut constraints: Vec<i8> = Vec::new();
    let mut d0: usize = 0;
    while d0 < 9
        invariant
            d0 <= 9,
            constraints@.len() == d0,
            forall|j: int| 0 <= j < d0 ==> #[trigger] constraints@[j] == -1i8,
        decreases 9 - d0,
    {
        constraints.push(-1);
        d0 += 1;
    }
    if field[pos] != -1 {
        let v = field[pos];
        let index: usize = (v - 1) as usize;
        constraints.set(index, v);
        proof {
            assert forall|h: Seq<i8>| completes(f, g0, pos as int, h) implies constraints@[h[pos
                as int] - 1] == h[pos as int] by {
                assert(filled(f[pos as int]));
                assert(h[pos as int] == f[pos as int]);
            }
            assert forall|jj: int| 0 <= jj < 9 && #[trigger] constraints@[jj] != -1i8 implies
                constraints@[jj] == (jj + 1) as i8 && state_ok(
                f,
                g0.update(pos as int, (jj + 1) as i8),
                pos as int + 1,
            ) && grid_ok(g0.update(pos as int, (jj + 1) as i8)) by {
                assert(jj == v - 1);
                assert((jj + 1) as i8 == v);
                assert(g0[pos as int] == f[pos as int]);
                assert(g0.update(pos as int, v) =~= g0);
                assert(state_ok(f, g0, pos as int + 1));
            }
        }
    } else {
        constraints = constraints_for_pos(pos, &result);
        proof {
            assert forall|h: Seq<i8>| completes(f, g0, pos as int, h) implies constraints@[h[pos
                as int] - 1] == h[pos as int] by {
                lemma_completion_digit_legal(f, g0, pos as int, h);
                let j = h[pos as int] - 1;
                assert(constraints@[j] == pos_constraints(g0, pos as int)[j]);
            }
            assert forall|jj: int| 0 <= jj < 9 && #[trigger] constraints@[jj] != -1i8 implies
                constraints@[jj] == (jj + 1) as i8 && state_ok(
                f,
                g0.update(pos as int, (jj + 1) as i8),
                pos as int + 1,
            ) && grid_ok(g0.update(pos as int, (jj + 1) as i8)) by {
                assert(!digit_blocked(g0, pos as int, jj + 1));
                lemma_place_empty(f, g0, pos as int, (jj + 1) as i8);
            }
        }
    }
    proof {
        assert forall|h: Seq<i8>| #[trigger] completes(f, g0, pos as int, h) implies h[pos as int]
            > 0 by {
            assert(filled(h[pos as int]));
        }
    }
    let mut j: usize = 0;
    while j < 9
        invariant
            grid_ok(f),
            grid_ok(g0),
            field@ == f,
            result@ == g0,
            state_ok(f, g0, pos as int),
            pos < 81,
            constraints@.len() == 9,
            j <= 9,
            forall|h: Seq<i8>| completes(f, g0, pos as int, h) ==> constraints@[h[pos as int] - 1]
                == h[pos as int],
            forall|jj: int| 0 <= jj < 9 && #[trigger] constraints@[jj] != -1i8 ==> constraints@[jj]
                == (jj + 1) as i8 && state_ok(f, g0.update(pos as int, (jj + 1) as i8), pos as int + 1)
                && grid_ok(g0.update(pos as int, (jj + 1) as i8)),
            forall|h: Seq<i8>| #[trigger] completes(f, g0, pos as int, h) ==> h[pos as int] > j,
        decreases 9 - j,
    {
        let constraint = constraints[j];
        if constraint != -1 {
            let ghost c = constraint;
            proof {
                assert(c == (j + 1) as i8);
            }
            let mut attempt = grid_copy(&result);
            attempt.set(pos, constraint);
            proof {
                assert(attempt@ == g0.update(pos as int, c));
            }
            let res = solve_impl(field, attempt, pos + 1);
            match res {
                Solution::Solved(sol) => {
                    proof {
                        let ga = g0.update(pos as int, c);
                        assert(completes(f, ga, pos as int + 1, sol@));
                        assert(sol@[pos as int] == ga[pos as int]);
                        assert forall|i: int| 0 <= i < pos as int && i < 81 implies #[trigger] sol@[i]
                            == g0[i] by {
                            assert(sol@[i] == ga[i]);
                        }
                        assert(completes(f, g0, pos as int, sol@));
                        assert forall|h: Seq<i8>| completes(f, g0, pos as int, h) implies !lex_lt(
                            h,
                            sol@,
                        ) by {
                            assert(h[pos as int] > j);
                            if h[pos as int] == c {
                                assert forall|i: int| 0 <= i < pos as int + 1 && i < 81 implies
                                    #[trigger] h[i] == ga[i] by {
                                    if i < pos as int {
                                        assert(h[i] == g0[i]);
                                    }
                                }
                                assert(completes(f, ga, pos as int + 1, h));
                            } else {
                                assert(h[pos as int] > j + 1);
                                if lex_lt(h, sol@) {
                                    let k = choose|k: int|
                                        0 <= k < 81 && #[trigger] h[k] < sol@[k] && (forall|m: int|
                                            0 <= m < k ==> #[trigger] h[m] == sol@[m]);
                                    if k < pos as int {
                                        assert(h[k] == g0[k]);
                                        assert(sol@[k] == g0[k]);
                                    } else if k == pos as int {
                                        assert(sol@[pos as int] == c);
                                    } else {
                                        assert(h[pos as int] == sol@[pos as int]);
                                    }
                                    assert(false);
                                }
                            }
                        }
                    }
                    return Solution::Solved(sol);
                },
                Solution::DeadEnd => {
                    proof {
                        let ga = g0.update(pos as int, c);
                        assert forall|h: Seq<i8>| #[trigger] completes(f, g0, pos as int, h) implies
                            h[pos as int] > j + 1 by {
                            assert(h[pos as int] > j);
                            if h[pos as int] == j + 1 {
                                assert forall|i: int| 0 <= i < pos as int + 1 && i < 81 implies
                                    #[trigger] h[i] == ga[i] by {
                                    if i < pos as int {
                                        assert(h[i] == g0[i]);
                                    }
                                }
                                assert(completes(f, ga, pos as int + 1, h));
                                assert(false);
                            }
                        }
                    }
                },
            }
        } else {
            proof {
                assert forall|h: Seq<i8>| #[trigger] completes(f, g0, pos as int, h) implies h[pos
                    as int] > j + 1 by {
                    assert(h[pos as int] > j);
                    if h[pos as int] == j + 1 {
                        assert(constraints@[h[pos as int] - 1] == h[pos as int]);
                        assert(constraints@[j as int] == -1i8);
                        assert(false);
                    }
                }
            }
        }
        j += 1;
    }
    proof {
        assert forall|h: Seq<i8>| !completes(f, g0, pos as int, h) by {
            if completes(f, g0, pos as int, h) {
                assert(h[pos as int] > 9);
                assert(filled(h[pos as int]));
                assert(false);
            }
        }
    }
    Solution::DeadEnd
}

/// Solve a puzzle. The input must consist of cells that are each empty or
/// a digit; a wrong length is rejected before any search, an exhausted
/// search is reported as unsolvable, and a returned grid is exactly the
/// lexicographically least solution.
pub fn solve(field: &Vec<i8>) -> (res: Result<Vec<i8>, SolveError>)
    requires
        forall|i: int| 0 <= i < field@.len() ==> cell_ok(#[trigger] field@[i]),
    ensures
        (res is Err && res->Err_0 is WrongSize) <==> field@.len() != 81,
        (res is Err && res->Err_0 is Unsolvable) <==> (field@.len() == 81 && !(exists|h: Seq<i8>|
            solution_for(field@, h))),
        res is Ok ==> solution_for(field@, res->Ok_0@) && (forall|h: Seq<i8>|
            solution_for(field@, h) ==> !lex_lt(h, res->Ok_0@)),
        field@.len() == 81 ==> ((res is Ok) <==> exists|h: Seq<i8>| solution_for(field@, h)),
{
    if field.len() != 81 {
        return Err(SolveError::WrongSize);
    }
    let ghost f = field@;
    proof {
        assert(grid_ok(f));
        assert forall|p: int, q: int|
            0 <= p < 81 && 0 <= q < 81 && p != q && cluster(p, q) implies #[trigger] pair_ok(
            f,
            f,
            p,
            q,
        ) by {}
        assert(state_ok(f, f, 0));
    }
    let field_copy = grid_copy(field);
    let res = solve_impl(field, field_copy, 0);
    match res {
        Solution::DeadEnd => {
            proof {
                assert forall|h: Seq<i8>| !solution_for(f, h) by {
                    if solution_for(f, h) {
                        assert(completes(f, f, 0, h));
                        assert(false);
                    }
                }
            }
            Err(SolveError::Unsolvable)
        },
        Solution::Solved(sol) => {
            proof {
                assert(solution_for(f, sol@));
                assert forall|h: Seq<i8>| solution_for(f, h) implies !lex_lt(h, sol@) by {
                    assert(completes(f, f, 0, h));
                }
            }
            Ok(sol)
        },
    }
}

} // verus!

