//! The library's general laws, stated and proved over the same spec
//! functions that the executable functions' contracts use.

use crate::constraints::digit_in_unit;
use crate::constraints::part_constraints;
use crate::constraints::pos_constraints;
use crate::grid::box_of;
use crate::grid::box_slot;
use crate::grid::box_unit;
use crate::grid::cluster;
use crate::grid::col_unit;
use crate::grid::filled;
use crate::grid::grid_ok;
use crate::grid::lemma_box_unit_member;
use crate::grid::lemma_line_unit_member;
use crate::grid::lemma_pos_coords;
use crate::grid::lemma_pos_in_box_unit;
use crate::grid::row_unit;
use crate::search::clues_ok;
use crate::search::extends;
use crate::search::lex_lt;
use crate::search::pair_ok;
use crate::search::solution_for;
use vstd::prelude::*;
use vstd::set_lib::lemma_int_range;
use vstd::set_lib::lemma_len_subset;
use vstd::set_lib::set_int_range;

verus! {

/// The set of positions lying in box `b`.
pub open spec fn box_members(b: int) -> Set<int> {
    Set::new(|p: int| 0 <= p < 81 && box_of(p) == b)
}

/// One of the 27 unit position lists: a row, a column or a box.
pub open spec fn is_unit(u: Seq<int>) -> bool {
    (exists|r: int| 0 <= r < 9 && u == #[trigger] row_unit(r)) || (exists|c: int|
        0 <= c < 9 && u == #[trigger] col_unit(c)) || (exists|b: int|
        0 <= b < 9 && u == #[trigger] box_unit(b))
}

/// The nine boxes partition the 81 positions: every position lies in
/// exactly one box, and every box has exactly nine members.
pub proof fn lemma_boxes_partition()
    ensures
        forall|p: int| 0 <= p < 81 ==> 0 <= #[trigger] box_of(p) < 9,
        forall|p: int, b: int| 0 <= p < 81 ==> (#[trigger] box_members(b).contains(p) <==> b
            == box_of(p)),
        forall|b: int| 0 <= b < 9 ==> #[trigger] box_members(b).finite() && box_members(b).len()
            == 9,
{
    broadcast use vstd::set::group_set_axioms;
    broadcast use vstd::seq_lib::seq_to_set_is_finite;

    assert forall|p: int| 0 <= p < 81 implies 0 <= #[trigger] box_of(p) < 9 by {
        lemma_pos_coords(p);
    }
    assert forall|b: int| 0 <= b < 9 implies #[trigger] box_members(b).finite() && box_members(
        b,
    ).len() == 9 by {
        let u = box_unit(b);
        assert forall|k1: int, k2: int|
            0 <= k1 < 9 && 0 <= k2 < 9 && k1 != k2 implies u[k1] != u[k2] by {
            lemma_box_unit_member(b, k1);
            lemma_box_unit_member(b, k2);
        }
        assert(u.no_duplicates());
        u.unique_seq_to_set();
        assert forall|p: int| box_members(b).contains(p) implies u.to_set().contains(p) by {
            lemma_pos_in_box_unit(p);
            lemma_pos_coords(p);
            assert(0 <= box_slot(p) < 9 && u[box_slot(p)] == p);
            assert(u.contains(p));
        }
        assert forall|p: int| u.to_set().contains(p) implies box_members(b).contains(p) by {
            let k = choose|k: int| 0 <= k < u.len() && u[k] == p;
            lemma_box_unit_member(b, k);
        }
        assert(box_members(b) =~= u.to_set());
    }
}

/// A unit's constraint set never keeps a digit already present in that
/// unit of the grid.
pub proof fn lemma_no_present_digit(g: Seq<i8>, unit: Seq<int>, d: int)
    requires
        1 <= d <= 9,
        digit_in_unit(g, unit, d),
    ensures
        part_constraints(g, unit)[d - 1] == -1i8,
{
}

/// Idempotence of the constraint deriver: the per-cell constraint set is
/// a function of the grid snapshot and position alone, so two
/// computations over the same unmodified grid agree.
pub proof fn lemma_legal_idempotent(g: Seq<i8>, pos: int, r1: Seq<i8>, r2: Seq<i8>)
    requires
        r1 == pos_constraints(g, pos),
        r2 == pos_constraints(g, pos),
    ensures
        r1 == r2,
{
}

/// Members of one unit are nine distinct positions that all constrain
/// one another.
proof fn lemma_unit_props(u: Seq<int>)
    requires
        is_unit(u),
    ensures
        u.len() == 9,
        forall|k: int| 0 <= k < 9 ==> 0 <= #[trigger] u[k] < 81,
        forall|k1: int, k2: int|
            0 <= k1 < 9 && 0 <= k2 < 9 && k1 != k2 ==> u[k1] != u[k2] && cluster(u[k1], u[k2]),
{
    if exists|r: int| 0 <= r < 9 && u == #[trigger] row_unit(r) {
        let r = choose|r: int| 0 <= r < 9 && u == #[trigger] row_unit(r);
        assert forall|k: int| 0 <= k < 9 implies 0 <= #[trigger] u[k] < 81 by {
            lemma_line_unit_member(r, k);
        }
        assert forall|k1: int, k2: int|
            0 <= k1 < 9 && 0 <= k2 < 9 && k1 != k2 implies u[k1] != u[k2] && cluster(
            u[k1],
            u[k2],
        ) by {
            lemma_line_unit_member(r, k1);
            lemma_line_unit_member(r, k2);
        }
    } else if exists|c: int| 0 <= c < 9 && u == #[trigger] col_unit(c) {
        let c = choose|c: int| 0 <= c < 9 && u == #[trigger] col_unit(c);
        assert forall|k: int| 0 <= k < 9 implies 0 <= #[trigger] u[k] < 81 by {
            lemma_line_unit_member(c, k);
        }
        assert forall|k1: int, k2: int|
            0 <= k1 < 9 && 0 <= k2 < 9 && k1 != k2 implies u[k1] != u[k2] && cluster(
            u[k1],
            u[k2],
        ) by {
            lemma_line_unit_member(c, k1);
            lemma_line_unit_member(c, k2);
        }
    } else {
        let b = choose|b: int| 0 <= b < 9 && u == #[trigger] box_unit(b);
        assert forall|k: int| 0 <= k < 9 implies 0 <= #[trigger] u[k] < 81 by {
            lemma_box_unit_member(b, k);
        }
        assert forall|k1: int, k2: int|
            0 <= k1 < 9 && 0 <= k2 < 9 && k1 != k2 implies u[k1] != u[k2] && cluster(
            u[k1],
            u[k2],
        ) by {
            lemma_box_unit_member(b, k1);
            lemma_box_unit_member(b, k2);
        }
    }
}

/// Nine pairwise distinct values drawn from the nine digits cover every
/// digit.
proof fn lemma_nine_distinct_cover(vals: Seq<int>)
    requires
        vals.len() == 9,
        forall|k: int| 0 <= k < 9 ==> 1 <= #[trigger] vals[k] <= 9,
        forall|k1: int, k2: int| 0 <= k1 < 9 && 0 <= k2 < 9 && k1 != k2 ==> vals[k1] != vals[k2],
    ensures
        forall|d: int| 1 <= d <= 9 ==> vals.contains(d),
{
    broadcast use vstd::set::group_set_axioms;
    broadcast use vstd::seq_lib::seq_to_set_is_finite;

    assert forall|d: int| 1 <= d <= 9 implies vals.contains(d) by {
        if !vals.contains(d) {
            let s = vals.to_set();
            assert(vals.no_duplicates());
            vals.unique_seq_to_set();
            let big = set_int_range(1, 10);
            lemma_int_range(1, 10);
            let small = big.remove(d);
            assert forall|x: int| s.contains(x) implies small.contains(x) by {
                let k = choose|k: int| 0 <= k < vals.len() && vals[k] == x;
                assert(1 <= x <= 9);
                assert(x != d);
            }
            assert(s.subset_of(small));
            lemma_len_subset(s, small);
            assert(big.contains(d));
            assert(small.len() == 8);
            assert(false);
        }
    }
}

/// Soundness of a returned grid: for a conflict-free input, every unit of
/// a solution holds each digit exactly once, and every clue of the input
/// is unchanged in it.
pub proof fn lemma_solution_valid(f: Seq<i8>, g: Seq<i8>, u: Seq<int>)
    requires
        grid_ok(f),
        clues_ok(f),
        solution_for(f, g),
        is_unit(u),
    ensures
        forall|d: int| 1 <= d <= 9 ==> #[trigger] digit_in_unit(g, u, d),
        forall|k1: int, k2: int| 0 <= k1 < 9 && 0 <= k2 < 9 && k1 != k2 ==> g[u[k1]] != g[u[k2]],
        extends(f, g),
{
    lemma_unit_props(u);
    assert forall|k1: int, k2: int|
        0 <= k1 < 9 && 0 <= k2 < 9 && k1 != k2 implies g[u[k1]] != g[u[k2]] by {
        let p = u[k1];
        let q = u[k2];
        assert(filled(g[p]) && filled(g[q]));
        if filled(f[p]) && filled(f[q]) {
            assert(f[p] != f[q]);
            assert(g[p] == f[p] && g[q] == f[q]);
        } else {
            assert(pair_ok(f, g, p, q));
        }
    }
    let vals = Seq::new(9, |k: int| g[u[k]] as int);
    assert forall|k: int| 0 <= k < 9 implies 1 <= #[trigger] vals[k] <= 9 by {
        assert(filled(g[u[k]]));
    }
    lemma_nine_distinct_cover(vals);
    assert forall|d: int| 1 <= d <= 9 implies #[trigger] digit_in_unit(g, u, d) by {
        assert(vals.contains(d));
        let k = choose|k: int| 0 <= k < vals.len() && vals[k] == d;
        assert(g[u[k]] == d);
        assert(crate::constraints::digit_in_unit_prefix(g, u, d, u.len() as int));
    }
}

/// Grids of equal length that agree on a prefix are equal or ordered one
/// way by the row-major lexicographic order.
proof fn lemma_lex_connex(a: Seq<i8>, b: Seq<i8>, i: int)
    requires
        a.len() == 81,
        b.len() == 81,
        0 <= i <= 81,
        forall|m: int| 0 <= m < i ==> #[trigger] a[m] == b[m],
    ensures
        a =~= b || lex_lt(a, b) || lex_lt(b, a),
    decreases 81 - i,
{
    if i == 81 {
        assert(a =~= b);
    } else if a[i] < b[i] {
        assert(0 <= i < 81 && a[i] < b[i] && (forall|m: int| 0 <= m < i ==> #[trigger] a[m] == b[m]));
        assert(lex_lt(a, b));
    } else if b[i] < a[i] {
        assert(0 <= i < 81 && b[i] < a[i] && (forall|m: int| 0 <= m < i ==> #[trigger] b[m] == a[m]));
        assert(lex_lt(b, a));
    } else {
        lemma_lex_connex(a, b, i + 1);
    }
}

/// Determinism of the engine: there is only one lexicographically least
/// solution of an input, so the pinned contract of `solve` admits exactly
/// one output for each input, success or failure alike.
pub proof fn lemma_least_solution_unique(f: Seq<i8>, g1: Seq<i8>, g2: Seq<i8>)
    requires
        solution_for(f, g1),
        solution_for(f, g2),
        forall|h: Seq<i8>| #[trigger] solution_for(f, h) ==> !lex_lt(h, g1),
        forall|h: Seq<i8>| #[trigger] solution_for(f, h) ==> !lex_lt(h, g2),
    ensures
        g1 == g2,
{
    lemma_lex_connex(g1, g2, 0);
    assert(g1 =~= g2);
}

} // verus!
