//! The constraint deriver: for one unit (row, column or box) of a grid,
//! the set of digits not yet used in it, and for one position the
//! intersection of its three units' sets.
//!
//! A constraint set is a nine-slot table: slot `j` holds the digit `j + 1`
//! when that digit is still legal, and `-1` when it is already taken.

use crate::grid::box_of;
use crate::grid::box_unit;
use crate::grid::cluster;
use crate::grid::col_of;
use crate::grid::col_unit;
use crate::grid::grid_ok;
use crate::grid::lemma_box_unit_member;
use crate::grid::lemma_line_unit_member;
use crate::grid::lemma_pos_coords;
use crate::grid::lemma_pos_in_box_unit;
use crate::grid::row_of;
use crate::grid::row_unit;
use vstd::prelude::*;

verus! {

/// Digit `d` occurs among the first `n` positions of `unit` in grid `g`.
pub open spec fn digit_in_unit_prefix(g: Seq<i8>, unit: Seq<int>, d: int, n: int) -> bool {
    exists|k: int| 0 <= k < n && g[#[trigger] unit[k]] == d
}

/// Digit `d` occurs somewhere in `unit` in grid `g`.
pub open spec fn digit_in_unit(g: Seq<i8>, unit: Seq<int>, d: int) -> bool {
    digit_in_unit_prefix(g, unit, d, unit.len() as int)
}

/// The constraint set of one unit: slot `j` keeps digit `j + 1` exactly
/// when that digit is absent from the unit.
pub open spec fn part_constraints(g: Seq<i8>, unit: Seq<int>) -> Seq<i8> {
    Seq::new(9, |j: int| if digit_in_unit(g, unit, j + 1) { -1i8 } else { (j + 1) as i8 })
}

/// Digit `d` occurs at some position sharing a row, column or box with `pos`.
pub open spec fn digit_blocked(g: Seq<i8>, pos: int, d: int) -> bool {
    exists|q: int| 0 <= q < 81 && cluster(pos, q) && #[trigger] g[q] == d
}

/// The per-cell constraint set: slot `j` keeps digit `j + 1` exactly when
/// no position sharing a unit with `pos` holds that digit.
pub open spec fn pos_constraints(g: Seq<i8>, pos: int) -> Seq<i8> {
    Seq::new(9, |j: int| if digit_blocked(g, pos, j + 1) { -1i8 } else { (j + 1) as i8 })
}

proof fn lemma_prefix_step(g: Seq<i8>, unit: Seq<int>, d: int, n: int)
    requires
        0 <= n,
    ensures
        digit_in_unit_prefix(g, unit, d, n + 1) <==> (digit_in_unit_prefix(g, unit, d, n) || g[unit[n]] == d),
{
    if digit_in_unit_prefix(g, unit, d, n + 1) {
        let k = choose|k: int| 0 <= k < n + 1 && g[#[trigger] unit[k]] == d;
        if k < n {
            assert(digit_in_unit_prefix(g, unit, d, n));
        }
    }
    if g[unit[n]] == d {
        assert(0 <= n < n + 1 && g[unit[n]] == d);
    }
}

/// The shared core loop of the deriver: scan the nine positions named by
/// `index_function`, and strike every digit found there from the full set.
pub fn constraints_for_part<F: Fn(usize) -> usize>(
    field: &Vec<i8>,
    index_function: F,
    Ghost(unit): Ghost<Seq<int>>,
) -> (r: Vec<i8>)
    requires
        grid_ok(field@),
        unit.len() == 9,
        forall|k: int| 0 <= k < 9 ==> 0 <= #[trigger] unit[k] < 81,
        forall|i: usize| i < 9 ==> call_requires(index_function, (i,)),
        forall|i: usize, p: usize|
            i < 9 && #[trigger] call_ensures(index_function, (i,), p) ==> p == unit[i as int],
    ensures
        r@ == part_constraints(field@, unit),
{
    let mut constraints: Vec<i8> = Vec::new();
    let mut d: usize = 1;
    while d <= 9
        invariant
            1 <= d <= 10,
            constraints@.len() == d - 1,
            forall|j: int| 0 <= j < d - 1 ==> #[trigger] constraints@[j] == (j + 1) as i8,
        decreases 10 - d,
    {
        constraints.push(d as i8);
        d += 1;
    }
    let mut i: usize = 0;
    while i < 9
        invariant
            grid_ok(field@),
            unit.len() == 9,
            forall|k: int| 0 <= k < 9 ==> 0 <= #[trigger] unit[k] < 81,
            forall|k: usize| k < 9 ==> call_requires(index_function, (k,)),
            forall|k: usize, p: usize|
                k < 9 && #[trigger] call_ensures(index_function, (k,), p) ==> p == unit[k as int],
            i <= 9,
            constraints@.len() == 9,
            forall|j: int| 0 <= j < 9 ==> #[trigger] constraints@[j] == (
                if digit_in_unit_prefix(field@, unit, j + 1, i as int) { -1i8 } else { (j + 1) as i8 }
            ),
        decreases 9 - i,
    {
        let field_index = index_function(i);
        let value = field[field_index];
        if value != -1 {
            let index: usize = (value - 1) as usize;
            constraints.set(index, -1);
        }
        proof {
            assert forall|j: int| 0 <= j < 9 implies #[trigger] constraints@[j] == (
                if digit_in_unit_prefix(field@, unit, j + 1, i + 1) { -1i8 } else { (j + 1) as i8 }
            ) by {
                lemma_prefix_step(field@, unit, j + 1, i as int);
                assert(field_index == unit[i as int]);
            }
        }
        i += 1;
    }
    proof {
        assert(constraints@ =~= part_constraints(field@, unit));
    }
    constraints
}

/// The constraint set of row `row`.
pub fn constraints_for_row(row: usize, field: &Vec<i8>) -> (r: Vec<i8>)
    requires
        row < 9,
        grid_ok(field@),
    ensures
        r@ == part_constraints(field@, row_unit(row as int)),
{
    let index_function = |i: usize| -> (p: usize)
        requires
            i < 9,
            row < 9,
        ensures
            p == i + row * 9,
        { i + row * 9 };
    proof {
        assert forall|k: int| 0 <= k < 9 implies 0 <= #[trigger] row_unit(row as int)[k] < 81 by {
            lemma_line_unit_member(row as int, k);
        }
    }
    constraints_for_part(field, index_function, Ghost(row_unit(row as int)))
}

/// The constraint set of column `col`.
pub fn constraints_for_col(col: usize, field: &Vec<i8>) -> (r: Vec<i8>)
    requires
        col < 9,
        grid_ok(field@),
    ensures
        r@ == part_constraints(field@, col_unit(col as int)),
{
    let index_function = |i: usize| -> (p: usize)
        requires
            i < 9,
            col < 9,
        ensures
            p == i * 9 + col,
        { i * 9 + col };
    proof {
        assert forall|k: int| 0 <= k < 9 implies 0 <= #[trigger] col_unit(col as int)[k] < 81 by {
            lemma_line_unit_member(col as int, k);
        }
    }
    constraints_for_part(field, index_function, Ghost(col_unit(col as int)))
}

/// The constraint set of the box whose nine positions are listed in `quad`.
pub fn constraints_for_quadrant(quad: &Vec<usize>, field: &Vec<i8>) -> (r: Vec<i8>)
    requires
        quad@.len() == 9,
        forall|k: int| 0 <= k < 9 ==> #[trigger] quad@[k] < 81,
        grid_ok(field@),
    ensures
        r@ == part_constraints(field@, quad@.map_values(|p: usize| p as int)),
{
    let index_function = |i: usize| -> (p: usize)
        requires
            i < 9,
            quad@.len() == 9,
        ensures
            p == quad@[i as int],
        { quad[i] };
    constraints_for_part(field, index_function, Ghost(quad@.map_values(|p: usize| p as int)))
}

/// A digit is blocked at a position exactly when one of the position's
/// three units contains it.
pub proof fn lemma_blocked_iff_units(g: Seq<i8>, pos: int)
    requires
        g.len() == 81,
        0 <= pos < 81,
    ensures
        forall|d: int| #[trigger] digit_blocked(g, pos, d) <==> (
            digit_in_unit(g, row_unit(row_of(pos)), d)
            || digit_in_unit(g, col_unit(col_of(pos)), d)
            || digit_in_unit(g, box_unit(box_of(pos)), d)
        ),
{
    lemma_pos_coords(pos);
    assert forall|d: int| #[trigger] digit_blocked(g, pos, d) implies (
        digit_in_unit(g, row_unit(row_of(pos)), d)
        || digit_in_unit(g, col_unit(col_of(pos)), d)
        || digit_in_unit(g, box_unit(box_of(pos)), d)
    ) by {
        let q = choose|q: int| 0 <= q < 81 && cluster(pos, q) && #[trigger] g[q] == d;
        lemma_pos_coords(q);
        if row_of(q) == row_of(pos) {
            assert(row_unit(row_of(pos))[col_of(q)] == q);
            assert(digit_in_unit_prefix(g, row_unit(row_of(pos)), d, 9));
        } else if col_of(q) == col_of(pos) {
            assert(col_unit(col_of(pos))[row_of(q)] == q);
            assert(digit_in_unit_prefix(g, col_unit(col_of(pos)), d, 9));
        } else {
            lemma_pos_in_box_unit(q);
            assert(box_unit(box_of(pos))[crate::grid::box_slot(q)] == q);
            assert(digit_in_unit_prefix(g, box_unit(box_of(pos)), d, 9));
        }
    }
    assert forall|d: int| (
        digit_in_unit(g, row_unit(row_of(pos)), d)
        || digit_in_unit(g, col_unit(col_of(pos)), d)
        || digit_in_unit(g, box_unit(box_of(pos)), d)
    ) implies #[trigger] digit_blocked(g, pos, d) by {
        if digit_in_unit(g, row_unit(row_of(pos)), d) {
            let k = choose|k: int| 0 <= k < 9 && g[#[trigger] row_unit(row_of(pos))[k]] == d;
            lemma_line_unit_member(row_of(pos), k);
            let q = row_unit(row_of(pos))[k];
            assert(0 <= q < 81 && cluster(pos, q) && g[q] == d);
        } else if digit_in_unit(g, col_unit(col_of(pos)), d) {
            let k = choose|k: int| 0 <= k < 9 && g[#[trigger] col_unit(col_of(pos))[k]] == d;
            lemma_line_unit_member(col_of(pos), k);
            let q = col_unit(col_of(pos))[k];
            assert(0 <= q < 81 && cluster(pos, q) && g[q] == d);
        } else {
            let k = choose|k: int| 0 <= k < 9 && g[#[trigger] box_unit(box_of(pos))[k]] == d;
            lemma_box_unit_member(box_of(pos), k);
            let q = box_unit(box_of(pos))[k];
            assert(0 <= q < 81 && cluster(pos, q) && g[q] == d);
        }
    }
}

/// The per-cell constraint set: the intersection of the row, column and
/// box constraint sets of `pos`.
pub fn constraints_for_pos(pos: usize, field: &Vec<i8>) -> (r: Vec<i8>)
    requires
        pos < 81,
        grid_ok(field@),
    ensures
        r@ == pos_constraints(field@, pos as int),
{
    proof {
        lemma_pos_coords(pos as int);
    }
    let row_constraints = constraints_for_row(crate::grid::row_for_pos(pos), field);
    let col_constraints = constraints_for_col(crate::grid::col_for_pos(pos), field);
    let quad = crate::grid::quadrant_for_pos(pos);
    proof {
        assert(quad@.map_values(|p: usize| p as int) =~= box_unit(box_of(pos as int)));
    }
    let quad_constraints = constraints_for_quadrant(&quad, field);
    proof {
        lemma_blocked_iff_units(field@, pos as int);
    }
    let mut constraints: Vec<i8> = Vec::new();
    let mut d: usize = 0;
    while d < 9
        invariant
            d <= 9,
            constraints@.len() == d,
            forall|j: int| 0 <= j < d ==> #[trigger] constraints@[j] == -1i8,
        decreases 9 - d,
    {
        constraints.push(-1);
        d += 1;
    }
    let mut i: usize = 0;
    while i < 9
        invariant
            pos < 81,
            grid_ok(field@),
            row_constraints@ == part_constraints(field@, row_unit(row_of(pos as int))),
            col_constraints@ == part_constraints(field@, col_unit(col_of(pos as int))),
            quad_constraints@ == part_constraints(field@, box_unit(box_of(pos as int))),
            forall|d2: int| #[trigger] digit_blocked(field@, pos as int, d2) <==> (
                digit_in_unit(field@, row_unit(row_of(pos as int)), d2)
                || digit_in_unit(field@, col_unit(col_of(pos as int)), d2)
                || digit_in_unit(field@, box_unit(box_of(pos as int)), d2)
            ),
            i <= 9,
            constraints@.len() == 9,
            forall|j: int| 0 <= j < i as int ==> #[trigger] constraints@[j] == (
                if digit_blocked(field@, pos as int, j + 1) { -1i8 } else { (j + 1) as i8 }
            ),
            forall|j: int| i as int <= j < 9 ==> #[trigger] constraints@[j] == -1i8,
        decreases 9 - i,
    {
        if row_constraints[i] != -1 && col_constraints[i] != -1 && quad_constraints[i] != -1 {
            constraints.set(i, row_constraints[i]);
        }
        i += 1;
    }
    proof {
        assert(constraints@ =~= pos_constraints(field@, pos as int));
    }
    constraints
}

} // verus!
