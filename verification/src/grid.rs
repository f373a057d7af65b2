//! The grid model: 81 cells in row-major order, and the mapping from a
//! linear position to the row, column and box that constrain it.

use vstd::arithmetic::div_mod::lemma_fundamental_div_mod;
use vstd::arithmetic::div_mod::lemma_fundamental_div_mod_converse;
use vstd::arithmetic::div_mod::lemma_mod_bound;
use vstd::prelude::*;

verus! {

/// A cell holding a digit, as opposed to the empty marker `-1`.
pub open spec fn filled(v: i8) -> bool {
    1 <= v <= 9
}

/// Every cell is either empty (`-1`) or a digit `1..9`.
pub open spec fn cell_ok(v: i8) -> bool {
    v == -1 || filled(v)
}

/// A well-formed grid: exactly 81 cells, each empty or a digit.
pub open spec fn grid_ok(g: Seq<i8>) -> bool {
    g.len() == 81 && (forall|i: int| 0 <= i < 81 ==> cell_ok(#[trigger] g[i]))
}

/// The row a position belongs to.
pub open spec fn row_of(p: int) -> int {
    p / 9
}

/// The column a position belongs to.
pub open spec fn col_of(p: int) -> int {
    p % 9
}

/// The 3x3 box a position belongs to, numbered 0..9 in row-major order
/// of boxes.
pub open spec fn box_of(p: int) -> int {
    3 * ((p / 9) / 3) + (p % 9) / 3
}

/// The top-left position of a box.
pub open spec fn box_base(b: int) -> int {
    27 * (b / 3) + 3 * (b % 3)
}

/// The slot of a position inside its box, 0..9 in row-major order.
pub open spec fn box_slot(p: int) -> int {
    3 * ((p / 9) % 3) + (p % 9) % 3
}

/// The nine positions of row `r`, left to right.
pub open spec fn row_unit(r: int) -> Seq<int> {
    Seq::new(9, |k: int| 9 * r + k)
}

/// The nine positions of column `c`, top to bottom.
pub open spec fn col_unit(c: int) -> Seq<int> {
    Seq::new(9, |k: int| 9 * k + c)
}

/// The nine positions of box `b`, in row-major order.
pub open spec fn box_unit(b: int) -> Seq<int> {
    Seq::new(9, |k: int| box_base(b) + 9 * (k / 3) + k % 3)
}

/// Two positions constrain each other exactly when they share a row, a
/// column or a box.
pub open spec fn cluster(p: int, q: int) -> bool {
    row_of(p) == row_of(q) || col_of(p) == col_of(q) || box_of(p) == box_of(q)
}

/// Row, column and box index of a position are in range, and the position
/// is recovered from its coordinates.
pub proof fn lemma_pos_coords(p: int)
    requires
        0 <= p < 81,
    ensures
        0 <= row_of(p) < 9,
        0 <= col_of(p) < 9,
        0 <= box_of(p) < 9,
        0 <= box_slot(p) < 9,
        p == 9 * row_of(p) + col_of(p),
{
    lemma_fundamental_div_mod(p, 9);
    lemma_mod_bound(p, 9);
    lemma_fundamental_div_mod(p / 9, 3);
    lemma_mod_bound(p / 9, 3);
    lemma_fundamental_div_mod(p % 9, 3);
    lemma_mod_bound(p % 9, 3);
}

/// A position is the entry of its own box's unit at its own slot.
pub proof fn lemma_pos_in_box_unit(p: int)
    requires
        0 <= p < 81,
    ensures
        box_unit(box_of(p))[box_slot(p)] == p,
{
    lemma_pos_coords(p);
    let r = p / 9;
    let c = p % 9;
    let b = box_of(p);
    let k = box_slot(p);
    lemma_fundamental_div_mod(r, 3);
    lemma_mod_bound(r, 3);
    lemma_fundamental_div_mod(c, 3);
    lemma_mod_bound(c, 3);
    lemma_fundamental_div_mod_converse(b, 3, r / 3, c / 3);
    lemma_fundamental_div_mod_converse(k, 3, r % 3, c % 3);
    assert(box_base(b) == 27 * (r / 3) + 3 * (c / 3));
    assert(box_unit(b)[k] == 27 * (r / 3) + 3 * (c / 3) + 9 * (r % 3) + c % 3);
}

/// Every entry of a box's unit lies in that box, at that slot.
pub proof fn lemma_box_unit_member(b: int, k: int)
    requires
        0 <= b < 9,
        0 <= k < 9,
    ensures
        0 <= box_unit(b)[k] < 81,
        box_of(box_unit(b)[k]) == b,
        box_slot(box_unit(b)[k]) == k,
{
    lemma_fundamental_div_mod(b, 3);
    lemma_mod_bound(b, 3);
    lemma_fundamental_div_mod(k, 3);
    lemma_mod_bound(k, 3);
    let p = box_unit(b)[k];
    let r = 3 * (b / 3) + k / 3;
    let c = 3 * (b % 3) + k % 3;
    assert(p == 9 * r + c);
    lemma_fundamental_div_mod_converse(p, 9, r, c);
    lemma_fundamental_div_mod_converse(r, 3, b / 3, k / 3);
    lemma_fundamental_div_mod_converse(c, 3, b % 3, k % 3);
}

/// Every entry of a row's unit lies in that row; every entry of a
/// column's unit lies in that column.
pub proof fn lemma_line_unit_member(x: int, k: int)
    requires
        0 <= x < 9,
        0 <= k < 9,
    ensures
        0 <= row_unit(x)[k] < 81,
        row_of(row_unit(x)[k]) == x,
        col_of(row_unit(x)[k]) == k,
        0 <= col_unit(x)[k] < 81,
        row_of(col_unit(x)[k]) == k,
        col_of(col_unit(x)[k]) == x,
{
    lemma_fundamental_div_mod_converse(9 * x + k, 9, x, k);
    lemma_fundamental_div_mod_converse(9 * k + x, 9, k, x);
}

/// The row of a position, `pos / 9`.
pub fn row_for_pos(pos: usize) -> (r: usize)
    ensures
        r == row_of(pos as int),
{
    pos / 9
}

/// The column of a position, `pos % 9`.
pub fn col_for_pos(pos: usize) -> (c: usize)
    ensures
        c == col_of(pos as int),
{
    pos % 9
}

/// The nine positions of the box containing `pos`, in row-major order.
pub fn quadrant_for_pos(pos: usize) -> (quad: Vec<usize>)
    requires
        pos < 81,
    ensures
        quad@.len() == 9,
        forall|k: int| 0 <= k < 9 ==> #[trigger] quad@[k] as int == box_unit(box_of(pos as int))[k],
        forall|k: int| 0 <= k < 9 ==> #[trigger] quad@[k] < 81,
{
    proof {
        lemma_pos_coords(pos as int);
    }
    let b: usize = 3 * ((pos / 9) / 3) + (pos % 9) / 3;
    proof {
        lemma_fundamental_div_mod(b as int, 3);
        lemma_mod_bound(b as int, 3);
    }
    let base: usize = 27 * (b / 3) + 3 * (b % 3);
    let mut quad: Vec<usize> = Vec::new();
    let mut k: usize = 0;
    while k < 9
        invariant
            b == box_of(pos as int),
            b < 9,
            base == box_base(b as int),
            base <= 60,
            k <= 9,
            quad@.len() == k as int,
            forall|m: int| 0 <= m < k as int ==> #[trigger] quad@[m] as int == box_unit(b as int)[m]
                && quad@[m] < 81,
        decreases 9 - k,
    {
        proof {
            lemma_fundamental_div_mod(k as int, 3);
            lemma_mod_bound(k as int, 3);
        }
        quad.push(base + 9 * (k / 3) + k % 3);
        k += 1;
    }
    quad
}

} // verus!
