//! Pallet Loading Problem: shared data model and placement geometry.
//!
//! A solution is a sequence of [`Placement`]s. The spec functions here say
//! what a placement occupies, when a whole solution is geometrically valid
//! (contained in the bin, pairwise non-overlapping), and what the uniform
//! grid pattern underlying both strategies looks like.

use vstd::arithmetic::div_mod::{
    lemma_div_pos_is_pos, lemma_fundamental_div_mod, lemma_fundamental_div_mod_converse_div,
    lemma_fundamental_div_mod_converse_mod, lemma_mod_division_less_than_divisor,
    lemma_multiply_divide_lt,
};
use vstd::arithmetic::mul::{lemma_mul_inequality, lemma_mul_nonnegative};
use vstd::prelude::*;

mod g4;
mod n1;

pub use g4::plp_g4;
pub use n1::plp_n1;

verus! {

/// A pair of non-negative integer axes (width along x, depth along y), used
/// both for absolute sizes (bin, item) and for placement positions.
#[derive(Clone, Copy, Debug, PartialEq, Eq, Structural)]
pub struct Dimension {
    pub x: u32,
    pub y: u32,
}

/// Whether an item keeps its given axes (`Horizontal`) or is rotated by 90
/// degrees so that its width and depth are swapped (`Vertical`).
#[derive(Clone, Copy, Debug, PartialEq, Eq, Structural)]
pub enum Orientation {
    Horizontal,
    Vertical,
}

/// One placed item: the lower-left corner of its occupied rectangle, and its
/// rotation.
#[derive(Clone, Copy, Debug, PartialEq, Eq, Structural)]
pub struct Placement {
    pub pos: Dimension,
    pub o: Orientation,
}

/// A zero axis on either the bin or the item denotes an empty shape: no item
/// can be placed, and both strategies return the empty solution.
pub open spec fn degenerate(bin: Dimension, item: Dimension) -> bool {
    bin.x == 0 || bin.y == 0 || item.x == 0 || item.y == 0
}

/// Extent along the x axis of an item placed in orientation `o`.
pub open spec fn ext_x(item: Dimension, o: Orientation) -> u32 {
    match o {
        Orientation::Horizontal => item.x,
        Orientation::Vertical => item.y,
    }
}

/// Extent along the y axis of an item placed in orientation `o`.
pub open spec fn ext_y(item: Dimension, o: Orientation) -> u32 {
    match o {
        Orientation::Horizontal => item.y,
        Orientation::Vertical => item.x,
    }
}

/// The occupied rectangle of `p` lies within `[x0, x1) x [y0, y1)`.
pub open spec fn in_rect(p: Placement, item: Dimension, x0: int, y0: int, x1: int, y1: int) -> bool {
    &&& x0 <= p.pos.x
    &&& p.pos.x + ext_x(item, p.o) <= x1
    &&& y0 <= p.pos.y
    &&& p.pos.y + ext_y(item, p.o) <= y1
}

/// Every placement of `s` occupies a rectangle within `[x0, x1) x [y0, y1)`.
pub open spec fn all_in_rect(
    s: Seq<Placement>,
    item: Dimension,
    x0: int,
    y0: int,
    x1: int,
    y1: int,
) -> bool {
    forall|i: int| 0 <= i < s.len() ==> in_rect(#[trigger] s[i], item, x0, y0, x1, y1)
}

/// The occupied rectangles of `p` and `q` do not intersect: one lies fully
/// to the left of, to the right of, below, or above the other.
pub open spec fn disjoint(p: Placement, q: Placement, item: Dimension) -> bool {
    ||| p.pos.x + ext_x(item, p.o) <= q.pos.x
    ||| q.pos.x + ext_x(item, q.o) <= p.pos.x
    ||| p.pos.y + ext_y(item, p.o) <= q.pos.y
    ||| q.pos.y + ext_y(item, q.o) <= p.pos.y
}

/// No two placements of `s` overlap.
pub open spec fn pairwise_disjoint(s: Seq<Placement>, item: Dimension) -> bool {
    forall|i: int, j: int|
        0 <= i < j < s.len() ==> disjoint(#[trigger] s[i], #[trigger] s[j], item)
}

/// A geometrically valid solution for `bin` and `item`: every placement lies
/// within `[0, bin.x) x [0, bin.y)` and no two placements overlap.
pub open spec fn valid_solution(s: Seq<Placement>, bin: Dimension, item: Dimension) -> bool {
    &&& all_in_rect(s, item, 0, 0, bin.x as int, bin.y as int)
    &&& pairwise_disjoint(s, item)
}

/// The `k`-th placement of a uniform grid with `ny` placements per column
/// and cell size `(dx, dy)`: column index `k / ny`, row index `k % ny`.
pub open spec fn grid_place(dx: u32, dy: u32, o: Orientation, ny: int, k: int) -> Placement {
    Placement { pos: Dimension { x: ((k / ny) * dx) as u32, y: ((k % ny) * dy) as u32 }, o }
}

/// A uniform `nx` by `ny` grid of placements in orientation `o` with cell
/// size `(dx, dy)`, emitted column by column: outer index along x, inner
/// index along y.
pub open spec fn grid_seq(nx: int, ny: int, dx: u32, dy: u32, o: Orientation) -> Seq<Placement> {
    Seq::new((nx * ny) as nat, |k: int| grid_place(dx, dy, o, ny, k))
}

/// How many horizontal items tile the bin in one uniform grid.
pub open spec fn count_h(bin: Dimension, item: Dimension) -> int
    recommends
        !degenerate(bin, item),
{
    (bin.x as int / item.x as int) * (bin.y as int / item.y as int)
}

/// How many vertical (rotated) items tile the bin in one uniform grid.
pub open spec fn count_v(bin: Dimension, item: Dimension) -> int
    recommends
        !degenerate(bin, item),
{
    (bin.x as int / item.y as int) * (bin.y as int / item.x as int)
}

/// The orientation the single-block strategy selects: the one whose uniform
/// grid holds strictly more items; ties resolve to `Vertical`.
pub open spec fn n1_orientation(bin: Dimension, item: Dimension) -> Orientation
    recommends
        !degenerate(bin, item),
{
    if count_h(bin, item) > count_v(bin, item) {
        Orientation::Horizontal
    } else {
        Orientation::Vertical
    }
}

/// The exact solution the single-block strategy returns: empty on degenerate
/// input, otherwise the full uniform grid of the selected orientation.
pub open spec fn n1_seq(bin: Dimension, item: Dimension) -> Seq<Placement> {
    if degenerate(bin, item) {
        Seq::empty()
    } else {
        let o = n1_orientation(bin, item);
        let dx = ext_x(item, o);
        let dy = ext_y(item, o);
        grid_seq(bin.x as int / dx as int, bin.y as int / dy as int, dx, dy, o)
    }
}

/// How many items the single-block strategy places: the greater of the two
/// orientation counts, and zero on degenerate input.
pub open spec fn n1_count(bin: Dimension, item: Dimension) -> int {
    if degenerate(bin, item) {
        0
    } else if count_h(bin, item) > count_v(bin, item) {
        count_h(bin, item)
    } else {
        count_v(bin, item)
    }
}

/// `p` moved by the offset `(ox, oy)`.
pub open spec fn translate_place(p: Placement, ox: int, oy: int) -> Placement {
    Placement {
        pos: Dimension { x: (p.pos.x + ox) as u32, y: (p.pos.y + oy) as u32 },
        o: p.o,
    }
}

/// Every placement of `s` moved by the offset `(ox, oy)`.
pub open spec fn translate_seq(s: Seq<Placement>, ox: int, oy: int) -> Seq<Placement> {
    Seq::new(s.len(), |i: int| translate_place(s[i], ox, oy))
}

/// A full grid along one axis fits within the length it was computed from:
/// `0 <= x / d` and `(x / d) * d <= x`.
pub proof fn lemma_grid_fits(x: int, d: int)
    requires
        0 <= x,
        0 < d,
    ensures
        0 <= x / d,
        (x / d) * d <= x,
{
    lemma_div_pos_is_pos(x, d);
    lemma_fundamental_div_mod(x, d);
    lemma_mod_division_less_than_divisor(x, d);
    assert((x / d) * d == d * (x / d)) by (nonlinear_arith);
}

/// Index arithmetic and position bounds for the cell with flat index `k` in
/// an `nx` by `ny` grid with cell size `(dx, dy)` confined to `wx` by `wy`.
proof fn lemma_grid_cell(nx: int, ny: int, dx: int, dy: int, k: int, wx: int, wy: int)
    requires
        0 < dx,
        0 < dy,
        0 <= nx,
        0 <= ny,
        nx * dx <= wx,
        ny * dy <= wy,
        0 <= k < nx * ny,
    ensures
        0 < ny,
        0 <= k / ny < nx,
        0 <= k % ny < ny,
        k == (k / ny) * ny + (k % ny),
        0 <= (k / ny) * dx,
        (k / ny) * dx + dx <= wx,
        0 <= (k % ny) * dy,
        (k % ny) * dy + dy <= wy,
{
    if ny <= 0 {
        assert(nx * ny <= 0) by (nonlinear_arith)
            requires
                0 <= nx,
                ny <= 0,
        ;
    }
    let ix = k / ny;
    let iy = k % ny;
    lemma_mod_division_less_than_divisor(k, ny);
    lemma_div_pos_is_pos(k, ny);
    assert(k < ny * nx) by (nonlinear_arith)
        requires
            k < nx * ny,
    ;
    lemma_multiply_divide_lt(k, ny, nx);
    lemma_fundamental_div_mod(k, ny);
    assert(k == ix * ny + iy) by (nonlinear_arith)
        requires
            k == ny * (k / ny) + k % ny,
            ix == k / ny,
            iy == k % ny,
    ;
    lemma_mul_nonnegative(ix, dx);
    lemma_mul_nonnegative(iy, dy);
    lemma_mul_inequality(ix + 1, nx, dx);
    assert((ix + 1) * dx == ix * dx + dx) by (nonlinear_arith);
    lemma_mul_inequality(iy + 1, ny, dy);
    assert((iy + 1) * dy == iy * dy + dy) by (nonlinear_arith);
}

/// A uniform grid whose cell size matches the item's extents for `o` is a
/// valid group of placements: each cell lies within `[0, wx) x [0, wy)` and
/// no two cells overlap.
pub proof fn lemma_grid_valid(
    nx: int,
    ny: int,
    dx: u32,
    dy: u32,
    o: Orientation,
    item: Dimension,
    wx: int,
    wy: int,
)
    requires
        0 < dx,
        0 < dy,
        0 <= nx,
        0 <= ny,
        dx == ext_x(item, o),
        dy == ext_y(item, o),
        nx * dx <= wx,
        ny * dy <= wy,
        wx <= u32::MAX,
        wy <= u32::MAX,
    ensures
        all_in_rect(grid_seq(nx, ny, dx, dy, o), item, 0, 0, wx, wy),
        pairwise_disjoint(grid_seq(nx, ny, dx, dy, o), item),
{
    let s = grid_seq(nx, ny, dx, dy, o);
    assert forall|k: int| 0 <= k < s.len() implies in_rect(#[trigger] s[k], item, 0, 0, wx, wy) by {
        lemma_grid_cell(nx, ny, dx as int, dy as int, k, wx, wy);
        assert(s[k].pos.x == (k / ny) * dx);
        assert(s[k].pos.y == (k % ny) * dy);
    }
    assert forall|i: int, j: int|
        0 <= i < j < s.len() implies disjoint(#[trigger] s[i], #[trigger] s[j], item) by {
        lemma_grid_cell(nx, ny, dx as int, dy as int, i, wx, wy);
        lemma_grid_cell(nx, ny, dx as int, dy as int, j, wx, wy);
        let ixi = i / ny;
        let iyi = i % ny;
        let ixj = j / ny;
        let iyj = j % ny;
        assert(s[i].pos.x == ixi * dx);
        assert(s[i].pos.y == iyi * dy);
        assert(s[j].pos.x == ixj * dx);
        assert(s[j].pos.y == iyj * dy);
        if ixi < ixj {
            lemma_mul_inequality(ixi + 1, ixj, dx as int);
            assert((ixi + 1) * dx == ixi * dx + dx) by (nonlinear_arith);
        } else if ixj < ixi {
            lemma_mul_inequality(ixj + 1, ixi, dx as int);
            assert((ixj + 1) * dx == ixj * dx + dx) by (nonlinear_arith);
        } else {
            assert(iyi < iyj);
            lemma_mul_inequality(iyi + 1, iyj, dy as int);
            assert((iyi + 1) * dy == iyi * dy + dy) by (nonlinear_arith);
        }
    }
}

/// The single-block solution is geometrically valid and places exactly
/// `n1_count` items.
pub proof fn lemma_n1_seq(bin: Dimension, item: Dimension)
    ensures
        valid_solution(n1_seq(bin, item), bin, item),
        n1_seq(bin, item).len() == n1_count(bin, item),
{
    if !degenerate(bin, item) {
        let o = n1_orientation(bin, item);
        let dx = ext_x(item, o);
        let dy = ext_y(item, o);
        let nx = bin.x as int / dx as int;
        let ny = bin.y as int / dy as int;
        lemma_grid_fits(bin.x as int, dx as int);
        lemma_grid_fits(bin.y as int, dy as int);
        lemma_grid_valid(nx, ny, dx, dy, o, item, bin.x as int, bin.y as int);
        lemma_mul_nonnegative(nx, ny);
        assert(n1_seq(bin, item).len() == nx * ny);
    }
}

/// Translating a valid group of placements confined to `[0, rx) x [0, ry)`
/// by `(ox, oy)` keeps it pairwise disjoint and confines it to
/// `[ox, ox + rx) x [oy, oy + ry)`.
pub proof fn lemma_translate(
    s: Seq<Placement>,
    item: Dimension,
    ox: int,
    oy: int,
    rx: int,
    ry: int,
)
    requires
        0 <= ox,
        0 <= oy,
        0 <= rx,
        0 <= ry,
        ox + rx <= u32::MAX,
        oy + ry <= u32::MAX,
        all_in_rect(s, item, 0, 0, rx, ry),
        pairwise_disjoint(s, item),
    ensures
        all_in_rect(translate_seq(s, ox, oy), item, ox, oy, ox + rx, oy + ry),
        pairwise_disjoint(translate_seq(s, ox, oy), item),
{
    let t = translate_seq(s, ox, oy);
    assert forall|i: int|
        0 <= i < t.len() implies in_rect(#[trigger] t[i], item, ox, oy, ox + rx, oy + ry) by {
        assert(in_rect(s[i], item, 0, 0, rx, ry));
    }
    assert forall|i: int, j: int|
        0 <= i < j < t.len() implies disjoint(#[trigger] t[i], #[trigger] t[j], item) by {
        assert(disjoint(s[i], s[j], item));
        assert(in_rect(s[i], item, 0, 0, rx, ry));
        assert(in_rect(s[j], item, 0, 0, rx, ry));
    }
}

/// Two valid groups of placements confined to two non-intersecting
/// rectangles, both within `[0, cx) x [0, cy)`, concatenate to one valid
/// group within `[0, cx) x [0, cy)`.
pub proof fn lemma_concat(
    s1: Seq<Placement>,
    s2: Seq<Placement>,
    item: Dimension,
    ax0: int,
    ay0: int,
    ax1: int,
    ay1: int,
    bx0: int,
    by0: int,
    bx1: int,
    by1: int,
    cx: int,
    cy: int,
)
    requires
        all_in_rect(s1, item, ax0, ay0, ax1, ay1),
        all_in_rect(s2, item, bx0, by0, bx1, by1),
        pairwise_disjoint(s1, item),
        pairwise_disjoint(s2, item),
        ax1 <= bx0 || bx1 <= ax0 || ay1 <= by0 || by1 <= ay0,
        0 <= ax0,
        ax1 <= cx,
        0 <= ay0,
        ay1 <= cy,
        0 <= bx0,
        bx1 <= cx,
        0 <= by0,
        by1 <= cy,
    ensures
        all_in_rect(s1 + s2, item, 0, 0, cx, cy),
        pairwise_disjoint(s1 + s2, item),
{
    let t = s1 + s2;
    assert forall|i: int| 0 <= i < t.len() implies in_rect(#[trigger] t[i], item, 0, 0, cx, cy) by {
        if i < s1.len() {
            assert(t[i] == s1[i]);
            assert(in_rect(s1[i], item, ax0, ay0, ax1, ay1));
        } else {
            assert(t[i] == s2[i - s1.len()]);
            assert(in_rect(s2[i - s1.len()], item, bx0, by0, bx1, by1));
        }
    }
    assert forall|i: int, j: int|
        0 <= i < j < t.len() implies disjoint(#[trigger] t[i], #[trigger] t[j], item) by {
        if j < s1.len() {
            assert(disjoint(s1[i], s1[j], item));
        } else if i >= s1.len() {
            assert(disjoint(s2[i - s1.len()], s2[j - s1.len()], item));
        } else {
            assert(t[i] == s1[i]);
            assert(t[j] == s2[j - s1.len()]);
            assert(in_rect(s1[i], item, ax0, ay0, ax1, ay1));
            assert(in_rect(s2[j - s1.len()], item, bx0, by0, bx1, by1));
        }
    }
}

/// Emits the uniform `nx` by `ny` grid of placements with cell size
/// `(dx, dy)` in orientation `o`, column by column.
pub(crate) fn fill_grid(nx: u32, ny: u32, dx: u32, dy: u32, o: Orientation) -> (r: Vec<Placement>)
    requires
        nx * dx <= u32::MAX,
        ny * dy <= u32::MAX,
    ensures
        r@ == grid_seq(nx as int, ny as int, dx, dy, o),
{
    let mut r: Vec<Placement> = Vec::new();
    for ix in 0..nx
        invariant
            nx * dx <= u32::MAX,
            ny * dy <= u32::MAX,
            r@.len() == ix * ny,
            forall|k: int|
                0 <= k < r@.len() ==> #[trigger] r@[k] == grid_place(dx, dy, o, ny as int, k),
    {
        for iy in 0..ny
            invariant
                ix < nx,
                nx * dx <= u32::MAX,
                ny * dy <= u32::MAX,
                r@.len() == ix * ny + iy,
                forall|k: int|
                    0 <= k < r@.len() ==> #[trigger] r@[k] == grid_place(dx, dy, o, ny as int, k),
        {
            proof {
                lemma_mul_inequality(ix as int, nx as int, dx as int);
                lemma_mul_inequality(iy as int, ny as int, dy as int);
                lemma_mul_nonnegative(ix as int, dx as int);
                lemma_mul_nonnegative(iy as int, dy as int);
            }
            let px = ix * dx;
            let py = iy * dy;
            r.push(Placement { pos: Dimension { x: px, y: py }, o });
            proof {
                let k: int = ix as int * ny as int + iy as int;
                lemma_fundamental_div_mod_converse_div(k, ny as int, ix as int, iy as int);
                lemma_fundamental_div_mod_converse_mod(k, ny as int, ix as int, iy as int);
                assert(r@[k] == grid_place(dx, dy, o, ny as int, k));
            }
        }
        proof {
            assert((ix + 1) * ny == ix * ny + ny) by (nonlinear_arith);
        }
    }
    proof {
        assert(r@ =~= grid_seq(nx as int, ny as int, dx, dy, o));
    }
    r
}

} // verus!
