//! The recursive block-decomposition strategy over guillotine cuts.

use crate::plp::n1::plp_n1;
use crate::plp::{
    count_h, count_v, degenerate, fill_grid, grid_seq, lemma_concat, lemma_grid_fits,
    lemma_grid_valid, lemma_translate, n1_count, translate_place, translate_seq, valid_solution,
    Dimension, Orientation, Placement,
};
use vstd::prelude::*;

verus! {

/// Solves the plp with the recursive G4 heuristic
///
/// Decomposes the bin along guillotine cuts: for each orientation and each
/// axis, a maximal uniform block of items anchored at the origin and
/// spanning the full other axis, plus a recursively solved rectangular
/// residual. Among these candidates the one placing the most items wins.
/// The whole-bin single block of [`plp_n1`] is the initial candidate; the
/// others are tried Horizontal before Vertical, x cut before y cut, and a
/// tie keeps the earlier candidate. The result therefore never places fewer
/// items than [`plp_n1`]. The recursion needs no explicit depth ceiling:
/// whenever a block is placed, the residual is strictly smaller along the
/// cut axis, which the `decreases` clause proves.
pub fn plp_g4(bin: Dimension, item: Dimension) -> (result: Vec<Placement>)
    ensures
        valid_solution(result@, bin, item),
        result@.len() >= n1_count(bin, item),
        degenerate(bin, item) ==> result@.len() == 0,
        n1_count(bin, item) == 0 ==> result@.len() == 0,
        n1_count(bin, item) > 0 ==> result@.len() > 0,
    decreases bin.x + bin.y, 1int,
{
    if bin.x == 0 || bin.y == 0 || item.x == 0 || item.y == 0 {
        let result: Vec<Placement> = Vec::new();
        return result;
    }
    let nxh = bin.x / item.x;
    let nyh = bin.y / item.y;
    let nxv = bin.x / item.y;
    let nyv = bin.y / item.x;
    if (nxh == 0 || nyh == 0) && (nxv == 0 || nyv == 0) {
        // Neither orientation fits a single item.
        proof {
            let hx = bin.x as int / item.x as int;
            let hy = bin.y as int / item.y as int;
            let vx = bin.x as int / item.y as int;
            let vy = bin.y as int / item.x as int;
            assert(hx * hy == 0) by (nonlinear_arith)
                requires
                    hx == 0 || hy == 0,
            ;
            assert(vx * vy == 0) by (nonlinear_arith)
                requires
                    vx == 0 || vy == 0,
            ;
            assert(count_h(bin, item) == 0);
            assert(count_v(bin, item) == 0);
        }
        let result: Vec<Placement> = Vec::new();
        return result;
    }
    proof {
        let hx = bin.x as int / item.x as int;
        let hy = bin.y as int / item.y as int;
        let vx = bin.x as int / item.y as int;
        let vy = bin.y as int / item.x as int;
        if hx >= 1 && hy >= 1 {
            assert(hx * hy >= 1) by (nonlinear_arith)
                requires
                    hx >= 1,
                    hy >= 1,
            ;
        }
        if vx >= 1 && vy >= 1 {
            assert(vx * vy >= 1) by (nonlinear_arith)
                requires
                    vx >= 1,
                    vy >= 1,
            ;
        }
        assert(n1_count(bin, item) >= 1);
    }
    let mut best = plp_n1(bin, item);
    try_candidate(bin, item, Orientation::Horizontal, true, &mut best);
    try_candidate(bin, item, Orientation::Horizontal, false, &mut best);
    try_candidate(bin, item, Orientation::Vertical, true, &mut best);
    try_candidate(bin, item, Orientation::Vertical, false, &mut best);
    best
}

/// Tries one guillotine candidate for `bin`: the maximal uniform block of
/// items in orientation `o` along the x axis (`cut_x`) or along the y axis,
/// spanning the full other axis, followed by a recursive solve of the
/// rectangular residual, whose placements are translated past the block.
/// Replaces `best` when the candidate places strictly more items. The
/// residual needs only the recursive call: [`plp_g4`]'s contract already
/// guarantees at least as many items there as [`plp_n1`] would place.
fn try_candidate(
    bin: Dimension,
    item: Dimension,
    o: Orientation,
    cut_x: bool,
    best: &mut Vec<Placement>,
)
    requires
        !degenerate(bin, item),
        valid_solution(old(best)@, bin, item),
    ensures
        valid_solution(final(best)@, bin, item),
        final(best)@.len() >= old(best)@.len(),
    decreases bin.x + bin.y, 0int,
{
    let dx = if o == Orientation::Horizontal {
        item.x
    } else {
        item.y
    };
    let dy = if o == Orientation::Horizontal {
        item.y
    } else {
        item.x
    };
    if cut_x {
        let n = bin.x / dx;
        if n == 0 {
            return;
        }
        let m = bin.y / dy;
        proof {
            lemma_grid_fits(bin.x as int, dx as int);
            lemma_grid_fits(bin.y as int, dy as int);
            assert(dx <= n * dx) by (nonlinear_arith)
                requires
                    1 <= n,
                    0 < dx,
            ;
        }
        let bw = n * dx;
        let mut cand = fill_grid(n, m, dx, dy, o);
        let rest = Dimension { x: bin.x - bw, y: bin.y };
        let sub = plp_g4(rest, item);
        append_translated(&mut cand, &sub, bw, 0);
        proof {
            lemma_grid_valid(n as int, m as int, dx, dy, o, item, bw as int, bin.y as int);
            lemma_translate(sub@, item, bw as int, 0, rest.x as int, rest.y as int);
            lemma_concat(
                grid_seq(n as int, m as int, dx, dy, o),
                translate_seq(sub@, bw as int, 0),
                item,
                0,
                0,
                bw as int,
                bin.y as int,
                bw as int,
                0,
                bin.x as int,
                bin.y as int,
                bin.x as int,
                bin.y as int,
            );
        }
        if cand.len() > best.len() {
            *best = cand;
        }
    } else {
        let n = bin.y / dy;
        if n == 0 {
            return;
        }
        let m = bin.x / dx;
        proof {
            lemma_grid_fits(bin.x as int, dx as int);
            lemma_grid_fits(bin.y as int, dy as int);
            assert(dy <= n * dy) by (nonlinear_arith)
                requires
                    1 <= n,
                    0 < dy,
            ;
        }
        let bh = n * dy;
        let mut cand = fill_grid(m, n, dx, dy, o);
        let rest = Dimension { x: bin.x, y: bin.y - bh };
        let sub = plp_g4(rest, item);
        append_translated(&mut cand, &sub, 0, bh);
        proof {
            lemma_grid_valid(m as int, n as int, dx, dy, o, item, bin.x as int, bh as int);
            lemma_translate(sub@, item, 0, bh as int, rest.x as int, rest.y as int);
            lemma_concat(
                grid_seq(m as int, n as int, dx, dy, o),
                translate_seq(sub@, 0, bh as int),
                item,
                0,
                0,
                bin.x as int,
                bh as int,
                0,
                bh as int,
                bin.x as int,
                bin.y as int,
                bin.x as int,
                bin.y as int,
            );
        }
        if cand.len() > best.len() {
            *best = cand;
        }
    }
}

/// Appends every placement of `src` to `dst`, moved by the offset
/// `(ox, oy)`.
fn append_translated(dst: &mut Vec<Placement>, src: &Vec<Placement>, ox: u32, oy: u32)
    requires
        forall|i: int|
            0 <= i < src@.len() ==> (#[trigger] src@[i]).pos.x + ox <= u32::MAX && src@[i].pos.y
                + oy <= u32::MAX,
    ensures
        final(dst)@ == old(dst)@ + translate_seq(src@, ox as int, oy as int),
{
    let n = src.len();
    for i in 0..n
        invariant
            n == src@.len(),
            forall|k: int|
                0 <= k < src@.len() ==> (#[trigger] src@[k]).pos.x + ox <= u32::MAX
                    && src@[k].pos.y + oy <= u32::MAX,
            dst@ == old(dst)@ + translate_seq(src@.subrange(0, i as int), ox as int, oy as int),
    {
        let p = src[i];
        dst.push(Placement { pos: Dimension { x: p.pos.x + ox, y: p.pos.y + oy }, o: p.o });
        proof {
            assert(src@.subrange(0, i + 1) =~= src@.subrange(0, i as int).push(src@[i as int]));
            assert(translate_seq(src@.subrange(0, i + 1), ox as int, oy as int)
                =~= translate_seq(src@.subrange(0, i as int), ox as int, oy as int).push(
                translate_place(src@[i as int], ox as int, oy as int),
            ));
            assert(dst@ =~= old(dst)@ + translate_seq(
                src@.subrange(0, i + 1),
                ox as int,
                oy as int,
            ));
        }
    }
    proof {
        assert(src@.subrange(0, n as int) =~= src@);
        assert(dst@ =~= old(dst)@ + translate_seq(src@, ox as int, oy as int));
    }
}

} // verus!
