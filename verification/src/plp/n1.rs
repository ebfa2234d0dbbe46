//! The non-recursive single-block strategy.

use crate::plp::{
    degenerate, fill_grid, lemma_grid_fits, lemma_n1_seq, n1_count, n1_orientation, n1_seq,
    valid_solution, Dimension, Orientation, Placement,
};
use vstd::arithmetic::mul::lemma_mul_upper_bound;
use vstd::prelude::*;

verus! {

/// Solves the plp with a non-recursive 1-block strategy
///
/// Simplistic implementation that places all items contiguously as a single
/// block, either horizontally or vertically, depending on which of both
/// places the most items. The result is exactly [`n1_seq`]: the full uniform
/// grid of the winning orientation, with ties resolved to `Vertical`,
/// emitted with the outer loop along x and the inner loop along y.
pub fn plp_n1(bin: Dimension, item: Dimension) -> (result: Vec<Placement>)
    ensures
        result@ == n1_seq(bin, item),
        result@.len() == n1_count(bin, item),
        valid_solution(result@, bin, item),
        degenerate(bin, item) ==> result@.len() == 0,
{
    proof {
        lemma_n1_seq(bin, item);
    }
    if bin.x == 0 || bin.y == 0 || item.x == 0 || item.y == 0 {
        let result: Vec<Placement> = Vec::new();
        proof {
            assert(result@ =~= n1_seq(bin, item));
        }
        return result;
    }
    // How many can we place if item is placed horizontally?
    let nxh = bin.x / item.x;
    let nyh = bin.y / item.y;

    // How many can we place if item is placed vertically?
    let nxv = bin.x / item.y;
    let nyv = bin.y / item.x;

    proof {
        lemma_mul_upper_bound(nxh as int, u32::MAX as int, nyh as int, u32::MAX as int);
        lemma_mul_upper_bound(nxv as int, u32::MAX as int, nyv as int, u32::MAX as int);
    }
    let ch = (nxh as u64) * (nyh as u64);
    let cv = (nxv as u64) * (nyv as u64);

    // Emit the block, depending on which case has most placements
    let o = if ch > cv {
        Orientation::Horizontal
    } else {
        Orientation::Vertical
    };
    let nx = if ch > cv {
        nxh
    } else {
        nxv
    };
    let ny = if ch > cv {
        nyh
    } else {
        nyv
    };
    let dx = if ch > cv {
        item.x
    } else {
        item.y
    };
    let dy = if ch > cv {
        item.y
    } else {
        item.x
    };
    proof {
        assert(o == n1_orientation(bin, item));
        lemma_grid_fits(bin.x as int, dx as int);
        lemma_grid_fits(bin.y as int, dy as int);
    }
    let result = fill_grid(nx, ny, dx, dy, o);
    proof {
        assert(result@ == n1_seq(bin, item));
    }
    result
}

} // verus!
