use aisle::plp::{plp_g4, plp_n1, Dimension, Orientation, Placement};

fn extent_x(item: Dimension, o: Orientation) -> u32 {
    match o {
        Orientation::Horizontal => item.x,
        Orientation::Vertical => item.y,
    }
}

fn extent_y(item: Dimension, o: Orientation) -> u32 {
    match o {
        Orientation::Horizontal => item.y,
        Orientation::Vertical => item.x,
    }
}

/// Checks the two solution invariants at run time: every occupied rectangle
/// lies within the bin, and no two occupied rectangles intersect.
fn assert_valid(bin: Dimension, item: Dimension, sol: &[Placement]) {
    for p in sol {
        assert!(p.pos.x as u64 + extent_x(item, p.o) as u64 <= bin.x as u64);
        assert!(p.pos.y as u64 + extent_y(item, p.o) as u64 <= bin.y as u64);
    }
    for i in 0..sol.len() {
        for j in (i + 1)..sol.len() {
            let p = sol[i];
            let q = sol[j];
            let separated = p.pos.x + extent_x(item, p.o) <= q.pos.x
                || q.pos.x + extent_x(item, q.o) <= p.pos.x
                || p.pos.y + extent_y(item, p.o) <= q.pos.y
                || q.pos.y + extent_y(item, q.o) <= p.pos.y;
            assert!(separated, "placements {} and {} overlap", i, j);
        }
    }
}

#[test]
fn test_empty_bin() {
    let bin = Dimension { x: 0, y: 0 };
    let item = Dimension { x: 20, y: 10 };
    assert!(plp_n1(bin, item).is_empty());
}

#[test]
fn test_empty_item() {
    let bin = Dimension { x: 10, y: 5 };
    let item = Dimension { x: 0, y: 0 };
    assert!(plp_n1(bin, item).is_empty());
}

#[test]
fn test_bin_smaller_than_item() {
    let bin = Dimension { x: 10, y: 5 };
    let item = Dimension { x: 20, y: 10 };
    assert!(plp_n1(bin, item).is_empty());
}

#[test]
fn test_bin_equals_item_horizontally() {
    let bin = Dimension { x: 10, y: 5 };
    let item = Dimension { x: 10, y: 5 };
    let sut = plp_n1(bin, item);
    assert_eq!(sut.len(), 1);
    assert_eq!(sut.first().unwrap().pos, Dimension { x: 0, y: 0 });
    assert_eq!(sut.first().unwrap().o, Orientation::Horizontal);
}

#[test]
fn test_bin_equals_item_vertically() {
    let bin = Dimension { x: 10, y: 5 };
    let item = Dimension { x: 5, y: 10 };
    let sut = plp_n1(bin, item);
    assert_eq!(sut.len(), 1);
    assert_eq!(sut.first().unwrap().pos, Dimension { x: 0, y: 0 });
    assert_eq!(sut.first().unwrap().o, Orientation::Vertical);
}

#[test]
fn test_chooses_largest_orientation() {
    let bin = Dimension { x: 1200, y: 800 };
    let item = Dimension { x: 400, y: 300 };
    let sut = plp_n1(bin, item);
    assert_eq!(sut.len(), 8);
    for plcm in sut.iter() {
        assert_eq!(plcm.o, Orientation::Vertical);
    }
    let mut plcm_iter = sut.iter();
    assert_eq!(plcm_iter.next().unwrap().pos, Dimension { x: 0, y: 0 });
    assert_eq!(plcm_iter.next().unwrap().pos, Dimension { x: 0, y: 400 });
    assert_eq!(plcm_iter.next().unwrap().pos, Dimension { x: 300, y: 0 });
    assert_eq!(plcm_iter.next().unwrap().pos, Dimension { x: 300, y: 400 });
    assert_eq!(plcm_iter.next().unwrap().pos, Dimension { x: 600, y: 0 });
    assert_eq!(plcm_iter.next().unwrap().pos, Dimension { x: 600, y: 400 });
    assert_eq!(plcm_iter.next().unwrap().pos, Dimension { x: 900, y: 0 });
    assert_eq!(plcm_iter.next().unwrap().pos, Dimension { x: 900, y: 400 });
}

#[test]
fn test_g4_empty_bin() {
    let bin = Dimension { x: 0, y: 7 };
    let item = Dimension { x: 2, y: 3 };
    assert!(plp_g4(bin, item).is_empty());
}

#[test]
fn test_g4_empty_item() {
    let bin = Dimension { x: 10, y: 5 };
    let item = Dimension { x: 4, y: 0 };
    assert!(plp_g4(bin, item).is_empty());
}

#[test]
fn test_too_large_item_both_empty() {
    let bin = Dimension { x: 10, y: 5 };
    let item = Dimension { x: 20, y: 10 };
    assert!(plp_n1(bin, item).is_empty());
    assert!(plp_g4(bin, item).is_empty());
}

#[test]
fn test_g4_exact_fit() {
    let bin = Dimension { x: 10, y: 5 };
    let item = Dimension { x: 10, y: 5 };
    let sut = plp_g4(bin, item);
    assert_eq!(sut.len(), 1);
    assert_eq!(sut[0].pos, Dimension { x: 0, y: 0 });
    assert_eq!(sut[0].o, Orientation::Horizontal);
    assert_valid(bin, item, &sut);
}

#[test]
fn test_g4_beats_n1() {
    // A horizontal strip of three items plus a rotated pair in the residual
    // packs five items; a single uniform block packs at most four.
    let bin = Dimension { x: 6, y: 5 };
    let item = Dimension { x: 2, y: 3 };
    let base = plp_n1(bin, item);
    assert_eq!(base.len(), 4);
    let sut = plp_g4(bin, item);
    assert_eq!(sut.len(), 5);
    let expected = vec![
        Placement { pos: Dimension { x: 0, y: 0 }, o: Orientation::Horizontal },
        Placement { pos: Dimension { x: 2, y: 0 }, o: Orientation::Horizontal },
        Placement { pos: Dimension { x: 4, y: 0 }, o: Orientation::Horizontal },
        Placement { pos: Dimension { x: 0, y: 3 }, o: Orientation::Vertical },
        Placement { pos: Dimension { x: 3, y: 3 }, o: Orientation::Vertical },
    ];
    assert_eq!(sut, expected);
    assert_valid(bin, item, &sut);
    assert_valid(bin, item, &base);
}

#[test]
fn test_degenerate_laws() {
    let shapes = [
        (Dimension { x: 0, y: 9 }, Dimension { x: 2, y: 3 }),
        (Dimension { x: 9, y: 0 }, Dimension { x: 2, y: 3 }),
        (Dimension { x: 9, y: 9 }, Dimension { x: 0, y: 3 }),
        (Dimension { x: 9, y: 9 }, Dimension { x: 2, y: 0 }),
        (Dimension { x: 0, y: 0 }, Dimension { x: 0, y: 0 }),
    ];
    for (bin, item) in shapes {
        assert!(plp_n1(bin, item).is_empty());
        assert!(plp_g4(bin, item).is_empty());
    }
}

#[test]
fn test_dominance_and_invariants_sweep() {
    for bx in 0..8u32 {
        for by in 0..8u32 {
            for ix in 0..5u32 {
                for iy in 0..5u32 {
                    let bin = Dimension { x: bx, y: by };
                    let item = Dimension { x: ix, y: iy };
                    let base = plp_n1(bin, item);
                    let sut = plp_g4(bin, item);
                    assert!(
                        sut.len() >= base.len(),
                        "g4 placed fewer items than n1 for bin ({}, {}) item ({}, {})",
                        bx, by, ix, iy
                    );
                    assert_valid(bin, item, &base);
                    assert_valid(bin, item, &sut);
                }
            }
        }
    }
}

#[test]
fn test_n1_row_major_order() {
    // Four horizontal items fit (2 * 2) against three vertical (1 * 3), so
    // Horizontal wins; the order is outer loop along x, inner loop along y.
    let bin = Dimension { x: 4, y: 6 };
    let item = Dimension { x: 2, y: 3 };
    let sut = plp_n1(bin, item);
    let expected = vec![
        Placement { pos: Dimension { x: 0, y: 0 }, o: Orientation::Horizontal },
        Placement { pos: Dimension { x: 0, y: 3 }, o: Orientation::Horizontal },
        Placement { pos: Dimension { x: 2, y: 0 }, o: Orientation::Horizontal },
        Placement { pos: Dimension { x: 2, y: 3 }, o: Orientation::Horizontal },
    ];
    assert_eq!(sut, expected);
}
