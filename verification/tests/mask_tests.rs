use atelier::mask::boundary::boundary_segments;
use atelier::mask::{CombineOp, Mask};

fn rect_mask(x0: i32, y0: i32, x1: i32, y1: i32) -> Mask {
    let mut m = Mask::new();
    for y in y0..y1 {
        for x in x0..x1 {
            m.set(x, y, 255);
        }
    }
    m
}

#[test]
fn get_set_and_default_zero() {
    let mut m = Mask::new();
    assert_eq!(m.get(5, -3), 0);
    m.set(300, 300, 128);
    assert_eq!(m.get(300, 300), 128);
    assert!(!m.is_empty());
}

#[test]
fn combine_semantics() {
    let a = rect_mask(0, 0, 10, 10);
    let b = rect_mask(5, 0, 15, 10);

    let mut add = a.clone();
    add.combine(&b, CombineOp::Add);
    assert_eq!(add.get(2, 2), 255);
    assert_eq!(add.get(12, 2), 255);

    let mut sub = a.clone();
    sub.combine(&b, CombineOp::Subtract);
    assert_eq!(sub.get(2, 2), 255, "left half kept");
    assert_eq!(sub.get(7, 2), 0, "overlap removed");
    assert_eq!(sub.get(12, 2), 0);

    let mut inter = a.clone();
    inter.combine(&b, CombineOp::Intersect);
    assert_eq!(inter.get(2, 2), 0);
    assert_eq!(inter.get(7, 2), 255, "only overlap");

    let mut rep = a.clone();
    rep.combine(&b, CombineOp::Replace);
    assert_eq!(rep.get(2, 2), 0);
    assert_eq!(rep.get(12, 2), 255);
}

#[test]
fn select_all_and_inverted_respect_doc_rect() {
    let all = Mask::select_all([4, 3]);
    assert_eq!(all.get(0, 0), 255);
    assert_eq!(all.get(3, 2), 255);
    assert_eq!(all.get(4, 0), 0, "outside doc rect");

    let mut sel = Mask::new();
    sel.set(1, 1, 255);
    let inv = sel.inverted([4, 3]);
    assert_eq!(inv.get(1, 1), 0, "selected becomes unselected");
    assert_eq!(inv.get(0, 0), 255, "unselected becomes selected");
    assert_eq!(inv.get(10, 10), 0, "outside doc rect stays 0");
}

#[test]
fn pixel_bounds_is_exact_not_tile_granular() {
    let m = rect_mask(10, 12, 25, 30);
    assert_eq!(m.pixel_bounds(), Some([10, 12, 25, 30]));
    assert_eq!(Mask::new().pixel_bounds(), None);
}

#[test]
fn subtract_all_becomes_empty() {
    let a = rect_mask(0, 0, 8, 8);
    let mut s = a.clone();
    s.combine(&a, CombineOp::Subtract);
    assert!(s.is_empty());
}

#[test]
fn add_takes_maximum_subtract_complements_intersect_takes_minimum() {
    let mut a = Mask::new();
    a.set(0, 0, 200);
    let mut b = Mask::new();
    b.set(0, 0, 100);
    let mut add = a.clone();
    add.combine(&b, CombineOp::Add);
    assert_eq!(add.get(0, 0), 200);
    let mut inter = a.clone();
    inter.combine(&b, CombineOp::Intersect);
    assert_eq!(inter.get(0, 0), 100);
    let mut sub = a.clone();
    sub.combine(&b, CombineOp::Subtract);
    assert_eq!(sub.get(0, 0), 155);
}

#[test]
fn prune_blank_drops_cleared_tiles_and_bounds_are_tile_granular() {
    let mut m = Mask::default();
    m.set(700, 3, 9);
    assert_eq!(m.bounds(), Some([512, 0, 768, 256]));
    m.set(700, 3, 0);
    assert!(m.is_empty(), "all-zero coverage counts as empty");
    assert_eq!(m.bounds(), None, "a zeroed tile holds no content");
    m.prune_blank();
    assert!(m.is_empty());
    assert_eq!(m.bounds(), None);
}

#[test]
fn bounds_is_none_for_a_cleared_pixel() {
    let mut m = Mask::new();
    m.set(3, 3, 255);
    m.set(3, 3, 0);
    assert!(m.is_empty());
    assert_eq!(m.bounds(), None);
    assert_eq!(m.pixel_bounds(), None);
}

#[test]
fn bounds_cover_only_tiles_with_coverage() {
    let mut m = Mask::new();
    m.set(-10, 5, 0);
    m.set(300, 600, 7);
    m.set(-1, 0, 1);
    m.set(-1, 0, 0);
    assert_eq!(m.bounds(), Some([256, 512, 512, 768]));
    assert!(!m.is_empty());
}

#[test]
fn mask_pixel_bounds_lie_inside_tile_bounds() {
    let mut m = Mask::new();
    m.set(300, 600, 7);
    m.set(-5, 40, 200);
    let t = m.bounds().unwrap();
    let p = m.pixel_bounds().unwrap();
    assert_eq!(t, [-256, 0, 512, 768]);
    assert_eq!(p, [-5, 40, 301, 601]);
    assert!(t[0] <= p[0] && t[1] <= p[1] && p[2] <= t[2] && p[3] <= t[3]);
}

#[test]
fn prune_blank_keeps_every_pixel() {
    let mut m = Mask::new();
    m.set(10, 10, 50);
    m.set(400, 10, 9);
    m.set(400, 10, 0);
    m.prune_blank();
    assert_eq!(m.get(10, 10), 50);
    assert_eq!(m.get(400, 10), 0);
    assert_eq!(m.bounds(), Some([0, 0, 256, 256]));
}

#[test]
fn inverted_of_empty_is_select_all() {
    let inv = Mask::new().inverted([3, 2]);
    let all = Mask::select_all([3, 2]);
    for y in -1..4 {
        for x in -1..5 {
            assert_eq!(inv.get(x, y), all.get(x, y), "at ({x},{y})");
        }
    }
    assert_eq!(inv.duplicate().get(2, 1), 255);
}

#[test]
fn region_bytes_round_trip() {
    let mut m = Mask::new();
    m.set(2, 3, 10);
    m.set(4, 4, 20);
    let (x0, y0, w, h, cov) = m.to_region_bytes().unwrap();
    assert_eq!((x0, y0, w, h), (2, 3, 3, 2));
    assert_eq!(cov, vec![10, 0, 0, 0, 0, 20]);
    let back = Mask::from_region_bytes(x0, y0, w, h, &cov);
    assert_eq!(back.get(2, 3), 10);
    assert_eq!(back.get(4, 4), 20);
    assert_eq!(back.get(3, 3), 0);
    assert!(Mask::new().to_region_bytes().is_none());
}

/// Full coverage over the pixel rect `[x0, x1) × [y0, y1)`.
fn full_rect(x0: i32, y0: i32, x1: i32, y1: i32) -> Mask {
    let mut m = Mask::new();
    for y in y0..y1 {
        for x in x0..x1 {
            m.set(x, y, 255);
        }
    }
    m
}

#[test]
fn combine_with_shapes_and_boundary_of_rect() {
    let mut sel = full_rect(0, 0, 10, 10);
    sel.combine(&full_rect(20, 0, 30, 10), CombineOp::Add);
    assert_eq!(sel.get(25, 5), 255);

    let segs = boundary_segments(&full_rect(1, 1, 4, 3));
    // 3×2 px rect → perimeter edges: 2*(3+2) = 10 unit segments.
    assert_eq!(segs.len(), 10);
}

#[test]
fn boundary_edges_sit_on_the_rect_sides() {
    let segs = boundary_segments(&full_rect(1, 1, 4, 3));
    // Row by row, left to right: the top edges of the first row come first.
    assert_eq!(segs[0], ([1, 1], [1, 2]), "left side of (1, 1)");
    assert_eq!(segs[1], ([1, 1], [2, 1]), "top side of (1, 1)");
    assert!(segs.contains(&([4, 2], [4, 3])), "right side of (3, 2)");
    assert!(segs.contains(&([3, 3], [4, 3])), "bottom side of (3, 2)");
    assert!(segs.iter().all(|(a, b)| (b[0] - a[0]) + (b[1] - a[1]) == 1), "unit edges");
    // Below threshold 128 counts as unselected; no tiles, no outline.
    let mut faint = Mask::new();
    faint.set(5, 5, 127);
    assert!(boundary_segments(&faint).is_empty());
    assert!(boundary_segments(&Mask::new()).is_empty());
}
