use atelier::vector::{FillRule, Path, PathBuilder, Point, Seg, Shape, Stroke, LineCap, LineJoin};

fn pt(x: f32, y: f32) -> Point {
    [x.to_bits(), y.to_bits()]
}

fn rect(x: f32, y: f32, w: f32, h: f32) -> Path {
    let mut b = PathBuilder::new();
    b.move_to(pt(x, y)).line_to(pt(x + w, y)).line_to(pt(x + w, y + h)).line_to(pt(x, y + h)).close();
    b.build()
}

fn ellipse(cx: f32, cy: f32, rx: f32, ry: f32) -> Path {
    const K: f32 = 0.552_285;
    let (ox, oy) = (rx * K, ry * K);
    let mut b = PathBuilder::new();
    b.move_to(pt(cx, cy - ry))
        .cubic_to(pt(cx + ox, cy - ry), pt(cx + rx, cy - oy), pt(cx + rx, cy))
        .cubic_to(pt(cx + rx, cy + oy), pt(cx + ox, cy + ry), pt(cx, cy + ry))
        .cubic_to(pt(cx - ox, cy + ry), pt(cx - rx, cy + oy), pt(cx - rx, cy))
        .cubic_to(pt(cx - rx, cy - oy), pt(cx - ox, cy - ry), pt(cx, cy - ry))
        .close();
    b.build()
}

#[test]
fn anchors_and_move_anchor() {
    let mut p = rect(0.0, 0.0, 10.0, 10.0);
    // rect = start + 3 line segs = 4 anchors.
    let a = p.anchors();
    assert_eq!(a.len(), 4);
    assert_eq!(a[0], pt(0.0, 0.0));
    assert_eq!(a[2], pt(10.0, 10.0));
    // Move the start anchor and a seg endpoint.
    p.move_anchor(0, pt(-5.0, -5.0));
    p.move_anchor(2, pt(20.0, 20.0));
    let a = p.anchors();
    assert_eq!(a[0], pt(-5.0, -5.0));
    assert_eq!(a[2], pt(20.0, 20.0));
    // Out-of-range index is a no-op.
    let before = p.clone();
    p.move_anchor(99, pt(1.0, 1.0));
    assert_eq!(p, before);
}

#[test]
fn remove_and_insert_anchor() {
    let mut p = rect(0.0, 0.0, 10.0, 10.0); // 4 anchors
    assert!(p.remove_anchor(1));
    assert_eq!(p.anchors().len(), 3, "removed one anchor");
    // Insert before anchor 1 → back to 4.
    assert!(p.insert_anchor(1, pt(5.0, 0.0)));
    let a = p.anchors();
    assert_eq!(a.len(), 4);
    assert_eq!(a[1], pt(5.0, 0.0), "new anchor placed");
    // Can't insert before a subpath start, OOB is a no-op.
    assert!(!p.insert_anchor(0, pt(1.0, 1.0)));
    assert!(!p.remove_anchor(99));
}

#[test]
fn remove_anchor_keeps_minimum_two() {
    // A 2-anchor open path can't lose an anchor.
    let mut p = Path::polyline(&[pt(0.0, 0.0), pt(10.0, 0.0)], false);
    assert_eq!(p.anchors().len(), 2);
    assert!(!p.remove_anchor(0));
    assert!(!p.remove_anchor(1));
    assert_eq!(p.anchors().len(), 2);
}

#[test]
fn move_anchor_keeps_cubic_handles() {
    let mut p = ellipse(0.0, 0.0, 10.0, 10.0);
    // anchors = start + 4 cubic endpoints = 5.
    assert_eq!(p.anchors().len(), 5);
    let Seg::Cubic(c1, c2, _) = p.subpaths[0].segs[0] else { panic!("cubic") };
    p.move_anchor(1, pt(3.0, 3.0)); // first cubic endpoint
    assert_eq!(p.anchors()[1], pt(3.0, 3.0));
    let Seg::Cubic(n1, n2, e) = p.subpaths[0].segs[0] else { panic!("cubic") };
    assert_eq!((n1, n2), (c1, c2), "handles unchanged");
    assert_eq!(e, pt(3.0, 3.0));
}

#[test]
fn rect_built_by_the_builder_has_four_corners() {
    let p = rect(10.0, 20.0, 30.0, 40.0);
    assert_eq!(p.subpaths.len(), 1);
    assert!(p.subpaths[0].closed);
    assert_eq!(p.subpaths[0].segs.len(), 3, "3 line segs + implicit close");
    assert_eq!(p.fill_rule, FillRule::NonZero);
}

#[test]
fn removing_a_start_anchor_promotes_the_next_one() {
    let mut p = Path::polyline(&[pt(0.0, 0.0), pt(1.0, 0.0), pt(2.0, 0.0)], false);
    assert!(p.remove_anchor(0));
    assert_eq!(p.anchors(), vec![pt(1.0, 0.0), pt(2.0, 0.0)]);
    assert_eq!(p.subpaths[0].start, pt(1.0, 0.0));
}

#[test]
fn anchors_span_every_subpath_in_order() {
    let mut b = PathBuilder::new();
    b.move_to(pt(0.0, 0.0)).line_to(pt(1.0, 0.0)).line_to(pt(1.0, 1.0));
    b.move_to(pt(5.0, 5.0)).line_to(pt(6.0, 5.0)).line_to(pt(6.0, 6.0)).close();
    b.fill_rule(FillRule::EvenOdd);
    let mut p = b.build();
    assert_eq!(p.subpaths.len(), 2);
    assert!(!p.subpaths[0].closed && p.subpaths[1].closed);
    assert_eq!(p.fill_rule, FillRule::EvenOdd);
    assert_eq!(p.anchors().len(), 6);
    // Anchor 3 is the second subpath's start.
    assert!(!p.insert_anchor(3, pt(9.0, 9.0)));
    assert!(p.insert_anchor(4, pt(5.5, 5.0)));
    assert_eq!(p.anchors()[4], pt(5.5, 5.0));
    p.move_anchor(6, pt(7.0, 7.0));
    assert_eq!(p.anchors()[6], pt(7.0, 7.0));
    assert_eq!(p.subpaths[1].segs.len(), 3);
}

#[test]
fn segments_before_a_move_open_a_subpath_at_the_origin() {
    let mut b = PathBuilder::new();
    b.line_to(pt(1.0, 1.0));
    let p = b.build();
    assert_eq!(p.subpaths.len(), 1);
    assert_eq!(p.subpaths[0].start, [0, 0]);
    assert!(!p.subpaths[0].closed);
}

#[test]
fn polyline_closed_and_empty() {
    let p = Path::polyline(&[pt(0.0, 0.0), pt(1.0, 0.0), pt(1.0, 1.0)], true);
    assert!(p.subpaths[0].closed);
    assert_eq!(p.subpaths[0].segs, vec![Seg::Line(pt(1.0, 0.0)), Seg::Line(pt(1.0, 1.0))]);
    assert!(Path::polyline(&[], false).subpaths.is_empty());
}

#[test]
fn shape_constructors_and_stroke_default() {
    let s = Stroke::default();
    assert_eq!(s.color, [0, 0, 0, 1.0f32.to_bits()]);
    assert_eq!(s.width, 1.0f32.to_bits());
    assert_eq!((s.cap, s.join), (LineCap::Butt, LineJoin::Miter));
    let f = Shape::filled(rect(0.0, 0.0, 1.0, 1.0), [1, 2, 3, 4]);
    assert_eq!(f.fill, Some([1, 2, 3, 4]));
    assert!(f.stroke.is_none());
    let k = Shape::stroked(rect(0.0, 0.0, 1.0, 1.0), s);
    assert!(k.fill.is_none());
    assert_eq!(k.stroke, Some(s));
}
