use atelier::command::kinds::Command;
use atelier::command::tree::AddNode;
use atelier::compound::{make_compound_path, release_compound_path};
use atelier::document::ProjectFocus;
use atelier::history::Editor;
use atelier::node::{LayerProps, Node, NodeId, NodeKind};
use atelier::vector::{FillRule, Path, Point, Shape, VectorContent};

fn pt(x: f32, y: f32) -> Point {
    [x.to_bits(), y.to_bits()]
}

fn rect(x: f32, y: f32, w: f32, h: f32) -> Path {
    Path::polyline(&[pt(x, y), pt(x + w, y), pt(x + w, y + h), pt(x, y + h)], true)
}

fn shape_count(ed: &Editor, id: NodeId) -> usize {
    match &ed.doc.node(id).unwrap().kind {
        NodeKind::Vector(c) => c.shapes.len(),
        _ => panic!("vector expected"),
    }
}

fn vector_editor(shapes: Vec<Shape>) -> (Editor, NodeId) {
    let mut ed = Editor::new([64, 64], ProjectFocus::Vector);
    let root = ed.doc.root();
    let cmd = AddNode::new(
        &mut ed.doc,
        Node::new(LayerProps::named("v".to_string()), NodeKind::Vector(VectorContent { shapes })),
        root,
        0,
    );
    let id = cmd.id;
    ed.apply(Command::AddNode(cmd));
    ed.selection = Some(id);
    (ed, id)
}

#[test]
fn compound_path_make_and_release() {
    let one = [1.0f32.to_bits(); 4];
    let (mut ed, id) = vector_editor(vec![
        Shape::filled(rect(0.0, 0.0, 10.0, 10.0), one),
        Shape::filled(rect(20.0, 0.0, 10.0, 10.0), one),
    ]);
    assert_eq!(shape_count(&ed, id), 2);

    make_compound_path(&mut ed, id);
    assert_eq!(shape_count(&ed, id), 1, "merged into one compound shape");

    release_compound_path(&mut ed, id);
    assert_eq!(shape_count(&ed, id), 2, "released back into two shapes");

    assert!(ed.history.undo(&mut ed.doc).is_some());
    assert_eq!(shape_count(&ed, id), 1, "undo release → compound");
    assert!(ed.history.undo(&mut ed.doc).is_some());
    assert_eq!(shape_count(&ed, id), 2, "undo make → two shapes");
}

#[test]
fn compound_keeps_subpaths_in_order_with_first_paint() {
    let red = [1.0f32.to_bits(), 0, 0, 1.0f32.to_bits()];
    let blue = [0, 0, 1.0f32.to_bits(), 1.0f32.to_bits()];
    let a = rect(0.0, 0.0, 10.0, 10.0);
    let b = rect(20.0, 0.0, 5.0, 5.0);
    let (mut ed, id) = vector_editor(vec![Shape::filled(a.clone(), red), Shape::filled(b.clone(), blue)]);
    make_compound_path(&mut ed, id);
    let NodeKind::Vector(c) = &ed.doc.node(id).unwrap().kind else { panic!("vector expected") };
    let merged = &c.shapes[0];
    assert_eq!(merged.fill, Some(red));
    assert_eq!(merged.path.fill_rule, FillRule::EvenOdd);
    assert_eq!(merged.path.subpaths, vec![a.subpaths[0].clone(), b.subpaths[0].clone()]);

    // Releasing splits back into single-subpath shapes, all with the first paint.
    release_compound_path(&mut ed, id);
    let NodeKind::Vector(c) = &ed.doc.node(id).unwrap().kind else { panic!("vector expected") };
    assert_eq!(c.shapes.len(), 2);
    assert!(c.shapes.iter().all(|s| s.fill == Some(red) && s.path.subpaths.len() == 1));
    assert_eq!(c.shapes[1].path.subpaths[0], b.subpaths[0]);
}

#[test]
fn compound_ops_are_no_ops_when_nothing_to_do() {
    let one = [1.0f32.to_bits(); 4];
    let (mut ed, id) = vector_editor(vec![Shape::filled(rect(0.0, 0.0, 4.0, 4.0), one)]);
    let applied = ed.history.applied_len();
    make_compound_path(&mut ed, id); // a single shape: nothing to merge
    release_compound_path(&mut ed, id); // a single subpath: nothing to release
    assert_eq!(ed.history.applied_len(), applied);
    assert_eq!(shape_count(&ed, id), 1);
    // Not a vector layer at all.
    let root = ed.doc.root();
    make_compound_path(&mut ed, root);
    assert_eq!(ed.history.applied_len(), applied);
}

#[test]
fn append_and_split_subpaths() {
    let mut p = rect(0.0, 0.0, 1.0, 1.0);
    let q = rect(5.0, 5.0, 1.0, 1.0);
    p.append(&q);
    assert_eq!(p.subpaths.len(), 2);
    assert_eq!(p.subpaths[1], q.subpaths[0]);
    let parts = p.split_subpaths();
    assert_eq!(parts.len(), 2);
    assert_eq!(parts[0].subpaths, vec![p.subpaths[0].clone()]);
    assert_eq!(parts[1].fill_rule, p.fill_rule);
}
