use atelier::command::tree::AddNode;
use atelier::document::{Document, ProjectFocus};
use atelier::node::{BlendMode, LayerProps, Node, NodeId, NodeKind, PlaceholderArt, RasterContent};
use atelier::ops::{build_op_list, composite_plan, CompositeOp, CompositeStep};
use atelier::tile::TileMap;

fn leaf(name: &str) -> Node {
    let mut tiles = TileMap::new();
    tiles.fill_rect(0, 0, 2, 2, [255, 255, 255, 255]);
    Node::new(
        LayerProps::named(name.to_string()),
        NodeKind::Raster(RasterContent {
            art: Some(PlaceholderArt { bounds: [0, 0, 2.0f32.to_bits(), 2.0f32.to_bits()], color: [1.0f32.to_bits(); 4] }),
            offset: [0, 0],
            tiles,
            mask: None,
        }),
    )
}

fn add(doc: &mut Document, node: Node, parent: NodeId, index: usize) -> NodeId {
    let mut cmd = AddNode::new(doc, node, parent, index);
    cmd.apply(doc);
    cmd.id
}

fn edit_props(doc: &mut Document, id: NodeId, f: impl FnOnce(&mut LayerProps)) {
    let mut p = doc.node(id).unwrap().props.clone();
    f(&mut p);
    doc.replace_props(id, p);
}

fn shape(ops: &[CompositeOp<'_>]) -> Vec<&'static str> {
    ops.iter()
        .map(|op| match op {
            CompositeOp::Layer { .. } => "layer",
            CompositeOp::Push => "push",
            CompositeOp::Pop { .. } => "pop",
        })
        .collect()
}

#[test]
fn op_list_reflects_tree_structure_and_isolation() {
    let mut doc = Document::new([4, 4], ProjectFocus::Raster);
    let root = doc.root();
    add(&mut doc, leaf("bottom"), root, 0);
    let g = add(&mut doc, Node::group("g".to_string()), root, 0);
    edit_props(&mut doc, g, |p| p.blend = BlendMode::Multiply); // isolated
    add(&mut doc, leaf("inner"), g, 0);
    let hidden = add(&mut doc, leaf("hidden"), root, 0);
    edit_props(&mut doc, hidden, |p| p.visible = false);

    let ops = build_op_list(&doc);
    // bottom-first: leaf, then isolated group, hidden skipped.
    assert_eq!(shape(&ops), vec!["layer", "push", "layer", "pop"]);
}

#[test]
fn pass_through_group_emits_children_inline() {
    let mut doc = Document::new([4, 4], ProjectFocus::Raster);
    let root = doc.root();
    let g = add(&mut doc, Node::group("pt".to_string()), root, 0); // PassThrough default
    add(&mut doc, leaf("a"), g, 0);
    let ops = build_op_list(&doc);
    assert_eq!(ops.len(), 1, "no push/pop for pass-through at full opacity");
    assert!(matches!(ops[0], CompositeOp::Layer { .. }));
}

#[test]
fn translucent_pass_through_group_is_isolated_and_pop_carries_its_props() {
    let mut doc = Document::new([4, 4], ProjectFocus::Raster);
    let root = doc.root();
    let g = add(&mut doc, Node::group("pt".to_string()), root, 0);
    edit_props(&mut doc, g, |p| p.opacity = 0.5f32.to_bits());
    let a = add(&mut doc, leaf("a"), g, 0);
    edit_props(&mut doc, a, |p| p.blend = BlendMode::Screen);
    let ops = build_op_list(&doc);
    assert_eq!(shape(&ops), vec!["push", "layer", "pop"]);
    match &ops[1] {
        CompositeOp::Layer { mode, opacity, tiles, offset } => {
            assert_eq!(*mode, BlendMode::Screen);
            assert_eq!(*opacity, 1.0f32.to_bits());
            assert_eq!(*offset, [0, 0]);
            assert_eq!(tiles.pixel(1, 1), [255, 255, 255, 255]);
        }
        _ => panic!("layer expected"),
    }
    match &ops[2] {
        CompositeOp::Pop { mode, opacity } => {
            assert_eq!(*mode, BlendMode::PassThrough);
            assert_eq!(*opacity, 0.5f32.to_bits());
        }
        _ => panic!("pop expected"),
    }
}

#[test]
fn nested_groups_stay_balanced_and_order_bottom_first() {
    let mut doc = Document::new([4, 4], ProjectFocus::Raster);
    let root = doc.root();
    let outer = add(&mut doc, Node::group("outer".to_string()), root, 0);
    edit_props(&mut doc, outer, |p| p.blend = BlendMode::Normal);
    let inner = add(&mut doc, Node::group("inner".to_string()), outer, 0);
    edit_props(&mut doc, inner, |p| p.blend = BlendMode::Multiply);
    add(&mut doc, leaf("deep"), inner, 0);
    add(&mut doc, leaf("side"), outer, 1); // below `inner` in the panel
    let ops = build_op_list(&doc);
    assert_eq!(shape(&ops), vec!["push", "layer", "push", "layer", "pop", "pop"]);
    let mut open = 0i32;
    for op in &ops {
        match op {
            CompositeOp::Push => open += 1,
            CompositeOp::Pop { .. } => open -= 1,
            _ => {}
        }
        assert!(open >= 0);
    }
    assert_eq!(open, 0);
}

fn steps(ops: &[CompositeStep]) -> Vec<(NodeId, Vec<NodeId>)> {
    ops.iter()
        .map(|s| match s {
            CompositeStep::Single(id) => (*id, Vec::new()),
            CompositeStep::Clipped(id, clips) => (*id, clips.clone()),
        })
        .collect()
}

#[test]
fn clipping_runs_group_above_their_base() {
    let mut doc = Document::new([4, 4], ProjectFocus::Raster);
    let root = doc.root();
    // Panel order (top first): c2, hidden, c1, base, lone_clip, g.
    let g = add(&mut doc, Node::group("g".to_string()), root, 0);
    let lone = add(&mut doc, leaf("lone clip"), root, 0);
    edit_props(&mut doc, lone, |p| p.clip = true);
    let base = add(&mut doc, leaf("base"), root, 0);
    let c1 = add(&mut doc, leaf("c1"), root, 0);
    edit_props(&mut doc, c1, |p| p.clip = true);
    let hidden = add(&mut doc, leaf("hidden"), root, 0);
    edit_props(&mut doc, hidden, |p| {
        p.clip = true;
        p.visible = false;
    });
    let c2 = add(&mut doc, leaf("c2"), root, 0);
    edit_props(&mut doc, c2, |p| p.clip = true);

    let plan = composite_plan(&doc, root);
    // Bottom first: the group alone, a clip layer with no base below it
    // alone, then the base with its shown clips; the hidden one is skipped.
    assert_eq!(steps(&plan), vec![(g, vec![]), (lone, vec![]), (base, vec![c1, c2])]);
}

#[test]
fn base_without_clips_stands_alone() {
    let mut doc = Document::new([4, 4], ProjectFocus::Raster);
    let root = doc.root();
    let a = add(&mut doc, leaf("a"), root, 0);
    let b = add(&mut doc, leaf("b"), root, 0);
    let plan = composite_plan(&doc, root);
    assert_eq!(steps(&plan), vec![(a, vec![]), (b, vec![])]);
    assert!(composite_plan(&doc, NodeId(77)).is_empty(), "absent parent: nothing");
}
