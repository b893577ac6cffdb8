use atelier::command::insert::InsertSubtree;
use atelier::command::tree::AddNode;
use atelier::document::{Document, ProjectFocus};
use atelier::node::{LayerProps, Node, NodeId, NodeKind, PlaceholderArt, RasterContent};
use atelier::tile::TileMap;

fn leaf(name: &str) -> Node {
    Node::new(
        LayerProps::named(name.to_string()),
        NodeKind::Raster(RasterContent {
            art: Some(PlaceholderArt { bounds: [0.0f32.to_bits(); 4], color: [1.0f32.to_bits(); 4] }),
            offset: [0, 0],
            tiles: TileMap::new(),
            mask: None,
        }),
    )
}

fn doc_with(names: &[&str]) -> (Document, Vec<NodeId>) {
    let mut doc = Document::new([100, 100], ProjectFocus::Raster);
    let mut ids = Vec::new();
    for (i, n) in names.iter().enumerate() {
        let id = doc.alloc_id();
        doc.insert_node(id, leaf(n), doc.root(), i).unwrap();
        ids.push(id);
    }
    (doc, ids)
}

/// A snapshot from one document imports into another with fresh ids (source
/// ids collide with the target's), structure and pixels intact.
#[test]
fn import_subtree_remaps_ids_and_content() {
    let (src, src_ids) = doc_with(&["group-content"]);
    // Give the source layer a group wrapper + a pixel so content is checkable.
    let (mut src, _) = (src, src_ids);
    let g = src.alloc_id();
    src.insert_node(g, Node::group("g".to_string()), src.root(), 0).unwrap();
    let inner = src.alloc_id();
    let mut inner_node = leaf("inner");
    if let NodeKind::Raster(c) = &mut inner_node.kind {
        c.tiles.fill_rect(0, 0, 4, 4, [7, 8, 9, 255]);
    }
    src.insert_node(inner, inner_node, g, 0).unwrap();
    let snap = src.snapshot_subtree(g).unwrap();

    // Target has its own nodes occupying the same id range.
    let (mut dst, _) = doc_with(&["x", "y", "z"]);
    let n0 = dst.node_count();
    let (new_root, nodes) = dst.import_subtree(&snap, dst.root()).unwrap();
    assert!(dst.node(new_root).is_none(), "import allocates, does not insert");
    for (id, _) in &nodes {
        assert!(dst.node(*id).is_none(), "all imported ids are fresh in dst");
    }
    let root = dst.root();
    dst.restore_subtree(nodes, root, 0).unwrap();
    assert_eq!(dst.node_count(), n0 + 2, "group + inner imported");
    let kids = dst.children(new_root).to_vec();
    assert_eq!(kids.len(), 1, "group structure preserved");
    match &dst.node(kids[0]).unwrap().kind {
        NodeKind::Raster(c) => assert_eq!(c.tiles.pixel(2, 2), [7, 8, 9, 255]),
        _ => panic!("raster expected"),
    }
}

#[test]
fn insert_subtree_duplicates_with_fresh_ids() {
    let mut doc = Document::new([32, 32], ProjectFocus::Raster);
    let root = doc.root();
    // group { a }
    let mut add_g = AddNode::new(&mut doc, Node::group("g".to_string()), root, 0);
    add_g.apply(&mut doc);
    let g = add_g.id;
    let mut add_a = AddNode::new(&mut doc, leaf("a"), g, 0);
    add_a.apply(&mut doc);

    let before = doc.children(root).len();
    let (new_root, nodes) = doc.clone_subtree(g, root).expect("clone");
    assert_eq!(nodes.len(), 2, "group + child cloned");
    assert_ne!(new_root, g, "fresh root id");
    for (nid, _) in &nodes {
        assert_ne!(*nid, g);
        assert_ne!(*nid, add_a.id);
    }

    let mut cmd = InsertSubtree::new(new_root, nodes, root, 0, "Duplicate Layer".to_string());
    cmd.apply(&mut doc);
    assert_eq!(doc.children(root).len(), before + 1, "duplicate inserted");
    assert!(doc.node(new_root).is_some());
    assert_eq!(doc.children(new_root).len(), 1, "child cloned under new group");

    cmd.revert(&mut doc);
    assert_eq!(doc.children(root).len(), before, "revert removed duplicate");
    assert!(doc.node(new_root).is_none());
}

#[test]
fn snapshot_lists_the_subtree_root_first_parents_before_children() {
    let (mut doc, ids) = doc_with(&["a"]);
    let g = doc.alloc_id();
    doc.insert_node(g, Node::group("g".to_string()), doc.root(), 0).unwrap();
    let h = doc.alloc_id();
    doc.insert_node(h, Node::group("h".to_string()), g, 0).unwrap();
    doc.move_node(ids[0], h, 0).unwrap();
    let snap = doc.snapshot_subtree(g).unwrap();
    let order: Vec<NodeId> = snap.iter().map(|e| e.0).collect();
    assert_eq!(order, vec![g, h, ids[0]]);
    assert_eq!(snap[2].1.parent, Some(h));
    assert!(doc.snapshot_subtree(NodeId(999)).is_none());
    let before = doc.duplicate();
    assert!(doc.clone_subtree(NodeId(999), doc.root()).is_none());
    assert_eq!(doc, before, "nothing allocated for an absent node");
}

#[test]
fn import_of_nothing_allocates_nothing() {
    let (mut doc, _) = doc_with(&["a"]);
    let before = doc.duplicate();
    let root = doc.root();
    assert!(doc.import_subtree(&[], root).is_none());
    assert_eq!(doc, before);
}

#[test]
fn insert_subtree_apply_revert_apply_is_stable() {
    let (mut doc, ids) = doc_with(&["a", "b"]);
    let root = doc.root();
    let (new_root, nodes) = doc.clone_subtree(ids[1], root).unwrap();
    let mut cmd = InsertSubtree::new(new_root, nodes, root, 1, "Duplicate Layer".to_string());
    let baseline = doc.duplicate();
    cmd.apply(&mut doc);
    assert_eq!(doc.children(root), &[ids[0], new_root, ids[1]]);
    assert_eq!(doc.node(new_root).unwrap().props.name, "b");
    let after = doc.duplicate();
    cmd.revert(&mut doc);
    assert_eq!(doc, baseline);
    cmd.apply(&mut doc);
    assert_eq!(doc, after);
    assert_eq!(cmd.label(), "Duplicate Layer");
}

#[test]
fn iter_tree_is_depth_first_panel_order() {
    let (mut doc, ids) = doc_with(&["a", "b"]);
    let g = doc.alloc_id();
    let root = doc.root();
    doc.insert_node(g, Node::group("g".to_string()), root, 1).unwrap();
    doc.move_node(ids[1], g, 0).unwrap();
    let flat: Vec<_> = doc.iter_tree();
    assert_eq!(flat, vec![(ids[0], 0), (g, 0), (ids[1], 1)]);
}

#[test]
fn iter_tree_visits_nested_groups_top_first() {
    let (mut doc, ids) = doc_with(&["a", "b", "c"]);
    let root = doc.root();
    let g = doc.alloc_id();
    doc.insert_node(g, Node::group("g".to_string()), root, 0).unwrap();
    let h = doc.alloc_id();
    doc.insert_node(h, Node::group("h".to_string()), g, 0).unwrap();
    doc.move_node(ids[0], h, 0).unwrap();
    doc.move_node(ids[1], g, 5).unwrap();
    let flat = doc.iter_tree();
    assert_eq!(flat, vec![(g, 0), (h, 1), (ids[0], 2), (ids[1], 1), (ids[2], 0)]);
    assert!(Document::new([1, 1], ProjectFocus::Raster).iter_tree().is_empty());
}
