use atelier::document::{Document, ProjectFocus, TreeError};
use atelier::node::{LayerProps, Node, NodeId, NodeKind, PlaceholderArt, RasterContent};
use atelier::tile::TileMap;

fn leaf(name: &str) -> Node {
    Node::new(
        LayerProps::named(name.to_string()),
        NodeKind::Raster(RasterContent {
            art: Some(PlaceholderArt { bounds: [0.0f32.to_bits(); 4], color: [1.0f32.to_bits(); 4] }),
            offset: [0, 0],
            tiles: TileMap::new(),
            mask: None,
        }),
    )
}

fn doc_with(names: &[&str]) -> (Document, Vec<NodeId>) {
    let mut doc = Document::new([100, 100], ProjectFocus::Raster);
    let mut ids = Vec::new();
    for (i, n) in names.iter().enumerate() {
        let id = doc.alloc_id();
        doc.insert_node(id, leaf(n), doc.root(), i).unwrap();
        ids.push(id);
    }
    (doc, ids)
}

#[test]
fn insert_orders_children() {
    let (doc, ids) = doc_with(&["a", "b", "c"]);
    assert_eq!(doc.children(doc.root()), ids.as_slice());
}

#[test]
fn remove_and_restore_round_trips() {
    let (mut doc, ids) = doc_with(&["a", "b", "c"]);
    let (before, _) = doc_with(&["a", "b", "c"]);
    let (removed, parent, index) = doc.remove_subtree(ids[1]).unwrap();
    assert_eq!(doc.children(doc.root()).len(), 2);
    doc.restore_subtree(removed, parent, index).unwrap();
    assert_eq!(doc, before);
}

#[test]
fn remove_group_takes_subtree() {
    let (mut doc, ids) = doc_with(&["a"]);
    let g = doc.alloc_id();
    doc.insert_node(g, Node::group("g".to_string()), doc.root(), 1).unwrap();
    doc.move_node(ids[0], g, 0).unwrap();
    let (removed, ..) = doc.remove_subtree(g).unwrap();
    assert_eq!(removed.len(), 2);
    assert!(doc.node(ids[0]).is_none());
}

#[test]
fn move_rejects_cycles_and_non_groups() {
    let (mut doc, ids) = doc_with(&["a"]);
    let g = doc.alloc_id();
    doc.insert_node(g, Node::group("g".to_string()), doc.root(), 1).unwrap();
    doc.move_node(g, g, 0).unwrap_err();
    assert_eq!(doc.move_node(ids[0], ids[0], 0), Err(TreeError::Cycle(ids[0])));
    let inner = doc.alloc_id();
    doc.insert_node(inner, Node::group("inner".to_string()), g, 0).unwrap();
    assert_eq!(doc.move_node(g, inner, 0), Err(TreeError::Cycle(g)));
    assert_eq!(doc.move_node(g, ids[0], 0), Err(TreeError::NotAGroup(ids[0])));
}

#[test]
fn move_within_same_parent_keeps_all_children() {
    let (mut doc, ids) = doc_with(&["a", "b", "c"]);
    let (old_parent, old_index) = doc.move_node(ids[0], doc.root(), 2).unwrap();
    assert_eq!((old_parent, old_index), (doc.root(), 0));
    assert_eq!(doc.children(doc.root()), &[ids[1], ids[2], ids[0]]);
}

#[test]
fn ids_never_reused_after_removal() {
    let (mut doc, ids) = doc_with(&["a"]);
    doc.remove_subtree(ids[0]).unwrap();
    let fresh = doc.alloc_id();
    assert!(fresh > ids[0]);
}

#[test]
fn tree_edits_report_each_error() {
    let (mut doc, ids) = doc_with(&["a"]);
    let root = doc.root();
    assert_eq!(doc.remove_subtree(root), Err(TreeError::RootImmutable));
    assert_eq!(doc.remove_subtree(NodeId(99)), Err(TreeError::NotFound(NodeId(99))));
    assert_eq!(doc.move_node(root, root, 0), Err(TreeError::RootImmutable));
    assert_eq!(doc.move_node(ids[0], NodeId(99), 0), Err(TreeError::NotFound(NodeId(99))));
    let id = doc.alloc_id();
    assert_eq!(doc.insert_node(id, leaf("x"), NodeId(99), 0), Err(TreeError::NotFound(NodeId(99))));
    assert_eq!(doc.insert_node(id, leaf("x"), ids[0], 0), Err(TreeError::NotAGroup(ids[0])));
    assert_eq!(doc.restore_subtree(Vec::new(), root, 0), Err(TreeError::RootImmutable));
}

#[test]
fn new_document_has_only_the_root_group() {
    let doc = Document::new([64, 32], ProjectFocus::Vector);
    assert_eq!(doc.node_count(), 1);
    assert_eq!(doc.canvas_size(), [64, 32]);
    assert_eq!(doc.color_mode, "RGB8");
    assert!(doc.current_selection().is_none());
    let root = doc.node(doc.root()).unwrap();
    assert_eq!(root.props.name, "__root__");
    assert!(root.kind.is_group());
    assert!(doc.children(NodeId(42)).is_empty());
}

#[test]
fn is_ancestor_follows_parent_links() {
    let (mut doc, ids) = doc_with(&["a"]);
    let g = doc.alloc_id();
    doc.insert_node(g, Node::group("g".to_string()), doc.root(), 0).unwrap();
    doc.move_node(ids[0], g, 0).unwrap();
    assert!(doc.is_ancestor(g, ids[0]));
    assert!(doc.is_ancestor(doc.root(), ids[0]));
    assert!(!doc.is_ancestor(ids[0], g));
    assert!(!doc.is_ancestor(ids[0], ids[0]));
}

#[test]
fn set_children_order_accepts_only_reorderings() {
    let (mut doc, ids) = doc_with(&["a", "b", "c"]);
    let root = doc.root();
    assert_eq!(doc.set_children_order(root, vec![ids[0], ids[1]]), Err(TreeError::NotFound(root)));
    assert_eq!(doc.set_children_order(root, vec![ids[0], ids[0], ids[1]]), Err(TreeError::NotFound(root)));
    assert_eq!(doc.children(root), ids.as_slice());
    doc.set_children_order(root, vec![ids[2], ids[0], ids[1]]).unwrap();
    assert_eq!(doc.children(root), &[ids[2], ids[0], ids[1]]);
    assert_eq!(doc.node(ids[2]).unwrap().parent, Some(root));
}

#[test]
fn replace_props_and_kind_swap_values() {
    let (mut doc, ids) = doc_with(&["a"]);
    let old = doc.replace_props(ids[0], LayerProps::named("z".to_string())).unwrap();
    assert_eq!(old.name, "a");
    assert_eq!(doc.node(ids[0]).unwrap().props.name, "z");
    let old_kind = doc.replace_kind(ids[0], NodeKind::Text).unwrap();
    assert!(matches!(old_kind, NodeKind::Raster(_)));
    assert_eq!(doc.node(ids[0]).unwrap().kind, NodeKind::Text);
    assert!(doc.replace_kind(NodeId(77), NodeKind::Fill).is_none());
}

#[test]
fn alloc_id_never_hands_out_an_id_twice() {
    let mut d = Document::new([4, 4], ProjectFocus::Raster);
    let first = d.alloc_id();
    let second = d.alloc_id();
    assert!(second.0 > first.0);
    assert!(d.node(first).is_none() && d.node(second).is_none());
    assert_eq!(d.next_id(), second.0 + 1);
}

#[test]
fn moving_back_to_the_reported_place_restores_the_tree() {
    let (mut doc, ids) = doc_with(&["a", "b", "c"]);
    let root = doc.root();
    let g = doc.alloc_id();
    doc.insert_node(g, Node::group("g".to_string()), root, 0).unwrap();
    let before: Vec<NodeId> = doc.children(root).to_vec();
    let (p, i) = doc.move_node(ids[1], g, 7).unwrap();
    assert_eq!(doc.children(g), &[ids[1]]);
    // Moving back reports where the first move put the node: index clamped to 0.
    assert_eq!(doc.move_node(ids[1], p, i), Ok((g, 0)));
    assert_eq!(doc.children(root), before.as_slice());
    assert!(doc.children(g).is_empty());
    assert_eq!(doc.node(ids[1]).unwrap().parent, Some(root));
}
