use atelier::command::batch::Batch;
use atelier::command::kinds::Command;
use atelier::command::merge::{FlattenDocument, MergeVisible};
use atelier::command::props::{SetName, SetOpacity};
use atelier::command::tree::AddNode;
use atelier::document::{Document, ProjectFocus};
use atelier::node::{LayerProps, Node, NodeKind, PlaceholderArt, RasterContent};
use atelier::tile::TileMap;

fn leaf(name: &str) -> Node {
    Node::new(
        LayerProps::named(name.to_string()),
        NodeKind::Raster(RasterContent {
            art: Some(PlaceholderArt { bounds: [0.0f32.to_bits(); 4], color: [1.0f32.to_bits(); 4] }),
            offset: [0, 0],
            tiles: TileMap::new(),
            mask: None,
        }),
    )
}

#[test]
fn merge_visible_keeps_hidden_layers() {
    let mut doc = Document::new([8, 8], ProjectFocus::Raster);
    let root = doc.root();
    let mut ids = Vec::new();
    for n in ["v0", "h1", "v2"] {
        let mut add = AddNode::new(&mut doc, leaf(n), root, usize::MAX);
        add.apply(&mut doc);
        ids.push(add.id);
    }
    // Children top-first now: [v2, h1, v0] (each added at end → order a,b,c).
    // Use explicit visible targets v0 and v2; h1 stays.
    let raster = leaf("Merged");
    let mut cmd = MergeVisible::new(&mut doc, raster, vec![ids[0], ids[2]]);
    let baseline = doc.duplicate();
    cmd.apply(&mut doc);
    let kids = doc.children(root).to_vec();
    assert_eq!(kids.len(), 2, "two visible merged into one + h1 kept");
    assert!(kids.contains(&ids[1]), "hidden layer h1 retained");
    assert!(!kids.contains(&ids[0]) && !kids.contains(&ids[2]), "targets removed");

    cmd.revert(&mut doc);
    assert_eq!(doc, baseline, "revert restores exactly");
}

#[test]
fn flatten_replaces_tree_and_reverts() {
    let mut doc = Document::new([8, 8], ProjectFocus::Raster);
    let root = doc.root();
    for n in ["a", "b", "c"] {
        let mut add = AddNode::new(&mut doc, leaf(n), root, usize::MAX);
        add.apply(&mut doc);
    }
    let raster = leaf("Flattened");
    let mut cmd = FlattenDocument::new(&mut doc, raster);
    // Snapshot after new() — it allocs the raster id (ids never reused).
    let baseline = doc.duplicate();
    cmd.apply(&mut doc);
    assert_eq!(doc.children(root).len(), 1, "tree replaced by one layer");
    assert_eq!(doc.node(doc.children(root)[0]).unwrap().props.name, "Flattened");

    cmd.revert(&mut doc);
    assert_eq!(doc, baseline, "revert restores the full tree");
}

#[test]
fn batch_applies_in_order_and_reverts_in_reverse() {
    let mut doc = Document::new([16, 16], ProjectFocus::Raster);
    let root = doc.root();
    let mut add = AddNode::new(&mut doc, leaf("a"), root, 0);
    add.apply(&mut doc);
    let id = add.id;
    let baseline = doc.duplicate();

    let mut batch = Batch::new(
        vec![
            Command::SetName(SetName::new(&doc, id, "x".into())),
            Command::SetOpacity(SetOpacity::new(&doc, id, 0.5f32.to_bits())),
        ],
        "Batch".to_string(),
    );
    batch.apply(&mut doc);
    assert_eq!(doc.node(id).unwrap().props.name, "x");
    assert_eq!(doc.node(id).unwrap().props.opacity, 0.5f32.to_bits());
    batch.revert(&mut doc);
    assert_eq!(doc, baseline, "batch revert restores everything");
}

#[test]
fn flatten_of_nested_tree_removes_every_layer_and_redo_repeats() {
    let mut doc = Document::new([8, 8], ProjectFocus::Raster);
    let root = doc.root();
    let mut g = AddNode::new(&mut doc, Node::group("g".to_string()), root, 0);
    g.apply(&mut doc);
    let mut inner = AddNode::new(&mut doc, leaf("inner"), g.id, 0);
    inner.apply(&mut doc);
    let mut top = AddNode::new(&mut doc, leaf("top"), root, 0);
    top.apply(&mut doc);
    let mut cmd = FlattenDocument::new(&mut doc, leaf("Flat"));
    let baseline = doc.duplicate();
    cmd.apply(&mut doc);
    assert_eq!(doc.node_count(), 2, "root and the flattened layer");
    assert!(doc.node(inner.id).is_none());
    let after = doc.duplicate();
    cmd.revert(&mut doc);
    assert_eq!(doc, baseline);
    cmd.apply(&mut doc);
    assert_eq!(doc, after, "redo repeats the same flatten");
    assert_eq!(cmd.label(), "Flatten Image");
}

#[test]
fn merge_visible_ignores_non_top_level_targets() {
    let mut doc = Document::new([8, 8], ProjectFocus::Raster);
    let root = doc.root();
    let mut g = AddNode::new(&mut doc, Node::group("g".to_string()), root, 0);
    g.apply(&mut doc);
    let mut inner = AddNode::new(&mut doc, leaf("inner"), g.id, 0);
    inner.apply(&mut doc);
    let mut cmd = MergeVisible::new(&mut doc, leaf("Merged"), vec![inner.id]);
    let baseline = doc.duplicate();
    cmd.apply(&mut doc);
    assert_eq!(doc.children(root), &[cmd.raster_id, g.id]);
    assert!(doc.node(inner.id).is_some(), "nested layer untouched");
    cmd.revert(&mut doc);
    assert_eq!(doc, baseline);
}

#[test]
fn nested_batch_reverts_in_reverse_order() {
    let mut doc = Document::new([16, 16], ProjectFocus::Raster);
    let root = doc.root();
    let mut add = AddNode::new(&mut doc, leaf("a"), root, 0);
    add.apply(&mut doc);
    let id = add.id;
    let baseline = doc.duplicate();
    let inner = Batch::new(vec![Command::SetName(SetName::new(&doc, id, "first".into()))], "inner".to_string());
    let mut outer = Batch::new(
        vec![Command::Batch(inner), Command::SetName(SetName::new(&doc, id, "second".into()))],
        "outer".to_string(),
    );
    assert!(!outer.is_empty());
    outer.apply(&mut doc);
    assert_eq!(doc.node(id).unwrap().props.name, "second");
    outer.revert(&mut doc);
    assert_eq!(doc, baseline);
    assert!(Batch::new(Vec::new(), "empty".to_string()).is_empty());
}
