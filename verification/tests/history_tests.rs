use atelier::command::kinds::Command;
use atelier::command::props::SetOpacity;
use atelier::command::tree::AddNode;
use atelier::document::{Document, ProjectFocus};
use atelier::history::{Editor, History};
use atelier::node::{LayerProps, Node, NodeKind, PlaceholderArt, RasterContent};
use atelier::tile::TileMap;

fn bits(v: f32) -> u32 {
    v.to_bits()
}

fn leaf(name: &str) -> Node {
    Node::new(
        LayerProps::named(name.to_string()),
        NodeKind::Raster(RasterContent {
            art: Some(PlaceholderArt { bounds: [bits(0.0); 4], color: [bits(1.0); 4] }),
            offset: [0, 0],
            tiles: TileMap::new(),
            mask: None,
        }),
    )
}

#[test]
fn undo_redo_round_trip_restores_states() {
    let mut ed = Editor::new([64, 64], ProjectFocus::Raster);
    let root = ed.doc.root();
    let add = AddNode::new(&mut ed.doc, leaf("a"), root, 0);
    let id = add.id;
    // Snapshot after id allocation: the id counter advances at command
    // construction and is intentionally not rolled back by undo.
    let mut empty = Document::new([64, 64], ProjectFocus::Raster);
    empty.alloc_id();
    ed.apply(Command::AddNode(add));
    let mut one_layer = Document::new([64, 64], ProjectFocus::Raster);
    let mut again = AddNode::new(&mut one_layer, leaf("a"), root, 0);
    again.apply(&mut one_layer);
    ed.apply(Command::SetOpacity(SetOpacity::new(&ed.doc, id, bits(0.5))));

    assert!(ed.history.undo(&mut ed.doc).is_some());
    assert_eq!(ed.doc, one_layer);
    assert!(ed.history.undo(&mut ed.doc).is_some());
    assert_eq!(ed.doc, empty);
    assert!(ed.history.undo(&mut ed.doc).is_none());
    assert!(ed.history.redo(&mut ed.doc).is_some());
    assert!(ed.history.redo(&mut ed.doc).is_some());
    assert_eq!(ed.doc.node(id).unwrap().props.opacity, bits(0.5));
}

#[test]
fn new_command_clears_redo() {
    let mut ed = Editor::new([64, 64], ProjectFocus::Raster);
    let root = ed.doc.root();
    let add = AddNode::new(&mut ed.doc, leaf("a"), root, 0);
    ed.apply(Command::AddNode(add));
    ed.history.undo(&mut ed.doc);
    assert!(ed.history.can_redo());
    let add2 = AddNode::new(&mut ed.doc, leaf("b"), root, 0);
    ed.apply(Command::AddNode(add2));
    assert!(!ed.history.can_redo());
}

#[test]
fn merging_coalesces_slider_drag() {
    let mut ed = Editor::new([64, 64], ProjectFocus::Raster);
    let root = ed.doc.root();
    let add = AddNode::new(&mut ed.doc, leaf("a"), root, 0);
    let id = add.id;
    ed.apply(Command::AddNode(add));

    ed.history.set_merging(true);
    for v in [0.9_f32, 0.7, 0.4] {
        let cmd = SetOpacity::new(&ed.doc, id, bits(v));
        ed.apply(Command::SetOpacity(cmd));
    }
    ed.history.set_merging(false);

    assert_eq!(ed.history.applied_len(), 2); // AddNode + one merged opacity
    ed.history.undo(&mut ed.doc);
    assert_eq!(ed.doc.node(id).unwrap().props.opacity, bits(1.0)); // back to pre-drag
}

#[test]
fn jump_to_walks_both_directions() {
    let mut ed = Editor::new([64, 64], ProjectFocus::Raster);
    let root = ed.doc.root();
    for i in 0..4 {
        let add = AddNode::new(&mut ed.doc, leaf(&format!("l{i}")), root, 0);
        ed.apply(Command::AddNode(add));
    }
    ed.history.jump_to(&mut ed.doc, 1);
    assert_eq!(ed.doc.children(root).len(), 1);
    ed.history.jump_to(&mut ed.doc, 3);
    assert_eq!(ed.doc.children(root).len(), 3);
}

#[test]
fn dirty_tracking_follows_history_position() {
    let mut ed = Editor::new([64, 64], ProjectFocus::Raster);
    assert!(!ed.is_dirty());
    let root = ed.doc.root();
    let add = AddNode::new(&mut ed.doc, leaf("a"), root, 0);
    ed.apply(Command::AddNode(add));
    assert!(ed.is_dirty());
    ed.mark_saved();
    assert!(!ed.is_dirty());
    ed.history.undo(&mut ed.doc);
    assert!(ed.is_dirty());
    ed.history.redo(&mut ed.doc);
    assert!(!ed.is_dirty());
}

#[test]
fn limit_drops_the_oldest_entry() {
    let mut doc = Document::new([8, 8], ProjectFocus::Raster);
    let mut h = History::new(0);
    let root = doc.root();
    for i in 0..3 {
        let add = AddNode::new(&mut doc, leaf(&format!("l{i}")), root, 0);
        h.push_apply(&mut doc, Command::AddNode(add));
    }
    assert_eq!(h.applied_len(), 1, "a limit of 0 still keeps one step");
    assert!(h.undo(&mut doc).is_some());
    assert!(h.undo(&mut doc).is_none());
    assert_eq!(doc.children(root).len(), 2);
    assert_eq!(h.revision(), 4);
}

#[test]
fn labels_list_applied_and_undone_commands() {
    let mut ed = Editor::new([8, 8], ProjectFocus::Raster);
    let root = ed.doc.root();
    let add = AddNode::new(&mut ed.doc, Node::group("g".to_string()), root, 0);
    let id = add.id;
    ed.apply(Command::AddNode(add));
    ed.apply(Command::SetOpacity(SetOpacity::new(&ed.doc, id, bits(0.25))));
    assert_eq!(ed.history.undo_labels(), vec!["Add Group".to_string(), "Layer Opacity".to_string()]);
    assert_eq!(ed.history.undo(&mut ed.doc), Some("Layer Opacity".to_string()));
    assert_eq!(ed.history.redo_labels(), vec!["Layer Opacity".to_string()]);
    assert_eq!(History::default().applied_len(), 0);
}
