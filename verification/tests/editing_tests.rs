use atelier::command::kinds::Command;
use atelier::command::tree::AddNode;
use atelier::document::ProjectFocus;
use atelier::editing::{
    add_node, duplicate_selected_layer, editable_raster, group_selected, layer_offset, mask_layer, movable_layer, paste_layer,
    selected_set, ungroup_selected, visible_rows,
};
use atelier::history::Editor;
use atelier::mask::Mask;
use atelier::node::{LayerProps, Node, NodeId, NodeKind, RasterContent};

fn raster(name: &str, offset: [i32; 2], masked: bool) -> Node {
    let mut content = RasterContent::default();
    content.offset = offset;
    if masked {
        let mut m = Mask::new();
        m.set(0, 0, 255);
        content.mask = Some(m);
    }
    Node::new(LayerProps::named(name.to_string()), NodeKind::Raster(content))
}

fn add(ed: &mut Editor, node: Node, parent: NodeId, index: usize) -> NodeId {
    let cmd = AddNode::new(&mut ed.doc, node, parent, index);
    let id = cmd.id;
    ed.apply(Command::AddNode(cmd));
    id
}

fn set_props(ed: &mut Editor, id: NodeId, f: impl FnOnce(&mut LayerProps)) {
    let mut p = ed.doc.node(id).unwrap().props.clone();
    f(&mut p);
    ed.doc.replace_props(id, p);
}

#[test]
fn visible_rows_hide_collapsed_groups() {
    let mut ed = Editor::new([8, 8], ProjectFocus::Raster);
    let root = ed.doc.root();
    let a = add(&mut ed, raster("a", [0, 0], false), root, 0);
    let g = add(&mut ed, Node::group("g".to_string()), root, 0);
    let b = add(&mut ed, raster("b", [0, 0], false), g, 0);
    // Expanded: everything, panel order, with depths.
    assert_eq!(visible_rows(&ed), vec![(g, 0), (b, 1), (a, 0)]);
    assert_eq!(visible_rows(&ed), ed.doc.iter_tree(), "all expanded: the full walk");
    // Collapsed: the group's row stays, its children go.
    ed.doc.replace_kind(g, NodeKind::Group { expanded: false });
    assert_eq!(visible_rows(&ed), vec![(g, 0), (a, 0)]);
}

#[test]
fn tool_targets_follow_kind_visibility_and_lock() {
    let mut ed = Editor::new([8, 8], ProjectFocus::Raster);
    let root = ed.doc.root();
    let plain = add(&mut ed, raster("plain", [3, 4], false), root, 0);
    let masked = add(&mut ed, raster("masked", [0, 0], true), root, 0);
    let g = add(&mut ed, Node::group("g".to_string()), root, 0);

    assert_eq!(editable_raster(&ed), None, "nothing selected");
    ed.selection = Some(plain);
    assert_eq!(editable_raster(&ed), Some(plain));
    assert_eq!(mask_layer(&ed), None, "no mask");
    assert_eq!(movable_layer(&ed), Some(plain));
    assert_eq!(layer_offset(&ed.doc, plain), [3, 4]);

    ed.selection = Some(masked);
    assert_eq!(mask_layer(&ed), Some(masked));
    set_props(&mut ed, masked, |p| p.locked = true);
    assert_eq!(editable_raster(&ed), None, "locked");
    assert_eq!(mask_layer(&ed), None);
    assert_eq!(movable_layer(&ed), None);

    ed.selection = Some(plain);
    set_props(&mut ed, plain, |p| p.visible = false);
    assert_eq!(editable_raster(&ed), None, "hidden");

    ed.selection = Some(g);
    assert_eq!(editable_raster(&ed), None, "a group is not raster");
    assert_eq!(movable_layer(&ed), None);
    assert_eq!(layer_offset(&ed.doc, g), [0, 0]);
}

#[test]
fn selected_set_puts_primary_first_and_drops_stale_extras() {
    let mut ed = Editor::new([8, 8], ProjectFocus::Raster);
    let root = ed.doc.root();
    let a = add(&mut ed, raster("a", [0, 0], false), root, 0);
    let b = add(&mut ed, raster("b", [0, 0], false), root, 0);
    ed.selection = Some(a);
    let gone = NodeId(999);
    assert_eq!(selected_set(&ed, &[b, a, gone]), vec![a, b]);
    ed.selection = None;
    assert_eq!(selected_set(&ed, &[b, gone, a]), vec![b, a]);
}

#[test]
fn ungroup_selected_dissolves_and_clears_selection() {
    let mut ed = Editor::new([8, 8], ProjectFocus::Raster);
    let root = ed.doc.root();
    let g = add(&mut ed, Node::group("g".to_string()), root, 0);
    let x = add(&mut ed, raster("x", [0, 0], false), g, 0);
    let y = add(&mut ed, raster("y", [0, 0], false), g, 1);
    let mut extra = vec![x];

    // A layer that is not a group: nothing happens.
    ed.selection = Some(x);
    let applied = ed.history.applied_len();
    ungroup_selected(&mut ed, &mut extra);
    assert_eq!(ed.history.applied_len(), applied);
    assert_eq!(extra, vec![x]);

    ed.selection = Some(g);
    ungroup_selected(&mut ed, &mut extra);
    assert!(ed.doc.node(g).is_none(), "group removed");
    assert_eq!(ed.doc.children(root), &[x, y], "children took its place");
    assert_eq!(ed.selection, None);
    assert!(extra.is_empty());

    // Undo puts the group back around them.
    assert!(ed.history.undo(&mut ed.doc).is_some());
    assert_eq!(ed.doc.children(root), &[g]);
    assert_eq!(ed.doc.children(g), &[x, y]);

    // The root is never ungrouped.
    ed.selection = Some(root);
    let applied = ed.history.applied_len();
    ungroup_selected(&mut ed, &mut extra);
    assert_eq!(ed.history.applied_len(), applied);
}

#[test]
fn add_node_goes_above_the_selection_and_undoes() {
    let mut ed = Editor::new([8, 8], ProjectFocus::Raster);
    let root = ed.doc.root();
    let a = add_node(&mut ed, raster("a", [0, 0], false)).unwrap();
    assert_eq!(ed.selection, Some(a));
    let b = add_node(&mut ed, raster("b", [0, 0], false)).unwrap();
    assert_eq!(ed.doc.children(root), &[b, a], "above the selection");
    let g = add_node(&mut ed, Node::group("g".to_string())).unwrap();
    // Selecting a layer that is not a group: a new one still goes beside it.
    ed.selection = Some(a);
    let c = add_node(&mut ed, raster("c", [0, 0], false)).unwrap();
    assert_eq!(ed.doc.children(root), &[g, b, c, a]);
    // Undo removes the last layer but the id is never handed out again.
    assert!(ed.history.undo(&mut ed.doc).is_some());
    assert!(ed.doc.node(c).is_none());
    let d = add_node(&mut ed, raster("d", [0, 0], false)).unwrap();
    assert!(d.0 > c.0, "ids are never reused");
    assert!(ed.history.undo(&mut ed.doc).is_some());
    assert!(ed.history.undo(&mut ed.doc).is_some());
    assert_eq!(ed.doc.children(root), &[b, a]);
    assert!(ed.history.redo(&mut ed.doc).is_some());
    assert_eq!(ed.doc.children(root), &[g, b, a]);
}

#[test]
fn group_and_ungroup_layers_via_editor() {
    let mut ed = Editor::new([8, 8], ProjectFocus::Raster);
    let root = ed.doc.root();
    let a = add_node(&mut ed, raster("a", [0, 0], false)).unwrap();
    let b = add_node(&mut ed, raster("b", [0, 0], false)).unwrap();
    let mut extra = vec![a];
    ed.selection = Some(b);
    group_selected(&mut ed, &mut extra);
    let g = ed.selection.unwrap();
    assert!(extra.is_empty());
    assert_eq!(ed.doc.children(root), &[g]);
    assert_eq!(ed.doc.children(g).len(), 2);
    ungroup_selected(&mut ed, &mut extra);
    assert!(ed.doc.node(g).is_none());
    assert_eq!(ed.doc.children(root).len(), 2);
    assert!(ed.history.undo(&mut ed.doc).is_some());
    assert!(ed.history.undo(&mut ed.doc).is_some());
    assert_eq!(ed.doc.children(root), &[b, a], "both undone");
    // Nothing selected: nothing to group.
    ed.selection = None;
    let applied = ed.history.applied_len();
    group_selected(&mut ed, &mut extra);
    assert_eq!(ed.history.applied_len(), applied);
}

#[test]
fn duplicate_and_paste_copy_with_fresh_ids_and_undo() {
    let mut ed = Editor::new([8, 8], ProjectFocus::Raster);
    let root = ed.doc.root();
    let g = add_node(&mut ed, Node::group("g".to_string())).unwrap();
    let x = add(&mut ed, raster("x", [2, 3], false), g, 0);
    ed.selection = Some(g);
    let copy = duplicate_selected_layer(&mut ed).unwrap();
    assert_ne!(copy, g);
    assert_eq!(ed.doc.children(root), &[copy, g], "just above the original");
    let inner = ed.doc.children(copy).to_vec();
    assert_eq!(inner.len(), 1);
    assert_ne!(inner[0], x, "fresh ids");
    assert_eq!(layer_offset(&ed.doc, inner[0]), [2, 3]);
    assert_eq!(ed.selection, Some(copy));
    assert!(ed.history.undo(&mut ed.doc).is_some());
    assert_eq!(ed.doc.children(root), &[g]);

    let mut extra = vec![x];
    ed.selection = Some(g);
    let pasted = paste_layer(&mut ed, Some(x), &mut extra).unwrap();
    assert_eq!(ed.doc.children(root), &[pasted, g]);
    assert!(extra.is_empty());
    assert_eq!(paste_layer(&mut ed, None, &mut extra), None);
    assert_eq!(paste_layer(&mut ed, Some(NodeId(999)), &mut extra), None, "source gone");
}

#[test]
fn each_edit_records_one_undo_step_with_its_label() {
    let mut ed = Editor::new([8, 8], ProjectFocus::Raster);
    let root = ed.doc.root();
    assert!(!ed.is_dirty());
    let a = add_node(&mut ed, raster("a", [0, 0], false)).unwrap();
    assert!(ed.is_dirty());
    assert_eq!(ed.history.applied_len(), 1);
    assert_eq!(ed.history.undo_labels(), vec!["Add Raster".to_string()]);
    let b = duplicate_selected_layer(&mut ed).unwrap();
    assert_eq!(ed.history.applied_len(), 2);
    assert_eq!(ed.history.undo_labels()[1], "Duplicate Layer");
    assert_eq!(ed.doc.children(root), &[b, a]);
    ed.mark_saved();
    assert!(!ed.is_dirty());
    assert_eq!(ed.history.undo(&mut ed.doc), Some("Duplicate Layer".to_string()));
    assert_eq!(ed.doc.children(root), &[a]);
    assert!(ed.is_dirty());
    assert_eq!(ed.history.redo(&mut ed.doc), Some("Duplicate Layer".to_string()));
    assert_eq!(ed.doc.children(root), &[b, a]);
    assert!(!ed.is_dirty());
}
