use atelier::command::bake::ApplyLayerMask;
use atelier::command::group::{GroupNodes, UngroupNode};
use atelier::command::tree::AddNode;
use atelier::document::{Document, ProjectFocus};
use atelier::mask::Mask;
use atelier::node::{LayerProps, Node, NodeKind, PlaceholderArt, RasterContent};
use atelier::tile::TileMap;

fn leaf(name: &str) -> Node {
    Node::new(
        LayerProps::named(name.to_string()),
        NodeKind::Raster(RasterContent {
            art: Some(PlaceholderArt { bounds: [0.0f32.to_bits(); 4], color: [1.0f32.to_bits(); 4] }),
            offset: [0, 0],
            tiles: TileMap::new(),
            mask: None,
        }),
    )
}

#[test]
fn group_and_ungroup_round_trip() {
    let mut doc = Document::new([16, 16], ProjectFocus::Raster);
    let root = doc.root();
    let mut ids = Vec::new();
    for n in ["a", "b", "c"] {
        let mut add = AddNode::new(&mut doc, leaf(n), root, usize::MAX);
        add.apply(&mut doc);
        ids.push(add.id);
    }
    // root children = [a, b, c]
    let before = doc.children(root).to_vec();

    // Group a + c (non-contiguous).
    let mut g = GroupNodes::new(&mut doc, &[ids[0], ids[2]], "G".to_string()).expect("same parent");
    let gid = g.group_id();
    g.apply(&mut doc);
    let rc = doc.children(root).to_vec();
    assert_eq!(rc.len(), 2, "group + leftover b");
    assert!(rc.contains(&gid) && rc.contains(&ids[1]));
    assert_eq!(doc.children(gid), &[ids[0], ids[2]], "members in order");
    assert_eq!(doc.node(ids[0]).unwrap().parent, Some(gid));

    // Ungroup drops the group's contents at its slot: [a, c, b].
    let mut u = UngroupNode::new(gid);
    u.apply(&mut doc);
    assert_eq!(doc.children(root), &[ids[0], ids[2], ids[1]], "contents take group slot");
    assert!(doc.node(gid).is_none());

    // Undo ungroup re-groups; undo group restores the original [a, b, c].
    u.revert(&mut doc);
    assert_eq!(doc.children(gid), &[ids[0], ids[2]], "ungroup undone");
    g.revert(&mut doc);
    assert_eq!(doc.children(root), before.as_slice(), "group undone");
    assert!(doc.node(gid).is_none());
}

#[test]
fn group_rejects_cross_parent_members() {
    let mut doc = Document::new([16, 16], ProjectFocus::Raster);
    let root = doc.root();
    let mut a = AddNode::new(&mut doc, leaf("a"), root, usize::MAX);
    a.apply(&mut doc);
    let mut gadd = AddNode::new(&mut doc, Node::group("outer".to_string()), root, usize::MAX);
    gadd.apply(&mut doc);
    let mut inner = AddNode::new(&mut doc, leaf("inner"), gadd.id, 0);
    inner.apply(&mut doc);
    // a (under root) + inner (under outer) → different parents → None.
    assert!(GroupNodes::new(&mut doc, &[a.id, inner.id], "X".to_string()).is_none());
}

#[test]
fn group_then_revert_restores_document_exactly() {
    let mut doc = Document::new([16, 16], ProjectFocus::Raster);
    let root = doc.root();
    let mut ids = Vec::new();
    for n in ["a", "b", "c", "d"] {
        let mut add = AddNode::new(&mut doc, leaf(n), root, usize::MAX);
        add.apply(&mut doc);
        ids.push(add.id);
    }
    let mut g = GroupNodes::new(&mut doc, &[ids[3], ids[1]], "G".to_string()).unwrap();
    let baseline = doc.duplicate();
    g.apply(&mut doc);
    // Members keep the parent's order, not the listed order.
    assert_eq!(doc.children(g.group_id()), &[ids[1], ids[3]]);
    assert_eq!(doc.children(root), &[ids[0], g.group_id(), ids[2]]);
    g.revert(&mut doc);
    assert_eq!(doc, baseline);
    g.apply(&mut doc);
    assert_eq!(doc.children(root), &[ids[0], g.group_id(), ids[2]]);
}

#[test]
fn ungroup_then_revert_restores_nested_group() {
    let mut doc = Document::new([16, 16], ProjectFocus::Raster);
    let root = doc.root();
    let mut top = AddNode::new(&mut doc, leaf("top"), root, usize::MAX);
    top.apply(&mut doc);
    let mut gadd = AddNode::new(&mut doc, Node::group("g".to_string()), root, usize::MAX);
    gadd.apply(&mut doc);
    let mut bottom = AddNode::new(&mut doc, leaf("bottom"), root, usize::MAX);
    bottom.apply(&mut doc);
    let mut x = AddNode::new(&mut doc, leaf("x"), gadd.id, usize::MAX);
    x.apply(&mut doc);
    let mut y = AddNode::new(&mut doc, leaf("y"), gadd.id, usize::MAX);
    y.apply(&mut doc);
    let baseline = doc.duplicate();
    let mut u = UngroupNode::new(gadd.id);
    u.apply(&mut doc);
    assert_eq!(doc.children(root), &[top.id, x.id, y.id, bottom.id]);
    assert_eq!(doc.node(x.id).unwrap().parent, Some(root));
    assert_eq!(u.label(), "Ungroup");
    u.revert(&mut doc);
    assert_eq!(doc, baseline);
}

#[test]
fn ungroup_of_empty_group_just_removes_it() {
    let mut doc = Document::new([16, 16], ProjectFocus::Raster);
    let root = doc.root();
    let mut gadd = AddNode::new(&mut doc, Node::group("g".to_string()), root, 0);
    gadd.apply(&mut doc);
    let baseline = doc.duplicate();
    let mut u = UngroupNode::new(gadd.id);
    u.apply(&mut doc);
    assert!(doc.children(root).is_empty());
    u.revert(&mut doc);
    assert_eq!(doc, baseline);
}

fn masked_layer() -> (Document, atelier::node::NodeId) {
    let mut doc = Document::new([512, 512], ProjectFocus::Raster);
    let root = doc.root();
    let mut tiles = TileMap::new();
    tiles.fill_rect(0, 0, 4, 1, [10, 20, 30, 200]);
    tiles.fill_rect(300, 0, 301, 1, [1, 2, 3, 100]);
    let mut mask = Mask::new();
    // Layer offset 2: layer pixel x reads mask at x + 2.
    mask.set(2, 0, 255);
    mask.set(3, 0, 128);
    let mut node = leaf("m");
    node.kind = NodeKind::Raster(RasterContent { art: None, offset: [2, 0], tiles, mask: Some(mask) });
    let mut add = AddNode::new(&mut doc, node, root, 0);
    add.apply(&mut doc);
    (doc, add.id)
}

#[test]
fn apply_layer_mask_bakes_alpha_and_reverts() {
    let (mut doc, id) = masked_layer();
    let baseline = doc.duplicate();
    let mut cmd = ApplyLayerMask::new(&doc, id);
    assert_eq!(cmd.label(), "Apply Layer Mask");
    cmd.apply(&mut doc);
    match &doc.node(id).unwrap().kind {
        NodeKind::Raster(c) => {
            assert!(c.mask.is_none(), "mask cleared");
            assert_eq!(c.tiles.pixel(0, 0), [10, 20, 30, 200], "full coverage keeps alpha");
            // 200 * 128 / 255 = 100 (integer division)
            assert_eq!(c.tiles.pixel(1, 0), [10, 20, 30, 100]);
            assert_eq!(c.tiles.pixel(2, 0), [10, 20, 30, 0], "no coverage clears alpha");
            assert_eq!(c.tiles.pixel(3, 0), [10, 20, 30, 0]);
            // The tile at x = 256.. had only uncovered pixels: pruned.
            assert_eq!(c.tiles.tile_count(), 1);
        },
        _ => panic!("raster expected"),
    }
    cmd.revert(&mut doc);
    assert_eq!(doc, baseline, "revert restores tiles and mask");
}

#[test]
fn apply_layer_mask_without_mask_changes_nothing() {
    let mut doc = Document::new([16, 16], ProjectFocus::Raster);
    let root = doc.root();
    let mut add = AddNode::new(&mut doc, leaf("plain"), root, 0);
    add.apply(&mut doc);
    let baseline = doc.duplicate();
    let mut cmd = ApplyLayerMask::new(&doc, add.id);
    cmd.apply(&mut doc);
    assert_eq!(doc, baseline);
    cmd.revert(&mut doc);
    assert_eq!(doc, baseline);
}
