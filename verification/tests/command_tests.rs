use atelier::command::canvas::{CanvasResize, CropCanvas, ResizeImage, SetSelection};
use atelier::command::content::{SetAdjustment, SetOffset, SetSmartRotation, SetSmartScale, SetVectorShapes};
use atelier::command::kinds::Command;
use atelier::command::layer::{PaintTiles, ReplaceLayerTiles, ReplaceNodeKind};
use atelier::command::props::{SetBlend, SetName, SetOpacity, SetVisible};
use atelier::command::tree::{AddNode, MoveNode, RemoveNode};
use atelier::document::{Document, ProjectFocus};
use atelier::mask::Mask;
use atelier::node::{
    Adjustment, BlendMode, LayerProps, Node, NodeId, NodeKind, PlaceholderArt, RasterContent, SmartContent,
};
use atelier::tile::{Tile, TileMap};
use atelier::vector::{FillRule, Path, Seg, Shape, SubPath, VectorContent};

fn bits(v: f32) -> u32 {
    v.to_bits()
}

fn leaf(name: &str) -> Node {
    Node::new(
        LayerProps::named(name.to_string()),
        NodeKind::Raster(RasterContent {
            art: Some(PlaceholderArt { bounds: [bits(0.0); 4], color: [bits(1.0); 4] }),
            offset: [0, 0],
            tiles: TileMap::new(),
            mask: None,
        }),
    )
}

/// The document every command of the identity test starts from: a layer `a`
/// and a group `g` under the root, plus one id allocated for a pending add.
fn identity_fixture() -> (Document, NodeId, NodeId) {
    let mut doc = Document::new([64, 64], ProjectFocus::Raster);
    let root = doc.root();
    let mut add_a = AddNode::new(&mut doc, leaf("a"), root, 0);
    add_a.apply(&mut doc);
    let a = add_a.id;
    let mut add_g = AddNode::new(&mut doc, Node::group("g".to_string()), root, 1);
    add_g.apply(&mut doc);
    let g = add_g.id;
    (doc, a, g)
}

#[test]
fn apply_revert_is_identity_for_every_command() {
    let (mut doc, a, g) = identity_fixture();
    let mut cmds: Vec<Command> = vec![
        Command::AddNode(AddNode::new(&mut doc, leaf("b"), g, 0)),
        Command::RemoveNode(RemoveNode::new(&doc, a)),
        Command::MoveNode(MoveNode::new(&doc, a, g, 0)),
        Command::SetName(SetName::new(&doc, a, "renamed".into())),
        Command::SetVisible(SetVisible::new(&doc, a, false)),
        Command::SetOpacity(SetOpacity::new(&doc, a, bits(0.5))),
        Command::SetBlend(SetBlend::new(&doc, a, BlendMode::Multiply)),
    ];
    // Baseline after construction: AddNode::new pre-allocates its NodeId,
    // which advances the document's id counter (ids are never reused).
    let (mut baseline, _, _) = identity_fixture();
    baseline.alloc_id();
    for cmd in &mut cmds {
        cmd.apply(&mut doc);
        cmd.revert(&mut doc);
        assert_eq!(doc, baseline, "{} broke apply/revert identity", cmd.label());
    }
}

#[test]
fn add_then_undo_then_redo_keeps_id() {
    let mut doc = Document::new([64, 64], ProjectFocus::Raster);
    let root = doc.root();
    let mut add = AddNode::new(&mut doc, leaf("a"), root, 0);
    add.apply(&mut doc);
    let id = add.id;
    add.revert(&mut doc);
    assert!(doc.node(id).is_none());
    add.apply(&mut doc);
    assert!(doc.node(id).is_some());
}

fn smart_doc(inner: Document, offset: [i32; 2]) -> (Document, NodeId) {
    let mut doc = Document::new([32, 32], ProjectFocus::Raster);
    let root = doc.root();
    let smart = Node::new(
        LayerProps::named("smart".to_string()),
        NodeKind::Smart(SmartContent { doc: Box::new(inner), offset, scale: [bits(1.0), bits(1.0)], rotation: bits(0.0) }),
    );
    let mut add = AddNode::new(&mut doc, smart, root, 0);
    add.apply(&mut doc);
    (doc, add.id)
}

#[test]
fn set_offset_moves_smart_object_and_reverts() {
    let (mut doc, id) = smart_doc(Document::new([32, 32], ProjectFocus::Raster), [0, 0]);
    let mut cmd = SetOffset::new(&doc, id, [5, 7]);
    cmd.apply(&mut doc);
    let off = |d: &Document| match &d.node(id).unwrap().kind {
        NodeKind::Smart(c) => c.offset,
        _ => panic!("smart expected"),
    };
    assert_eq!(off(&doc), [5, 7], "smart object moved");
    cmd.revert(&mut doc);
    assert_eq!(off(&doc), [0, 0], "revert restores the smart object's offset");
}

fn embedded_smart() -> (Document, NodeId) {
    let mut doc = Document::new([16, 16], ProjectFocus::Raster);
    let root = doc.root();
    let smart = Node::new(
        LayerProps::named("s".to_string()),
        NodeKind::Smart(SmartContent::embed(Document::new([16, 16], ProjectFocus::Raster))),
    );
    let mut add = AddNode::new(&mut doc, smart, root, 0);
    add.apply(&mut doc);
    (doc, add.id)
}

#[test]
fn set_smart_scale_applies_and_reverts() {
    let (mut doc, id) = embedded_smart();
    let mut cmd = SetSmartScale::new(&doc, id, [bits(2.0), bits(3.0)]);
    cmd.apply(&mut doc);
    let scale = |d: &Document| match &d.node(id).unwrap().kind {
        NodeKind::Smart(c) => [f32::from_bits(c.scale[0]), f32::from_bits(c.scale[1])],
        _ => panic!("smart expected"),
    };
    assert_eq!(scale(&doc), [2.0, 3.0], "scale applied");
    cmd.revert(&mut doc);
    assert_eq!(scale(&doc), [1.0, 1.0], "revert restores unit scale");
}

#[test]
fn set_smart_rotation_applies_and_reverts() {
    let (mut doc, id) = embedded_smart();
    let mut cmd = SetSmartRotation::new(&doc, id, bits(1.25));
    cmd.apply(&mut doc);
    let rot = |d: &Document| match &d.node(id).unwrap().kind {
        NodeKind::Smart(c) => f32::from_bits(c.rotation),
        _ => panic!("smart expected"),
    };
    assert_eq!(rot(&doc), 1.25, "rotation applied");
    cmd.revert(&mut doc);
    assert_eq!(rot(&doc), 0.0, "revert restores zero rotation");
}

fn raster_with_pixels() -> (Document, NodeId) {
    let mut doc = Document::new([32, 32], ProjectFocus::Raster);
    let root = doc.root();
    let mut tiles = TileMap::new();
    tiles.fill_rect(0, 0, 16, 16, [9, 9, 9, 255]);
    let node = Node::new(LayerProps::named("r".to_string()), NodeKind::Raster(RasterContent { tiles, ..Default::default() }));
    let mut add = AddNode::new(&mut doc, node, root, 0);
    add.apply(&mut doc);
    (doc, add.id)
}

#[test]
fn replace_layer_tiles_apply_revert_identity() {
    let (mut doc, id) = raster_with_pixels();
    let (baseline, _) = raster_with_pixels();
    let mut new = TileMap::new();
    new.fill_rect(0, 0, 4, 4, [1, 2, 3, 255]);
    let mut cmd = ReplaceLayerTiles::new(&doc, id, new, [5, 6], "Transform Layer".to_string());
    cmd.apply(&mut doc);
    match &doc.node(id).unwrap().kind {
        NodeKind::Raster(c) => {
            assert_eq!(c.offset, [5, 6]);
            assert_eq!(c.tiles.pixel(1, 1), [1, 2, 3, 255]);
        }
        _ => panic!(),
    }
    cmd.revert(&mut doc);
    assert_eq!(doc, baseline);
}

#[test]
fn crop_canvas_resizes_and_shifts_offsets() {
    let (mut doc, id) = raster_with_pixels();
    let (baseline, _) = raster_with_pixels();
    let mut cmd = CropCanvas::new(&doc, [4, 6, 20, 22]); // 16×16 crop at (4,6)
    cmd.apply(&mut doc);
    assert_eq!(doc.size, [16, 16]);
    match &doc.node(id).unwrap().kind {
        NodeKind::Raster(c) => assert_eq!(c.offset, [-4, -6]),
        _ => panic!(),
    }
    cmd.revert(&mut doc);
    assert_eq!(doc, baseline);
}

#[test]
fn resize_image_apply_revert_identity() {
    let (mut doc, id) = raster_with_pixels();
    let (baseline, _) = raster_with_pixels();
    let mut new = TileMap::new();
    new.fill_rect(0, 0, 8, 8, [4, 5, 6, 255]);
    let cmd_new = vec![(id, (new, [0, 0]))];
    let mut cmd = ResizeImage::new(&doc, [16, 16], cmd_new);
    cmd.apply(&mut doc);
    assert_eq!(doc.size, [16, 16]);
    cmd.revert(&mut doc);
    assert_eq!(doc, baseline);
}

fn rect_path(x: f32, y: f32, w: f32, h: f32) -> Path {
    Path {
        subpaths: vec![SubPath {
            start: [bits(x), bits(y)],
            segs: vec![
                Seg::Line([bits(x + w), bits(y)]),
                Seg::Line([bits(x + w), bits(y + h)]),
                Seg::Line([bits(x), bits(y + h)]),
            ],
            closed: true,
        }],
        fill_rule: FillRule::NonZero,
    }
}

fn vector_doc(shapes: Vec<Shape>) -> (Document, NodeId) {
    let mut doc = Document::new([32, 32], ProjectFocus::Raster);
    let root = doc.root();
    let mut add = AddNode::new(&mut doc, Node::new(LayerProps::named("v".to_string()), NodeKind::Vector(VectorContent { shapes })), root, 0);
    add.apply(&mut doc);
    (doc, add.id)
}

#[test]
fn set_vector_shapes_apply_revert_and_merge() {
    let orig = vec![Shape { path: rect_path(0.0, 0.0, 10.0, 10.0), fill: Some([bits(1.0); 4]), stroke: None }];
    let (mut doc, id) = vector_doc(orig.clone());
    let (baseline, _) = vector_doc(orig.clone());

    let mut edited = orig.clone();
    edited[0].path.subpaths[0].start = [bits(-5.0), bits(-5.0)];
    let mut cmd = SetVectorShapes::new(&doc, id, edited.clone());
    cmd.apply(&mut doc);
    match &doc.node(id).unwrap().kind {
        NodeKind::Vector(c) => assert_eq!(c.shapes[0].path.subpaths[0].start, [bits(-5.0), bits(-5.0)]),
        _ => panic!(),
    }
    cmd.revert(&mut doc);
    assert_eq!(doc, baseline);

    // Merge coalesces same-target edits (one undo per drag).
    let next = SetVectorShapes::new(&doc, id, edited);
    assert!(cmd.try_merge(&next));
}

fn adjustment_doc() -> (Document, NodeId) {
    let mut doc = Document::new([16, 16], ProjectFocus::Raster);
    let root = doc.root();
    let mut add = AddNode::new(
        &mut doc,
        Node::new(LayerProps::named("adj".to_string()), NodeKind::Adjustment(Adjustment::Invert)),
        root,
        0,
    );
    add.apply(&mut doc);
    (doc, add.id)
}

#[test]
fn set_adjustment_apply_revert_and_merge() {
    let (mut doc, id) = adjustment_doc();
    let (baseline, _) = adjustment_doc();

    let new = Adjustment::BrightnessContrast { brightness: bits(0.2), contrast: bits(0.1) };
    let mut cmd = SetAdjustment::new(&doc, id, new);
    cmd.apply(&mut doc);
    match doc.node(id).unwrap().kind {
        NodeKind::Adjustment(a) => assert_eq!(a, new),
        _ => panic!(),
    }
    cmd.revert(&mut doc);
    assert_eq!(doc, baseline);

    // Merge coalesces same-target edits.
    let next = SetAdjustment::new(&doc, id, Adjustment::Invert);
    assert!(cmd.try_merge(&next));
}

#[test]
fn set_selection_apply_revert_identity() {
    let mut doc = Document::new([32, 32], ProjectFocus::Raster);
    let baseline = Document::new([32, 32], ProjectFocus::Raster);
    let mut mask = Mask::new();
    mask.set(3, 3, 255);
    let mut cmd = SetSelection::new(&doc, Some(mask), "Rectangular Select".to_string());
    cmd.apply(&mut doc);
    assert!(doc.selection.is_some());
    cmd.revert(&mut doc);
    assert_eq!(doc, baseline);

    // Deselect path round-trips too.
    let mask2 = {
        let mut m = Mask::new();
        m.set(1, 1, 200);
        m
    };
    doc.selection = Some(mask2.clone());
    let mut with_sel = Document::new([32, 32], ProjectFocus::Raster);
    with_sel.selection = Some(mask2);
    let mut clear = SetSelection::new(&doc, None, "Deselect".to_string());
    clear.apply(&mut doc);
    assert!(doc.selection.is_none());
    clear.revert(&mut doc);
    assert_eq!(doc, with_sel);
}

#[test]
fn opacity_merges_same_target_only() {
    let mut doc = Document::new([64, 64], ProjectFocus::Raster);
    let root = doc.root();
    let mut add_a = AddNode::new(&mut doc, leaf("a"), root, 0);
    add_a.apply(&mut doc);
    let mut add_b = AddNode::new(&mut doc, leaf("b"), root, 1);
    add_b.apply(&mut doc);

    let mut first = SetOpacity::new(&doc, add_a.id, bits(0.8));
    first.apply(&mut doc);
    let mut second = SetOpacity::new(&doc, add_a.id, bits(0.6));
    second.apply(&mut doc);
    assert!(first.try_merge(&second));
    assert_eq!(first.new, bits(0.6));
    assert_eq!(first.old, bits(1.0));

    let other = SetOpacity::new(&doc, add_b.id, bits(0.3));
    assert!(!first.try_merge(&other));
    let rename = Command::SetName(SetName::new(&doc, add_a.id, "x".into()));
    let mut first_cmd = Command::SetOpacity(first);
    assert!(!first_cmd.try_merge(&rename));
}

#[test]
fn canvas_resize_apply_revert() {
    let mut doc = Document::new([10, 20], ProjectFocus::Raster);
    let mut cmd = CanvasResize::new(&doc, [30, 40]);
    cmd.apply(&mut doc);
    assert_eq!(doc.size, [30, 40]);
    cmd.revert(&mut doc);
    assert_eq!(doc, Document::new([10, 20], ProjectFocus::Raster));
    assert_eq!(cmd.label(), "Canvas Size");
}

#[test]
fn paint_tiles_swaps_before_and_after() {
    let (mut doc, id) = raster_with_pixels();
    let before = match &doc.node(id).unwrap().kind {
        NodeKind::Raster(c) => c.tiles.tile_at((0, 0)).cloned(),
        _ => panic!(),
    };
    // A live stroke paints a new tile at (1, 0) and changes (0, 0).
    let mut tiles = TileMap::new();
    tiles.fill_rect(0, 0, 16, 16, [9, 9, 9, 255]);
    tiles.set_pixel(1, 1, [0, 0, 0, 255]);
    tiles.set_pixel(300, 0, [5, 5, 5, 255]);
    let old_kind = doc.replace_kind(id, NodeKind::Raster(RasterContent { tiles, ..Default::default() })).unwrap();
    let mut cmd = PaintTiles::from_capture(&doc, id, "Brush".to_string(), vec![((0, 0), before), ((1, 0), None)]);
    cmd.revert(&mut doc);
    assert_eq!(doc.node(id).unwrap().kind, old_kind, "revert restores the pre-stroke tiles");
    cmd.apply(&mut doc);
    match &doc.node(id).unwrap().kind {
        NodeKind::Raster(c) => {
            assert_eq!(c.tiles.pixel(1, 1), [0, 0, 0, 255]);
            assert_eq!(c.tiles.pixel(300, 0), [5, 5, 5, 255]);
        }
        _ => panic!(),
    }
    assert_eq!(cmd.label(), "Brush");
}

#[test]
fn replace_node_kind_swaps_content_back_and_forth() {
    let (mut doc, id) = raster_with_pixels();
    let (baseline, _) = raster_with_pixels();
    let mut cmd = ReplaceNodeKind::new(id, NodeKind::Text, "Rasterize".to_string());
    cmd.apply(&mut doc);
    assert_eq!(doc.node(id).unwrap().kind, NodeKind::Text);
    cmd.revert(&mut doc);
    assert_eq!(doc, baseline);
    cmd.apply(&mut doc);
    assert_eq!(doc.node(id).unwrap().kind, NodeKind::Text);
}

#[test]
fn remove_and_move_labels_quote_the_name() {
    let (doc, id) = raster_with_pixels();
    assert_eq!(RemoveNode::new(&doc, id).label(), "Delete \"r\"");
    assert_eq!(MoveNode::new(&doc, id, doc.root(), 0).label(), "Move \"r\"");
    let mut d2 = Document::new([1, 1], ProjectFocus::Raster);
    let root = d2.root();
    assert_eq!(AddNode::new(&mut d2, Node::group("g".to_string()), root, 0).label(), "Add Group");
    let _ = Tile::blank();
}
