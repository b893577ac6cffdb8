//! Layer-tree nodes: identity, layer properties and per-kind content. Values
//! that are single-precision floats in the editor (opacity, placeholder
//! geometry, adjustment parameters, smart-object transform) are carried as
//! their IEEE-754 bit patterns: the library stores and restores them but
//! never computes on them.

use vstd::prelude::*;
use crate::document::{deep_doc, DocView, Document};
use crate::mask::Mask;
use crate::tile::{TileCoord, TileMap};
use crate::vector::{ShapeView, VectorContent};

verus! {

/// Stable node identity: allocated monotonically per document and never
/// reused, so commands can refer to nodes across undo and redo.
#[derive(Debug, Clone, Copy, PartialEq, Eq, Hash, PartialOrd, Ord, Structural)]
pub struct NodeId(pub u64);

/// Layer blend modes, in panel order.
#[derive(Debug, Clone, Copy, PartialEq, Eq, Structural)]
pub enum BlendMode {
    Normal,
    PassThrough,
    Dissolve,
    Darken,
    Multiply,
    ColorBurn,
    LinearBurn,
    DarkerColor,
    Lighten,
    Screen,
    ColorDodge,
    LinearDodge,
    LighterColor,
    Overlay,
    SoftLight,
    HardLight,
    VividLight,
    LinearLight,
    PinLight,
    HardMix,
    Difference,
    Exclusion,
    Subtract,
    Divide,
    Hue,
    Saturation,
    Color,
    Luminosity,
}

/// Tonal adjustment parameters (`f32` bit patterns).
#[derive(Debug, Clone, Copy, PartialEq, Eq, Structural)]
pub enum Adjustment {
    Invert,
    /// brightness in [-1, 1], contrast in [-1, 1].
    BrightnessContrast { brightness: u32, contrast: u32 },
    /// black/white points in [0, 1], gamma > 0.
    Levels { black: u32, white: u32, gamma: u32 },
    /// hue degrees [-180, 180], saturation/lightness [-1, 1].
    HueSaturation { hue: u32, sat: u32, light: u32 },
}

/// Per-layer properties shown in the Layers panel.
#[derive(Debug, Clone, PartialEq, Eq)]
pub struct LayerProps {
    pub name: String,
    pub visible: bool,
    pub locked: bool,
    /// Opacity in 0.0..=1.0, as `f32` bits.
    pub opacity: u32,
    pub blend: BlendMode,
    /// Clipping mask: clips to the layer below.
    pub clip: bool,
}

/// Abstract layer properties.
pub struct PropsView {
    pub name: Seq<char>,
    pub visible: bool,
    pub locked: bool,
    pub opacity: u32,
    pub blend: BlendMode,
    pub clip: bool,
}

impl View for LayerProps {
    type V = PropsView;

    open spec fn view(&self) -> PropsView {
        PropsView {
            name: self.name@,
            visible: self.visible,
            locked: self.locked,
            opacity: self.opacity,
            blend: self.blend,
            clip: self.clip,
        }
    }
}

/// Bits of `1.0f32`.
pub const OPACITY_OPAQUE: u32 = 0x3f80_0000;

impl LayerProps {
    /// Visible, unlocked, fully opaque Normal layer named `name`.
    pub fn named(name: String) -> (r: LayerProps)
        ensures
            r@ == (PropsView {
                name: name@,
                visible: true,
                locked: false,
                opacity: OPACITY_OPAQUE,
                blend: BlendMode::Normal,
                clip: false,
            }),
    {
        LayerProps {
            name,
            visible: true,
            locked: false,
            opacity: OPACITY_OPAQUE,
            blend: BlendMode::Normal,
            clip: false,
        }
    }

    /// A copy with equal view.
    pub fn duplicate(&self) -> (r: LayerProps)
        ensures
            r@ == self@,
    {
        LayerProps {
            name: self.name.clone(),
            visible: self.visible,
            locked: self.locked,
            opacity: self.opacity,
            blend: self.blend,
            clip: self.clip,
        }
    }
}

/// Placeholder layer art: a colored rect (`x, y, w, h` and RGBA as `f32` bits).
#[derive(Debug, Clone, Copy, PartialEq)]
pub struct PlaceholderArt {
    pub bounds: [u32; 4],
    pub color: [u32; 4],
}

/// Raster layer payload: sparse tiles drawn at `offset`, an optional layer
/// mask, and optional placeholder art.
#[derive(Debug, Clone, PartialEq)]
pub struct RasterContent {
    pub art: Option<PlaceholderArt>,
    /// Layer position: tiles live in layer space, composited at document
    /// coordinates `tile_coord + offset`.
    pub offset: [i32; 2],
    pub tiles: TileMap,
    pub mask: Option<Mask>,
}

/// An embedded document placed as one layer, with its own transform.
#[derive(Debug, PartialEq)]
pub struct SmartContent {
    pub doc: Box<Document>,
    pub offset: [i32; 2],
    /// Non-destructive scale factor per axis (`f32` bits).
    pub scale: [u32; 2],
    /// Non-destructive rotation in radians (`f32` bits).
    pub rotation: u32,
}

impl Default for RasterContent {
    /// No placeholder art, no offset, no tiles, no mask.
    fn default() -> (r: RasterContent)
        ensures
            r.art is None,
            r.offset == [0i32, 0],
            r.tiles@ == Map::<TileCoord, Seq<u8>>::empty(),
            r.mask is None,
    {
        RasterContent { art: None, offset: [0, 0], tiles: TileMap::new(), mask: None }
    }
}

/// Bits of `1.0f32`, the identity scale.
pub const SCALE_ONE: u32 = 0x3f80_0000;

impl SmartContent {
    /// Embed `doc` untransformed: no offset, unit scale, no rotation.
    pub fn embed(doc: Document) -> (r: SmartContent)
        ensures
            *r.doc == doc,
            r.offset == [0i32, 0],
            r.scale == [SCALE_ONE, SCALE_ONE],
            r.rotation == 0,
    {
        SmartContent { doc: Box::new(doc), offset: [0, 0], scale: [SCALE_ONE, SCALE_ONE], rotation: 0 }
    }
}

/// What a node holds.
#[derive(Debug, PartialEq)]
pub enum NodeKind {
    Group { expanded: bool },
    Raster(RasterContent),
    Vector(VectorContent),
    Adjustment(Adjustment),
    Text,
    Smart(SmartContent),
    Fill,
}

impl NodeKind {
    /// True for groups.
    pub fn is_group(&self) -> (r: bool)
        ensures
            r == (self is Group),
    {
        match self {
            NodeKind::Group { .. } => true,
            _ => false,
        }
    }

    /// Display name of the kind.
    pub open spec fn kind_name_spec(&self) -> Seq<char> {
        match self {
            NodeKind::Group { .. } => "Group"@,
            NodeKind::Raster(_) => "Raster"@,
            NodeKind::Vector(_) => "Vector"@,
            NodeKind::Adjustment(_) => "Adjustment"@,
            NodeKind::Text => "Text"@,
            NodeKind::Smart(_) => "Smart Object"@,
            NodeKind::Fill => "Fill"@,
        }
    }

    /// Display name of the kind.
    pub fn kind_name(&self) -> (r: &'static str)
        ensures
            r@ == self.kind_name_spec(),
    {
        match self {
            NodeKind::Group { .. } => "Group",
            NodeKind::Raster(_) => "Raster",
            NodeKind::Vector(_) => "Vector",
            NodeKind::Adjustment(_) => "Adjustment",
            NodeKind::Text => "Text",
            NodeKind::Smart(_) => "Smart Object",
            NodeKind::Fill => "Fill",
        }
    }
}


/// Abstract node content; an embedded smart-object document by its view.
pub enum KindView {
    Group { expanded: bool },
    Raster {
        art: Option<PlaceholderArt>,
        offset: [i32; 2],
        tiles: Map<TileCoord, Seq<u8>>,
        mask: Option<Map<TileCoord, Seq<u8>>>,
    },
    Vector(Seq<ShapeView>),
    Adjustment(Adjustment),
    Text,
    Smart { doc: DocView, offset: [i32; 2], scale: [u32; 2], rotation: u32 },
    Fill,
}

/// The optional mask's coverage map.
pub open spec fn mask_view(m: Option<Mask>) -> Option<Map<TileCoord, Seq<u8>>> {
    match m {
        Some(x) => Some(x@),
        None => None,
    }
}

impl View for NodeKind {
    type V = KindView;

    open spec fn view(&self) -> KindView {
        match self {
            NodeKind::Group { expanded } => KindView::Group { expanded: *expanded },
            NodeKind::Raster(c) => KindView::Raster {
                art: c.art,
                offset: c.offset,
                tiles: c.tiles@,
                mask: mask_view(c.mask),
            },
            NodeKind::Vector(v) => KindView::Vector(v@),
            NodeKind::Adjustment(a) => KindView::Adjustment(*a),
            NodeKind::Text => KindView::Text,
            NodeKind::Smart(c) => KindView::Smart {
                doc: deep_doc(*c.doc),
                offset: c.offset,
                scale: c.scale,
                rotation: c.rotation,
            },
            NodeKind::Fill => KindView::Fill,
        }
    }
}

/// Abstract node: properties, content, parent id and child ids.
pub struct NodeView {
    pub props: PropsView,
    pub kind: KindView,
    pub parent: Option<u64>,
    pub children: Seq<u64>,
}

/// Ids of optional node ids.
pub open spec fn opt_id(p: Option<NodeId>) -> Option<u64> {
    match p {
        Some(n) => Some(n.0),
        None => None,
    }
}

/// Raw ids of a list of node ids.
pub open spec fn ids_view(s: Seq<NodeId>) -> Seq<u64> {
    s.map_values(|n: NodeId| n.0)
}

impl View for Node {
    type V = NodeView;

    open spec fn view(&self) -> NodeView {
        NodeView {
            props: self.props@,
            kind: self.kind@,
            parent: opt_id(self.parent),
            children: ids_view(self.children@),
        }
    }
}

/// A copy of a list of ids.
pub fn copy_ids(s: &[NodeId]) -> (r: Vec<NodeId>)
    ensures
        r@ == s@,
{
    let mut out: Vec<NodeId> = Vec::new();
    for i in 0..s.len()
        invariant
            out@ == s@.take(i as int),
    {
        out.push(s[i]);
        proof {
            assert(s@.take(i + 1) =~= s@.take(i as int).push(s@[i as int]));
        }
    }
    proof {
        assert(s@.take(s@.len() as int) =~= s@);
    }
    out
}

/// One node of the layer tree.
#[derive(Debug, PartialEq)]
pub struct Node {
    pub props: LayerProps,
    pub kind: NodeKind,
    pub parent: Option<NodeId>,
    /// Top-most layer first (panel order). Only non-empty for groups.
    pub children: Vec<NodeId>,
}

impl Node {
    /// A detached node with no children.
    pub fn new(props: LayerProps, kind: NodeKind) -> (r: Node)
        ensures
            r.props == props,
            r.kind == kind,
            r.parent is None,
            r.children@.len() == 0,
    {
        Node { props, kind, parent: None, children: Vec::new() }
    }

    /// An expanded, empty group named `name`, blending pass-through.
    pub fn group(name: String) -> (r: Node)
        ensures
            r.props@ == (PropsView {
                name: name@,
                visible: true,
                locked: false,
                opacity: OPACITY_OPAQUE,
                blend: BlendMode::PassThrough,
                clip: false,
            }),
            r.kind == (NodeKind::Group { expanded: true }),
            r.parent is None,
            r.children@.len() == 0,
    {
        let mut props = LayerProps::named(name);
        props.blend = BlendMode::PassThrough;
        Node::new(props, NodeKind::Group { expanded: true })
    }
}

} // verus!
