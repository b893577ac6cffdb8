//! Editor tool and option enums, and the blend-mode table order the GPU
//! shaders index by.

use vstd::prelude::*;
use crate::node::BlendMode;

verus! {

/// The active canvas tool.
#[derive(Debug, Clone, Copy, PartialEq, Eq, Structural)]
pub enum ActiveTool {
    Move,
    Brush,
    Eraser,
    SelectRect,
    SelectEllipse,
    Lasso,
    MagicWand,
    ShapeRect,
    ShapeEllipse,
    ShapePolygon,
    ShapeStar,
    Pen,
    DirectSelect,
}

/// Which primitive a shape-tool drag produces.
#[derive(Debug, Clone, Copy, PartialEq, Eq, Structural)]
pub enum ShapeKind {
    Rect,
    Ellipse,
    Polygon,
    Star,
}

impl ActiveTool {
    /// The shape primitive for a shape tool, if this is one.
    pub fn shape_kind(self) -> (r: Option<ShapeKind>)
        ensures
            r == match self {
                ActiveTool::ShapeRect => Some(ShapeKind::Rect),
                ActiveTool::ShapeEllipse => Some(ShapeKind::Ellipse),
                ActiveTool::ShapePolygon => Some(ShapeKind::Polygon),
                ActiveTool::ShapeStar => Some(ShapeKind::Star),
                _ => None::<ShapeKind>,
            },
    {
        match self {
            ActiveTool::ShapeRect => Some(ShapeKind::Rect),
            ActiveTool::ShapeEllipse => Some(ShapeKind::Ellipse),
            ActiveTool::ShapePolygon => Some(ShapeKind::Polygon),
            ActiveTool::ShapeStar => Some(ShapeKind::Star),
            _ => None,
        }
    }
}

/// Alignment of shapes to the canvas or to each other.
#[derive(Debug, Clone, Copy, PartialEq, Eq, Structural)]
pub enum Align {
    Left,
    HCenter,
    Right,
    Top,
    VMiddle,
    Bottom,
}

/// Position of each blend mode in the shaders' mode table (panel order).
pub open spec fn blend_index(m: BlendMode) -> nat {
    match m {
        BlendMode::Normal => 0,
        BlendMode::PassThrough => 1,
        BlendMode::Dissolve => 2,
        BlendMode::Darken => 3,
        BlendMode::Multiply => 4,
        BlendMode::ColorBurn => 5,
        BlendMode::LinearBurn => 6,
        BlendMode::DarkerColor => 7,
        BlendMode::Lighten => 8,
        BlendMode::Screen => 9,
        BlendMode::ColorDodge => 10,
        BlendMode::LinearDodge => 11,
        BlendMode::LighterColor => 12,
        BlendMode::Overlay => 13,
        BlendMode::SoftLight => 14,
        BlendMode::HardLight => 15,
        BlendMode::VividLight => 16,
        BlendMode::LinearLight => 17,
        BlendMode::PinLight => 18,
        BlendMode::HardMix => 19,
        BlendMode::Difference => 20,
        BlendMode::Exclusion => 21,
        BlendMode::Subtract => 22,
        BlendMode::Divide => 23,
        BlendMode::Hue => 24,
        BlendMode::Saturation => 25,
        BlendMode::Color => 26,
        BlendMode::Luminosity => 27,
    }
}

impl BlendMode {
    /// Every blend mode, in panel order.
    pub fn all() -> (r: [BlendMode; 28])
        ensures
            forall|i: int| 0 <= i < 28 ==> blend_index(#[trigger] r[i]) == i,
    {
        [
            BlendMode::Normal,
            BlendMode::PassThrough,
            BlendMode::Dissolve,
            BlendMode::Darken,
            BlendMode::Multiply,
            BlendMode::ColorBurn,
            BlendMode::LinearBurn,
            BlendMode::DarkerColor,
            BlendMode::Lighten,
            BlendMode::Screen,
            BlendMode::ColorDodge,
            BlendMode::LinearDodge,
            BlendMode::LighterColor,
            BlendMode::Overlay,
            BlendMode::SoftLight,
            BlendMode::HardLight,
            BlendMode::VividLight,
            BlendMode::LinearLight,
            BlendMode::PinLight,
            BlendMode::HardMix,
            BlendMode::Difference,
            BlendMode::Exclusion,
            BlendMode::Subtract,
            BlendMode::Divide,
            BlendMode::Hue,
            BlendMode::Saturation,
            BlendMode::Color,
            BlendMode::Luminosity,
        ]
    }
}

/// The mode's position in the shaders' mode table: the index at which
/// `BlendMode::all()` lists it.
pub fn mode_index(mode: BlendMode) -> (r: u32)
    ensures
        r == blend_index(mode),
{
    let all = BlendMode::all();
    let mut i: usize = 0;
    while i < 28
        invariant
            i <= 28,
            forall|j: int| 0 <= j < 28 ==> blend_index(#[trigger] all[j]) == j,
            forall|j: int| 0 <= j < i ==> all[j] != mode,
        decreases 28 - i,
    {
        if all[i] == mode {
            return i as u32;
        }
        i += 1;
    }
    assert(blend_index(all[blend_index(mode) as int]) == blend_index(mode));
    0
}

} // verus!
