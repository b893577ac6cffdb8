//! Edits of one field of a node's content, one command per field.

use vstd::prelude::*;
use crate::document::{DocView, Document};
use crate::document::edit::{lemma_with_kind, with_kind};
use crate::mask::Mask;
use crate::node::{mask_view, Adjustment, KindView, NodeId, NodeKind};
use crate::tile::TileCoord;
use crate::vector::{duplicate_shapes, shapes_view, Shape, ShapeView};

verus! {

/// The placement offset of raster and smart-object content.
pub open spec fn offset_of(k: KindView) -> Option<[i32; 2]> {
    match k {
        KindView::Raster { offset, .. } => Some(offset),
        KindView::Smart { offset, .. } => Some(offset),
        _ => None,
    }
}

/// `k` with its offset replaced (content without one is unchanged).
pub open spec fn with_offset(k: KindView, o: [i32; 2]) -> KindView {
    match k {
        KindView::Raster { art, offset, tiles, mask } => KindView::Raster { art, offset: o, tiles, mask },
        KindView::Smart { doc, offset, scale, rotation } => KindView::Smart { doc, offset: o, scale, rotation },
        _ => k,
    }
}

/// A smart object's scale.
pub open spec fn scale_of(k: KindView) -> Option<[u32; 2]> {
    match k {
        KindView::Smart { scale, .. } => Some(scale),
        _ => None,
    }
}

/// `k` with a smart object's scale replaced.
pub open spec fn with_scale(k: KindView, s: [u32; 2]) -> KindView {
    match k {
        KindView::Smart { doc, offset, scale, rotation } => KindView::Smart { doc, offset, scale: s, rotation },
        _ => k,
    }
}

/// A smart object's rotation.
pub open spec fn rotation_of(k: KindView) -> Option<u32> {
    match k {
        KindView::Smart { rotation, .. } => Some(rotation),
        _ => None,
    }
}

/// `k` with a smart object's rotation replaced.
pub open spec fn with_rotation(k: KindView, r: u32) -> KindView {
    match k {
        KindView::Smart { doc, offset, scale, rotation } => KindView::Smart { doc, offset, scale, rotation: r },
        _ => k,
    }
}

/// An adjustment layer's parameters.
pub open spec fn adjustment_of(k: KindView) -> Option<Adjustment> {
    match k {
        KindView::Adjustment(a) => Some(a),
        _ => None,
    }
}

/// `k` with an adjustment layer's parameters replaced.
pub open spec fn with_adjustment(k: KindView, a: Adjustment) -> KindView {
    match k {
        KindView::Adjustment(_) => KindView::Adjustment(a),
        _ => k,
    }
}

/// A raster layer's mask.
pub open spec fn mask_of(k: KindView) -> Option<Option<Map<TileCoord, Seq<u8>>>> {
    match k {
        KindView::Raster { mask, .. } => Some(mask),
        _ => None,
    }
}

/// `k` with a raster layer's mask replaced.
pub open spec fn with_mask(k: KindView, m: Option<Map<TileCoord, Seq<u8>>>) -> KindView {
    match k {
        KindView::Raster { art, offset, tiles, mask } => KindView::Raster { art, offset, tiles, mask: m },
        _ => k,
    }
}

/// A vector layer's shapes.
pub open spec fn shapes_of(k: KindView) -> Option<Seq<ShapeView>> {
    match k {
        KindView::Vector(s) => Some(s),
        _ => None,
    }
}

/// `k` with a vector layer's shapes replaced.
pub open spec fn with_shapes(k: KindView, s: Seq<ShapeView>) -> KindView {
    match k {
        KindView::Vector(_) => KindView::Vector(s),
        _ => k,
    }
}

/// A copy of an optional mask with the same coverage.
pub fn dup_mask(m: &Option<Mask>) -> (r: Option<Mask>)
    ensures
        mask_view(r) == mask_view(*m),
{
    match m {
        Some(x) => Some(x.duplicate()),
        None => None,
    }
}

/// Take node `id`'s content out, leaving `Fill` in its place.
pub(crate) fn take_kind(doc: &mut Document, id: NodeId) -> (r: NodeKind)
    requires
        old(doc).wf(),
        old(doc)@.nodes.contains_key(id.0),
    ensures
        final(doc).wf(),
        r@ == old(doc)@.nodes[id.0].kind,
        final(doc)@ == with_kind(old(doc)@, id.0, KindView::Fill),
{
    match doc.replace_kind(id, NodeKind::Fill) {
        Some(k) => k,
        None => {
            assert(false);
            NodeKind::Fill
        },
    }
}

/// Move a raster layer or smart object (offset in document pixels); successive edits of one layer merge into one history entry.
#[derive(Debug)]
pub struct SetOffset {
    pub id: NodeId,
    pub old: [i32; 2],
    pub new: [i32; 2],
}

impl SetOffset {
    /// Build the command, capturing the node's current value.
    pub fn new(doc: &Document, id: NodeId, new: [i32; 2]) -> (r: SetOffset)
        requires
            doc@.nodes.contains_key(id.0),
            offset_of(doc@.nodes[id.0].kind) is Some,
        ensures
            r.id == id,
            r.new == new,
            Some(r.old) == offset_of(doc@.nodes[id.0].kind),
    {
        let old = match doc.node(id) {
            Some(n) => match &n.kind {
                NodeKind::Raster(c) => c.offset,
                NodeKind::Smart(c) => c.offset,
                _ => {
                    assert(false);
                    new
                },
            },
            None => {
                assert(false);
                new
            },
        };
        SetOffset { id, old, new }
    }

    /// "Move Layer".
    pub fn label(&self) -> (r: String)
        ensures
            r@ == "Move Layer"@,
    {
        String::from_str("Move Layer")
    }

    /// The node is present and has the edited field.
    pub open spec fn can_apply(&self, d: DocView) -> bool {
        d.nodes.contains_key(self.id.0) && offset_of(d.nodes[self.id.0].kind) is Some
    }

    /// The document after apply.
    pub open spec fn apply_view(&self, d: DocView) -> DocView {
        if offset_of(d.nodes[self.id.0].kind) is Some {
            with_kind(d, self.id.0, with_offset(d.nodes[self.id.0].kind, self.new))
        } else {
            d
        }
    }

    /// Undo restores the document exactly when the node still holds the
    /// captured old value.
    pub open spec fn undoable(&self, d: DocView) -> bool {
        offset_of(d.nodes[self.id.0].kind) == Some(self.old)
    }

    /// The node is present and holds the new value.
    pub open spec fn can_revert(&self, d: DocView) -> bool {
        d.nodes.contains_key(self.id.0) && offset_of(d.nodes[self.id.0].kind) == Some(self.new)
    }

    /// The document after revert.
    pub open spec fn revert_view(&self, d: DocView) -> DocView {
        if offset_of(d.nodes[self.id.0].kind) is Some {
            with_kind(d, self.id.0, with_offset(d.nodes[self.id.0].kind, self.old))
        } else {
            d
        }
    }

    /// Set the new value. Undoing right after restores the document exactly
    /// when the node held the old value.
    pub fn apply(&mut self, doc: &mut Document)
        requires
            old(doc).wf(),
            old(self).can_apply(old(doc)@),
        ensures
            final(doc).wf(),
            *final(self) == *old(self),
            final(doc)@ == old(self).apply_view(old(doc)@),
            old(self).undoable(old(doc)@) ==> final(self).can_revert(final(doc)@) && final(self).revert_view(final(doc)@)
                == old(doc)@,
    {
        let ghost d = doc@;
        let k = take_kind(doc, self.id);
        let k2 = match k {
            NodeKind::Raster(mut c) => {
                c.offset = self.new;
                NodeKind::Raster(c)
            },
            NodeKind::Smart(mut c) => {
                c.offset = self.new;
                NodeKind::Smart(c)
            },
            other => other,
        };
        let _ = doc.replace_kind(self.id, k2);
        proof {
            let k0 = d.nodes[self.id.0].kind;
            lemma_with_kind(d, self.id.0, KindView::Fill, k2@);
            lemma_with_kind(d, self.id.0, k2@, with_offset(k2@, self.old));
            assert(with_offset(with_offset(k0, self.new), self.old) == with_offset(k0, self.old));
            if offset_of(k0) == Some(self.old) {
                assert(with_offset(k0, self.old) == k0);
            }
        }
    }

    /// Set the old value back. Redoing right after restores the document
    /// exactly.
    pub fn revert(&mut self, doc: &mut Document)
        requires
            old(doc).wf(),
            old(self).can_revert(old(doc)@),
        ensures
            final(doc).wf(),
            *final(self) == *old(self),
            final(doc)@ == old(self).revert_view(old(doc)@),
            final(self).can_apply(final(doc)@),
            final(self).undoable(final(doc)@),
            final(self).apply_view(final(doc)@) == old(doc)@,
    {
        let ghost d = doc@;
        let k = take_kind(doc, self.id);
        let k2 = match k {
            NodeKind::Raster(mut c) => {
                c.offset = self.old;
                NodeKind::Raster(c)
            },
            NodeKind::Smart(mut c) => {
                c.offset = self.old;
                NodeKind::Smart(c)
            },
            other => other,
        };
        let _ = doc.replace_kind(self.id, k2);
        proof {
            let k0 = d.nodes[self.id.0].kind;
            lemma_with_kind(d, self.id.0, KindView::Fill, k2@);
            lemma_with_kind(d, self.id.0, k2@, with_offset(k2@, self.new));
            assert(with_offset(with_offset(k0, self.old), self.new) == with_offset(k0, self.new));
            if offset_of(k0) == Some(self.new) {
                assert(with_offset(k0, self.new) == k0);
            }
        }
    }

    /// Absorb `next` when it edits the same node: keep the old value, take
    /// `next`'s new one.
    pub fn try_merge(&mut self, next: &SetOffset) -> (r: bool)
        ensures
            r == (next.id == old(self).id),
            r ==> final(self).id == old(self).id && final(self).old == old(self).old && final(self).new
                == next.new,
            !r ==> *final(self) == *old(self),
            r ==> forall|d: DocView| old(self).can_revert(d) && next.can_apply(d) ==> final(self).can_revert(next.apply_view(d))
                && final(self).revert_view(next.apply_view(d)) == old(self).revert_view(d),
    {
        if next.id == self.id {
            self.new = next.new;
            proof {
                assert forall|d: DocView| old(self).can_revert(d) && next.can_apply(d) implies self.can_revert(next.apply_view(d))
                    && self.revert_view(next.apply_view(d)) == old(self).revert_view(d) by {
                    let k = d.nodes[self.id.0].kind;
                    let nn = next.new;
                    if offset_of(k) is Some {
                        lemma_with_kind(d, self.id.0, with_offset(k, nn), with_offset(with_offset(k, nn), self.old));
                        assert(with_offset(with_offset(k, nn), self.old) == with_offset(k, self.old));
                    }
                }
            }
            true
        } else {
            false
        }
    }
}

/// Set a smart object's non-destructive scale factor (`f32` bits per axis).
#[derive(Debug)]
pub struct SetSmartScale {
    pub id: NodeId,
    pub old: [u32; 2],
    pub new: [u32; 2],
}

impl SetSmartScale {
    /// Build the command, capturing the node's current value.
    pub fn new(doc: &Document, id: NodeId, new: [u32; 2]) -> (r: SetSmartScale)
        requires
            doc@.nodes.contains_key(id.0),
            scale_of(doc@.nodes[id.0].kind) is Some,
        ensures
            r.id == id,
            r.new == new,
            Some(r.old) == scale_of(doc@.nodes[id.0].kind),
    {
        let old = match doc.node(id) {
            Some(n) => match &n.kind {
                NodeKind::Smart(c) => c.scale,
                _ => {
                    assert(false);
                    new
                },
            },
            None => {
                assert(false);
                new
            },
        };
        SetSmartScale { id, old, new }
    }

    /// "Scale Smart Object".
    pub fn label(&self) -> (r: String)
        ensures
            r@ == "Scale Smart Object"@,
    {
        String::from_str("Scale Smart Object")
    }

    /// The node is present.
    pub open spec fn can_apply(&self, d: DocView) -> bool {
        d.nodes.contains_key(self.id.0)
    }

    /// The document after apply.
    pub open spec fn apply_view(&self, d: DocView) -> DocView {
        if scale_of(d.nodes[self.id.0].kind) is Some {
            with_kind(d, self.id.0, with_scale(d.nodes[self.id.0].kind, self.new))
        } else {
            d
        }
    }

    /// Undo restores the document exactly when the node still holds the
    /// captured old value.
    pub open spec fn undoable(&self, d: DocView) -> bool {
        scale_of(d.nodes[self.id.0].kind) is Some ==> scale_of(d.nodes[self.id.0].kind) == Some(self.old)
    }

    /// The node is present and holds the new value.
    pub open spec fn can_revert(&self, d: DocView) -> bool {
        d.nodes.contains_key(self.id.0) && (scale_of(d.nodes[self.id.0].kind) is Some ==> scale_of(d.nodes[self.id.0].kind) == Some(self.new))
    }

    /// The document after revert.
    pub open spec fn revert_view(&self, d: DocView) -> DocView {
        if scale_of(d.nodes[self.id.0].kind) is Some {
            with_kind(d, self.id.0, with_scale(d.nodes[self.id.0].kind, self.old))
        } else {
            d
        }
    }

    /// Set the new value. Undoing right after restores the document exactly
    /// when the node held the old value.
    pub fn apply(&mut self, doc: &mut Document)
        requires
            old(doc).wf(),
            old(self).can_apply(old(doc)@),
        ensures
            final(doc).wf(),
            *final(self) == *old(self),
            final(doc)@ == old(self).apply_view(old(doc)@),
            old(self).undoable(old(doc)@) ==> final(self).can_revert(final(doc)@) && final(self).revert_view(final(doc)@)
                == old(doc)@,
    {
        let ghost d = doc@;
        let k = take_kind(doc, self.id);
        let k2 = match k {
            NodeKind::Smart(mut c) => {
                c.scale = self.new;
                NodeKind::Smart(c)
            },
            other => other,
        };
        let _ = doc.replace_kind(self.id, k2);
        proof {
            let k0 = d.nodes[self.id.0].kind;
            lemma_with_kind(d, self.id.0, KindView::Fill, k2@);
            lemma_with_kind(d, self.id.0, k2@, with_scale(k2@, self.old));
            assert(with_scale(with_scale(k0, self.new), self.old) == with_scale(k0, self.old));
            if scale_of(k0) == Some(self.old) {
                assert(with_scale(k0, self.old) == k0);
            }
        }
    }

    /// Set the old value back. Redoing right after restores the document
    /// exactly.
    pub fn revert(&mut self, doc: &mut Document)
        requires
            old(doc).wf(),
            old(self).can_revert(old(doc)@),
        ensures
            final(doc).wf(),
            *final(self) == *old(self),
            final(doc)@ == old(self).revert_view(old(doc)@),
            final(self).can_apply(final(doc)@),
            final(self).undoable(final(doc)@),
            final(self).apply_view(final(doc)@) == old(doc)@,
    {
        let ghost d = doc@;
        let k = take_kind(doc, self.id);
        let k2 = match k {
            NodeKind::Smart(mut c) => {
                c.scale = self.old;
                NodeKind::Smart(c)
            },
            other => other,
        };
        let _ = doc.replace_kind(self.id, k2);
        proof {
            let k0 = d.nodes[self.id.0].kind;
            lemma_with_kind(d, self.id.0, KindView::Fill, k2@);
            lemma_with_kind(d, self.id.0, k2@, with_scale(k2@, self.new));
            assert(with_scale(with_scale(k0, self.old), self.new) == with_scale(k0, self.new));
            if scale_of(k0) == Some(self.new) {
                assert(with_scale(k0, self.new) == k0);
            }
        }
    }
}

/// Set a smart object's non-destructive rotation (radians, `f32` bits).
#[derive(Debug)]
pub struct SetSmartRotation {
    pub id: NodeId,
    pub old: u32,
    pub new: u32,
}

impl SetSmartRotation {
    /// Build the command, capturing the node's current value.
    pub fn new(doc: &Document, id: NodeId, new: u32) -> (r: SetSmartRotation)
        requires
            doc@.nodes.contains_key(id.0),
            rotation_of(doc@.nodes[id.0].kind) is Some,
        ensures
            r.id == id,
            r.new == new,
            Some(r.old) == rotation_of(doc@.nodes[id.0].kind),
    {
        let old = match doc.node(id) {
            Some(n) => match &n.kind {
                NodeKind::Smart(c) => c.rotation,
                _ => {
                    assert(false);
                    new
                },
            },
            None => {
                assert(false);
                new
            },
        };
        SetSmartRotation { id, old, new }
    }

    /// "Rotate Smart Object".
    pub fn label(&self) -> (r: String)
        ensures
            r@ == "Rotate Smart Object"@,
    {
        String::from_str("Rotate Smart Object")
    }

    /// The node is present.
    pub open spec fn can_apply(&self, d: DocView) -> bool {
        d.nodes.contains_key(self.id.0)
    }

    /// The document after apply.
    pub open spec fn apply_view(&self, d: DocView) -> DocView {
        if rotation_of(d.nodes[self.id.0].kind) is Some {
            with_kind(d, self.id.0, with_rotation(d.nodes[self.id.0].kind, self.new))
        } else {
            d
        }
    }

    /// Undo restores the document exactly when the node still holds the
    /// captured old value.
    pub open spec fn undoable(&self, d: DocView) -> bool {
        rotation_of(d.nodes[self.id.0].kind) is Some ==> rotation_of(d.nodes[self.id.0].kind) == Some(self.old)
    }

    /// The node is present and holds the new value.
    pub open spec fn can_revert(&self, d: DocView) -> bool {
        d.nodes.contains_key(self.id.0) && (rotation_of(d.nodes[self.id.0].kind) is Some ==> rotation_of(d.nodes[self.id.0].kind) == Some(self.new))
    }

    /// The document after revert.
    pub open spec fn revert_view(&self, d: DocView) -> DocView {
        if rotation_of(d.nodes[self.id.0].kind) is Some {
            with_kind(d, self.id.0, with_rotation(d.nodes[self.id.0].kind, self.old))
        } else {
            d
        }
    }

    /// Set the new value. Undoing right after restores the document exactly
    /// when the node held the old value.
    pub fn apply(&mut self, doc: &mut Document)
        requires
            old(doc).wf(),
            old(self).can_apply(old(doc)@),
        ensures
            final(doc).wf(),
            *final(self) == *old(self),
            final(doc)@ == old(self).apply_view(old(doc)@),
            old(self).undoable(old(doc)@) ==> final(self).can_revert(final(doc)@) && final(self).revert_view(final(doc)@)
                == old(doc)@,
    {
        let ghost d = doc@;
        let k = take_kind(doc, self.id);
        let k2 = match k {
            NodeKind::Smart(mut c) => {
                c.rotation = self.new;
                NodeKind::Smart(c)
            },
            other => other,
        };
        let _ = doc.replace_kind(self.id, k2);
        proof {
            let k0 = d.nodes[self.id.0].kind;
            lemma_with_kind(d, self.id.0, KindView::Fill, k2@);
            lemma_with_kind(d, self.id.0, k2@, with_rotation(k2@, self.old));
            assert(with_rotation(with_rotation(k0, self.new), self.old) == with_rotation(k0, self.old));
            if rotation_of(k0) == Some(self.old) {
                assert(with_rotation(k0, self.old) == k0);
            }
        }
    }

    /// Set the old value back. Redoing right after restores the document
    /// exactly.
    pub fn revert(&mut self, doc: &mut Document)
        requires
            old(doc).wf(),
            old(self).can_revert(old(doc)@),
        ensures
            final(doc).wf(),
            *final(self) == *old(self),
            final(doc)@ == old(self).revert_view(old(doc)@),
            final(self).can_apply(final(doc)@),
            final(self).undoable(final(doc)@),
            final(self).apply_view(final(doc)@) == old(doc)@,
    {
        let ghost d = doc@;
        let k = take_kind(doc, self.id);
        let k2 = match k {
            NodeKind::Smart(mut c) => {
                c.rotation = self.old;
                NodeKind::Smart(c)
            },
            other => other,
        };
        let _ = doc.replace_kind(self.id, k2);
        proof {
            let k0 = d.nodes[self.id.0].kind;
            lemma_with_kind(d, self.id.0, KindView::Fill, k2@);
            lemma_with_kind(d, self.id.0, k2@, with_rotation(k2@, self.new));
            assert(with_rotation(with_rotation(k0, self.old), self.new) == with_rotation(k0, self.new));
            if rotation_of(k0) == Some(self.new) {
                assert(with_rotation(k0, self.new) == k0);
            }
        }
    }
}

/// Edit an adjustment layer's parameters; successive edits of one layer merge into one history entry.
#[derive(Debug)]
pub struct SetAdjustment {
    pub id: NodeId,
    pub old: Adjustment,
    pub new: Adjustment,
}

impl SetAdjustment {
    /// Build the command, capturing the node's current value.
    pub fn new(doc: &Document, id: NodeId, new: Adjustment) -> (r: SetAdjustment)
        requires
            doc@.nodes.contains_key(id.0),
            adjustment_of(doc@.nodes[id.0].kind) is Some,
        ensures
            r.id == id,
            r.new == new,
            Some(r.old) == adjustment_of(doc@.nodes[id.0].kind),
    {
        let old = match doc.node(id) {
            Some(n) => match &n.kind {
                NodeKind::Adjustment(a) => *a,
                _ => {
                    assert(false);
                    new
                },
            },
            None => {
                assert(false);
                new
            },
        };
        SetAdjustment { id, old, new }
    }

    /// "Edit Adjustment".
    pub fn label(&self) -> (r: String)
        ensures
            r@ == "Edit Adjustment"@,
    {
        String::from_str("Edit Adjustment")
    }

    /// The node is present.
    pub open spec fn can_apply(&self, d: DocView) -> bool {
        d.nodes.contains_key(self.id.0)
    }

    /// The document after apply.
    pub open spec fn apply_view(&self, d: DocView) -> DocView {
        if adjustment_of(d.nodes[self.id.0].kind) is Some {
            with_kind(d, self.id.0, with_adjustment(d.nodes[self.id.0].kind, self.new))
        } else {
            d
        }
    }

    /// Undo restores the document exactly when the node still holds the
    /// captured old value.
    pub open spec fn undoable(&self, d: DocView) -> bool {
        adjustment_of(d.nodes[self.id.0].kind) is Some ==> adjustment_of(d.nodes[self.id.0].kind) == Some(self.old)
    }

    /// The node is present and holds the new value.
    pub open spec fn can_revert(&self, d: DocView) -> bool {
        d.nodes.contains_key(self.id.0) && (adjustment_of(d.nodes[self.id.0].kind) is Some ==> adjustment_of(d.nodes[self.id.0].kind) == Some(self.new))
    }

    /// The document after revert.
    pub open spec fn revert_view(&self, d: DocView) -> DocView {
        if adjustment_of(d.nodes[self.id.0].kind) is Some {
            with_kind(d, self.id.0, with_adjustment(d.nodes[self.id.0].kind, self.old))
        } else {
            d
        }
    }

    /// Set the new value. Undoing right after restores the document exactly
    /// when the node held the old value.
    pub fn apply(&mut self, doc: &mut Document)
        requires
            old(doc).wf(),
            old(self).can_apply(old(doc)@),
        ensures
            final(doc).wf(),
            *final(self) == *old(self),
            final(doc)@ == old(self).apply_view(old(doc)@),
            old(self).undoable(old(doc)@) ==> final(self).can_revert(final(doc)@) && final(self).revert_view(final(doc)@)
                == old(doc)@,
    {
        let ghost d = doc@;
        let k = take_kind(doc, self.id);
        let k2 = match k {
            NodeKind::Adjustment(_) => NodeKind::Adjustment(self.new),
            other => other,
        };
        let _ = doc.replace_kind(self.id, k2);
        proof {
            let k0 = d.nodes[self.id.0].kind;
            lemma_with_kind(d, self.id.0, KindView::Fill, k2@);
            lemma_with_kind(d, self.id.0, k2@, with_adjustment(k2@, self.old));
            assert(with_adjustment(with_adjustment(k0, self.new), self.old) == with_adjustment(k0, self.old));
            if adjustment_of(k0) == Some(self.old) {
                assert(with_adjustment(k0, self.old) == k0);
            }
        }
    }

    /// Set the old value back. Redoing right after restores the document
    /// exactly.
    pub fn revert(&mut self, doc: &mut Document)
        requires
            old(doc).wf(),
            old(self).can_revert(old(doc)@),
        ensures
            final(doc).wf(),
            *final(self) == *old(self),
            final(doc)@ == old(self).revert_view(old(doc)@),
            final(self).can_apply(final(doc)@),
            final(self).undoable(final(doc)@),
            final(self).apply_view(final(doc)@) == old(doc)@,
    {
        let ghost d = doc@;
        let k = take_kind(doc, self.id);
        let k2 = match k {
            NodeKind::Adjustment(_) => NodeKind::Adjustment(self.old),
            other => other,
        };
        let _ = doc.replace_kind(self.id, k2);
        proof {
            let k0 = d.nodes[self.id.0].kind;
            lemma_with_kind(d, self.id.0, KindView::Fill, k2@);
            lemma_with_kind(d, self.id.0, k2@, with_adjustment(k2@, self.new));
            assert(with_adjustment(with_adjustment(k0, self.old), self.new) == with_adjustment(k0, self.new));
            if adjustment_of(k0) == Some(self.new) {
                assert(with_adjustment(k0, self.new) == k0);
            }
        }
    }

    /// Absorb `next` when it edits the same node: keep the old value, take
    /// `next`'s new one.
    pub fn try_merge(&mut self, next: &SetAdjustment) -> (r: bool)
        ensures
            r == (next.id == old(self).id),
            r ==> final(self).id == old(self).id && final(self).old == old(self).old && final(self).new
                == next.new,
            !r ==> *final(self) == *old(self),
            r ==> forall|d: DocView| old(self).can_revert(d) && next.can_apply(d) ==> final(self).can_revert(next.apply_view(d))
                && final(self).revert_view(next.apply_view(d)) == old(self).revert_view(d),
    {
        if next.id == self.id {
            self.new = next.new;
            proof {
                assert forall|d: DocView| old(self).can_revert(d) && next.can_apply(d) implies self.can_revert(next.apply_view(d))
                    && self.revert_view(next.apply_view(d)) == old(self).revert_view(d) by {
                    let k = d.nodes[self.id.0].kind;
                    let nn = next.new;
                    if adjustment_of(k) is Some {
                        lemma_with_kind(d, self.id.0, with_adjustment(k, nn), with_adjustment(with_adjustment(k, nn), self.old));
                        assert(with_adjustment(with_adjustment(k, nn), self.old) == with_adjustment(k, self.old));
                    }
                }
            }
            true
        } else {
            false
        }
    }
}

/// Set or clear a raster layer's mask; a node that is absent or not raster is left alone.
#[derive(Debug)]
pub struct SetLayerMask {
    pub id: NodeId,
    pub old: Option<Mask>,
    pub new: Option<Mask>,
}

impl SetLayerMask {
    /// Build the command, capturing the node's current value.
    pub fn new(doc: &Document, id: NodeId, new: Option<Mask>) -> (r: SetLayerMask)
        requires
            doc@.nodes.contains_key(id.0),
        ensures
            r.id == id,
            r.new == new,
            mask_of(doc@.nodes[id.0].kind) matches Some(m) ==> mask_view(r.old) == m,
            mask_of(doc@.nodes[id.0].kind) is None ==> r.old is None,
    {
        let old = match doc.node(id) {
            Some(n) => match &n.kind {
                NodeKind::Raster(c) => dup_mask(&c.mask),
                _ => None,
            },
            None => {
                assert(false);
                None
            },
        };
        SetLayerMask { id, old, new }
    }

    /// "Layer Mask".
    pub fn label(&self) -> (r: String)
        ensures
            r@ == "Layer Mask"@,
    {
        String::from_str("Layer Mask")
    }

    /// Always accepted.
    pub open spec fn can_apply(&self, d: DocView) -> bool {
        true
    }

    /// The document after apply.
    pub open spec fn apply_view(&self, d: DocView) -> DocView {
        if d.nodes.contains_key(self.id.0) && mask_of(d.nodes[self.id.0].kind) is Some {
            with_kind(d, self.id.0, with_mask(d.nodes[self.id.0].kind, mask_view(self.new)))
        } else {
            d
        }
    }

    /// Undo restores the document exactly when the node still holds the
    /// captured old value.
    pub open spec fn undoable(&self, d: DocView) -> bool {
        d.nodes.contains_key(self.id.0) ==> (mask_of(d.nodes[self.id.0].kind) is Some ==> mask_of(d.nodes[self.id.0].kind) == Some(mask_view(self.old)))
    }

    /// The node is present and holds the new value.
    pub open spec fn can_revert(&self, d: DocView) -> bool {
        d.nodes.contains_key(self.id.0) ==> (mask_of(d.nodes[self.id.0].kind) is Some ==> mask_of(d.nodes[self.id.0].kind) == Some(mask_view(self.new)))
    }

    /// The document after revert.
    pub open spec fn revert_view(&self, d: DocView) -> DocView {
        if d.nodes.contains_key(self.id.0) && mask_of(d.nodes[self.id.0].kind) is Some {
            with_kind(d, self.id.0, with_mask(d.nodes[self.id.0].kind, mask_view(self.old)))
        } else {
            d
        }
    }

    /// Set the new value. Undoing right after restores the document exactly
    /// when the node held the old value.
    pub fn apply(&mut self, doc: &mut Document)
        requires
            old(doc).wf(),
            old(self).can_apply(old(doc)@),
        ensures
            final(doc).wf(),
            *final(self) == *old(self),
            final(doc)@ == old(self).apply_view(old(doc)@),
            old(self).undoable(old(doc)@) ==> final(self).can_revert(final(doc)@) && final(self).revert_view(final(doc)@)
                == old(doc)@,
    {
        let ghost d = doc@;
        if doc.node(self.id).is_none() {
            return;
        }
        let k = take_kind(doc, self.id);
        let k2 = match k {
            NodeKind::Raster(mut c) => {
                c.mask = dup_mask(&self.new);
                NodeKind::Raster(c)
            },
            other => other,
        };
        let _ = doc.replace_kind(self.id, k2);
        proof {
            let k0 = d.nodes[self.id.0].kind;
            lemma_with_kind(d, self.id.0, KindView::Fill, k2@);
            lemma_with_kind(d, self.id.0, k2@, with_mask(k2@, mask_view(self.old)));
            assert(with_mask(with_mask(k0, mask_view(self.new)), mask_view(self.old)) == with_mask(k0, mask_view(self.old)));
            if mask_of(k0) == Some(mask_view(self.old)) {
                assert(with_mask(k0, mask_view(self.old)) == k0);
            }
        }
    }

    /// Set the old value back. Redoing right after restores the document
    /// exactly.
    pub fn revert(&mut self, doc: &mut Document)
        requires
            old(doc).wf(),
            old(self).can_revert(old(doc)@),
        ensures
            final(doc).wf(),
            *final(self) == *old(self),
            final(doc)@ == old(self).revert_view(old(doc)@),
            final(self).can_apply(final(doc)@),
            final(self).undoable(final(doc)@),
            final(self).apply_view(final(doc)@) == old(doc)@,
    {
        let ghost d = doc@;
        if doc.node(self.id).is_none() {
            return;
        }
        let k = take_kind(doc, self.id);
        let k2 = match k {
            NodeKind::Raster(mut c) => {
                c.mask = dup_mask(&self.old);
                NodeKind::Raster(c)
            },
            other => other,
        };
        let _ = doc.replace_kind(self.id, k2);
        proof {
            let k0 = d.nodes[self.id.0].kind;
            lemma_with_kind(d, self.id.0, KindView::Fill, k2@);
            lemma_with_kind(d, self.id.0, k2@, with_mask(k2@, mask_view(self.new)));
            assert(with_mask(with_mask(k0, mask_view(self.old)), mask_view(self.new)) == with_mask(k0, mask_view(self.new)));
            if mask_of(k0) == Some(mask_view(self.new)) {
                assert(with_mask(k0, mask_view(self.new)) == k0);
            }
        }
    }
}

/// Replace a vector layer's shapes (anchor edits); successive edits of one layer merge into one history entry.
#[derive(Debug)]
pub struct SetVectorShapes {
    pub id: NodeId,
    pub old: Vec<Shape>,
    pub new: Vec<Shape>,
}

impl SetVectorShapes {
    /// Build the command, capturing the node's current value.
    pub fn new(doc: &Document, id: NodeId, new: Vec<Shape>) -> (r: SetVectorShapes)
        requires
            doc@.nodes.contains_key(id.0),
            shapes_of(doc@.nodes[id.0].kind) is Some,
        ensures
            r.id == id,
            r.new == new,
            Some(shapes_view(r.old@)) == shapes_of(doc@.nodes[id.0].kind),
    {
        let old = match doc.node(id) {
            Some(n) => match &n.kind {
                NodeKind::Vector(c) => duplicate_shapes(&c.shapes),
                _ => {
                    assert(false);
                    Vec::new()
                },
            },
            None => {
                assert(false);
                Vec::new()
            },
        };
        SetVectorShapes { id, old, new }
    }

    /// "Edit Path".
    pub fn label(&self) -> (r: String)
        ensures
            r@ == "Edit Path"@,
    {
        String::from_str("Edit Path")
    }

    /// The node is present.
    pub open spec fn can_apply(&self, d: DocView) -> bool {
        d.nodes.contains_key(self.id.0)
    }

    /// The document after apply.
    pub open spec fn apply_view(&self, d: DocView) -> DocView {
        if shapes_of(d.nodes[self.id.0].kind) is Some {
            with_kind(d, self.id.0, with_shapes(d.nodes[self.id.0].kind, shapes_view(self.new@)))
        } else {
            d
        }
    }

    /// Undo restores the document exactly when the node still holds the
    /// captured old value.
    pub open spec fn undoable(&self, d: DocView) -> bool {
        shapes_of(d.nodes[self.id.0].kind) is Some ==> shapes_of(d.nodes[self.id.0].kind) == Some(shapes_view(self.old@))
    }

    /// The node is present and holds the new value.
    pub open spec fn can_revert(&self, d: DocView) -> bool {
        d.nodes.contains_key(self.id.0) && (shapes_of(d.nodes[self.id.0].kind) is Some ==> shapes_of(d.nodes[self.id.0].kind) == Some(shapes_view(self.new@)))
    }

    /// The document after revert.
    pub open spec fn revert_view(&self, d: DocView) -> DocView {
        if shapes_of(d.nodes[self.id.0].kind) is Some {
            with_kind(d, self.id.0, with_shapes(d.nodes[self.id.0].kind, shapes_view(self.old@)))
        } else {
            d
        }
    }

    /// Set the new value. Undoing right after restores the document exactly
    /// when the node held the old value.
    pub fn apply(&mut self, doc: &mut Document)
        requires
            old(doc).wf(),
            old(self).can_apply(old(doc)@),
        ensures
            final(doc).wf(),
            *final(self) == *old(self),
            final(doc)@ == old(self).apply_view(old(doc)@),
            old(self).undoable(old(doc)@) ==> final(self).can_revert(final(doc)@) && final(self).revert_view(final(doc)@)
                == old(doc)@,
    {
        let ghost d = doc@;
        let k = take_kind(doc, self.id);
        let k2 = match k {
            NodeKind::Vector(mut c) => {
                c.shapes = duplicate_shapes(&self.new);
                NodeKind::Vector(c)
            },
            other => other,
        };
        let _ = doc.replace_kind(self.id, k2);
        proof {
            let k0 = d.nodes[self.id.0].kind;
            lemma_with_kind(d, self.id.0, KindView::Fill, k2@);
            lemma_with_kind(d, self.id.0, k2@, with_shapes(k2@, shapes_view(self.old@)));
            assert(with_shapes(with_shapes(k0, shapes_view(self.new@)), shapes_view(self.old@)) == with_shapes(k0, shapes_view(self.old@)));
            if shapes_of(k0) == Some(shapes_view(self.old@)) {
                assert(with_shapes(k0, shapes_view(self.old@)) == k0);
            }
        }
    }

    /// Set the old value back. Redoing right after restores the document
    /// exactly.
    pub fn revert(&mut self, doc: &mut Document)
        requires
            old(doc).wf(),
            old(self).can_revert(old(doc)@),
        ensures
            final(doc).wf(),
            *final(self) == *old(self),
            final(doc)@ == old(self).revert_view(old(doc)@),
            final(self).can_apply(final(doc)@),
            final(self).undoable(final(doc)@),
            final(self).apply_view(final(doc)@) == old(doc)@,
    {
        let ghost d = doc@;
        let k = take_kind(doc, self.id);
        let k2 = match k {
            NodeKind::Vector(mut c) => {
                c.shapes = duplicate_shapes(&self.old);
                NodeKind::Vector(c)
            },
            other => other,
        };
        let _ = doc.replace_kind(self.id, k2);
        proof {
            let k0 = d.nodes[self.id.0].kind;
            lemma_with_kind(d, self.id.0, KindView::Fill, k2@);
            lemma_with_kind(d, self.id.0, k2@, with_shapes(k2@, shapes_view(self.new@)));
            assert(with_shapes(with_shapes(k0, shapes_view(self.old@)), shapes_view(self.new@)) == with_shapes(k0, shapes_view(self.new@)));
            if shapes_of(k0) == Some(shapes_view(self.new@)) {
                assert(with_shapes(k0, shapes_view(self.new@)) == k0);
            }
        }
    }

    /// Absorb `next` when it edits the same node: keep the old value, take
    /// `next`'s new one.
    pub fn try_merge(&mut self, next: &SetVectorShapes) -> (r: bool)
        ensures
            r == (next.id == old(self).id),
            r ==> final(self).id == old(self).id && final(self).old == old(self).old && shapes_view(final(self).new@)
                == shapes_view(next.new@),
            !r ==> *final(self) == *old(self),
            r ==> forall|d: DocView| old(self).can_revert(d) && next.can_apply(d) ==> final(self).can_revert(next.apply_view(d))
                && final(self).revert_view(next.apply_view(d)) == old(self).revert_view(d),
    {
        if next.id == self.id {
            self.new = duplicate_shapes(&next.new);
            proof {
                assert forall|d: DocView| old(self).can_revert(d) && next.can_apply(d) implies self.can_revert(next.apply_view(d))
                    && self.revert_view(next.apply_view(d)) == old(self).revert_view(d) by {
                    let k = d.nodes[self.id.0].kind;
                    let nn = shapes_view(next.new@);
                    if shapes_of(k) is Some {
                        lemma_with_kind(d, self.id.0, with_shapes(k, nn), with_shapes(with_shapes(k, nn), shapes_view(self.old@)));
                        assert(with_shapes(with_shapes(k, nn), shapes_view(self.old@)) == with_shapes(k, shapes_view(self.old@)));
                    }
                }
            }
            true
        } else {
            false
        }
    }
}

} // verus!
