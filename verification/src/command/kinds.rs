//! The command type that histories hold: one variant per kind of edit.

use vstd::prelude::*;
use crate::command::bake::{ApplyLayerMask};
use crate::command::batch::{Batch};
use crate::command::canvas::{SetSelection, CanvasResize, ResizeImage, CropCanvas};
use crate::command::content::{SetOffset, SetSmartScale, SetSmartRotation, SetAdjustment, SetLayerMask, SetVectorShapes};
use crate::command::group::{GroupNodes, UngroupNode};
use crate::command::insert::{InsertSubtree};
use crate::command::layer::{ReplaceLayerTiles, ReplaceNodeKind, PaintTiles};
use crate::command::merge::{FlattenDocument, MergeVisible};
use crate::command::props::{SetName, SetVisible, SetOpacity, SetBlend, SetClip};
use crate::command::tree::{AddNode, RemoveNode, MoveNode};
use crate::document::{DocView, Document};

verus! {

/// An undoable edit.
#[derive(Debug)]
pub enum Command {
    AddNode(AddNode),
    RemoveNode(RemoveNode),
    MoveNode(MoveNode),
    SetName(SetName),
    SetVisible(SetVisible),
    SetOpacity(SetOpacity),
    SetBlend(SetBlend),
    SetClip(SetClip),
    SetOffset(SetOffset),
    SetSmartScale(SetSmartScale),
    SetSmartRotation(SetSmartRotation),
    SetAdjustment(SetAdjustment),
    SetLayerMask(SetLayerMask),
    SetVectorShapes(SetVectorShapes),
    ReplaceLayerTiles(ReplaceLayerTiles),
    ReplaceNodeKind(ReplaceNodeKind),
    SetSelection(SetSelection),
    CanvasResize(CanvasResize),
    ResizeImage(ResizeImage),
    CropCanvas(CropCanvas),
    PaintTiles(PaintTiles),
    GroupNodes(GroupNodes),
    UngroupNode(UngroupNode),
    ApplyLayerMask(ApplyLayerMask),
    FlattenDocument(FlattenDocument),
    MergeVisible(MergeVisible),
    Batch(Batch),
    InsertSubtree(InsertSubtree),
}

impl Command {
    /// Apply is accepted on `d`.
    #[verifier::opaque]
    pub open spec fn can_apply(&self, d: DocView) -> bool
        decreases self,
    {
        match self {
            Command::AddNode(c) => c.can_apply(d),
            Command::RemoveNode(c) => c.can_apply(d),
            Command::MoveNode(c) => c.can_apply(d),
            Command::SetName(c) => c.can_apply(d),
            Command::SetVisible(c) => c.can_apply(d),
            Command::SetOpacity(c) => c.can_apply(d),
            Command::SetBlend(c) => c.can_apply(d),
            Command::SetClip(c) => c.can_apply(d),
            Command::SetOffset(c) => c.can_apply(d),
            Command::SetSmartScale(c) => c.can_apply(d),
            Command::SetSmartRotation(c) => c.can_apply(d),
            Command::SetAdjustment(c) => c.can_apply(d),
            Command::SetLayerMask(c) => c.can_apply(d),
            Command::SetVectorShapes(c) => c.can_apply(d),
            Command::ReplaceLayerTiles(c) => c.can_apply(d),
            Command::ReplaceNodeKind(c) => c.can_apply(d),
            Command::SetSelection(c) => c.can_apply(d),
            Command::CanvasResize(c) => c.can_apply(d),
            Command::ResizeImage(c) => c.can_apply(d),
            Command::CropCanvas(c) => c.can_apply(d),
            Command::PaintTiles(c) => c.can_apply(d),
            Command::GroupNodes(c) => c.can_apply(d),
            Command::UngroupNode(c) => c.can_apply(d),
            Command::ApplyLayerMask(c) => c.can_apply(d),
            Command::FlattenDocument(c) => c.can_apply(d),
            Command::MergeVisible(c) => c.can_apply(d),
            Command::Batch(c) => c.can_apply(d),
            Command::InsertSubtree(c) => c.can_apply(d),
        }
    }

    /// The document after apply.
    #[verifier::opaque]
    pub open spec fn apply_view(&self, d: DocView) -> DocView
        decreases self,
    {
        match self {
            Command::AddNode(c) => c.apply_view(d),
            Command::RemoveNode(c) => c.apply_view(d),
            Command::MoveNode(c) => c.apply_view(d),
            Command::SetName(c) => c.apply_view(d),
            Command::SetVisible(c) => c.apply_view(d),
            Command::SetOpacity(c) => c.apply_view(d),
            Command::SetBlend(c) => c.apply_view(d),
            Command::SetClip(c) => c.apply_view(d),
            Command::SetOffset(c) => c.apply_view(d),
            Command::SetSmartScale(c) => c.apply_view(d),
            Command::SetSmartRotation(c) => c.apply_view(d),
            Command::SetAdjustment(c) => c.apply_view(d),
            Command::SetLayerMask(c) => c.apply_view(d),
            Command::SetVectorShapes(c) => c.apply_view(d),
            Command::ReplaceLayerTiles(c) => c.apply_view(d),
            Command::ReplaceNodeKind(c) => c.apply_view(d),
            Command::SetSelection(c) => c.apply_view(d),
            Command::CanvasResize(c) => c.apply_view(d),
            Command::ResizeImage(c) => c.apply_view(d),
            Command::CropCanvas(c) => c.apply_view(d),
            Command::PaintTiles(c) => c.apply_view(d),
            Command::GroupNodes(c) => c.apply_view(d),
            Command::UngroupNode(c) => c.apply_view(d),
            Command::ApplyLayerMask(c) => c.apply_view(d),
            Command::FlattenDocument(c) => c.apply_view(d),
            Command::MergeVisible(c) => c.apply_view(d),
            Command::Batch(c) => c.apply_view(d),
            Command::InsertSubtree(c) => c.apply_view(d),
        }
    }

    /// Undo right after apply would restore `d` exactly.
    #[verifier::opaque]
    pub open spec fn undoable(&self, d: DocView) -> bool
        decreases self,
    {
        match self {
            Command::AddNode(c) => c.undoable(d),
            Command::RemoveNode(c) => c.undoable(d),
            Command::MoveNode(c) => c.undoable(d),
            Command::SetName(c) => c.undoable(d),
            Command::SetVisible(c) => c.undoable(d),
            Command::SetOpacity(c) => c.undoable(d),
            Command::SetBlend(c) => c.undoable(d),
            Command::SetClip(c) => c.undoable(d),
            Command::SetOffset(c) => c.undoable(d),
            Command::SetSmartScale(c) => c.undoable(d),
            Command::SetSmartRotation(c) => c.undoable(d),
            Command::SetAdjustment(c) => c.undoable(d),
            Command::SetLayerMask(c) => c.undoable(d),
            Command::SetVectorShapes(c) => c.undoable(d),
            Command::ReplaceLayerTiles(c) => c.undoable(d),
            Command::ReplaceNodeKind(c) => c.undoable(d),
            Command::SetSelection(c) => c.undoable(d),
            Command::CanvasResize(c) => c.undoable(d),
            Command::ResizeImage(c) => c.undoable(d),
            Command::CropCanvas(c) => c.undoable(d),
            Command::PaintTiles(c) => c.undoable(d),
            Command::GroupNodes(c) => c.undoable(d),
            Command::UngroupNode(c) => c.undoable(d),
            Command::ApplyLayerMask(c) => c.undoable(d),
            Command::FlattenDocument(c) => c.undoable(d),
            Command::MergeVisible(c) => c.undoable(d),
            Command::Batch(c) => c.undoable(d),
            Command::InsertSubtree(c) => c.undoable(d),
        }
    }

    /// Revert is accepted on `d`, and redo right after would give `d` back.
    #[verifier::opaque]
    pub open spec fn can_revert(&self, d: DocView) -> bool
        decreases self,
    {
        match self {
            Command::AddNode(c) => c.can_revert(d),
            Command::RemoveNode(c) => c.can_revert(d),
            Command::MoveNode(c) => c.can_revert(d),
            Command::SetName(c) => c.can_revert(d),
            Command::SetVisible(c) => c.can_revert(d),
            Command::SetOpacity(c) => c.can_revert(d),
            Command::SetBlend(c) => c.can_revert(d),
            Command::SetClip(c) => c.can_revert(d),
            Command::SetOffset(c) => c.can_revert(d),
            Command::SetSmartScale(c) => c.can_revert(d),
            Command::SetSmartRotation(c) => c.can_revert(d),
            Command::SetAdjustment(c) => c.can_revert(d),
            Command::SetLayerMask(c) => c.can_revert(d),
            Command::SetVectorShapes(c) => c.can_revert(d),
            Command::ReplaceLayerTiles(c) => c.can_revert(d),
            Command::ReplaceNodeKind(c) => c.can_revert(d),
            Command::SetSelection(c) => c.can_revert(d),
            Command::CanvasResize(c) => c.can_revert(d),
            Command::ResizeImage(c) => c.can_revert(d),
            Command::CropCanvas(c) => c.can_revert(d),
            Command::PaintTiles(c) => c.can_revert(d),
            Command::GroupNodes(c) => c.can_revert(d),
            Command::UngroupNode(c) => c.can_revert(d),
            Command::ApplyLayerMask(c) => c.can_revert(d),
            Command::FlattenDocument(c) => c.can_revert(d),
            Command::MergeVisible(c) => c.can_revert(d),
            Command::Batch(c) => c.can_revert(d),
            Command::InsertSubtree(c) => c.can_revert(d),
        }
    }

    /// The document after revert.
    #[verifier::opaque]
    pub open spec fn revert_view(&self, d: DocView) -> DocView
        decreases self,
    {
        match self {
            Command::AddNode(c) => c.revert_view(d),
            Command::RemoveNode(c) => c.revert_view(d),
            Command::MoveNode(c) => c.revert_view(d),
            Command::SetName(c) => c.revert_view(d),
            Command::SetVisible(c) => c.revert_view(d),
            Command::SetOpacity(c) => c.revert_view(d),
            Command::SetBlend(c) => c.revert_view(d),
            Command::SetClip(c) => c.revert_view(d),
            Command::SetOffset(c) => c.revert_view(d),
            Command::SetSmartScale(c) => c.revert_view(d),
            Command::SetSmartRotation(c) => c.revert_view(d),
            Command::SetAdjustment(c) => c.revert_view(d),
            Command::SetLayerMask(c) => c.revert_view(d),
            Command::SetVectorShapes(c) => c.revert_view(d),
            Command::ReplaceLayerTiles(c) => c.revert_view(d),
            Command::ReplaceNodeKind(c) => c.revert_view(d),
            Command::SetSelection(c) => c.revert_view(d),
            Command::CanvasResize(c) => c.revert_view(d),
            Command::ResizeImage(c) => c.revert_view(d),
            Command::CropCanvas(c) => c.revert_view(d),
            Command::PaintTiles(c) => c.revert_view(d),
            Command::GroupNodes(c) => c.revert_view(d),
            Command::UngroupNode(c) => c.revert_view(d),
            Command::ApplyLayerMask(c) => c.revert_view(d),
            Command::FlattenDocument(c) => c.revert_view(d),
            Command::MergeVisible(c) => c.revert_view(d),
            Command::Batch(c) => c.revert_view(d),
            Command::InsertSubtree(c) => c.revert_view(d),
        }
    }

    /// Variants whose apply and revert leave the command itself unchanged.
    #[verifier::opaque]
    pub open spec fn keeps_state(&self) -> bool {
        self is SetName || self is SetVisible || self is SetOpacity || self is SetBlend || self is SetClip || self is SetOffset || self is SetSmartScale || self is SetSmartRotation || self is SetAdjustment || self is SetLayerMask || self is SetVectorShapes || self is ReplaceLayerTiles || self is SetSelection || self is CanvasResize || self is ResizeImage || self is CropCanvas || self is PaintTiles || self is InsertSubtree
    }

    /// `next` continues this edit: same kind and target, of a kind that merges.
    #[verifier::opaque]
    pub open spec fn merges_with(&self, next: &Command) -> bool {
        match (*self, *next) {
            (Command::SetOpacity(a), Command::SetOpacity(b)) => a.id == b.id,
            (Command::SetOffset(a), Command::SetOffset(b)) => a.id == b.id,
            (Command::SetAdjustment(a), Command::SetAdjustment(b)) => a.id == b.id,
            (Command::SetVectorShapes(a), Command::SetVectorShapes(b)) => a.id == b.id,
            _ => false,
        }
    }

    /// Only a property edit (opacity, offset, adjustment, path) merges into the
    /// one before it.
    pub proof fn lemma_merges_only_edits(a: Command, b: Command)
        ensures
            a.merges_with(&b) ==> (b is SetOpacity || b is SetOffset || b is SetAdjustment || b is SetVectorShapes),
    {
        reveal(Command::merges_with);
    }

    /// A path edit of layer `id` merges into the command before it exactly
    /// when that one is a path edit of the same layer.
    pub proof fn lemma_merges_path_edit(a: Command, b: SetVectorShapes)
        ensures
            a.merges_with(&Command::SetVectorShapes(b)) <==> (a matches Command::SetVectorShapes(x) && x.id
                == b.id),
    {
        reveal(Command::merges_with);
    }

    /// The label `label` gives.
    pub open spec fn label_spec(&self) -> Seq<char> {
        match self {
            Command::AddNode(c) => c.label@,
            Command::RemoveNode(c) => c.label@,
            Command::MoveNode(c) => c.label@,
            Command::SetName(_) => "Rename Layer"@,
            Command::SetVisible(_) => "Toggle Visibility"@,
            Command::SetOpacity(_) => "Layer Opacity"@,
            Command::SetBlend(_) => "Blend Mode"@,
            Command::SetClip(_) => "Clipping Mask"@,
            Command::SetOffset(_) => "Move Layer"@,
            Command::SetSmartScale(_) => "Scale Smart Object"@,
            Command::SetSmartRotation(_) => "Rotate Smart Object"@,
            Command::SetAdjustment(_) => "Edit Adjustment"@,
            Command::SetLayerMask(_) => "Layer Mask"@,
            Command::SetVectorShapes(_) => "Edit Path"@,
            Command::ReplaceLayerTiles(c) => c.label@,
            Command::ReplaceNodeKind(c) => c.label@,
            Command::SetSelection(c) => c.label@,
            Command::CanvasResize(_) => "Canvas Size"@,
            Command::ResizeImage(_) => "Image Size"@,
            Command::CropCanvas(_) => "Crop"@,
            Command::PaintTiles(c) => c.label@,
            Command::GroupNodes(c) => c.label@,
            Command::UngroupNode(c) => c.label@,
            Command::ApplyLayerMask(_) => "Apply Layer Mask"@,
            Command::FlattenDocument(c) => c.label@,
            Command::MergeVisible(c) => c.label@,
            Command::Batch(c) => c.label@,
            Command::InsertSubtree(c) => c.label@,
        }
    }

    /// Short label for the history list.
    pub fn label(&self) -> (r: String)
        ensures
            r@ == self.label_spec(),
    {
        match self {
            Command::AddNode(c) => c.label(),
            Command::RemoveNode(c) => c.label(),
            Command::MoveNode(c) => c.label(),
            Command::SetName(c) => c.label(),
            Command::SetVisible(c) => c.label(),
            Command::SetOpacity(c) => c.label(),
            Command::SetBlend(c) => c.label(),
            Command::SetClip(c) => c.label(),
            Command::SetOffset(c) => c.label(),
            Command::SetSmartScale(c) => c.label(),
            Command::SetSmartRotation(c) => c.label(),
            Command::SetAdjustment(c) => c.label(),
            Command::SetLayerMask(c) => c.label(),
            Command::SetVectorShapes(c) => c.label(),
            Command::ReplaceLayerTiles(c) => c.label(),
            Command::ReplaceNodeKind(c) => c.label(),
            Command::SetSelection(c) => c.label(),
            Command::CanvasResize(c) => c.label(),
            Command::ResizeImage(c) => c.label(),
            Command::CropCanvas(c) => c.label(),
            Command::PaintTiles(c) => c.label(),
            Command::GroupNodes(c) => c.label(),
            Command::UngroupNode(c) => c.label(),
            Command::ApplyLayerMask(c) => c.label(),
            Command::FlattenDocument(c) => c.label(),
            Command::MergeVisible(c) => c.label(),
            Command::Batch(c) => c.label(),
            Command::InsertSubtree(c) => c.label(),
        }
    }

    /// Apply the edit. Undoing right after restores the document exactly
    /// when the command is undoable on it.
    #[verifier::rlimit(60)]
    #[verifier::spinoff_prover]
    pub fn apply(&mut self, doc: &mut Document)
        requires
            old(doc).wf(),
            old(self).can_apply(old(doc)@),
        ensures
            final(self).label_spec() == old(self).label_spec(),
            final(doc).wf(),
            final(doc)@ == old(self).apply_view(old(doc)@),
            old(self).undoable(old(doc)@) ==> final(self).can_revert(final(doc)@) && final(self).revert_view(final(doc)@)
                == old(doc)@,
            old(self).keeps_state() ==> *final(self) == *old(self),
            final(self).keeps_state() == old(self).keeps_state(),
        decreases *old(self),
    {
        match self {
            Command::AddNode(c) => {
                proof {
                    Command::lemma_add_node(*c);
                }
                c.apply(doc);
                proof {
                    Command::lemma_add_node(*c);
                }
            },
            Command::RemoveNode(c) => {
                proof {
                    Command::lemma_remove_node(*c);
                }
                c.apply(doc);
                proof {
                    Command::lemma_remove_node(*c);
                }
            },
            Command::MoveNode(c) => {
                proof {
                    Command::lemma_move_node(*c);
                }
                c.apply(doc);
                proof {
                    Command::lemma_move_node(*c);
                }
            },
            Command::SetName(c) => {
                proof {
                    Command::lemma_set_name(*c);
                }
                c.apply(doc);
                proof {
                    Command::lemma_set_name(*c);
                }
            },
            Command::SetVisible(c) => {
                proof {
                    Command::lemma_set_visible(*c);
                }
                c.apply(doc);
                proof {
                    Command::lemma_set_visible(*c);
                }
            },
            Command::SetOpacity(c) => {
                proof {
                    Command::lemma_set_opacity(*c);
                }
                c.apply(doc);
                proof {
                    Command::lemma_set_opacity(*c);
                }
            },
            Command::SetBlend(c) => {
                proof {
                    Command::lemma_set_blend(*c);
                }
                c.apply(doc);
                proof {
                    Command::lemma_set_blend(*c);
                }
            },
            Command::SetClip(c) => {
                proof {
                    Command::lemma_set_clip(*c);
                }
                c.apply(doc);
                proof {
                    Command::lemma_set_clip(*c);
                }
            },
            Command::SetOffset(c) => {
                proof {
                    Command::lemma_set_offset(*c);
                }
                c.apply(doc);
                proof {
                    Command::lemma_set_offset(*c);
                }
            },
            Command::SetSmartScale(c) => {
                proof {
                    Command::lemma_set_smart_scale(*c);
                }
                c.apply(doc);
                proof {
                    Command::lemma_set_smart_scale(*c);
                }
            },
            Command::SetSmartRotation(c) => {
                proof {
                    Command::lemma_set_smart_rotation(*c);
                }
                c.apply(doc);
                proof {
                    Command::lemma_set_smart_rotation(*c);
                }
            },
            Command::SetAdjustment(c) => {
                proof {
                    Command::lemma_set_adjustment(*c);
                }
                c.apply(doc);
                proof {
                    Command::lemma_set_adjustment(*c);
                }
            },
            Command::SetLayerMask(c) => {
                proof {
                    Command::lemma_set_layer_mask(*c);
                }
                c.apply(doc);
                proof {
                    Command::lemma_set_layer_mask(*c);
                }
            },
            Command::SetVectorShapes(c) => {
                proof {
                    Command::lemma_set_vector_shapes(*c);
                }
                c.apply(doc);
                proof {
                    Command::lemma_set_vector_shapes(*c);
                }
            },
            Command::ReplaceLayerTiles(c) => {
                proof {
                    Command::lemma_replace_layer_tiles(*c);
                }
                c.apply(doc);
                proof {
                    Command::lemma_replace_layer_tiles(*c);
                }
            },
            Command::ReplaceNodeKind(c) => {
                proof {
                    Command::lemma_replace_node_kind(*c);
                }
                c.apply(doc);
                proof {
                    Command::lemma_replace_node_kind(*c);
                }
            },
            Command::SetSelection(c) => {
                proof {
                    Command::lemma_set_selection(*c);
                }
                c.apply(doc);
                proof {
                    Command::lemma_set_selection(*c);
                }
            },
            Command::CanvasResize(c) => {
                proof {
                    Command::lemma_canvas_resize(*c);
                }
                c.apply(doc);
                proof {
                    Command::lemma_canvas_resize(*c);
                }
            },
            Command::ResizeImage(c) => {
                proof {
                    Command::lemma_resize_image(*c);
                }
                c.apply(doc);
                proof {
                    Command::lemma_resize_image(*c);
                }
            },
            Command::CropCanvas(c) => {
                proof {
                    Command::lemma_crop_canvas(*c);
                }
                c.apply(doc);
                proof {
                    Command::lemma_crop_canvas(*c);
                }
            },
            Command::PaintTiles(c) => {
                proof {
                    Command::lemma_paint_tiles(*c);
                }
                c.apply(doc);
                proof {
                    Command::lemma_paint_tiles(*c);
                }
            },
            Command::GroupNodes(c) => {
                proof {
                    Command::lemma_group_nodes(*c);
                }
                c.apply(doc);
                proof {
                    Command::lemma_group_nodes(*c);
                }
            },
            Command::UngroupNode(c) => {
                proof {
                    Command::lemma_ungroup_node(*c);
                }
                c.apply(doc);
                proof {
                    Command::lemma_ungroup_node(*c);
                }
            },
            Command::ApplyLayerMask(c) => {
                proof {
                    Command::lemma_apply_layer_mask(*c);
                }
                c.apply(doc);
                proof {
                    Command::lemma_apply_layer_mask(*c);
                }
            },
            Command::FlattenDocument(c) => {
                proof {
                    Command::lemma_flatten_document(*c);
                }
                c.apply(doc);
                proof {
                    Command::lemma_flatten_document(*c);
                }
            },
            Command::MergeVisible(c) => {
                proof {
                    Command::lemma_merge_visible(*c);
                }
                c.apply(doc);
                proof {
                    Command::lemma_merge_visible(*c);
                }
            },
            Command::Batch(c) => {
                proof {
                    Command::lemma_batch(*c);
                }
                c.apply(doc);
                proof {
                    Command::lemma_batch(*c);
                }
            },
            Command::InsertSubtree(c) => {
                proof {
                    Command::lemma_insert_subtree(*c);
                }
                c.apply(doc);
                proof {
                    Command::lemma_insert_subtree(*c);
                }
            },
        }
    }

    /// Revert the edit. Redoing right after restores the document exactly.
    #[verifier::rlimit(60)]
    #[verifier::spinoff_prover]
    pub fn revert(&mut self, doc: &mut Document)
        requires
            old(doc).wf(),
            old(self).can_revert(old(doc)@),
        ensures
            final(self).label_spec() == old(self).label_spec(),
            final(doc).wf(),
            final(doc)@ == old(self).revert_view(old(doc)@),
            final(self).can_apply(final(doc)@),
            final(self).undoable(final(doc)@),
            final(self).apply_view(final(doc)@) == old(doc)@,
        decreases *old(self),
    {
        match self {
            Command::AddNode(c) => {
                proof {
                    Command::lemma_add_node(*c);
                }
                c.revert(doc);
                proof {
                    Command::lemma_add_node(*c);
                }
            },
            Command::RemoveNode(c) => {
                proof {
                    Command::lemma_remove_node(*c);
                }
                c.revert(doc);
                proof {
                    Command::lemma_remove_node(*c);
                }
            },
            Command::MoveNode(c) => {
                proof {
                    Command::lemma_move_node(*c);
                }
                c.revert(doc);
                proof {
                    Command::lemma_move_node(*c);
                }
            },
            Command::SetName(c) => {
                proof {
                    Command::lemma_set_name(*c);
                }
                c.revert(doc);
                proof {
                    Command::lemma_set_name(*c);
                }
            },
            Command::SetVisible(c) => {
                proof {
                    Command::lemma_set_visible(*c);
                }
                c.revert(doc);
                proof {
                    Command::lemma_set_visible(*c);
                }
            },
            Command::SetOpacity(c) => {
                proof {
                    Command::lemma_set_opacity(*c);
                }
                c.revert(doc);
                proof {
                    Command::lemma_set_opacity(*c);
                }
            },
            Command::SetBlend(c) => {
                proof {
                    Command::lemma_set_blend(*c);
                }
                c.revert(doc);
                proof {
                    Command::lemma_set_blend(*c);
                }
            },
            Command::SetClip(c) => {
                proof {
                    Command::lemma_set_clip(*c);
                }
                c.revert(doc);
                proof {
                    Command::lemma_set_clip(*c);
                }
            },
            Command::SetOffset(c) => {
                proof {
                    Command::lemma_set_offset(*c);
                }
                c.revert(doc);
                proof {
                    Command::lemma_set_offset(*c);
                }
            },
            Command::SetSmartScale(c) => {
                proof {
                    Command::lemma_set_smart_scale(*c);
                }
                c.revert(doc);
                proof {
                    Command::lemma_set_smart_scale(*c);
                }
            },
            Command::SetSmartRotation(c) => {
                proof {
                    Command::lemma_set_smart_rotation(*c);
                }
                c.revert(doc);
                proof {
                    Command::lemma_set_smart_rotation(*c);
                }
            },
            Command::SetAdjustment(c) => {
                proof {
                    Command::lemma_set_adjustment(*c);
                }
                c.revert(doc);
                proof {
                    Command::lemma_set_adjustment(*c);
                }
            },
            Command::SetLayerMask(c) => {
                proof {
                    Command::lemma_set_layer_mask(*c);
                }
                c.revert(doc);
                proof {
                    Command::lemma_set_layer_mask(*c);
                }
            },
            Command::SetVectorShapes(c) => {
                proof {
                    Command::lemma_set_vector_shapes(*c);
                }
                c.revert(doc);
                proof {
                    Command::lemma_set_vector_shapes(*c);
                }
            },
            Command::ReplaceLayerTiles(c) => {
                proof {
                    Command::lemma_replace_layer_tiles(*c);
                }
                c.revert(doc);
                proof {
                    Command::lemma_replace_layer_tiles(*c);
                }
            },
            Command::ReplaceNodeKind(c) => {
                proof {
                    Command::lemma_replace_node_kind(*c);
                }
                c.revert(doc);
                proof {
                    Command::lemma_replace_node_kind(*c);
                }
            },
            Command::SetSelection(c) => {
                proof {
                    Command::lemma_set_selection(*c);
                }
                c.revert(doc);
                proof {
                    Command::lemma_set_selection(*c);
                }
            },
            Command::CanvasResize(c) => {
                proof {
                    Command::lemma_canvas_resize(*c);
                }
                c.revert(doc);
                proof {
                    Command::lemma_canvas_resize(*c);
                }
            },
            Command::ResizeImage(c) => {
                proof {
                    Command::lemma_resize_image(*c);
                }
                c.revert(doc);
                proof {
                    Command::lemma_resize_image(*c);
                }
            },
            Command::CropCanvas(c) => {
                proof {
                    Command::lemma_crop_canvas(*c);
                }
                c.revert(doc);
                proof {
                    Command::lemma_crop_canvas(*c);
                }
            },
            Command::PaintTiles(c) => {
                proof {
                    Command::lemma_paint_tiles(*c);
                }
                c.revert(doc);
                proof {
                    Command::lemma_paint_tiles(*c);
                }
            },
            Command::GroupNodes(c) => {
                proof {
                    Command::lemma_group_nodes(*c);
                }
                c.revert(doc);
                proof {
                    Command::lemma_group_nodes(*c);
                }
            },
            Command::UngroupNode(c) => {
                proof {
                    Command::lemma_ungroup_node(*c);
                }
                c.revert(doc);
                proof {
                    Command::lemma_ungroup_node(*c);
                }
            },
            Command::ApplyLayerMask(c) => {
                proof {
                    Command::lemma_apply_layer_mask(*c);
                }
                c.revert(doc);
                proof {
                    Command::lemma_apply_layer_mask(*c);
                }
            },
            Command::FlattenDocument(c) => {
                proof {
                    Command::lemma_flatten_document(*c);
                }
                c.revert(doc);
                proof {
                    Command::lemma_flatten_document(*c);
                }
            },
            Command::MergeVisible(c) => {
                proof {
                    Command::lemma_merge_visible(*c);
                }
                c.revert(doc);
                proof {
                    Command::lemma_merge_visible(*c);
                }
            },
            Command::Batch(c) => {
                proof {
                    Command::lemma_batch(*c);
                }
                c.revert(doc);
                proof {
                    Command::lemma_batch(*c);
                }
            },
            Command::InsertSubtree(c) => {
                proof {
                    Command::lemma_insert_subtree(*c);
                }
                c.revert(doc);
                proof {
                    Command::lemma_insert_subtree(*c);
                }
            },
        }
    }

    /// Absorb `next` when it continues this edit (same kind and target, of
    /// a kind that merges); the merged command reverts, from wherever `next`
    /// led, to where this one did.
    pub fn try_merge(&mut self, next: &Command) -> (r: bool)
        ensures
            r == old(self).merges_with(next),
            !r ==> *final(self) == *old(self),
            final(self).label_spec() == old(self).label_spec(),
            r ==> forall|d: DocView| old(self).can_revert(d) && next.can_apply(d) ==> final(self).can_revert(next.apply_view(d))
                && final(self).revert_view(next.apply_view(d)) == old(self).revert_view(d),
    {
        proof {
            reveal(Command::can_apply);
            reveal(Command::apply_view);
            reveal(Command::undoable);
            reveal(Command::can_revert);
            reveal(Command::revert_view);
            reveal(Command::keeps_state);
            reveal(Command::merges_with);
        }
        match self {
            Command::SetOpacity(a) => match next {
                Command::SetOpacity(b) => a.try_merge(b),
                _ => false,
            },
            Command::SetOffset(a) => match next {
                Command::SetOffset(b) => a.try_merge(b),
                _ => false,
            },
            Command::SetAdjustment(a) => match next {
                Command::SetAdjustment(b) => a.try_merge(b),
                _ => false,
            },
            Command::SetVectorShapes(a) => match next {
                Command::SetVectorShapes(b) => a.try_merge(b),
                _ => false,
            },
            _ => false,
        }
    }
}

impl Command {
    /// The specs of a `AddNode` command are those of the command it holds.
    pub proof fn lemma_add_node(c: AddNode)
        ensures
            forall|d: DocView| #[trigger] Command::AddNode(c).can_apply(d) == c.can_apply(d),
            forall|d: DocView| #[trigger] Command::AddNode(c).apply_view(d) == c.apply_view(d),
            forall|d: DocView| #[trigger] Command::AddNode(c).undoable(d) == c.undoable(d),
            forall|d: DocView| #[trigger] Command::AddNode(c).can_revert(d) == c.can_revert(d),
            forall|d: DocView| #[trigger] Command::AddNode(c).revert_view(d) == c.revert_view(d),
            Command::AddNode(c).keeps_state() == false,
    {
        reveal(Command::can_apply);
        reveal(Command::apply_view);
        reveal(Command::undoable);
        reveal(Command::can_revert);
        reveal(Command::revert_view);
        reveal(Command::keeps_state);
    }

    /// The specs of a `RemoveNode` command are those of the command it holds.
    pub proof fn lemma_remove_node(c: RemoveNode)
        ensures
            forall|d: DocView| #[trigger] Command::RemoveNode(c).can_apply(d) == c.can_apply(d),
            forall|d: DocView| #[trigger] Command::RemoveNode(c).apply_view(d) == c.apply_view(d),
            forall|d: DocView| #[trigger] Command::RemoveNode(c).undoable(d) == c.undoable(d),
            forall|d: DocView| #[trigger] Command::RemoveNode(c).can_revert(d) == c.can_revert(d),
            forall|d: DocView| #[trigger] Command::RemoveNode(c).revert_view(d) == c.revert_view(d),
            Command::RemoveNode(c).keeps_state() == false,
    {
        reveal(Command::can_apply);
        reveal(Command::apply_view);
        reveal(Command::undoable);
        reveal(Command::can_revert);
        reveal(Command::revert_view);
        reveal(Command::keeps_state);
    }

    /// The specs of a `MoveNode` command are those of the command it holds.
    pub proof fn lemma_move_node(c: MoveNode)
        ensures
            forall|d: DocView| #[trigger] Command::MoveNode(c).can_apply(d) == c.can_apply(d),
            forall|d: DocView| #[trigger] Command::MoveNode(c).apply_view(d) == c.apply_view(d),
            forall|d: DocView| #[trigger] Command::MoveNode(c).undoable(d) == c.undoable(d),
            forall|d: DocView| #[trigger] Command::MoveNode(c).can_revert(d) == c.can_revert(d),
            forall|d: DocView| #[trigger] Command::MoveNode(c).revert_view(d) == c.revert_view(d),
            Command::MoveNode(c).keeps_state() == false,
    {
        reveal(Command::can_apply);
        reveal(Command::apply_view);
        reveal(Command::undoable);
        reveal(Command::can_revert);
        reveal(Command::revert_view);
        reveal(Command::keeps_state);
    }

    /// The specs of a `SetName` command are those of the command it holds.
    pub proof fn lemma_set_name(c: SetName)
        ensures
            forall|d: DocView| #[trigger] Command::SetName(c).can_apply(d) == c.can_apply(d),
            forall|d: DocView| #[trigger] Command::SetName(c).apply_view(d) == c.apply_view(d),
            forall|d: DocView| #[trigger] Command::SetName(c).undoable(d) == c.undoable(d),
            forall|d: DocView| #[trigger] Command::SetName(c).can_revert(d) == c.can_revert(d),
            forall|d: DocView| #[trigger] Command::SetName(c).revert_view(d) == c.revert_view(d),
            Command::SetName(c).keeps_state() == true,
    {
        reveal(Command::can_apply);
        reveal(Command::apply_view);
        reveal(Command::undoable);
        reveal(Command::can_revert);
        reveal(Command::revert_view);
        reveal(Command::keeps_state);
    }

    /// The specs of a `SetVisible` command are those of the command it holds.
    pub proof fn lemma_set_visible(c: SetVisible)
        ensures
            forall|d: DocView| #[trigger] Command::SetVisible(c).can_apply(d) == c.can_apply(d),
            forall|d: DocView| #[trigger] Command::SetVisible(c).apply_view(d) == c.apply_view(d),
            forall|d: DocView| #[trigger] Command::SetVisible(c).undoable(d) == c.undoable(d),
            forall|d: DocView| #[trigger] Command::SetVisible(c).can_revert(d) == c.can_revert(d),
            forall|d: DocView| #[trigger] Command::SetVisible(c).revert_view(d) == c.revert_view(d),
            Command::SetVisible(c).keeps_state() == true,
    {
        reveal(Command::can_apply);
        reveal(Command::apply_view);
        reveal(Command::undoable);
        reveal(Command::can_revert);
        reveal(Command::revert_view);
        reveal(Command::keeps_state);
    }

    /// The specs of a `SetOpacity` command are those of the command it holds.
    pub proof fn lemma_set_opacity(c: SetOpacity)
        ensures
            forall|d: DocView| #[trigger] Command::SetOpacity(c).can_apply(d) == c.can_apply(d),
            forall|d: DocView| #[trigger] Command::SetOpacity(c).apply_view(d) == c.apply_view(d),
            forall|d: DocView| #[trigger] Command::SetOpacity(c).undoable(d) == c.undoable(d),
            forall|d: DocView| #[trigger] Command::SetOpacity(c).can_revert(d) == c.can_revert(d),
            forall|d: DocView| #[trigger] Command::SetOpacity(c).revert_view(d) == c.revert_view(d),
            Command::SetOpacity(c).keeps_state() == true,
    {
        reveal(Command::can_apply);
        reveal(Command::apply_view);
        reveal(Command::undoable);
        reveal(Command::can_revert);
        reveal(Command::revert_view);
        reveal(Command::keeps_state);
    }

    /// The specs of a `SetBlend` command are those of the command it holds.
    pub proof fn lemma_set_blend(c: SetBlend)
        ensures
            forall|d: DocView| #[trigger] Command::SetBlend(c).can_apply(d) == c.can_apply(d),
            forall|d: DocView| #[trigger] Command::SetBlend(c).apply_view(d) == c.apply_view(d),
            forall|d: DocView| #[trigger] Command::SetBlend(c).undoable(d) == c.undoable(d),
            forall|d: DocView| #[trigger] Command::SetBlend(c).can_revert(d) == c.can_revert(d),
            forall|d: DocView| #[trigger] Command::SetBlend(c).revert_view(d) == c.revert_view(d),
            Command::SetBlend(c).keeps_state() == true,
    {
        reveal(Command::can_apply);
        reveal(Command::apply_view);
        reveal(Command::undoable);
        reveal(Command::can_revert);
        reveal(Command::revert_view);
        reveal(Command::keeps_state);
    }

    /// The specs of a `SetClip` command are those of the command it holds.
    pub proof fn lemma_set_clip(c: SetClip)
        ensures
            forall|d: DocView| #[trigger] Command::SetClip(c).can_apply(d) == c.can_apply(d),
            forall|d: DocView| #[trigger] Command::SetClip(c).apply_view(d) == c.apply_view(d),
            forall|d: DocView| #[trigger] Command::SetClip(c).undoable(d) == c.undoable(d),
            forall|d: DocView| #[trigger] Command::SetClip(c).can_revert(d) == c.can_revert(d),
            forall|d: DocView| #[trigger] Command::SetClip(c).revert_view(d) == c.revert_view(d),
            Command::SetClip(c).keeps_state() == true,
    {
        reveal(Command::can_apply);
        reveal(Command::apply_view);
        reveal(Command::undoable);
        reveal(Command::can_revert);
        reveal(Command::revert_view);
        reveal(Command::keeps_state);
    }

    /// The specs of a `SetOffset` command are those of the command it holds.
    pub proof fn lemma_set_offset(c: SetOffset)
        ensures
            forall|d: DocView| #[trigger] Command::SetOffset(c).can_apply(d) == c.can_apply(d),
            forall|d: DocView| #[trigger] Command::SetOffset(c).apply_view(d) == c.apply_view(d),
            forall|d: DocView| #[trigger] Command::SetOffset(c).undoable(d) == c.undoable(d),
            forall|d: DocView| #[trigger] Command::SetOffset(c).can_revert(d) == c.can_revert(d),
            forall|d: DocView| #[trigger] Command::SetOffset(c).revert_view(d) == c.revert_view(d),
            Command::SetOffset(c).keeps_state() == true,
    {
        reveal(Command::can_apply);
        reveal(Command::apply_view);
        reveal(Command::undoable);
        reveal(Command::can_revert);
        reveal(Command::revert_view);
        reveal(Command::keeps_state);
    }

    /// The specs of a `SetSmartScale` command are those of the command it holds.
    pub proof fn lemma_set_smart_scale(c: SetSmartScale)
        ensures
            forall|d: DocView| #[trigger] Command::SetSmartScale(c).can_apply(d) == c.can_apply(d),
            forall|d: DocView| #[trigger] Command::SetSmartScale(c).apply_view(d) == c.apply_view(d),
            forall|d: DocView| #[trigger] Command::SetSmartScale(c).undoable(d) == c.undoable(d),
            forall|d: DocView| #[trigger] Command::SetSmartScale(c).can_revert(d) == c.can_revert(d),
            forall|d: DocView| #[trigger] Command::SetSmartScale(c).revert_view(d) == c.revert_view(d),
            Command::SetSmartScale(c).keeps_state() == true,
    {
        reveal(Command::can_apply);
        reveal(Command::apply_view);
        reveal(Command::undoable);
        reveal(Command::can_revert);
        reveal(Command::revert_view);
        reveal(Command::keeps_state);
    }

    /// The specs of a `SetSmartRotation` command are those of the command it holds.
    pub proof fn lemma_set_smart_rotation(c: SetSmartRotation)
        ensures
            forall|d: DocView| #[trigger] Command::SetSmartRotation(c).can_apply(d) == c.can_apply(d),
            forall|d: DocView| #[trigger] Command::SetSmartRotation(c).apply_view(d) == c.apply_view(d),
            forall|d: DocView| #[trigger] Command::SetSmartRotation(c).undoable(d) == c.undoable(d),
            forall|d: DocView| #[trigger] Command::SetSmartRotation(c).can_revert(d) == c.can_revert(d),
            forall|d: DocView| #[trigger] Command::SetSmartRotation(c).revert_view(d) == c.revert_view(d),
            Command::SetSmartRotation(c).keeps_state() == true,
    {
        reveal(Command::can_apply);
        reveal(Command::apply_view);
        reveal(Command::undoable);
        reveal(Command::can_revert);
        reveal(Command::revert_view);
        reveal(Command::keeps_state);
    }

    /// The specs of a `SetAdjustment` command are those of the command it holds.
    pub proof fn lemma_set_adjustment(c: SetAdjustment)
        ensures
            forall|d: DocView| #[trigger] Command::SetAdjustment(c).can_apply(d) == c.can_apply(d),
            forall|d: DocView| #[trigger] Command::SetAdjustment(c).apply_view(d) == c.apply_view(d),
            forall|d: DocView| #[trigger] Command::SetAdjustment(c).undoable(d) == c.undoable(d),
            forall|d: DocView| #[trigger] Command::SetAdjustment(c).can_revert(d) == c.can_revert(d),
            forall|d: DocView| #[trigger] Command::SetAdjustment(c).revert_view(d) == c.revert_view(d),
            Command::SetAdjustment(c).keeps_state() == true,
    {
        reveal(Command::can_apply);
        reveal(Command::apply_view);
        reveal(Command::undoable);
        reveal(Command::can_revert);
        reveal(Command::revert_view);
        reveal(Command::keeps_state);
    }

    /// The specs of a `SetLayerMask` command are those of the command it holds.
    pub proof fn lemma_set_layer_mask(c: SetLayerMask)
        ensures
            forall|d: DocView| #[trigger] Command::SetLayerMask(c).can_apply(d) == c.can_apply(d),
            forall|d: DocView| #[trigger] Command::SetLayerMask(c).apply_view(d) == c.apply_view(d),
            forall|d: DocView| #[trigger] Command::SetLayerMask(c).undoable(d) == c.undoable(d),
            forall|d: DocView| #[trigger] Command::SetLayerMask(c).can_revert(d) == c.can_revert(d),
            forall|d: DocView| #[trigger] Command::SetLayerMask(c).revert_view(d) == c.revert_view(d),
            Command::SetLayerMask(c).keeps_state() == true,
    {
        reveal(Command::can_apply);
        reveal(Command::apply_view);
        reveal(Command::undoable);
        reveal(Command::can_revert);
        reveal(Command::revert_view);
        reveal(Command::keeps_state);
    }

    /// The specs of a `SetVectorShapes` command are those of the command it holds.
    pub proof fn lemma_set_vector_shapes(c: SetVectorShapes)
        ensures
            forall|d: DocView| #[trigger] Command::SetVectorShapes(c).can_apply(d) == c.can_apply(d),
            forall|d: DocView| #[trigger] Command::SetVectorShapes(c).apply_view(d) == c.apply_view(d),
            forall|d: DocView| #[trigger] Command::SetVectorShapes(c).undoable(d) == c.undoable(d),
            forall|d: DocView| #[trigger] Command::SetVectorShapes(c).can_revert(d) == c.can_revert(d),
            forall|d: DocView| #[trigger] Command::SetVectorShapes(c).revert_view(d) == c.revert_view(d),
            Command::SetVectorShapes(c).keeps_state() == true,
    {
        reveal(Command::can_apply);
        reveal(Command::apply_view);
        reveal(Command::undoable);
        reveal(Command::can_revert);
        reveal(Command::revert_view);
        reveal(Command::keeps_state);
    }

    /// The specs of a `ReplaceLayerTiles` command are those of the command it holds.
    pub proof fn lemma_replace_layer_tiles(c: ReplaceLayerTiles)
        ensures
            forall|d: DocView| #[trigger] Command::ReplaceLayerTiles(c).can_apply(d) == c.can_apply(d),
            forall|d: DocView| #[trigger] Command::ReplaceLayerTiles(c).apply_view(d) == c.apply_view(d),
            forall|d: DocView| #[trigger] Command::ReplaceLayerTiles(c).undoable(d) == c.undoable(d),
            forall|d: DocView| #[trigger] Command::ReplaceLayerTiles(c).can_revert(d) == c.can_revert(d),
            forall|d: DocView| #[trigger] Command::ReplaceLayerTiles(c).revert_view(d) == c.revert_view(d),
            Command::ReplaceLayerTiles(c).keeps_state() == true,
    {
        reveal(Command::can_apply);
        reveal(Command::apply_view);
        reveal(Command::undoable);
        reveal(Command::can_revert);
        reveal(Command::revert_view);
        reveal(Command::keeps_state);
    }

    /// The specs of a `ReplaceNodeKind` command are those of the command it holds.
    pub proof fn lemma_replace_node_kind(c: ReplaceNodeKind)
        ensures
            forall|d: DocView| #[trigger] Command::ReplaceNodeKind(c).can_apply(d) == c.can_apply(d),
            forall|d: DocView| #[trigger] Command::ReplaceNodeKind(c).apply_view(d) == c.apply_view(d),
            forall|d: DocView| #[trigger] Command::ReplaceNodeKind(c).undoable(d) == c.undoable(d),
            forall|d: DocView| #[trigger] Command::ReplaceNodeKind(c).can_revert(d) == c.can_revert(d),
            forall|d: DocView| #[trigger] Command::ReplaceNodeKind(c).revert_view(d) == c.revert_view(d),
            Command::ReplaceNodeKind(c).keeps_state() == false,
    {
        reveal(Command::can_apply);
        reveal(Command::apply_view);
        reveal(Command::undoable);
        reveal(Command::can_revert);
        reveal(Command::revert_view);
        reveal(Command::keeps_state);
    }

    /// The specs of a `SetSelection` command are those of the command it holds.
    pub proof fn lemma_set_selection(c: SetSelection)
        ensures
            forall|d: DocView| #[trigger] Command::SetSelection(c).can_apply(d) == c.can_apply(d),
            forall|d: DocView| #[trigger] Command::SetSelection(c).apply_view(d) == c.apply_view(d),
            forall|d: DocView| #[trigger] Command::SetSelection(c).undoable(d) == c.undoable(d),
            forall|d: DocView| #[trigger] Command::SetSelection(c).can_revert(d) == c.can_revert(d),
            forall|d: DocView| #[trigger] Command::SetSelection(c).revert_view(d) == c.revert_view(d),
            Command::SetSelection(c).keeps_state() == true,
    {
        reveal(Command::can_apply);
        reveal(Command::apply_view);
        reveal(Command::undoable);
        reveal(Command::can_revert);
        reveal(Command::revert_view);
        reveal(Command::keeps_state);
    }

    /// The specs of a `CanvasResize` command are those of the command it holds.
    pub proof fn lemma_canvas_resize(c: CanvasResize)
        ensures
            forall|d: DocView| #[trigger] Command::CanvasResize(c).can_apply(d) == c.can_apply(d),
            forall|d: DocView| #[trigger] Command::CanvasResize(c).apply_view(d) == c.apply_view(d),
            forall|d: DocView| #[trigger] Command::CanvasResize(c).undoable(d) == c.undoable(d),
            forall|d: DocView| #[trigger] Command::CanvasResize(c).can_revert(d) == c.can_revert(d),
            forall|d: DocView| #[trigger] Command::CanvasResize(c).revert_view(d) == c.revert_view(d),
            Command::CanvasResize(c).keeps_state() == true,
    {
        reveal(Command::can_apply);
        reveal(Command::apply_view);
        reveal(Command::undoable);
        reveal(Command::can_revert);
        reveal(Command::revert_view);
        reveal(Command::keeps_state);
    }

    /// The specs of a `ResizeImage` command are those of the command it holds.
    pub proof fn lemma_resize_image(c: ResizeImage)
        ensures
            forall|d: DocView| #[trigger] Command::ResizeImage(c).can_apply(d) == c.can_apply(d),
            forall|d: DocView| #[trigger] Command::ResizeImage(c).apply_view(d) == c.apply_view(d),
            forall|d: DocView| #[trigger] Command::ResizeImage(c).undoable(d) == c.undoable(d),
            forall|d: DocView| #[trigger] Command::ResizeImage(c).can_revert(d) == c.can_revert(d),
            forall|d: DocView| #[trigger] Command::ResizeImage(c).revert_view(d) == c.revert_view(d),
            Command::ResizeImage(c).keeps_state() == true,
    {
        reveal(Command::can_apply);
        reveal(Command::apply_view);
        reveal(Command::undoable);
        reveal(Command::can_revert);
        reveal(Command::revert_view);
        reveal(Command::keeps_state);
    }

    /// The specs of a `CropCanvas` command are those of the command it holds.
    pub proof fn lemma_crop_canvas(c: CropCanvas)
        ensures
            forall|d: DocView| #[trigger] Command::CropCanvas(c).can_apply(d) == c.can_apply(d),
            forall|d: DocView| #[trigger] Command::CropCanvas(c).apply_view(d) == c.apply_view(d),
            forall|d: DocView| #[trigger] Command::CropCanvas(c).undoable(d) == c.undoable(d),
            forall|d: DocView| #[trigger] Command::CropCanvas(c).can_revert(d) == c.can_revert(d),
            forall|d: DocView| #[trigger] Command::CropCanvas(c).revert_view(d) == c.revert_view(d),
            Command::CropCanvas(c).keeps_state() == true,
    {
        reveal(Command::can_apply);
        reveal(Command::apply_view);
        reveal(Command::undoable);
        reveal(Command::can_revert);
        reveal(Command::revert_view);
        reveal(Command::keeps_state);
    }

    /// The specs of a `PaintTiles` command are those of the command it holds.
    pub proof fn lemma_paint_tiles(c: PaintTiles)
        ensures
            forall|d: DocView| #[trigger] Command::PaintTiles(c).can_apply(d) == c.can_apply(d),
            forall|d: DocView| #[trigger] Command::PaintTiles(c).apply_view(d) == c.apply_view(d),
            forall|d: DocView| #[trigger] Command::PaintTiles(c).undoable(d) == c.undoable(d),
            forall|d: DocView| #[trigger] Command::PaintTiles(c).can_revert(d) == c.can_revert(d),
            forall|d: DocView| #[trigger] Command::PaintTiles(c).revert_view(d) == c.revert_view(d),
            Command::PaintTiles(c).keeps_state() == true,
    {
        reveal(Command::can_apply);
        reveal(Command::apply_view);
        reveal(Command::undoable);
        reveal(Command::can_revert);
        reveal(Command::revert_view);
        reveal(Command::keeps_state);
    }

    /// The specs of a `GroupNodes` command are those of the command it holds.
    pub proof fn lemma_group_nodes(c: GroupNodes)
        ensures
            forall|d: DocView| #[trigger] Command::GroupNodes(c).can_apply(d) == c.can_apply(d),
            forall|d: DocView| #[trigger] Command::GroupNodes(c).apply_view(d) == c.apply_view(d),
            forall|d: DocView| #[trigger] Command::GroupNodes(c).undoable(d) == c.undoable(d),
            forall|d: DocView| #[trigger] Command::GroupNodes(c).can_revert(d) == c.can_revert(d),
            forall|d: DocView| #[trigger] Command::GroupNodes(c).revert_view(d) == c.revert_view(d),
            Command::GroupNodes(c).keeps_state() == false,
    {
        reveal(Command::can_apply);
        reveal(Command::apply_view);
        reveal(Command::undoable);
        reveal(Command::can_revert);
        reveal(Command::revert_view);
        reveal(Command::keeps_state);
    }

    /// The specs of a `UngroupNode` command are those of the command it holds.
    pub proof fn lemma_ungroup_node(c: UngroupNode)
        ensures
            forall|d: DocView| #[trigger] Command::UngroupNode(c).can_apply(d) == c.can_apply(d),
            forall|d: DocView| #[trigger] Command::UngroupNode(c).apply_view(d) == c.apply_view(d),
            forall|d: DocView| #[trigger] Command::UngroupNode(c).undoable(d) == c.undoable(d),
            forall|d: DocView| #[trigger] Command::UngroupNode(c).can_revert(d) == c.can_revert(d),
            forall|d: DocView| #[trigger] Command::UngroupNode(c).revert_view(d) == c.revert_view(d),
            Command::UngroupNode(c).keeps_state() == false,
    {
        reveal(Command::can_apply);
        reveal(Command::apply_view);
        reveal(Command::undoable);
        reveal(Command::can_revert);
        reveal(Command::revert_view);
        reveal(Command::keeps_state);
    }

    /// The specs of a `ApplyLayerMask` command are those of the command it holds.
    pub proof fn lemma_apply_layer_mask(c: ApplyLayerMask)
        ensures
            forall|d: DocView| #[trigger] Command::ApplyLayerMask(c).can_apply(d) == c.can_apply(d),
            forall|d: DocView| #[trigger] Command::ApplyLayerMask(c).apply_view(d) == c.apply_view(d),
            forall|d: DocView| #[trigger] Command::ApplyLayerMask(c).undoable(d) == c.undoable(d),
            forall|d: DocView| #[trigger] Command::ApplyLayerMask(c).can_revert(d) == c.can_revert(d),
            forall|d: DocView| #[trigger] Command::ApplyLayerMask(c).revert_view(d) == c.revert_view(d),
            Command::ApplyLayerMask(c).keeps_state() == false,
    {
        reveal(Command::can_apply);
        reveal(Command::apply_view);
        reveal(Command::undoable);
        reveal(Command::can_revert);
        reveal(Command::revert_view);
        reveal(Command::keeps_state);
    }

    /// The specs of a `FlattenDocument` command are those of the command it holds.
    pub proof fn lemma_flatten_document(c: FlattenDocument)
        ensures
            forall|d: DocView| #[trigger] Command::FlattenDocument(c).can_apply(d) == c.can_apply(d),
            forall|d: DocView| #[trigger] Command::FlattenDocument(c).apply_view(d) == c.apply_view(d),
            forall|d: DocView| #[trigger] Command::FlattenDocument(c).undoable(d) == c.undoable(d),
            forall|d: DocView| #[trigger] Command::FlattenDocument(c).can_revert(d) == c.can_revert(d),
            forall|d: DocView| #[trigger] Command::FlattenDocument(c).revert_view(d) == c.revert_view(d),
            Command::FlattenDocument(c).keeps_state() == false,
    {
        reveal(Command::can_apply);
        reveal(Command::apply_view);
        reveal(Command::undoable);
        reveal(Command::can_revert);
        reveal(Command::revert_view);
        reveal(Command::keeps_state);
    }

    /// The specs of a `MergeVisible` command are those of the command it holds.
    pub proof fn lemma_merge_visible(c: MergeVisible)
        ensures
            forall|d: DocView| #[trigger] Command::MergeVisible(c).can_apply(d) == c.can_apply(d),
            forall|d: DocView| #[trigger] Command::MergeVisible(c).apply_view(d) == c.apply_view(d),
            forall|d: DocView| #[trigger] Command::MergeVisible(c).undoable(d) == c.undoable(d),
            forall|d: DocView| #[trigger] Command::MergeVisible(c).can_revert(d) == c.can_revert(d),
            forall|d: DocView| #[trigger] Command::MergeVisible(c).revert_view(d) == c.revert_view(d),
            Command::MergeVisible(c).keeps_state() == false,
    {
        reveal(Command::can_apply);
        reveal(Command::apply_view);
        reveal(Command::undoable);
        reveal(Command::can_revert);
        reveal(Command::revert_view);
        reveal(Command::keeps_state);
    }

    /// The specs of a `Batch` command are those of the command it holds.
    pub proof fn lemma_batch(c: Batch)
        ensures
            forall|d: DocView| #[trigger] Command::Batch(c).can_apply(d) == c.can_apply(d),
            forall|d: DocView| #[trigger] Command::Batch(c).apply_view(d) == c.apply_view(d),
            forall|d: DocView| #[trigger] Command::Batch(c).undoable(d) == c.undoable(d),
            forall|d: DocView| #[trigger] Command::Batch(c).can_revert(d) == c.can_revert(d),
            forall|d: DocView| #[trigger] Command::Batch(c).revert_view(d) == c.revert_view(d),
            Command::Batch(c).keeps_state() == false,
    {
        reveal(Command::can_apply);
        reveal(Command::apply_view);
        reveal(Command::undoable);
        reveal(Command::can_revert);
        reveal(Command::revert_view);
        reveal(Command::keeps_state);
    }

    /// The specs of a `InsertSubtree` command are those of the command it holds.
    pub proof fn lemma_insert_subtree(c: InsertSubtree)
        ensures
            forall|d: DocView| #[trigger] Command::InsertSubtree(c).can_apply(d) == c.can_apply(d),
            forall|d: DocView| #[trigger] Command::InsertSubtree(c).apply_view(d) == c.apply_view(d),
            forall|d: DocView| #[trigger] Command::InsertSubtree(c).undoable(d) == c.undoable(d),
            forall|d: DocView| #[trigger] Command::InsertSubtree(c).can_revert(d) == c.can_revert(d),
            forall|d: DocView| #[trigger] Command::InsertSubtree(c).revert_view(d) == c.revert_view(d),
            Command::InsertSubtree(c).keeps_state() == true,
    {
        reveal(Command::can_apply);
        reveal(Command::apply_view);
        reveal(Command::undoable);
        reveal(Command::can_revert);
        reveal(Command::revert_view);
        reveal(Command::keeps_state);
    }
}

/// Only commands that keep their state on apply merge into another.
pub proof fn lemma_merge_keeps_state(a: Command, b: Command)
    requires
        a.merges_with(&b),
    ensures
        b.keeps_state(),
{
    reveal(Command::merges_with);
    reveal(Command::keeps_state);
}

} // verus!
