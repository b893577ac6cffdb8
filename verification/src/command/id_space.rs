//! Ids handed out between edits: every command reads and writes the document
//! the same way whatever the next id to allocate is, as long as the ids it
//! names are below it.

use vstd::prelude::*;
use crate::command::bake::{ApplyLayerMask};
use crate::command::batch::{Batch};
use crate::command::canvas::{SetSelection, CanvasResize, ResizeImage, CropCanvas};
use crate::command::content::{SetOffset, SetSmartScale, SetSmartRotation, SetAdjustment, SetLayerMask, SetVectorShapes};
use crate::command::group::{GroupNodes, UngroupNode};
use crate::command::insert::{InsertSubtree};
use crate::command::layer::{ReplaceLayerTiles, ReplaceNodeKind, PaintTiles};
use crate::command::merge::{FlattenDocument, MergeVisible};
use crate::command::props::{SetName, SetVisible, SetOpacity, SetBlend, SetClip};
use crate::command::tree::{AddNode, RemoveNode, MoveNode};
use crate::command::batch::{
    chain_ok, chain_undoable, chain_view, lemma_chain_step, lemma_unchain_step, unchain_ok, unchain_view,
};
use crate::command::kinds::Command;
use crate::command::merge::{picked_desc, removals_view, removed_all, restored_all};
use crate::document::removed_view;
use crate::node::ids_view;
use crate::document::{tree_wf, DocView};
use crate::document::subtree::restored_view;
use crate::node::NodeView;

verus! {

/// `d` with the next id to allocate set to `n`.
pub open spec fn with_next(d: DocView, n: u64) -> DocView {
    DocView { next_id: n, ..d }
}

/// A well-formed tree stays one when the next id to allocate grows.
pub proof fn lemma_tree_wf_grow(m: Map<u64, NodeView>, root: u64, k: u64, n: u64)
    requires
        tree_wf(m, root, k),
        k <= n,
    ensures
        tree_wf(m, root, n),
{
}

proof fn lemma_removed_all_next(d: DocView, ids: Seq<u64>, n: u64)
    ensures
        removed_all(with_next(d, n), ids) == with_next(removed_all(d, ids), n),
        removed_all(d, ids).next_id == d.next_id,
    decreases ids.len(),
{
    if ids.len() > 0 {
        lemma_removed_all_next(d, ids.drop_last(), n);
    }
}

proof fn lemma_restored_all_next(e: DocView, rs: Seq<(Seq<(u64, NodeView)>, u64, int)>, n: u64)
    ensures
        restored_all(with_next(e, n), rs) == with_next(restored_all(e, rs), n),
        restored_all(e, rs).next_id == e.next_id,
    decreases rs.len(),
{
    if rs.len() > 0 {
        let l = rs.last();
        lemma_restored_all_next(restored_view(e, l.0, l.1, l.2), rs.drop_last(), n);
        assert(restored_view(with_next(e, n), l.0, l.1, l.2) == with_next(restored_view(e, l.0, l.1, l.2), n));
    }
}

proof fn lemma_add_node(c: AddNode, d: DocView, n: u64)
    requires
        d.next_id <= n,
    ensures
        c.can_apply(d) ==> c.can_apply(with_next(d, n)),
        c.can_apply(d) ==> c.apply_view(d).next_id == d.next_id,
        c.can_apply(d) ==> c.apply_view(with_next(d, n)) == with_next(c.apply_view(d), n),
        c.undoable(d) ==> c.undoable(with_next(d, n)),
        c.can_revert(d) ==> c.can_revert(with_next(d, n)),
        c.can_revert(d) ==> c.revert_view(d).next_id == d.next_id,
        c.can_revert(d) ==> c.revert_view(with_next(d, n)) == with_next(c.revert_view(d), n),
{
}

proof fn lemma_remove_node(c: RemoveNode, d: DocView, n: u64)
    requires
        d.next_id <= n,
    ensures
        c.can_apply(d) ==> c.can_apply(with_next(d, n)),
        c.can_apply(d) ==> c.apply_view(d).next_id == d.next_id,
        c.can_apply(d) ==> c.apply_view(with_next(d, n)) == with_next(c.apply_view(d), n),
        c.undoable(d) ==> c.undoable(with_next(d, n)),
        c.can_revert(d) ==> c.can_revert(with_next(d, n)),
        c.can_revert(d) ==> c.revert_view(d).next_id == d.next_id,
        c.can_revert(d) ==> c.revert_view(with_next(d, n)) == with_next(c.revert_view(d), n),
{
}

proof fn lemma_move_node(c: MoveNode, d: DocView, n: u64)
    requires
        d.next_id <= n,
    ensures
        c.can_apply(d) ==> c.can_apply(with_next(d, n)),
        c.can_apply(d) ==> c.apply_view(d).next_id == d.next_id,
        c.can_apply(d) ==> c.apply_view(with_next(d, n)) == with_next(c.apply_view(d), n),
        c.undoable(d) ==> c.undoable(with_next(d, n)),
        c.can_revert(d) ==> c.can_revert(with_next(d, n)),
        c.can_revert(d) ==> c.revert_view(d).next_id == d.next_id,
        c.can_revert(d) ==> c.revert_view(with_next(d, n)) == with_next(c.revert_view(d), n),
{
}

proof fn lemma_set_name(c: SetName, d: DocView, n: u64)
    requires
        d.next_id <= n,
    ensures
        c.can_apply(d) ==> c.can_apply(with_next(d, n)),
        c.can_apply(d) ==> c.apply_view(d).next_id == d.next_id,
        c.can_apply(d) ==> c.apply_view(with_next(d, n)) == with_next(c.apply_view(d), n),
        c.undoable(d) ==> c.undoable(with_next(d, n)),
        c.can_revert(d) ==> c.can_revert(with_next(d, n)),
        c.can_revert(d) ==> c.revert_view(d).next_id == d.next_id,
        c.can_revert(d) ==> c.revert_view(with_next(d, n)) == with_next(c.revert_view(d), n),
{
}

proof fn lemma_set_visible(c: SetVisible, d: DocView, n: u64)
    requires
        d.next_id <= n,
    ensures
        c.can_apply(d) ==> c.can_apply(with_next(d, n)),
        c.can_apply(d) ==> c.apply_view(d).next_id == d.next_id,
        c.can_apply(d) ==> c.apply_view(with_next(d, n)) == with_next(c.apply_view(d), n),
        c.undoable(d) ==> c.undoable(with_next(d, n)),
        c.can_revert(d) ==> c.can_revert(with_next(d, n)),
        c.can_revert(d) ==> c.revert_view(d).next_id == d.next_id,
        c.can_revert(d) ==> c.revert_view(with_next(d, n)) == with_next(c.revert_view(d), n),
{
}

proof fn lemma_set_opacity(c: SetOpacity, d: DocView, n: u64)
    requires
        d.next_id <= n,
    ensures
        c.can_apply(d) ==> c.can_apply(with_next(d, n)),
        c.can_apply(d) ==> c.apply_view(d).next_id == d.next_id,
        c.can_apply(d) ==> c.apply_view(with_next(d, n)) == with_next(c.apply_view(d), n),
        c.undoable(d) ==> c.undoable(with_next(d, n)),
        c.can_revert(d) ==> c.can_revert(with_next(d, n)),
        c.can_revert(d) ==> c.revert_view(d).next_id == d.next_id,
        c.can_revert(d) ==> c.revert_view(with_next(d, n)) == with_next(c.revert_view(d), n),
{
}

proof fn lemma_set_blend(c: SetBlend, d: DocView, n: u64)
    requires
        d.next_id <= n,
    ensures
        c.can_apply(d) ==> c.can_apply(with_next(d, n)),
        c.can_apply(d) ==> c.apply_view(d).next_id == d.next_id,
        c.can_apply(d) ==> c.apply_view(with_next(d, n)) == with_next(c.apply_view(d), n),
        c.undoable(d) ==> c.undoable(with_next(d, n)),
        c.can_revert(d) ==> c.can_revert(with_next(d, n)),
        c.can_revert(d) ==> c.revert_view(d).next_id == d.next_id,
        c.can_revert(d) ==> c.revert_view(with_next(d, n)) == with_next(c.revert_view(d), n),
{
}

proof fn lemma_set_clip(c: SetClip, d: DocView, n: u64)
    requires
        d.next_id <= n,
    ensures
        c.can_apply(d) ==> c.can_apply(with_next(d, n)),
        c.can_apply(d) ==> c.apply_view(d).next_id == d.next_id,
        c.can_apply(d) ==> c.apply_view(with_next(d, n)) == with_next(c.apply_view(d), n),
        c.undoable(d) ==> c.undoable(with_next(d, n)),
        c.can_revert(d) ==> c.can_revert(with_next(d, n)),
        c.can_revert(d) ==> c.revert_view(d).next_id == d.next_id,
        c.can_revert(d) ==> c.revert_view(with_next(d, n)) == with_next(c.revert_view(d), n),
{
}

proof fn lemma_set_offset(c: SetOffset, d: DocView, n: u64)
    requires
        d.next_id <= n,
    ensures
        c.can_apply(d) ==> c.can_apply(with_next(d, n)),
        c.can_apply(d) ==> c.apply_view(d).next_id == d.next_id,
        c.can_apply(d) ==> c.apply_view(with_next(d, n)) == with_next(c.apply_view(d), n),
        c.undoable(d) ==> c.undoable(with_next(d, n)),
        c.can_revert(d) ==> c.can_revert(with_next(d, n)),
        c.can_revert(d) ==> c.revert_view(d).next_id == d.next_id,
        c.can_revert(d) ==> c.revert_view(with_next(d, n)) == with_next(c.revert_view(d), n),
{
}

proof fn lemma_set_smart_scale(c: SetSmartScale, d: DocView, n: u64)
    requires
        d.next_id <= n,
    ensures
        c.can_apply(d) ==> c.can_apply(with_next(d, n)),
        c.can_apply(d) ==> c.apply_view(d).next_id == d.next_id,
        c.can_apply(d) ==> c.apply_view(with_next(d, n)) == with_next(c.apply_view(d), n),
        c.undoable(d) ==> c.undoable(with_next(d, n)),
        c.can_revert(d) ==> c.can_revert(with_next(d, n)),
        c.can_revert(d) ==> c.revert_view(d).next_id == d.next_id,
        c.can_revert(d) ==> c.revert_view(with_next(d, n)) == with_next(c.revert_view(d), n),
{
}

proof fn lemma_set_smart_rotation(c: SetSmartRotation, d: DocView, n: u64)
    requires
        d.next_id <= n,
    ensures
        c.can_apply(d) ==> c.can_apply(with_next(d, n)),
        c.can_apply(d) ==> c.apply_view(d).next_id == d.next_id,
        c.can_apply(d) ==> c.apply_view(with_next(d, n)) == with_next(c.apply_view(d), n),
        c.undoable(d) ==> c.undoable(with_next(d, n)),
        c.can_revert(d) ==> c.can_revert(with_next(d, n)),
        c.can_revert(d) ==> c.revert_view(d).next_id == d.next_id,
        c.can_revert(d) ==> c.revert_view(with_next(d, n)) == with_next(c.revert_view(d), n),
{
}

proof fn lemma_set_adjustment(c: SetAdjustment, d: DocView, n: u64)
    requires
        d.next_id <= n,
    ensures
        c.can_apply(d) ==> c.can_apply(with_next(d, n)),
        c.can_apply(d) ==> c.apply_view(d).next_id == d.next_id,
        c.can_apply(d) ==> c.apply_view(with_next(d, n)) == with_next(c.apply_view(d), n),
        c.undoable(d) ==> c.undoable(with_next(d, n)),
        c.can_revert(d) ==> c.can_revert(with_next(d, n)),
        c.can_revert(d) ==> c.revert_view(d).next_id == d.next_id,
        c.can_revert(d) ==> c.revert_view(with_next(d, n)) == with_next(c.revert_view(d), n),
{
}

proof fn lemma_set_layer_mask(c: SetLayerMask, d: DocView, n: u64)
    requires
        d.next_id <= n,
    ensures
        c.can_apply(d) ==> c.can_apply(with_next(d, n)),
        c.can_apply(d) ==> c.apply_view(d).next_id == d.next_id,
        c.can_apply(d) ==> c.apply_view(with_next(d, n)) == with_next(c.apply_view(d), n),
        c.undoable(d) ==> c.undoable(with_next(d, n)),
        c.can_revert(d) ==> c.can_revert(with_next(d, n)),
        c.can_revert(d) ==> c.revert_view(d).next_id == d.next_id,
        c.can_revert(d) ==> c.revert_view(with_next(d, n)) == with_next(c.revert_view(d), n),
{
}

proof fn lemma_set_vector_shapes(c: SetVectorShapes, d: DocView, n: u64)
    requires
        d.next_id <= n,
    ensures
        c.can_apply(d) ==> c.can_apply(with_next(d, n)),
        c.can_apply(d) ==> c.apply_view(d).next_id == d.next_id,
        c.can_apply(d) ==> c.apply_view(with_next(d, n)) == with_next(c.apply_view(d), n),
        c.undoable(d) ==> c.undoable(with_next(d, n)),
        c.can_revert(d) ==> c.can_revert(with_next(d, n)),
        c.can_revert(d) ==> c.revert_view(d).next_id == d.next_id,
        c.can_revert(d) ==> c.revert_view(with_next(d, n)) == with_next(c.revert_view(d), n),
{
}

proof fn lemma_replace_layer_tiles(c: ReplaceLayerTiles, d: DocView, n: u64)
    requires
        d.next_id <= n,
    ensures
        c.can_apply(d) ==> c.can_apply(with_next(d, n)),
        c.can_apply(d) ==> c.apply_view(d).next_id == d.next_id,
        c.can_apply(d) ==> c.apply_view(with_next(d, n)) == with_next(c.apply_view(d), n),
        c.undoable(d) ==> c.undoable(with_next(d, n)),
        c.can_revert(d) ==> c.can_revert(with_next(d, n)),
        c.can_revert(d) ==> c.revert_view(d).next_id == d.next_id,
        c.can_revert(d) ==> c.revert_view(with_next(d, n)) == with_next(c.revert_view(d), n),
{
}

proof fn lemma_replace_node_kind(c: ReplaceNodeKind, d: DocView, n: u64)
    requires
        d.next_id <= n,
    ensures
        c.can_apply(d) ==> c.can_apply(with_next(d, n)),
        c.can_apply(d) ==> c.apply_view(d).next_id == d.next_id,
        c.can_apply(d) ==> c.apply_view(with_next(d, n)) == with_next(c.apply_view(d), n),
        c.undoable(d) ==> c.undoable(with_next(d, n)),
        c.can_revert(d) ==> c.can_revert(with_next(d, n)),
        c.can_revert(d) ==> c.revert_view(d).next_id == d.next_id,
        c.can_revert(d) ==> c.revert_view(with_next(d, n)) == with_next(c.revert_view(d), n),
{
}

proof fn lemma_set_selection(c: SetSelection, d: DocView, n: u64)
    requires
        d.next_id <= n,
    ensures
        c.can_apply(d) ==> c.can_apply(with_next(d, n)),
        c.can_apply(d) ==> c.apply_view(d).next_id == d.next_id,
        c.can_apply(d) ==> c.apply_view(with_next(d, n)) == with_next(c.apply_view(d), n),
        c.undoable(d) ==> c.undoable(with_next(d, n)),
        c.can_revert(d) ==> c.can_revert(with_next(d, n)),
        c.can_revert(d) ==> c.revert_view(d).next_id == d.next_id,
        c.can_revert(d) ==> c.revert_view(with_next(d, n)) == with_next(c.revert_view(d), n),
{
}

proof fn lemma_canvas_resize(c: CanvasResize, d: DocView, n: u64)
    requires
        d.next_id <= n,
    ensures
        c.can_apply(d) ==> c.can_apply(with_next(d, n)),
        c.can_apply(d) ==> c.apply_view(d).next_id == d.next_id,
        c.can_apply(d) ==> c.apply_view(with_next(d, n)) == with_next(c.apply_view(d), n),
        c.undoable(d) ==> c.undoable(with_next(d, n)),
        c.can_revert(d) ==> c.can_revert(with_next(d, n)),
        c.can_revert(d) ==> c.revert_view(d).next_id == d.next_id,
        c.can_revert(d) ==> c.revert_view(with_next(d, n)) == with_next(c.revert_view(d), n),
{
}

proof fn lemma_resize_image(c: ResizeImage, d: DocView, n: u64)
    requires
        d.next_id <= n,
    ensures
        c.can_apply(d) ==> c.can_apply(with_next(d, n)),
        c.can_apply(d) ==> c.apply_view(d).next_id == d.next_id,
        c.can_apply(d) ==> c.apply_view(with_next(d, n)) == with_next(c.apply_view(d), n),
        c.undoable(d) ==> c.undoable(with_next(d, n)),
        c.can_revert(d) ==> c.can_revert(with_next(d, n)),
        c.can_revert(d) ==> c.revert_view(d).next_id == d.next_id,
        c.can_revert(d) ==> c.revert_view(with_next(d, n)) == with_next(c.revert_view(d), n),
{
}

proof fn lemma_crop_canvas(c: CropCanvas, d: DocView, n: u64)
    requires
        d.next_id <= n,
    ensures
        c.can_apply(d) ==> c.can_apply(with_next(d, n)),
        c.can_apply(d) ==> c.apply_view(d).next_id == d.next_id,
        c.can_apply(d) ==> c.apply_view(with_next(d, n)) == with_next(c.apply_view(d), n),
        c.undoable(d) ==> c.undoable(with_next(d, n)),
        c.can_revert(d) ==> c.can_revert(with_next(d, n)),
        c.can_revert(d) ==> c.revert_view(d).next_id == d.next_id,
        c.can_revert(d) ==> c.revert_view(with_next(d, n)) == with_next(c.revert_view(d), n),
{
}

proof fn lemma_paint_tiles(c: PaintTiles, d: DocView, n: u64)
    requires
        d.next_id <= n,
    ensures
        c.can_apply(d) ==> c.can_apply(with_next(d, n)),
        c.can_apply(d) ==> c.apply_view(d).next_id == d.next_id,
        c.can_apply(d) ==> c.apply_view(with_next(d, n)) == with_next(c.apply_view(d), n),
        c.undoable(d) ==> c.undoable(with_next(d, n)),
        c.can_revert(d) ==> c.can_revert(with_next(d, n)),
        c.can_revert(d) ==> c.revert_view(d).next_id == d.next_id,
        c.can_revert(d) ==> c.revert_view(with_next(d, n)) == with_next(c.revert_view(d), n),
{
}

proof fn lemma_group_nodes(c: GroupNodes, d: DocView, n: u64)
    requires
        d.next_id <= n,
    ensures
        c.can_apply(d) ==> c.can_apply(with_next(d, n)),
        c.can_apply(d) ==> c.apply_view(d).next_id == d.next_id,
        c.can_apply(d) ==> c.apply_view(with_next(d, n)) == with_next(c.apply_view(d), n),
        c.undoable(d) ==> c.undoable(with_next(d, n)),
        c.can_revert(d) ==> c.can_revert(with_next(d, n)),
        c.can_revert(d) ==> c.revert_view(d).next_id == d.next_id,
        c.can_revert(d) ==> c.revert_view(with_next(d, n)) == with_next(c.revert_view(d), n),
{
}

proof fn lemma_ungroup_node(c: UngroupNode, d: DocView, n: u64)
    requires
        d.next_id <= n,
    ensures
        c.can_apply(d) ==> c.can_apply(with_next(d, n)),
        c.can_apply(d) ==> c.apply_view(d).next_id == d.next_id,
        c.can_apply(d) ==> c.apply_view(with_next(d, n)) == with_next(c.apply_view(d), n),
        c.undoable(d) ==> c.undoable(with_next(d, n)),
        c.can_revert(d) ==> c.can_revert(with_next(d, n)),
        c.can_revert(d) ==> c.revert_view(d).next_id == d.next_id,
        c.can_revert(d) ==> c.revert_view(with_next(d, n)) == with_next(c.revert_view(d), n),
{
}

proof fn lemma_apply_layer_mask(c: ApplyLayerMask, d: DocView, n: u64)
    requires
        d.next_id <= n,
    ensures
        c.can_apply(d) ==> c.can_apply(with_next(d, n)),
        c.can_apply(d) ==> c.apply_view(d).next_id == d.next_id,
        c.can_apply(d) ==> c.apply_view(with_next(d, n)) == with_next(c.apply_view(d), n),
        c.undoable(d) ==> c.undoable(with_next(d, n)),
        c.can_revert(d) ==> c.can_revert(with_next(d, n)),
        c.can_revert(d) ==> c.revert_view(d).next_id == d.next_id,
        c.can_revert(d) ==> c.revert_view(with_next(d, n)) == with_next(c.revert_view(d), n),
{
}

proof fn lemma_flatten_document(c: FlattenDocument, d: DocView, n: u64)
    requires
        d.next_id <= n,
    ensures
        c.can_apply(d) ==> c.can_apply(with_next(d, n)),
        c.can_apply(d) ==> c.apply_view(d).next_id == d.next_id,
        c.can_apply(d) ==> c.apply_view(with_next(d, n)) == with_next(c.apply_view(d), n),
        c.undoable(d) ==> c.undoable(with_next(d, n)),
        c.can_revert(d) ==> c.can_revert(with_next(d, n)),
        c.can_revert(d) ==> c.revert_view(d).next_id == d.next_id,
        c.can_revert(d) ==> c.revert_view(with_next(d, n)) == with_next(c.revert_view(d), n),
{
    lemma_restored_all_next(removed_view(d, c.raster_id.0), removals_view(c.removed@), n);
    lemma_removed_all_next(d, picked_desc(d.nodes[d.root].children, d.nodes[d.root].children), n);
    assert(removed_view(with_next(d, n), c.raster_id.0) == with_next(removed_view(d, c.raster_id.0), n));
    if c.can_revert(d) {
        let r = c.revert_view(d);
        lemma_tree_wf_grow(restored_all(removed_view(d, c.raster_id.0), removals_view(c.removed@)).nodes, d.root, d.next_id, n);
        lemma_removed_all_next(r, picked_desc(r.nodes[r.root].children, r.nodes[r.root].children), n);
    }
}

proof fn lemma_merge_visible(c: MergeVisible, d: DocView, n: u64)
    requires
        d.next_id <= n,
    ensures
        c.can_apply(d) ==> c.can_apply(with_next(d, n)),
        c.can_apply(d) ==> c.apply_view(d).next_id == d.next_id,
        c.can_apply(d) ==> c.apply_view(with_next(d, n)) == with_next(c.apply_view(d), n),
        c.undoable(d) ==> c.undoable(with_next(d, n)),
        c.can_revert(d) ==> c.can_revert(with_next(d, n)),
        c.can_revert(d) ==> c.revert_view(d).next_id == d.next_id,
        c.can_revert(d) ==> c.revert_view(with_next(d, n)) == with_next(c.revert_view(d), n),
{
    lemma_restored_all_next(removed_view(d, c.raster_id.0), removals_view(c.removed@), n);
    lemma_removed_all_next(d, picked_desc(d.nodes[d.root].children, ids_view(c.targets@)), n);
    assert(removed_view(with_next(d, n), c.raster_id.0) == with_next(removed_view(d, c.raster_id.0), n));
    if c.can_revert(d) {
        let r = c.revert_view(d);
        lemma_tree_wf_grow(restored_all(removed_view(d, c.raster_id.0), removals_view(c.removed@)).nodes, d.root, d.next_id, n);
        lemma_removed_all_next(r, picked_desc(r.nodes[r.root].children, ids_view(c.targets@)), n);
    }
}

#[verifier::rlimit(40)]
proof fn lemma_insert_subtree(c: InsertSubtree, d: DocView, n: u64)
    requires
        d.next_id <= n,
    ensures
        c.can_apply(d) ==> c.can_apply(with_next(d, n)),
        c.can_apply(d) ==> c.apply_view(d).next_id == d.next_id,
        c.can_apply(d) ==> c.apply_view(with_next(d, n)) == with_next(c.apply_view(d), n),
        c.undoable(d) ==> c.undoable(with_next(d, n)),
        c.can_revert(d) ==> c.can_revert(with_next(d, n)),
        c.can_revert(d) ==> c.revert_view(d).next_id == d.next_id,
        c.can_revert(d) ==> c.revert_view(with_next(d, n)) == with_next(c.revert_view(d), n),
{
}

/// What a command accepts and what it does do not depend on the next id to
/// allocate, past the ids it names: raising it keeps the command accepted,
/// commutes with its effect, and the command leaves it alone.
pub proof fn lemma_next_id_free(c: Command, d: DocView, n: u64)
    requires
        d.next_id <= n,
    ensures
        c.can_apply(d) ==> c.can_apply(with_next(d, n)),
        c.can_apply(d) ==> c.apply_view(d).next_id == d.next_id,
        c.can_apply(d) ==> c.apply_view(with_next(d, n)) == with_next(c.apply_view(d), n),
        c.can_apply(d) && c.undoable(d) ==> c.undoable(with_next(d, n)),
        c.can_revert(d) ==> c.can_revert(with_next(d, n)),
        c.can_revert(d) ==> c.revert_view(d).next_id == d.next_id,
        c.can_revert(d) ==> c.revert_view(with_next(d, n)) == with_next(c.revert_view(d), n),
    decreases c,
{
    reveal(Command::can_apply);
    reveal(Command::apply_view);
    reveal(Command::undoable);
    reveal(Command::can_revert);
    reveal(Command::revert_view);
    match c {
        Command::AddNode(x) => lemma_add_node(x, d, n),
        Command::RemoveNode(x) => lemma_remove_node(x, d, n),
        Command::MoveNode(x) => lemma_move_node(x, d, n),
        Command::SetName(x) => lemma_set_name(x, d, n),
        Command::SetVisible(x) => lemma_set_visible(x, d, n),
        Command::SetOpacity(x) => lemma_set_opacity(x, d, n),
        Command::SetBlend(x) => lemma_set_blend(x, d, n),
        Command::SetClip(x) => lemma_set_clip(x, d, n),
        Command::SetOffset(x) => lemma_set_offset(x, d, n),
        Command::SetSmartScale(x) => lemma_set_smart_scale(x, d, n),
        Command::SetSmartRotation(x) => lemma_set_smart_rotation(x, d, n),
        Command::SetAdjustment(x) => lemma_set_adjustment(x, d, n),
        Command::SetLayerMask(x) => lemma_set_layer_mask(x, d, n),
        Command::SetVectorShapes(x) => lemma_set_vector_shapes(x, d, n),
        Command::ReplaceLayerTiles(x) => lemma_replace_layer_tiles(x, d, n),
        Command::ReplaceNodeKind(x) => lemma_replace_node_kind(x, d, n),
        Command::SetSelection(x) => lemma_set_selection(x, d, n),
        Command::CanvasResize(x) => lemma_canvas_resize(x, d, n),
        Command::ResizeImage(x) => lemma_resize_image(x, d, n),
        Command::CropCanvas(x) => lemma_crop_canvas(x, d, n),
        Command::PaintTiles(x) => lemma_paint_tiles(x, d, n),
        Command::GroupNodes(x) => lemma_group_nodes(x, d, n),
        Command::UngroupNode(x) => lemma_ungroup_node(x, d, n),
        Command::ApplyLayerMask(x) => lemma_apply_layer_mask(x, d, n),
        Command::FlattenDocument(x) => lemma_flatten_document(x, d, n),
        Command::MergeVisible(x) => lemma_merge_visible(x, d, n),
        Command::Batch(x) => lemma_batch_next(x, d, n),
        Command::InsertSubtree(x) => lemma_insert_subtree(x, d, n),
    }
}

proof fn lemma_batch_next(b: Batch, d: DocView, n: u64)
    requires
        d.next_id <= n,
    ensures
        b.can_apply(d) ==> b.can_apply(with_next(d, n)),
        b.can_apply(d) ==> b.apply_view(d).next_id == d.next_id,
        b.can_apply(d) ==> b.apply_view(with_next(d, n)) == with_next(b.apply_view(d), n),
        b.can_apply(d) && b.undoable(d) ==> b.undoable(with_next(d, n)),
        b.can_revert(d) ==> b.can_revert(with_next(d, n)),
        b.can_revert(d) ==> b.revert_view(d).next_id == d.next_id,
        b.can_revert(d) ==> b.revert_view(with_next(d, n)) == with_next(b.revert_view(d), n),
    decreases b,
{
    lemma_chain_next(b.cmds@, d, n);
    lemma_unchain_next(b.cmds@, d, n);
}

proof fn lemma_chain_next(cs: Seq<Command>, d: DocView, n: u64)
    requires
        d.next_id <= n,
    ensures
        chain_ok(cs, d) ==> chain_ok(cs, with_next(d, n)),
        chain_ok(cs, d) ==> chain_view(cs, d).next_id == d.next_id,
        chain_ok(cs, d) ==> chain_view(cs, with_next(d, n)) == with_next(chain_view(cs, d), n),
        chain_ok(cs, d) && chain_undoable(cs, d) ==> chain_undoable(cs, with_next(d, n)),
    decreases cs,
{
    if cs.len() > 0 {
        let w = with_next(d, n);
        lemma_chain_step(cs, d);
        lemma_chain_step(cs, w);
        lemma_next_id_free(cs[0], d, n);
        if cs[0].can_apply(d) {
            let d1 = cs[0].apply_view(d);
            lemma_chain_next(cs.skip(1), d1, n);
            assert(cs[0].apply_view(w) == with_next(d1, n));
            assert(chain_ok(cs, d) == chain_ok(cs.skip(1), d1));
            assert(chain_ok(cs, w) == (cs[0].can_apply(w) && chain_ok(cs.skip(1), cs[0].apply_view(w))));
            assert(chain_view(cs, d) == chain_view(cs.skip(1), d1));
            assert(chain_view(cs, w) == chain_view(cs.skip(1), cs[0].apply_view(w)));
            assert(chain_undoable(cs, d) == (cs[0].undoable(d) && chain_undoable(cs.skip(1), d1)));
            assert(chain_undoable(cs, w) == (cs[0].undoable(w) && chain_undoable(cs.skip(1), cs[0].apply_view(w))));
        }
    }
}

proof fn lemma_unchain_next(cs: Seq<Command>, e: DocView, n: u64)
    requires
        e.next_id <= n,
    ensures
        unchain_ok(cs, e) ==> unchain_ok(cs, with_next(e, n)),
        unchain_ok(cs, e) ==> unchain_view(cs, e).next_id == e.next_id,
        unchain_ok(cs, e) ==> unchain_view(cs, with_next(e, n)) == with_next(unchain_view(cs, e), n),
    decreases cs,
{
    if cs.len() > 0 {
        let w = with_next(e, n);
        lemma_unchain_step(cs, e);
        lemma_unchain_step(cs, w);
        lemma_next_id_free(cs.last(), e, n);
        if cs.last().can_revert(e) {
            let e1 = cs.last().revert_view(e);
            lemma_unchain_next(cs.drop_last(), e1, n);
            assert(cs.last().revert_view(w) == with_next(e1, n));
            assert(unchain_ok(cs, e) == unchain_ok(cs.drop_last(), e1));
            assert(unchain_ok(cs, w) == (cs.last().can_revert(w) && unchain_ok(cs.drop_last(), cs.last().revert_view(w))));
            assert(unchain_view(cs, e) == unchain_view(cs.drop_last(), e1));
            assert(unchain_view(cs, w) == unchain_view(cs.drop_last(), cs.last().revert_view(w)));
        }
    }
}

} // verus!
