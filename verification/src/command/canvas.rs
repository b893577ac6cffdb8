//! Document-wide edits: selection, canvas size, image resize and crop.

use vstd::prelude::*;
use crate::command::content::{dup_mask, offset_of, take_kind, with_offset};
use crate::command::layer::{placed_view, put_tiles, tiles_of, with_tiles};
use crate::document::{DocView, Document};
use crate::document::edit::{lemma_with_kind, with_kind};
use crate::mask::Mask;
use crate::node::{ids_view, mask_view, KindView, NodeId, NodeKind, NodeView};
use crate::tile::{TileCoord, TileMap};

verus! {

/// Change the document selection (select, deselect).
#[derive(Debug)]
pub struct SetSelection {
    pub old: Option<Mask>,
    pub new: Option<Mask>,
    pub label: String,
}

impl SetSelection {
    /// Build the command, capturing the current selection.
    pub fn new(doc: &Document, new: Option<Mask>, label: String) -> (r: SetSelection)
        ensures
            mask_view(r.old) == doc@.selection,
            r.new == new,
            r.label == label,
            r.undoable(doc@),
    {
        SetSelection { old: dup_mask(doc.current_selection()), new, label }
    }

    /// The label given at construction.
    pub fn label(&self) -> (r: String)
        ensures
            r@ == self.label@,
    {
        self.label.clone()
    }

    /// Always accepted.
    pub open spec fn can_apply(&self, d: DocView) -> bool {
        true
    }

    /// The document after apply.
    pub open spec fn apply_view(&self, d: DocView) -> DocView {
        DocView { selection: mask_view(self.new), ..d }
    }

    /// The document still has the captured selection.
    pub open spec fn undoable(&self, d: DocView) -> bool {
        d.selection == mask_view(self.old)
    }

    /// The document has the new selection.
    pub open spec fn can_revert(&self, d: DocView) -> bool {
        d.selection == mask_view(self.new)
    }

    /// The document after revert.
    pub open spec fn revert_view(&self, d: DocView) -> DocView {
        DocView { selection: mask_view(self.old), ..d }
    }

    /// Select the new selection. Undoing right after restores the document
    /// exactly when it had the captured selection.
    pub fn apply(&mut self, doc: &mut Document)
        requires
            old(doc).wf(),
            old(self).can_apply(old(doc)@),
        ensures
            final(doc).wf(),
            *final(self) == *old(self),
            final(doc)@ == old(self).apply_view(old(doc)@),
            old(self).undoable(old(doc)@) ==> final(self).can_revert(final(doc)@) && final(self).revert_view(final(doc)@)
                == old(doc)@,
    {
        doc.set_selection(dup_mask(&self.new));
    }

    /// Select the old selection again. Redoing right after restores the
    /// document exactly.
    pub fn revert(&mut self, doc: &mut Document)
        requires
            old(doc).wf(),
            old(self).can_revert(old(doc)@),
        ensures
            final(doc).wf(),
            *final(self) == *old(self),
            final(doc)@ == old(self).revert_view(old(doc)@),
            final(self).can_apply(final(doc)@),
            final(self).undoable(final(doc)@),
            final(self).apply_view(final(doc)@) == old(doc)@,
    {
        doc.set_selection(dup_mask(&self.old));
    }
}

/// Resize the canvas (anchored top-left, no resampling).
#[derive(Debug)]
pub struct CanvasResize {
    pub old: [u32; 2],
    pub new: [u32; 2],
}

impl CanvasResize {
    /// Build the command, capturing the current size.
    pub fn new(doc: &Document, new: [u32; 2]) -> (r: CanvasResize)
        ensures
            r.old == doc@.size,
            r.new == new,
            r.undoable(doc@),
    {
        CanvasResize { old: doc.canvas_size(), new }
    }

    /// "Canvas Size".
    pub fn label(&self) -> (r: String)
        ensures
            r@ == "Canvas Size"@,
    {
        String::from_str("Canvas Size")
    }

    /// Always accepted.
    pub open spec fn can_apply(&self, d: DocView) -> bool {
        true
    }

    /// The document after apply.
    pub open spec fn apply_view(&self, d: DocView) -> DocView {
        DocView { size: self.new, ..d }
    }

    /// The document still has the captured size.
    pub open spec fn undoable(&self, d: DocView) -> bool {
        d.size == self.old
    }

    /// The document has the new size.
    pub open spec fn can_revert(&self, d: DocView) -> bool {
        d.size == self.new
    }

    /// The document after revert.
    pub open spec fn revert_view(&self, d: DocView) -> DocView {
        DocView { size: self.old, ..d }
    }

    /// Set the new size. Undoing right after restores the document exactly
    /// when it had the captured size.
    pub fn apply(&mut self, doc: &mut Document)
        requires
            old(doc).wf(),
            old(self).can_apply(old(doc)@),
        ensures
            final(doc).wf(),
            *final(self) == *old(self),
            final(doc)@ == old(self).apply_view(old(doc)@),
            old(self).undoable(old(doc)@) ==> final(self).can_revert(final(doc)@) && final(self).revert_view(final(doc)@)
                == old(doc)@,
    {
        doc.set_size(self.new);
    }

    /// Set the old size back. Redoing right after restores the document
    /// exactly.
    pub fn revert(&mut self, doc: &mut Document)
        requires
            old(doc).wf(),
            old(self).can_revert(old(doc)@),
        ensures
            final(doc).wf(),
            *final(self) == *old(self),
            final(doc)@ == old(self).revert_view(old(doc)@),
            final(self).can_apply(final(doc)@),
            final(self).undoable(final(doc)@),
            final(self).apply_view(final(doc)@) == old(doc)@,
    {
        doc.set_size(self.old);
    }
}

/// `m` with each listed raster layer's tiles and offset set to its entry's,
/// entries taken in order.
pub open spec fn placed(m: Map<u64, NodeView>, s: Seq<(u64, (Map<TileCoord, Seq<u8>>, [i32; 2]))>) -> Map<u64, NodeView>
    decreases s.len(),
{
    if s.len() == 0 {
        m
    } else {
        let m1 = placed(m, s.drop_last());
        let (id, p) = s.last();
        if m1.contains_key(id) && tiles_of(m1[id].kind) is Some {
            m1.insert(id, NodeView { kind: with_tiles(m1[id].kind, p.0, p.1), ..m1[id] })
        } else {
            m1
        }
    }
}

/// Ids of placement entries.
pub open spec fn placed_ids(s: Seq<(u64, (Map<TileCoord, Seq<u8>>, [i32; 2]))>) -> Seq<u64> {
    s.map_values(|e: (u64, (Map<TileCoord, Seq<u8>>, [i32; 2]))| e.0)
}

/// With distinct ids, each listed raster layer gets its entry's placement
/// and every other node is unchanged.
pub proof fn lemma_placed(m: Map<u64, NodeView>, s: Seq<(u64, (Map<TileCoord, Seq<u8>>, [i32; 2]))>)
    requires
        placed_ids(s).no_duplicates(),
    ensures
        placed(m, s).dom() == m.dom(),
        forall|x: u64| !placed_ids(s).contains(x) ==> #[trigger] placed(m, s)[x] == m[x],
        forall|i: int|
            0 <= i < s.len() && m.contains_key(s[i].0) ==> #[trigger] placed(m, s)[s[i].0] == if tiles_of(m[s[i].0].kind) is Some {
                NodeView { kind: with_tiles(m[s[i].0].kind, s[i].1.0, s[i].1.1), ..m[s[i].0] }
            } else {
                m[s[i].0]
            },
    decreases s.len(),
{
    if s.len() > 0 {
        let t = s.drop_last();
        assert(placed_ids(t) =~= placed_ids(s).drop_last());
        assert forall|a: int, b: int| 0 <= a < placed_ids(t).len() && 0 <= b < placed_ids(t).len() && a != b
            implies placed_ids(t)[a] != placed_ids(t)[b] by {
            assert(placed_ids(t)[a] == placed_ids(s)[a] && placed_ids(t)[b] == placed_ids(s)[b]);
        }
        lemma_placed(m, t);
        let last = s.last();
        let n = s.len() - 1;
        assert(placed_ids(s)[n] == last.0);
        assert(!placed_ids(t).contains(last.0)) by {
            if placed_ids(t).contains(last.0) {
                let j = choose|j: int| 0 <= j < placed_ids(t).len() && placed_ids(t)[j] == last.0;
                assert(placed_ids(s)[j] == placed_ids(s)[n]);
            }
        }
        assert(placed(m, t)[last.0] == m[last.0]);
        assert(placed(m, s).dom() =~= m.dom());
        assert forall|x: u64| !placed_ids(s).contains(x) implies #[trigger] placed(m, s)[x] == m[x] by {
            assert(x != last.0);
            if placed_ids(t).contains(x) {
                let j = choose|j: int| 0 <= j < placed_ids(t).len() && placed_ids(t)[j] == x;
                assert(placed_ids(s)[j] == x);
            }
        }
        assert forall|i: int|
            0 <= i < s.len() && m.contains_key(s[i].0) implies #[trigger] placed(m, s)[s[i].0] == if tiles_of(m[s[i].0].kind) is Some {
                NodeView { kind: with_tiles(m[s[i].0].kind, s[i].1.0, s[i].1.1), ..m[s[i].0] }
            } else {
                m[s[i].0]
            } by {
            if i < n {
                assert(t[i] == s[i]);
                assert(placed_ids(s)[i] == s[i].0);
                assert(placed_ids(s)[i] != placed_ids(s)[n]);
                assert(placed(m, t)[t[i].0] == if tiles_of(m[t[i].0].kind) is Some {
                    NodeView { kind: with_tiles(m[t[i].0].kind, t[i].1.0, t[i].1.1), ..m[t[i].0] }
                } else {
                    m[t[i].0]
                });
            }
        }
    }
}

/// Layer entries of an image resize: id, placement before, placement after.
pub type ResizedLayer = (NodeId, (TileMap, [i32; 2]), (TileMap, [i32; 2]));

/// Abstract placements of resize entries, before or after.
pub open spec fn layer_placements(ls: Seq<ResizedLayer>, after: bool) -> Seq<(u64, (Map<TileCoord, Seq<u8>>, [i32; 2]))> {
    ls.map_values(|e: ResizedLayer| (e.0.0, if after { placed_view(e.2) } else { placed_view(e.1) }))
}

/// Resample the whole image to a new pixel size: the canvas size and every
/// affected raster layer's tiles and offset, before and after.
#[derive(Debug)]
pub struct ResizeImage {
    pub old_size: [u32; 2],
    pub new_size: [u32; 2],
    pub layers: Vec<ResizedLayer>,
}

/// `d` resized: size set and each listed raster layer placed.
pub open spec fn resized_view(d: DocView, size: [u32; 2], s: Seq<(u64, (Map<TileCoord, Seq<u8>>, [i32; 2]))>) -> DocView {
    DocView { size, nodes: placed(d.nodes, s), ..d }
}

impl ResizeImage {
    /// Build the command from the resampled layers, capturing each layer's
    /// current tiles and offset; every layer must be a present raster layer.
    pub fn new(doc: &Document, new_size: [u32; 2], baked: Vec<(NodeId, (TileMap, [i32; 2]))>) -> (r: ResizeImage)
        requires
            forall|i: int| 0 <= i < baked@.len() ==> doc@.nodes.contains_key(#[trigger] baked@[i].0.0)
                && tiles_of(doc@.nodes[baked@[i].0.0].kind) is Some,
        ensures
            r.old_size == doc@.size,
            r.new_size == new_size,
            r.layers@.len() == baked@.len(),
            forall|i: int| 0 <= i < baked@.len() ==> {
                &&& (#[trigger] r.layers@[i]).0 == baked@[i].0
                &&& placed_view(r.layers@[i].2) == placed_view(baked@[i].1)
                &&& Some(placed_view(r.layers@[i].1)) == tiles_of(doc@.nodes[baked@[i].0.0].kind)
            },
    {
        let mut layers: Vec<ResizedLayer> = Vec::new();
        let mut baked = baked;
        let ghost b0 = baked@;
        let mut i: usize = 0;
        let n = baked.len();
        while baked.len() > 0
            invariant
                baked@.len() + layers@.len() == n,
                n == b0.len(),
                baked@ == b0.skip(layers@.len() as int),
                forall|i: int| 0 <= i < b0.len() ==> doc@.nodes.contains_key(#[trigger] b0[i].0.0)
                    && tiles_of(doc@.nodes[b0[i].0.0].kind) is Some,
                forall|i: int| 0 <= i < layers@.len() ==> {
                    &&& (#[trigger] layers@[i]).0 == b0[i].0
                    &&& placed_view(layers@[i].2) == placed_view(b0[i].1)
                    &&& Some(placed_view(layers@[i].1)) == tiles_of(doc@.nodes[b0[i].0.0].kind)
                },
            decreases baked@.len(),
        {
            let ghost k = layers@.len() as int;
            let (id, new) = baked.remove(0);
            proof {
                assert(b0.skip(k)[0] == b0[k]);
                assert(b0.skip(k + 1) =~= b0.skip(k).skip(1));
            }
            let old = match doc.node(id) {
                Some(nd) => match &nd.kind {
                    NodeKind::Raster(c) => (c.tiles.duplicate(), c.offset),
                    _ => {
                        assert(false);
                        (TileMap::new(), [0, 0])
                    },
                },
                None => {
                    assert(false);
                    (TileMap::new(), [0, 0])
                },
            };
            layers.push((id, old, new));
        }
        ResizeImage { old_size: doc.canvas_size(), new_size, layers }
    }

    /// "Image Size".
    pub fn label(&self) -> (r: String)
        ensures
            r@ == "Image Size"@,
    {
        String::from_str("Image Size")
    }

    /// Every listed layer is present, each listed once.
    pub open spec fn can_apply(&self, d: DocView) -> bool {
        &&& placed_ids(layer_placements(self.layers@, true)).no_duplicates()
        &&& forall|i: int| 0 <= i < self.layers@.len() ==> d.nodes.contains_key(#[trigger] self.layers@[i].0.0)
    }

    /// The document after apply.
    pub open spec fn apply_view(&self, d: DocView) -> DocView {
        resized_view(d, self.new_size, layer_placements(self.layers@, true))
    }

    /// The document still has the captured size and placements.
    pub open spec fn undoable(&self, d: DocView) -> bool {
        &&& d.size == self.old_size
        &&& forall|i: int|
            0 <= i < self.layers@.len() && tiles_of(d.nodes[#[trigger] self.layers@[i].0.0].kind) is Some
                ==> tiles_of(d.nodes[self.layers@[i].0.0].kind) == Some(placed_view(self.layers@[i].1))
    }

    /// The document has the new size and placements, every listed layer
    /// present and listed once.
    pub open spec fn can_revert(&self, d: DocView) -> bool {
        &&& d.size == self.new_size
        &&& placed_ids(layer_placements(self.layers@, true)).no_duplicates()
        &&& forall|i: int| 0 <= i < self.layers@.len() ==> d.nodes.contains_key(#[trigger] self.layers@[i].0.0)
        &&& forall|i: int|
            0 <= i < self.layers@.len() && tiles_of(d.nodes[#[trigger] self.layers@[i].0.0].kind) is Some
                ==> tiles_of(d.nodes[self.layers@[i].0.0].kind) == Some(placed_view(self.layers@[i].2))
    }

    /// The document after revert.
    pub open spec fn revert_view(&self, d: DocView) -> DocView {
        resized_view(d, self.old_size, layer_placements(self.layers@, false))
    }

    /// Put the placements of `ls` (before or after) in place, in order.
    fn put_all(doc: &mut Document, ls: &Vec<ResizedLayer>, after: bool)
        requires
            old(doc).wf(),
            forall|i: int| 0 <= i < ls@.len() ==> old(doc)@.nodes.contains_key(#[trigger] ls@[i].0.0),
        ensures
            final(doc).wf(),
            final(doc)@ == (DocView { nodes: placed(old(doc)@.nodes, layer_placements(ls@, after)), ..old(doc)@ }),
    {
        let ghost d = doc@;
        let ghost s = layer_placements(ls@, after);
        for i in 0..ls.len()
            invariant
                doc.wf(),
                s == layer_placements(ls@, after),
                doc@ == (DocView { nodes: placed(d.nodes, s.take(i as int)), ..d }),
                forall|i: int| 0 <= i < ls@.len() ==> d.nodes.contains_key(#[trigger] ls@[i].0.0),
        {
            proof {
                assert(s.take(i + 1).drop_last() =~= s.take(i as int));
                assert(placed(d.nodes, s.take(i as int)).dom() == d.nodes.dom()) by {
                    lemma_placed_dom(d.nodes, s.take(i as int));
                }
            }
            let e = &ls[i];
            if after {
                put_tiles(doc, e.0, &e.2);
            } else {
                put_tiles(doc, e.0, &e.1);
            }
            proof {
                let m1 = placed(d.nodes, s.take(i as int));
                assert(s.take(i + 1).last() == s[i as int]);
                assert(doc@.nodes =~= placed(d.nodes, s.take(i + 1)));
            }
        }
        proof {
            assert(s.take(s.len() as int) =~= s);
        }
    }

    /// Resize the canvas and put the resampled layers in place. Undoing right
    /// after restores the document exactly when it had the captured size and
    /// placements.
    pub fn apply(&mut self, doc: &mut Document)
        requires
            old(doc).wf(),
            old(self).can_apply(old(doc)@),
        ensures
            final(doc).wf(),
            *final(self) == *old(self),
            final(doc)@ == old(self).apply_view(old(doc)@),
            old(self).undoable(old(doc)@) ==> final(self).can_revert(final(doc)@) && final(self).revert_view(final(doc)@)
                == old(doc)@,
    {
        let ghost d = doc@;
        doc.set_size(self.new_size);
        Self::put_all(doc, &self.layers, true);
        proof {
            self.lemma_round_trip(d);
        }
    }

    /// Restore the canvas size and the captured layers. Redoing right after
    /// restores the document exactly.
    pub fn revert(&mut self, doc: &mut Document)
        requires
            old(doc).wf(),
            old(self).can_revert(old(doc)@),
        ensures
            final(doc).wf(),
            *final(self) == *old(self),
            final(doc)@ == old(self).revert_view(old(doc)@),
            final(self).can_apply(final(doc)@),
            final(self).undoable(final(doc)@),
            final(self).apply_view(final(doc)@) == old(doc)@,
    {
        let ghost d = doc@;
        doc.set_size(self.old_size);
        Self::put_all(doc, &self.layers, false);
        proof {
            self.lemma_round_trip_back(d);
        }
    }

    /// Placing the new layers then the old ones restores a document that had
    /// the old ones, and the other way round.
    proof fn lemma_round_trip(&self, d: DocView)
        requires
            self.can_apply(d),
        ensures
            self.undoable(d) ==> self.can_revert(self.apply_view(d)) && self.revert_view(self.apply_view(d)) == d,
    {
        let news = layer_placements(self.layers@, true);
        let olds = layer_placements(self.layers@, false);
        assert(placed_ids(olds) =~= placed_ids(news));
        lemma_placed(d.nodes, news);
        let m1 = placed(d.nodes, news);
        lemma_placed(m1, olds);
        if self.undoable(d) {
            let m2 = placed(m1, olds);
            assert forall|x: u64| m2.contains_key(x) implies m2[x] == d.nodes[x] by {
                if placed_ids(news).contains(x) {
                    let i = choose|i: int| 0 <= i < placed_ids(news).len() && placed_ids(news)[i] == x;
                    assert(news[i].0 == x && olds[i].0 == x);
                    assert(self.layers@[i].0.0 == x);
                    assert(m1[news[i].0] == if tiles_of(d.nodes[news[i].0].kind) is Some {
                        NodeView { kind: with_tiles(d.nodes[news[i].0].kind, news[i].1.0, news[i].1.1), ..d.nodes[news[i].0] }
                    } else {
                        d.nodes[news[i].0]
                    });
                    assert(m2[olds[i].0] == if tiles_of(m1[olds[i].0].kind) is Some {
                        NodeView { kind: with_tiles(m1[olds[i].0].kind, olds[i].1.0, olds[i].1.1), ..m1[olds[i].0] }
                    } else {
                        m1[olds[i].0]
                    });
                } else {
                    assert(placed_ids(olds) == placed_ids(news));
                }
            }
            assert(m2 =~= d.nodes);
            let d1 = self.apply_view(d);
            assert forall|i: int|
                0 <= i < self.layers@.len() && tiles_of(d1.nodes[#[trigger] self.layers@[i].0.0].kind) is Some
                    implies tiles_of(d1.nodes[self.layers@[i].0.0].kind) == Some(placed_view(self.layers@[i].2)) by {
                assert(news[i].0 == self.layers@[i].0.0);
            }
        }
    }

    /// Placing the old layers then the new ones restores a document that had
    /// the new ones.
    proof fn lemma_round_trip_back(&self, d: DocView)
        requires
            self.can_revert(d),
        ensures
            self.can_apply(self.revert_view(d)),
            self.undoable(self.revert_view(d)),
            self.apply_view(self.revert_view(d)) == d,
    {
        let news = layer_placements(self.layers@, true);
        let olds = layer_placements(self.layers@, false);
        assert(placed_ids(olds) =~= placed_ids(news));
        lemma_placed(d.nodes, olds);
        let m1 = placed(d.nodes, olds);
        lemma_placed(m1, news);
        let m2 = placed(m1, news);
        assert forall|x: u64| m2.contains_key(x) implies m2[x] == d.nodes[x] by {
            if placed_ids(news).contains(x) {
                let i = choose|i: int| 0 <= i < placed_ids(news).len() && placed_ids(news)[i] == x;
                assert(news[i].0 == x && olds[i].0 == x);
                assert(self.layers@[i].0.0 == x);
                assert(m1[olds[i].0] == if tiles_of(d.nodes[olds[i].0].kind) is Some {
                    NodeView { kind: with_tiles(d.nodes[olds[i].0].kind, olds[i].1.0, olds[i].1.1), ..d.nodes[olds[i].0] }
                } else {
                    d.nodes[olds[i].0]
                });
                assert(m2[news[i].0] == if tiles_of(m1[news[i].0].kind) is Some {
                    NodeView { kind: with_tiles(m1[news[i].0].kind, news[i].1.0, news[i].1.1), ..m1[news[i].0] }
                } else {
                    m1[news[i].0]
                });
            }
        }
        assert(m2 =~= d.nodes);
        let d1 = self.revert_view(d);
        assert forall|i: int| 0 <= i < self.layers@.len() implies d1.nodes.contains_key(#[trigger] self.layers@[i].0.0) by {
            assert(olds[i].0 == self.layers@[i].0.0);
        }
        assert forall|i: int|
            0 <= i < self.layers@.len() && tiles_of(d1.nodes[#[trigger] self.layers@[i].0.0].kind) is Some
                implies tiles_of(d1.nodes[self.layers@[i].0.0].kind) == Some(placed_view(self.layers@[i].1)) by {
            assert(olds[i].0 == self.layers@[i].0.0);
        }
    }
}

/// Placing keeps the set of nodes.
proof fn lemma_placed_dom(m: Map<u64, NodeView>, s: Seq<(u64, (Map<TileCoord, Seq<u8>>, [i32; 2]))>)
    ensures
        placed(m, s).dom() == m.dom(),
    decreases s.len(),
{
    if s.len() > 0 {
        lemma_placed_dom(m, s.drop_last());
        assert(placed(m, s).dom() =~= m.dom());
    }
}

/// `k` with a raster layer's offset moved by `(dx, dy)`.
pub open spec fn shift_kind(k: KindView, dx: int, dy: int) -> KindView {
    match k {
        KindView::Raster { art, offset, tiles, mask } => KindView::Raster {
            art,
            offset: [(offset[0] + dx) as i32, (offset[1] + dy) as i32],
            tiles,
            mask,
        },
        _ => k,
    }
}

/// A raster layer's offset moved by `(dx, dy)` stays in `i32` range.
pub open spec fn shift_fits(k: KindView, dx: int, dy: int) -> bool {
    k matches KindView::Raster { offset, .. } ==> i32::MIN <= offset[0] + dx <= i32::MAX && i32::MIN <= offset[1] + dy
        <= i32::MAX
}

/// `m` with each listed raster layer's offset moved by `(dx, dy)`, in order.
pub open spec fn shifted(m: Map<u64, NodeView>, ids: Seq<u64>, dx: int, dy: int) -> Map<u64, NodeView>
    decreases ids.len(),
{
    if ids.len() == 0 {
        m
    } else {
        let m1 = shifted(m, ids.drop_last(), dx, dy);
        let id = ids.last();
        if m1.contains_key(id) && m1[id].kind is Raster {
            m1.insert(id, NodeView { kind: shift_kind(m1[id].kind, dx, dy), ..m1[id] })
        } else {
            m1
        }
    }
}

/// With distinct ids, each listed raster layer moves once and every other
/// node is unchanged.
pub proof fn lemma_shifted(m: Map<u64, NodeView>, ids: Seq<u64>, dx: int, dy: int)
    requires
        ids.no_duplicates(),
    ensures
        shifted(m, ids, dx, dy).dom() == m.dom(),
        forall|x: u64| !ids.contains(x) ==> #[trigger] shifted(m, ids, dx, dy)[x] == m[x],
        forall|i: int|
            0 <= i < ids.len() && m.contains_key(ids[i]) ==> #[trigger] shifted(m, ids, dx, dy)[ids[i]] == if m[ids[i]].kind is Raster {
                NodeView { kind: shift_kind(m[ids[i]].kind, dx, dy), ..m[ids[i]] }
            } else {
                m[ids[i]]
            },
    decreases ids.len(),
{
    if ids.len() > 0 {
        let t = ids.drop_last();
        lemma_shifted(m, t, dx, dy);
        let last = ids.last();
        let n = ids.len() - 1;
        assert(!t.contains(last)) by {
            if t.contains(last) {
                let j = choose|j: int| 0 <= j < t.len() && t[j] == last;
                assert(ids[j] == ids[n]);
            }
        }
        assert(shifted(m, ids, dx, dy).dom() =~= m.dom());
        assert forall|i: int|
            0 <= i < ids.len() && m.contains_key(ids[i]) implies #[trigger] shifted(m, ids, dx, dy)[ids[i]] == if m[ids[i]].kind is Raster {
                NodeView { kind: shift_kind(m[ids[i]].kind, dx, dy), ..m[ids[i]] }
            } else {
                m[ids[i]]
            } by {
            if i < n {
                assert(t[i] == ids[i]);
                assert(ids[i] != ids[n]);
            }
        }
    }
}

/// Crop the canvas to a document-space rectangle: resize, and move every
/// raster layer by minus the rectangle's corner (no resampling).
#[derive(Debug)]
pub struct CropCanvas {
    pub old_size: [u32; 2],
    pub new_size: [u32; 2],
    pub shift: [i32; 2],
    pub rasters: Vec<NodeId>,
}

/// Move raster node `id` by `(dx, dy)` (no change to other nodes).
fn shift_one(doc: &mut Document, id: NodeId, dx: i32, dy: i32)
    requires
        old(doc).wf(),
        old(doc)@.nodes.contains_key(id.0),
        shift_fits(old(doc)@.nodes[id.0].kind, dx as int, dy as int),
    ensures
        final(doc).wf(),
        final(doc)@ == if old(doc)@.nodes[id.0].kind is Raster {
            with_kind(old(doc)@, id.0, shift_kind(old(doc)@.nodes[id.0].kind, dx as int, dy as int))
        } else {
            old(doc)@
        },
{
    let ghost d = doc@;
    let k = take_kind(doc, id);
    let k2 = match k {
        NodeKind::Raster(mut c) => {
            c.offset = [c.offset[0] + dx, c.offset[1] + dy];
            NodeKind::Raster(c)
        },
        other => other,
    };
    let _ = doc.replace_kind(id, k2);
    proof {
        lemma_with_kind(d, id.0, KindView::Fill, k2@);
    }
}

impl CropCanvas {
    /// Build the command for `rect` (`x0, y0, x1, y1`): the new size is the
    /// rectangle's, at least 1 per axis, and every raster layer is listed.
    pub fn new(doc: &Document, rect: [i32; 4]) -> (r: CropCanvas)
        requires
            i32::MIN <= rect[2] - rect[0] <= i32::MAX,
            i32::MIN <= rect[3] - rect[1] <= i32::MAX,
        ensures
            r.old_size == doc@.size,
            r.new_size[0] == if rect[2] - rect[0] < 1 { 1 } else { rect[2] - rect[0] },
            r.new_size[1] == if rect[3] - rect[1] < 1 { 1 } else { rect[3] - rect[1] },
            r.shift == [rect[0], rect[1]],
            ids_view(r.rasters@).no_duplicates(),
            forall|x: u64| #[trigger] ids_view(r.rasters@).contains(x) <==> doc@.nodes.contains_key(x) && doc@.nodes[x].kind is Raster,
            r.undoable(doc@),
    {
        let w = rect[2] - rect[0];
        let h = rect[3] - rect[1];
        let new_size: [u32; 2] = [if w < 1 { 1 } else { w as u32 }, if h < 1 { 1 } else { h as u32 }];
        let all = doc.node_ids();
        let ghost a = ids_view(all@);
        let mut rasters: Vec<NodeId> = Vec::new();
        for i in 0..all.len()
            invariant
                a == ids_view(all@),
                a.no_duplicates(),
                a.to_set() == doc@.nodes.dom(),
                forall|x: u64| #[trigger] ids_view(rasters@).contains(x) <==> a.take(i as int).contains(x)
                    && doc@.nodes.contains_key(x) && doc@.nodes[x].kind is Raster,
                ids_view(rasters@).no_duplicates(),
        {
            let id = all[i];
            let is_raster = match doc.node(id) {
                Some(n) => match &n.kind {
                    NodeKind::Raster(_) => true,
                    _ => false,
                },
                None => false,
            };
            let ghost before = ids_view(rasters@);
            let ghost t = a.take(i as int);
            let ghost t1 = a.take(i + 1);
            proof {
                assert(a[i as int] == id.0);
                assert(t1 =~= t.push(id.0));
                assert forall|x: u64| #[trigger] t1.contains(x) <==> t.contains(x) || x == id.0 by {
                    if t1.contains(x) && x != id.0 {
                        let j = choose|j: int| 0 <= j < t1.len() && t1[j] == x;
                        assert(t[j] == x);
                    }
                    if t.contains(x) {
                        let j = choose|j: int| 0 <= j < t.len() && t[j] == x;
                        assert(t1[j] == x);
                    }
                    if x == id.0 {
                        assert(t1[i as int] == x);
                    }
                }
                assert(!t.contains(id.0)) by {
                    if t.contains(id.0) {
                        let j = choose|j: int| 0 <= j < t.len() && t[j] == id.0;
                        assert(a[j] == a[i as int]);
                    }
                }
            }
            if is_raster {
                rasters.push(id);
                proof {
                    assert(ids_view(rasters@) =~= before.push(id.0));
                    assert(!before.contains(id.0));
                    assert forall|p: int, q: int| 0 <= p < ids_view(rasters@).len() && 0 <= q < ids_view(rasters@).len() && p != q
                        implies ids_view(rasters@)[p] != ids_view(rasters@)[q] by {
                        if p < before.len() && q < before.len() {
                            assert(ids_view(rasters@)[p] == before[p] && ids_view(rasters@)[q] == before[q]);
                        } else if p < before.len() {
                            assert(ids_view(rasters@)[p] == before[p]);
                            assert(before.contains(before[p]));
                        } else if q < before.len() {
                            assert(ids_view(rasters@)[q] == before[q]);
                            assert(before.contains(before[q]));
                        }
                    }
                    assert forall|x: u64| #[trigger] ids_view(rasters@).contains(x) <==> t1.contains(x)
                        && doc@.nodes.contains_key(x) && doc@.nodes[x].kind is Raster by {
                        if ids_view(rasters@).contains(x) && x != id.0 {
                            let k = choose|k: int| 0 <= k < ids_view(rasters@).len() && ids_view(rasters@)[k] == x;
                            assert(before[k] == x);
                        }
                        if before.contains(x) {
                            let k = choose|k: int| 0 <= k < before.len() && before[k] == x;
                            assert(ids_view(rasters@)[k] == x);
                        }
                        if x == id.0 {
                            assert(ids_view(rasters@)[before.len() as int] == x);
                        }
                    }
                }
            }
        }
        proof {
            assert(a.take(a.len() as int) =~= a);
            assert forall|x: u64| #[trigger] ids_view(rasters@).contains(x) <==> doc@.nodes.contains_key(x) && doc@.nodes[x].kind is Raster by {
                if doc@.nodes.contains_key(x) {
                    assert(a.to_set().contains(x));
                }
            }
        }
        CropCanvas { old_size: doc.canvas_size(), new_size, shift: [rect[0], rect[1]], rasters }
    }

    /// "Crop".
    pub fn label(&self) -> (r: String)
        ensures
            r@ == "Crop"@,
    {
        String::from_str("Crop")
    }

    /// The listed layers are distinct and every move stays in range.
    pub open spec fn can_apply(&self, d: DocView) -> bool {
        &&& ids_view(self.rasters@).no_duplicates()
        &&& self.shift[0] > i32::MIN && self.shift[1] > i32::MIN
        &&& forall|i: int|
            0 <= i < self.rasters@.len() && d.nodes.contains_key(#[trigger] self.rasters@[i].0) ==> shift_fits(
                d.nodes[self.rasters@[i].0].kind,
                -self.shift[0],
                -self.shift[1],
            )
    }

    /// The document after apply.
    pub open spec fn apply_view(&self, d: DocView) -> DocView {
        DocView { size: self.new_size, nodes: shifted(d.nodes, ids_view(self.rasters@), -self.shift[0], -self.shift[1]), ..d }
    }

    /// The document still has the captured size.
    pub open spec fn undoable(&self, d: DocView) -> bool {
        d.size == self.old_size
    }

    /// The document has the new size and every move back stays in range.
    pub open spec fn can_revert(&self, d: DocView) -> bool {
        &&& d.size == self.new_size
        &&& ids_view(self.rasters@).no_duplicates()
        &&& self.shift[0] > i32::MIN && self.shift[1] > i32::MIN
        &&& forall|i: int|
            0 <= i < self.rasters@.len() && d.nodes.contains_key(#[trigger] self.rasters@[i].0) ==> shift_fits(
                d.nodes[self.rasters@[i].0].kind,
                self.shift[0] as int,
                self.shift[1] as int,
            )
    }

    /// The document after revert.
    pub open spec fn revert_view(&self, d: DocView) -> DocView {
        DocView { size: self.old_size, nodes: shifted(d.nodes, ids_view(self.rasters@), self.shift[0] as int, self.shift[1] as int), ..d }
    }

    /// Move every listed raster layer by `(dx, dy)`.
    fn shift_all(&self, doc: &mut Document, dx: i32, dy: i32)
        requires
            old(doc).wf(),
            ids_view(self.rasters@).no_duplicates(),
            forall|i: int|
                0 <= i < self.rasters@.len() && old(doc)@.nodes.contains_key(#[trigger] self.rasters@[i].0) ==> shift_fits(
                    old(doc)@.nodes[self.rasters@[i].0].kind,
                    dx as int,
                    dy as int,
                ),
        ensures
            final(doc).wf(),
            final(doc)@ == (DocView { nodes: shifted(old(doc)@.nodes, ids_view(self.rasters@), dx as int, dy as int), ..old(doc)@ }),
    {
        let ghost d = doc@;
        let ghost ids = ids_view(self.rasters@);
        for i in 0..self.rasters.len()
            invariant
                doc.wf(),
                ids == ids_view(self.rasters@),
                ids.no_duplicates(),
                doc@ == (DocView { nodes: shifted(d.nodes, ids.take(i as int), dx as int, dy as int), ..d }),
                forall|i: int|
                    0 <= i < self.rasters@.len() && d.nodes.contains_key(#[trigger] self.rasters@[i].0) ==> shift_fits(
                        d.nodes[self.rasters@[i].0].kind,
                        dx as int,
                        dy as int,
                    ),
        {
            let id = self.rasters[i];
            proof {
                let t = ids.take(i as int);
                assert(t.no_duplicates()) by {
                    assert forall|p: int, q: int| 0 <= p < t.len() && 0 <= q < t.len() && p != q implies t[p] != t[q] by {
                        assert(t[p] == ids[p] && t[q] == ids[q]);
                    }
                }
                lemma_shifted(d.nodes, t, dx as int, dy as int);
                assert(!t.contains(id.0)) by {
                    if t.contains(id.0) {
                        let j = choose|j: int| 0 <= j < t.len() && t[j] == id.0;
                        assert(ids[j] == ids[i as int]);
                    }
                }
                assert(ids.take(i + 1).drop_last() =~= t);
                assert(ids[i as int] == id.0);
            }
            if doc.node(id).is_some() {
                shift_one(doc, id, dx, dy);
            }
            proof {
                assert(doc@.nodes =~= shifted(d.nodes, ids.take(i + 1), dx as int, dy as int));
            }
        }
        proof {
            assert(ids.take(ids.len() as int) =~= ids);
        }
    }

    /// Resize the canvas and move the raster layers. Undoing right after
    /// restores the document exactly when it had the captured size.
    pub fn apply(&mut self, doc: &mut Document)
        requires
            old(doc).wf(),
            old(self).can_apply(old(doc)@),
        ensures
            final(doc).wf(),
            *final(self) == *old(self),
            final(doc)@ == old(self).apply_view(old(doc)@),
            old(self).undoable(old(doc)@) ==> final(self).can_revert(final(doc)@) && final(self).revert_view(final(doc)@)
                == old(doc)@,
    {
        let ghost d = doc@;
        doc.set_size(self.new_size);
        self.shift_all(doc, -self.shift[0], -self.shift[1]);
        proof {
            self.lemma_round_trip(d.nodes, -self.shift[0], -self.shift[1]);
        }
    }

    /// Restore the canvas size and move the layers back. Redoing right after
    /// restores the document exactly.
    pub fn revert(&mut self, doc: &mut Document)
        requires
            old(doc).wf(),
            old(self).can_revert(old(doc)@),
        ensures
            final(doc).wf(),
            *final(self) == *old(self),
            final(doc)@ == old(self).revert_view(old(doc)@),
            final(self).can_apply(final(doc)@),
            final(self).undoable(final(doc)@),
            final(self).apply_view(final(doc)@) == old(doc)@,
    {
        let ghost d = doc@;
        doc.set_size(self.old_size);
        self.shift_all(doc, self.shift[0], self.shift[1]);
        proof {
            self.lemma_round_trip(d.nodes, self.shift[0] as int, self.shift[1] as int);
        }
    }

    /// Moving the listed layers by `(dx, dy)` and back restores them, and the
    /// way back stays in range.
    proof fn lemma_round_trip(&self, m: Map<u64, NodeView>, dx: int, dy: int)
        requires
            ids_view(self.rasters@).no_duplicates(),
            forall|i: int|
                0 <= i < self.rasters@.len() && m.contains_key(#[trigger] self.rasters@[i].0) ==> shift_fits(
                    m[self.rasters@[i].0].kind,
                    dx,
                    dy,
                ),
        ensures
            ({
                let m1 = shifted(m, ids_view(self.rasters@), dx, dy);
                &&& shifted(m1, ids_view(self.rasters@), -dx, -dy) == m
                &&& forall|i: int|
                    0 <= i < self.rasters@.len() && m1.contains_key(#[trigger] self.rasters@[i].0) ==> shift_fits(
                        m1[self.rasters@[i].0].kind,
                        -dx,
                        -dy,
                    )
            }),
    {
        let ids = ids_view(self.rasters@);
        lemma_shifted(m, ids, dx, dy);
        let m1 = shifted(m, ids, dx, dy);
        lemma_shifted(m1, ids, -dx, -dy);
        let m2 = shifted(m1, ids, -dx, -dy);
        assert forall|x: u64| m2.contains_key(x) implies m2[x] == m[x] by {
            if ids.contains(x) {
                let i = choose|i: int| 0 <= i < ids.len() && ids[i] == x;
                assert(self.rasters@[i].0 == x);
                assert(m1[ids[i]] == if m[ids[i]].kind is Raster {
                    NodeView { kind: shift_kind(m[ids[i]].kind, dx, dy), ..m[ids[i]] }
                } else {
                    m[ids[i]]
                });
                assert(m2[ids[i]] == if m1[ids[i]].kind is Raster {
                    NodeView { kind: shift_kind(m1[ids[i]].kind, -dx, -dy), ..m1[ids[i]] }
                } else {
                    m1[ids[i]]
                });
                if m[x].kind is Raster {
                    lemma_shift_back(m[x].kind, dx, dy);
                }
            }
        }
        assert(m2 =~= m);
        assert forall|i: int|
            0 <= i < self.rasters@.len() && m1.contains_key(#[trigger] self.rasters@[i].0) implies shift_fits(
                m1[self.rasters@[i].0].kind,
                -dx,
                -dy,
            ) by {
            assert(ids[i] == self.rasters@[i].0);
            if m[ids[i]].kind is Raster {
                lemma_shift_back(m[ids[i]].kind, dx, dy);
            }
        }
    }
}

/// Moving a raster layer by `(dx, dy)` and back restores it, and the way
/// back stays in range.
proof fn lemma_shift_back(k: KindView, dx: int, dy: int)
    requires
        shift_fits(k, dx, dy),
    ensures
        shift_fits(shift_kind(k, dx, dy), -dx, -dy),
        shift_kind(shift_kind(k, dx, dy), -dx, -dy) == k,
{
    broadcast use vstd::array::group_array_axioms;
    match k {
        KindView::Raster { art, offset, tiles, mask } => {
            let o1: [i32; 2] = [(offset[0] + dx) as i32, (offset[1] + dy) as i32];
            assert(o1[0] == offset[0] + dx && o1[1] == offset[1] + dy);
            let o2: [i32; 2] = [(o1[0] + -dx) as i32, (o1[1] + -dy) as i32];
            assert(o2[0] == offset[0] && o2[1] == offset[1]);
            assert(o2 =~= offset);
        },
        _ => {},
    }
}

} // verus!
