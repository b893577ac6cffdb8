//! Whole-content swaps of one layer: its tile set and offset, or its kind.

use vstd::prelude::*;
use crate::command::content::take_kind;
use crate::document::{DocView, Document};
use crate::document::edit::{lemma_with_kind, with_kind};
use crate::node::{KindView, NodeId, NodeKind};
use crate::tile::{Tile, TileCoord, TileMap};

verus! {

/// A raster layer's tiles and offset.
pub open spec fn tiles_of(k: KindView) -> Option<(Map<TileCoord, Seq<u8>>, [i32; 2])> {
    match k {
        KindView::Raster { tiles, offset, .. } => Some((tiles, offset)),
        _ => None,
    }
}

/// `k` with a raster layer's tiles and offset replaced.
pub open spec fn with_tiles(k: KindView, t: Map<TileCoord, Seq<u8>>, o: [i32; 2]) -> KindView {
    match k {
        KindView::Raster { art, offset, tiles, mask } => KindView::Raster { art, offset: o, tiles: t, mask },
        _ => k,
    }
}

/// The view of a tile set with its offset.
pub open spec fn placed_view(p: (TileMap, [i32; 2])) -> (Map<TileCoord, Seq<u8>>, [i32; 2]) {
    (p.0@, p.1)
}

/// Put `p`'s tiles and offset into raster node `id` (no change otherwise).
pub(crate) fn put_tiles(doc: &mut Document, id: NodeId, p: &(TileMap, [i32; 2]))
    requires
        old(doc).wf(),
        old(doc)@.nodes.contains_key(id.0),
    ensures
        final(doc).wf(),
        final(doc)@ == if tiles_of(old(doc)@.nodes[id.0].kind) is Some {
            with_kind(old(doc)@, id.0, with_tiles(old(doc)@.nodes[id.0].kind, p.0@, p.1))
        } else {
            old(doc)@
        },
{
    let ghost d = doc@;
    let k = take_kind(doc, id);
    let k2 = match k {
        NodeKind::Raster(mut c) => {
            c.tiles = p.0.duplicate();
            c.offset = p.1;
            NodeKind::Raster(c)
        },
        other => other,
    };
    let _ = doc.replace_kind(id, k2);
    proof {
        lemma_with_kind(d, id.0, KindView::Fill, k2@);
    }
}

/// Swap a raster layer's whole tile set and offset (a baked transform).
#[derive(Debug)]
pub struct ReplaceLayerTiles {
    pub id: NodeId,
    pub old: Option<(TileMap, [i32; 2])>,
    pub new: Option<(TileMap, [i32; 2])>,
    pub label: String,
}

impl ReplaceLayerTiles {
    /// Build the command, capturing the layer's current tiles and offset;
    /// the node must be a present raster layer.
    pub fn new(doc: &Document, id: NodeId, new_tiles: TileMap, new_offset: [i32; 2], label: String) -> (r: ReplaceLayerTiles)
        requires
            doc@.nodes.contains_key(id.0),
            tiles_of(doc@.nodes[id.0].kind) is Some,
        ensures
            r.id == id,
            r.old matches Some(o) && Some(placed_view(o)) == tiles_of(doc@.nodes[id.0].kind),
            r.new matches Some(n) && n.0@ == new_tiles@ && n.1 == new_offset,
            r.label == label,
    {
        let old = match doc.node(id) {
            Some(n) => match &n.kind {
                NodeKind::Raster(c) => Some((c.tiles.duplicate(), c.offset)),
                _ => {
                    assert(false);
                    None
                },
            },
            None => {
                assert(false);
                None
            },
        };
        ReplaceLayerTiles { id, old, new: Some((new_tiles, new_offset)), label }
    }

    /// The label given at construction.
    pub fn label(&self) -> (r: String)
        ensures
            r@ == self.label@,
    {
        self.label.clone()
    }

    /// The node is present and the new tiles are in hand.
    pub open spec fn can_apply(&self, d: DocView) -> bool {
        d.nodes.contains_key(self.id.0) && self.new is Some
    }

    /// The document after apply.
    pub open spec fn apply_view(&self, d: DocView) -> DocView {
        let n = self.new.unwrap();
        if tiles_of(d.nodes[self.id.0].kind) is Some {
            with_kind(d, self.id.0, with_tiles(d.nodes[self.id.0].kind, n.0@, n.1))
        } else {
            d
        }
    }

    /// Undo restores the document exactly when the layer still holds the
    /// captured tiles and offset.
    pub open spec fn undoable(&self, d: DocView) -> bool {
        &&& self.old is Some
        &&& tiles_of(d.nodes[self.id.0].kind) is Some ==> tiles_of(d.nodes[self.id.0].kind) == Some(placed_view(self.old.unwrap()))
    }

    /// The node is present, both snapshots are in hand, and the layer holds
    /// the new tiles.
    pub open spec fn can_revert(&self, d: DocView) -> bool {
        &&& d.nodes.contains_key(self.id.0)
        &&& self.old is Some
        &&& self.new is Some
        &&& tiles_of(d.nodes[self.id.0].kind) is Some ==> tiles_of(d.nodes[self.id.0].kind) == Some(placed_view(self.new.unwrap()))
    }

    /// The document after revert.
    pub open spec fn revert_view(&self, d: DocView) -> DocView {
        let o = self.old.unwrap();
        if tiles_of(d.nodes[self.id.0].kind) is Some {
            with_kind(d, self.id.0, with_tiles(d.nodes[self.id.0].kind, o.0@, o.1))
        } else {
            d
        }
    }

    /// Store the new tiles and offset. Undoing right after restores the
    /// document exactly when the layer held the captured ones.
    pub fn apply(&mut self, doc: &mut Document)
        requires
            old(doc).wf(),
            old(self).can_apply(old(doc)@),
        ensures
            final(doc).wf(),
            *final(self) == *old(self),
            final(doc)@ == old(self).apply_view(old(doc)@),
            old(self).undoable(old(doc)@) ==> final(self).can_revert(final(doc)@) && final(self).revert_view(final(doc)@)
                == old(doc)@,
    {
        let ghost d = doc@;
        match &self.new {
            Some(n) => put_tiles(doc, self.id, n),
            None => {
                assert(false);
            },
        }
        proof {
            let k0 = d.nodes[self.id.0].kind;
            if tiles_of(k0) is Some && self.old is Some {
                let n = self.new.unwrap();
                let o = self.old.unwrap();
                lemma_with_kind(d, self.id.0, with_tiles(k0, n.0@, n.1), with_tiles(with_tiles(k0, n.0@, n.1), o.0@, o.1));
                if tiles_of(k0) == Some(placed_view(o)) {
                    assert(with_tiles(with_tiles(k0, n.0@, n.1), o.0@, o.1) == k0);
                }
            }
        }
    }

    /// Store the old tiles and offset back. Redoing right after restores the
    /// document exactly.
    pub fn revert(&mut self, doc: &mut Document)
        requires
            old(doc).wf(),
            old(self).can_revert(old(doc)@),
        ensures
            final(doc).wf(),
            *final(self) == *old(self),
            final(doc)@ == old(self).revert_view(old(doc)@),
            final(self).can_apply(final(doc)@),
            final(self).undoable(final(doc)@),
            final(self).apply_view(final(doc)@) == old(doc)@,
    {
        let ghost d = doc@;
        match &self.old {
            Some(o) => put_tiles(doc, self.id, o),
            None => {
                assert(false);
            },
        }
        proof {
            let k0 = d.nodes[self.id.0].kind;
            if tiles_of(k0) is Some {
                let n = self.new.unwrap();
                let o = self.old.unwrap();
                lemma_with_kind(d, self.id.0, with_tiles(k0, o.0@, o.1), with_tiles(with_tiles(k0, o.0@, o.1), n.0@, n.1));
                assert(with_tiles(with_tiles(k0, o.0@, o.1), n.0@, n.1) == k0);
            }
        }
    }
}

/// Swap a node's content wholesale (e.g. rasterize a vector layer);
/// properties, children and parent are untouched. The content moves between
/// the document and the command: apply hands `new` to the document and keeps
/// what was there in `old`, and revert does the reverse.
#[derive(Debug)]
pub struct ReplaceNodeKind {
    pub id: NodeId,
    pub old: Option<NodeKind>,
    pub new: Option<NodeKind>,
    pub label: String,
}

impl ReplaceNodeKind {
    /// Build the command; the content it replaces is captured on apply.
    pub fn new(id: NodeId, new: NodeKind, label: String) -> (r: ReplaceNodeKind)
        ensures
            r.id == id,
            r.old is None,
            r.new == Some(new),
            r.label == label,
    {
        ReplaceNodeKind { id, old: None, new: Some(new), label }
    }

    /// The label given at construction.
    pub fn label(&self) -> (r: String)
        ensures
            r@ == self.label@,
    {
        self.label.clone()
    }

    /// Apply never fails.
    pub open spec fn can_apply(&self, d: DocView) -> bool {
        true
    }

    /// The document after apply: the new content in place when the node is
    /// present and the content in hand.
    pub open spec fn apply_view(&self, d: DocView) -> DocView {
        if d.nodes.contains_key(self.id.0) && self.new is Some {
            with_kind(d, self.id.0, self.new.unwrap()@)
        } else {
            d
        }
    }

    /// Undo restores the document exactly unless revert would store old
    /// content where apply stored none.
    pub open spec fn undoable(&self, d: DocView) -> bool {
        !(d.nodes.contains_key(self.id.0) && self.new is None && self.old is Some)
    }

    /// Redo restores the document exactly unless apply would store new
    /// content where revert stored none.
    pub open spec fn can_revert(&self, d: DocView) -> bool {
        !(d.nodes.contains_key(self.id.0) && self.old is None && self.new is Some)
    }

    /// The document after revert.
    pub open spec fn revert_view(&self, d: DocView) -> DocView {
        if d.nodes.contains_key(self.id.0) && self.old is Some {
            with_kind(d, self.id.0, self.old.unwrap()@)
        } else {
            d
        }
    }

    /// Hand the new content to the document, keeping the replaced content.
    /// Undoing right after restores the document exactly when undoable.
    pub fn apply(&mut self, doc: &mut Document)
        requires
            old(doc).wf(),
            old(self).can_apply(old(doc)@),
        ensures
            final(self).label == old(self).label,
            final(doc).wf(),
            final(self).id == old(self).id && final(self).label == old(self).label,
            final(doc)@ == old(self).apply_view(old(doc)@),
            old(self).undoable(old(doc)@) ==> final(self).can_revert(final(doc)@) && final(self).revert_view(final(doc)@)
                == old(doc)@,
    {
        let ghost d = doc@;
        if doc.node(self.id).is_none() {
            return;
        }
        match self.new.take() {
            Some(k) => {
                let ghost kv = k@;
                let prev = doc.replace_kind(self.id, k);
                self.old = prev;
                proof {
                    lemma_with_kind(d, self.id.0, kv, d.nodes[self.id.0].kind);
                }
            },
            None => {},
        }
    }

    /// Hand the old content back to the document, keeping the replaced
    /// content. Redoing right after restores the document exactly.
    pub fn revert(&mut self, doc: &mut Document)
        requires
            old(doc).wf(),
            old(self).can_revert(old(doc)@),
        ensures
            final(self).label == old(self).label,
            final(doc).wf(),
            final(self).id == old(self).id && final(self).label == old(self).label,
            final(doc)@ == old(self).revert_view(old(doc)@),
            final(self).can_apply(final(doc)@),
            final(self).undoable(final(doc)@),
            final(self).apply_view(final(doc)@) == old(doc)@,
    {
        let ghost d = doc@;
        if doc.node(self.id).is_none() {
            return;
        }
        match self.old.take() {
            Some(k) => {
                let ghost kv = k@;
                let prev = doc.replace_kind(self.id, k);
                self.new = prev;
                proof {
                    lemma_with_kind(d, self.id.0, kv, d.nodes[self.id.0].kind);
                }
            },
            None => {},
        }
    }
}

/// An optional tile's pixels.
pub open spec fn tile_opt(t: Option<Tile>) -> Option<Seq<u8>> {
    match t {
        Some(x) => Some(x@),
        None => None,
    }
}

/// The tile stored at `c`, if any.
pub open spec fn tile_get(m: Map<TileCoord, Seq<u8>>, c: TileCoord) -> Option<Seq<u8>> {
    if m.contains_key(c) {
        Some(m[c])
    } else {
        None
    }
}

/// `m` with the tile at `c` stored (`Some`) or dropped (`None`).
pub open spec fn tile_set(m: Map<TileCoord, Seq<u8>>, c: TileCoord, t: Option<Seq<u8>>) -> Map<TileCoord, Seq<u8>> {
    match t {
        Some(x) => m.insert(c, x),
        None => m.remove(c),
    }
}

/// `m` with each `(coord, tile)` entry stored or dropped, in order.
pub open spec fn painted(m: Map<TileCoord, Seq<u8>>, s: Seq<(TileCoord, Option<Seq<u8>>)>) -> Map<TileCoord, Seq<u8>>
    decreases s.len(),
{
    if s.len() == 0 {
        m
    } else {
        tile_set(painted(m, s.drop_last()), s.last().0, s.last().1)
    }
}

/// One pixel edit of a tile: coordinate, tile before, tile after (`None`: absent).
pub type TileDiff = (TileCoord, Option<Tile>, Option<Tile>);

/// The before or after side of tile diffs.
pub open spec fn diff_side(ds: Seq<TileDiff>, after: bool) -> Seq<(TileCoord, Option<Seq<u8>>)> {
    ds.map_values(|e: TileDiff| (e.0, if after { tile_opt(e.2) } else { tile_opt(e.1) }))
}

/// Coordinates of tile diffs.
pub open spec fn diff_coords(ds: Seq<TileDiff>) -> Seq<TileCoord> {
    ds.map_values(|e: TileDiff| e.0)
}

/// `k` with a raster layer's tiles replaced.
pub open spec fn with_tile_map(k: KindView, t: Map<TileCoord, Seq<u8>>) -> KindView {
    match k {
        KindView::Raster { art, offset, tiles, mask } => KindView::Raster { art, offset, tiles: t, mask },
        _ => k,
    }
}

/// Coordinates of `(coord, tile)` entries.
pub open spec fn side_coords(s: Seq<(TileCoord, Option<Seq<u8>>)>) -> Seq<TileCoord> {
    s.map_values(|e: (TileCoord, Option<Seq<u8>>)| e.0)
}

/// Reading a tile after storing or dropping one.
proof fn lemma_tile_set_get(m: Map<TileCoord, Seq<u8>>, c: TileCoord, t: Option<Seq<u8>>, c2: TileCoord)
    ensures
        tile_get(tile_set(m, c, t), c2) == if c2 == c { t } else { tile_get(m, c2) },
{
}

/// With distinct coordinates, each listed coordinate ends up with its
/// entry's tile and every other one is unchanged.
pub proof fn lemma_painted(m: Map<TileCoord, Seq<u8>>, s: Seq<(TileCoord, Option<Seq<u8>>)>)
    requires
        side_coords(s).no_duplicates(),
    ensures
        forall|i: int| 0 <= i < s.len() ==> #[trigger] tile_get(painted(m, s), s[i].0) == s[i].1,
        forall|c: TileCoord|
            !side_coords(s).contains(c) ==> #[trigger] tile_get(painted(m, s), c)
                == tile_get(m, c),
    decreases s.len(),
{
    let cs = side_coords(s);
    if s.len() > 0 {
        let t = s.drop_last();
        let ct = side_coords(t);
        assert(ct =~= cs.drop_last());
        assert forall|a: int, b: int| 0 <= a < ct.len() && 0 <= b < ct.len() && a != b implies ct[a] != ct[b] by {
            assert(ct[a] == cs[a] && ct[b] == cs[b]);
        }
        lemma_painted(m, t);
        let n = s.len() - 1;
        let last = s.last();
        assert(cs[n] == last.0);
        assert(painted(m, s) == tile_set(painted(m, t), last.0, last.1));
        assert forall|i: int| 0 <= i < s.len() implies #[trigger] tile_get(painted(m, s), s[i].0) == s[i].1 by {
            lemma_tile_set_get(painted(m, t), last.0, last.1, s[i].0);
            if i < n {
                assert(t[i] == s[i]);
                assert(cs[i] == s[i].0 && cs[i] != cs[n]);
                assert(tile_get(painted(m, t), t[i].0) == t[i].1);
            }
        }
        assert forall|c: TileCoord| !cs.contains(c) implies #[trigger] tile_get(painted(m, s), c) == tile_get(m, c) by {
            lemma_tile_set_get(painted(m, t), last.0, last.1, c);
            assert(c != cs[n]);
            if ct.contains(c) {
                let j = choose|j: int| 0 <= j < ct.len() && ct[j] == c;
                assert(cs[j] == c);
            }
            assert(tile_get(painted(m, t), c) == tile_get(m, c));
        }
    }
}

/// Two tile maps with the same tile at every coordinate are equal.
pub proof fn lemma_tiles_ext(a: Map<TileCoord, Seq<u8>>, b: Map<TileCoord, Seq<u8>>)
    requires
        forall|c: TileCoord| #[trigger] tile_get(a, c) == tile_get(b, c),
    ensures
        a == b,
{
    assert forall|c: TileCoord| a.contains_key(c) == b.contains_key(c) by {
        assert(tile_get(a, c) == tile_get(b, c));
    }
    assert forall|c: TileCoord| a.contains_key(c) implies a[c] == b[c] by {
        assert(tile_get(a, c) == tile_get(b, c));
    }
    assert(a =~= b);
}

/// Store one side of `ds` into raster node `id`'s tiles.
fn paint(doc: &mut Document, id: NodeId, ds: &Vec<TileDiff>, after: bool)
    requires
        old(doc).wf(),
        old(doc)@.nodes.contains_key(id.0),
        old(doc)@.nodes[id.0].kind is Raster,
    ensures
        final(doc).wf(),
        final(doc)@ == with_kind(
            old(doc)@,
            id.0,
            with_tile_map(old(doc)@.nodes[id.0].kind, painted(tiles_of(old(doc)@.nodes[id.0].kind).unwrap().0, diff_side(ds@, after))),
        ),
{
    let ghost d = doc@;
    let ghost side = diff_side(ds@, after);
    let k = take_kind(doc, id);
    let ghost kv = k@;
    let k2 = match k {
        NodeKind::Raster(mut c) => {
            let ghost t0 = c.tiles@;
            let ghost art0 = c.art;
            let ghost off0 = c.offset;
            let ghost mask0 = crate::node::mask_view(c.mask);
            assert(t0 == tiles_of(kv).unwrap().0);
            for i in 0..ds.len()
                invariant
                    side == diff_side(ds@, after),
                    c.tiles@ == painted(t0, side.take(i as int)),
                    c.art == art0,
                    c.offset == off0,
                    crate::node::mask_view(c.mask) == mask0,
            {
                proof {
                    assert(side.take(i + 1).drop_last() =~= side.take(i as int));
                    assert(side.take(i + 1).last() == side[i as int]);
                }
                let e = &ds[i];
                let t = if after {
                    &e.2
                } else {
                    &e.1
                };
                match t {
                    Some(x) => c.tiles.insert_tile(e.0, x.duplicate()),
                    None => c.tiles.remove_tile(e.0),
                }
            }
            proof {
                assert(side.take(side.len() as int) =~= side);
            }
            NodeKind::Raster(c)
        },
        other => other,
    };
    assert(k2@ == with_tile_map(kv, painted(tiles_of(kv).unwrap().0, side)));
    let _ = doc.replace_kind(id, k2);
    proof {
        lemma_with_kind(d, id.0, KindView::Fill, k2@);
    }
}

/// Pixel edits recorded as before/after tile snapshots. Built after a live
/// stroke already changed the tiles; recorded with `push_committed`.
#[derive(Debug)]
pub struct PaintTiles {
    pub id: NodeId,
    pub label: String,
    /// (coordinate, tile before, tile after); `None`: tile absent.
    pub diffs: Vec<TileDiff>,
}

impl PaintTiles {
    /// Pair each captured before-tile with the layer's tile now at that
    /// coordinate; the node must be a present raster layer.
    pub fn from_capture(doc: &Document, id: NodeId, label: String, before: Vec<(TileCoord, Option<Tile>)>) -> (r: PaintTiles)
        requires
            doc@.nodes.contains_key(id.0),
            doc@.nodes[id.0].kind is Raster,
        ensures
            r.id == id,
            r.label == label,
            r.diffs@.len() == before@.len(),
            forall|i: int| 0 <= i < before@.len() ==> {
                &&& (#[trigger] r.diffs@[i]).0 == before@[i].0
                &&& tile_opt(r.diffs@[i].1) == tile_opt(before@[i].1)
                &&& tile_opt(r.diffs@[i].2) == tile_get(tiles_of(doc@.nodes[id.0].kind).unwrap().0, before@[i].0)
            },
    {
        let ghost t = tiles_of(doc@.nodes[id.0].kind).unwrap().0;
        let tiles = match doc.node(id) {
            Some(n) => match &n.kind {
                NodeKind::Raster(c) => &c.tiles,
                _ => {
                    assert(false);
                    return PaintTiles { id, label, diffs: Vec::new() };
                },
            },
            None => {
                assert(false);
                return PaintTiles { id, label, diffs: Vec::new() };
            },
        };
        let mut diffs: Vec<TileDiff> = Vec::new();
        let mut before = before;
        let ghost b0 = before@;
        let n = before.len();
        while before.len() > 0
            invariant
                tiles@ == t,
                before@.len() + diffs@.len() == n,
                n == b0.len(),
                before@ == b0.skip(diffs@.len() as int),
                forall|i: int| 0 <= i < diffs@.len() ==> {
                    &&& (#[trigger] diffs@[i]).0 == b0[i].0
                    &&& tile_opt(diffs@[i].1) == tile_opt(b0[i].1)
                    &&& tile_opt(diffs@[i].2) == tile_get(t, b0[i].0)
                },
            decreases before@.len(),
        {
            let ghost k = diffs@.len() as int;
            let (coord, b) = before.remove(0);
            proof {
                assert(b0.skip(k)[0] == b0[k]);
                assert(b0.skip(k + 1) =~= b0.skip(k).skip(1));
            }
            let a = match tiles.tile_at(coord) {
                Some(x) => Some(x.duplicate()),
                None => None,
            };
            diffs.push((coord, b, a));
        }
        PaintTiles { id, label, diffs }
    }

    /// The label given at construction.
    pub fn label(&self) -> (r: String)
        ensures
            r@ == self.label@,
    {
        self.label.clone()
    }

    /// The node is a present raster layer.
    pub open spec fn can_apply(&self, d: DocView) -> bool {
        d.nodes.contains_key(self.id.0) && d.nodes[self.id.0].kind is Raster
    }

    /// The document after apply: the after-tiles stored.
    pub open spec fn apply_view(&self, d: DocView) -> DocView {
        let k = d.nodes[self.id.0].kind;
        with_kind(d, self.id.0, with_tile_map(k, painted(tiles_of(k).unwrap().0, diff_side(self.diffs@, true))))
    }

    /// Each coordinate is listed once and holds its before-tile.
    pub open spec fn undoable(&self, d: DocView) -> bool {
        &&& diff_coords(self.diffs@).no_duplicates()
        &&& forall|i: int|
            0 <= i < self.diffs@.len() ==> tile_get(tiles_of(d.nodes[self.id.0].kind).unwrap().0, (#[trigger] self.diffs@[i]).0)
                == tile_opt(self.diffs@[i].1)
    }

    /// The node is a present raster layer, each coordinate is listed once
    /// and holds its after-tile.
    pub open spec fn can_revert(&self, d: DocView) -> bool {
        &&& d.nodes.contains_key(self.id.0)
        &&& d.nodes[self.id.0].kind is Raster
        &&& diff_coords(self.diffs@).no_duplicates()
        &&& forall|i: int|
            0 <= i < self.diffs@.len() ==> tile_get(tiles_of(d.nodes[self.id.0].kind).unwrap().0, (#[trigger] self.diffs@[i]).0)
                == tile_opt(self.diffs@[i].2)
    }

    /// The document after revert: the before-tiles stored.
    pub open spec fn revert_view(&self, d: DocView) -> DocView {
        let k = d.nodes[self.id.0].kind;
        with_kind(d, self.id.0, with_tile_map(k, painted(tiles_of(k).unwrap().0, diff_side(self.diffs@, false))))
    }

    /// Storing one side then the other restores a layer that held the first.
    proof fn lemma_round_trip(&self, d: DocView, first: bool)
        requires
            d.nodes.contains_key(self.id.0),
            d.nodes[self.id.0].kind is Raster,
            diff_coords(self.diffs@).no_duplicates(),
            forall|i: int|
                0 <= i < self.diffs@.len() ==> tile_get(tiles_of(d.nodes[self.id.0].kind).unwrap().0, (#[trigger] self.diffs@[i]).0)
                    == tile_opt(if first { self.diffs@[i].1 } else { self.diffs@[i].2 }),
        ensures
            ({
                let k = d.nodes[self.id.0].kind;
                let t1 = painted(tiles_of(k).unwrap().0, diff_side(self.diffs@, first));
                let d1 = with_kind(d, self.id.0, with_tile_map(k, t1));
                let k1 = d1.nodes[self.id.0].kind;
                &&& forall|i: int|
                    0 <= i < self.diffs@.len() ==> tile_get(t1, (#[trigger] self.diffs@[i]).0) == tile_opt(
                        if first { self.diffs@[i].2 } else { self.diffs@[i].1 },
                    )
                &&& with_kind(d1, self.id.0, with_tile_map(k1, painted(tiles_of(k1).unwrap().0, diff_side(self.diffs@, !first)))) == d
            }),
    {
        let k = d.nodes[self.id.0].kind;
        let t0 = tiles_of(k).unwrap().0;
        let s1 = diff_side(self.diffs@, first);
        let s2 = diff_side(self.diffs@, !first);
        let cs = diff_coords(self.diffs@);
        assert(side_coords(s1) =~= cs);
        assert(side_coords(s2) =~= cs);
        lemma_painted(t0, s1);
        let t1 = painted(t0, s1);
        lemma_painted(t1, s2);
        let t2 = painted(t1, s2);
        assert forall|c: TileCoord| #[trigger] tile_get(t2, c) == tile_get(t0, c) by {
            if cs.contains(c) {
                let i = choose|i: int| 0 <= i < cs.len() && cs[i] == c;
                assert(s2[i].0 == c && s1[i].0 == c);
                assert(self.diffs@[i].0 == c);
                assert(tile_get(t2, s2[i].0) == s2[i].1);
                assert(tile_get(t0, self.diffs@[i].0) == tile_opt(if first { self.diffs@[i].1 } else { self.diffs@[i].2 }));
            } else {
                assert(!side_coords(s1).contains(c));
                assert(tile_get(t1, c) == tile_get(t0, c));
            }
        }
        lemma_tiles_ext(t2, t0);
        assert forall|i: int| 0 <= i < self.diffs@.len() implies tile_get(t1, (#[trigger] self.diffs@[i]).0) == tile_opt(
            if first { self.diffs@[i].2 } else { self.diffs@[i].1 },
        ) by {
            assert(s1[i].0 == self.diffs@[i].0);
            assert(tile_get(t1, s1[i].0) == s1[i].1);
        }
        let d1 = with_kind(d, self.id.0, with_tile_map(k, t1));
        let k2 = with_tile_map(with_tile_map(k, t1), t2);
        lemma_with_kind(d, self.id.0, with_tile_map(k, t1), k2);
        assert(k2 == k);
    }

    /// Store the after-tiles. Undoing right after restores the document
    /// exactly when each coordinate held its before-tile.
    pub fn apply(&mut self, doc: &mut Document)
        requires
            old(doc).wf(),
            old(self).can_apply(old(doc)@),
        ensures
            final(doc).wf(),
            *final(self) == *old(self),
            final(doc)@ == old(self).apply_view(old(doc)@),
            old(self).undoable(old(doc)@) ==> final(self).can_revert(final(doc)@) && final(self).revert_view(final(doc)@)
                == old(doc)@,
    {
        let ghost d = doc@;
        paint(doc, self.id, &self.diffs, true);
        proof {
            if self.undoable(d) {
                self.lemma_round_trip(d, true);
            }
        }
    }

    /// Store the before-tiles. Redoing right after restores the document
    /// exactly.
    pub fn revert(&mut self, doc: &mut Document)
        requires
            old(doc).wf(),
            old(self).can_revert(old(doc)@),
        ensures
            final(doc).wf(),
            *final(self) == *old(self),
            final(doc)@ == old(self).revert_view(old(doc)@),
            final(self).can_apply(final(doc)@),
            final(self).undoable(final(doc)@),
            final(self).apply_view(final(doc)@) == old(doc)@,
    {
        let ghost d = doc@;
        paint(doc, self.id, &self.diffs, false);
        proof {
            self.lemma_round_trip(d, false);
        }
    }
}

} // verus!
