//! Baking a raster layer's mask into its pixel alpha.

use vstd::prelude::*;
use crate::command::content::take_kind;
use crate::document::edit::{lemma_with_kind, with_kind};
use crate::document::{DocView, Document};
use crate::mask::{mask_px, mask_wf, Mask};
use crate::node::{mask_view, KindView, NodeId, NodeKind};
use crate::tile::{blank_bytes, clear_px, coord_of, in_tile, map_pruned, map_px, map_wf, px_index, Tile, TileCoord, TileMap, TILE_BYTES};

verus! {

/// Alpha `a` scaled by coverage `cov` (0 clears, 255 keeps).
pub open spec fn baked_alpha(a: u8, cov: u8) -> u8 {
    (a * cov / 255) as u8
}

/// Stored tile `t` at `k` with each alpha scaled by the mask coverage at the
/// pixel's document position (layer position shifted by `off`).
pub open spec fn baked_tile(t: Seq<u8>, m: Map<TileCoord, Seq<u8>>, k: TileCoord, off: [i32; 2]) -> Seq<u8> {
    Seq::new(
        t.len(),
        |i: int|
            if i % 4 == 3 {
                baked_alpha(t[i], mask_px(m, k.0 * 256 + (i / 4) % 256 + off[0], k.1 * 256 + (i / 4) / 256 + off[1]))
            } else {
                t[i]
            },
    )
}

/// Every stored tile baked; the tile set is unchanged.
pub open spec fn baked_tiles(tiles: Map<TileCoord, Seq<u8>>, m: Map<TileCoord, Seq<u8>>, off: [i32; 2]) -> Map<
    TileCoord,
    Seq<u8>,
> {
    Map::new(|k: TileCoord| tiles.contains_key(k), |k: TileCoord| baked_tile(tiles[k], m, k, off))
}

/// Tile `k`'s layer pixels and their shifted document positions fit `i32`.
pub open spec fn tile_fits(k: TileCoord, off: [i32; 2]) -> bool {
    &&& i32::MIN <= k.0 * 256 && k.0 * 256 + 255 <= i32::MAX
    &&& i32::MIN <= k.1 * 256 && k.1 * 256 + 255 <= i32::MAX
    &&& i32::MIN <= k.0 * 256 + off[0] && k.0 * 256 + 255 + off[0] <= i32::MAX
    &&& i32::MIN <= k.1 * 256 + off[1] && k.1 * 256 + 255 + off[1] <= i32::MAX
}

/// Every stored tile fits.
pub open spec fn bake_fits(tiles: Map<TileCoord, Seq<u8>>, off: [i32; 2]) -> bool {
    forall|k: TileCoord| #[trigger] tiles.contains_key(k) ==> tile_fits(k, off)
}

/// One tile with the mask baked into its alpha.
fn bake_tile(t: &Tile, m: &Mask, k: TileCoord, off: [i32; 2]) -> (r: Tile)
    requires
        t.wf(),
        m.wf(),
        tile_fits(k, off),
    ensures
        r@ == baked_tile(t@, m@, k, off),
        r.wf(),
{
    let src = t.bytes();
    let x0: i32 = k.0 * 256 + off[0];
    let y0: i32 = k.1 * 256 + off[1];
    let ghost want = baked_tile(t@, m@, k, off);
    let mut out: Vec<u8> = Vec::new();
    let mut i: usize = 0;
    while i < TILE_BYTES
        invariant
            i <= TILE_BYTES,
            src@ == t@,
            t@.len() == TILE_BYTES,
            m.wf(),
            x0 == k.0 * 256 + off[0],
            y0 == k.1 * 256 + off[1],
            tile_fits(k, off),
            want == baked_tile(t@, m@, k, off),
            out@ == want.take(i as int),
        decreases TILE_BYTES - i,
    {
        let b = if i % 4 == 3 {
            let p = i / 4;
            let ix = (p % 256) as i32;
            let iy = (p / 256) as i32;
            let cov = m.get(x0 + ix, y0 + iy);
            let a = src[i];
            assert(a as u32 * cov as u32 <= 255 * 255) by (nonlinear_arith)
                requires
                    a <= 255,
                    cov <= 255,
            ;
            let v = (a as u32 * cov as u32) / 255;
            assert(v <= 255);
            v as u8
        } else {
            src[i]
        };
        out.push(b);
        proof {
            assert(want.take(i + 1) =~= want.take(i as int).push(want[i as int]));
        }
        i += 1;
    }
    proof {
        assert(want.take(TILE_BYTES as int) =~= want);
    }
    match Tile::from_bytes(out) {
        Ok(r) => r,
        Err(_) => {
            assert(false);
            Tile::blank()
        },
    }
}

/// Every stored tile with the mask baked into its alpha.
fn bake_tiles(tiles: &TileMap, m: &Mask, off: [i32; 2]) -> (r: TileMap)
    requires
        tiles.wf(),
        m.wf(),
        bake_fits(tiles@, off),
    ensures
        r@ == baked_tiles(tiles@, m@, off),
        r.wf(),
{
    let ks = tiles.coords();
    let mut out = TileMap::new();
    let mut i: usize = 0;
    while i < ks.len()
        invariant
            i <= ks@.len(),
            ks@.to_set() == tiles@.dom(),
            tiles.wf(),
            m.wf(),
            bake_fits(tiles@, off),
            out.wf(),
            out@ == Map::new(
                |k: TileCoord| ks@.take(i as int).contains(k),
                |k: TileCoord| baked_tile(tiles@[k], m@, k, off),
            ),
        decreases ks@.len() - i,
    {
        let k = ks[i];
        assert(ks@.to_set().contains(k));
        match tiles.tile_at(k) {
            Some(t) => {
                let b = bake_tile(t, m, k, off);
                out.insert_tile(k, b);
            },
            None => {
                assert(false);
            },
        }
        proof {
            let t0 = ks@.take(i as int);
            let t1 = ks@.take(i + 1);
            assert forall|c: TileCoord| #[trigger] t1.contains(c) == (t0.contains(c) || c == k) by {
                if t1.contains(c) {
                    let j = choose|j: int| 0 <= j < t1.len() && t1[j] == c;
                    if j < i {
                        assert(t0[j] == c);
                    }
                }
                if t0.contains(c) {
                    let j = choose|j: int| 0 <= j < t0.len() && t0[j] == c;
                    assert(t1[j] == c);
                }
                if c == k {
                    assert(t1[i as int] == c);
                }
            }
            assert(out@ =~= Map::new(
                |c: TileCoord| ks@.take(i + 1).contains(c),
                |c: TileCoord| baked_tile(tiles@[c], m@, c, off),
            ));
        }
        i += 1;
    }
    proof {
        assert(ks@.take(ks@.len() as int) =~= ks@);
        assert forall|c: TileCoord| #[trigger] ks@.contains(c) == tiles@.contains_key(c) by {
            assert(ks@.to_set().contains(c) == ks@.contains(c));
        }
        assert(out@ =~= baked_tiles(tiles@, m@, off));
    }
    out
}

/// One layer pixel `(lx, ly)` after baking, read back from the pruned map:
/// its alpha is the old alpha times the coverage at document position
/// `(lx + off[0], ly + off[1])`, over 255; where alpha is left, the colour is
/// the old one.
proof fn lemma_baked_px(tiles: Map<TileCoord, Seq<u8>>, mk: Map<TileCoord, Seq<u8>>, off: [i32; 2], lx: i32, ly: i32)
    requires
        map_wf(tiles),
    ensures
        ({
            let p = map_px(tiles, lx as int, ly as int);
            let q = map_px(map_pruned(baked_tiles(tiles, mk, off)), lx as int, ly as int);
            let cov = mask_px(mk, lx + off[0], ly + off[1]);
            &&& q.len() == 4
            &&& q[3] == p[3] * cov / 255
            &&& q[3] != 0 ==> q[0] == p[0] && q[1] == p[1] && q[2] == p[2]
        }),
{
    let k = coord_of(lx as int, ly as int);
    let x = (lx as int) % 256;
    let y = (ly as int) % 256;
    let i = px_index(x, y);
    let bt = baked_tiles(tiles, mk, off);
    let pr = map_pruned(bt);
    assert(k.0 == (lx as int) / 256 && k.1 == (ly as int) / 256);
    assert(k.0 * 256 + x == lx && k.1 * 256 + y == ly);
    assert(0 <= x < 256 && 0 <= y < 256);
    assert(in_tile(x, y));
    assert(0 <= i && i + 4 <= TILE_BYTES);
    assert((i + 3) / 4 == y * 256 + x && (i + 3) % 4 == 3);
    assert(((i + 3) / 4) % 256 == x && ((i + 3) / 4) / 256 == y);
    let cov = mask_px(mk, lx + off[0], ly + off[1]);
    if tiles.contains_key(k) {
        let t = tiles[k];
        let b = bt[k];
        assert(b == baked_tile(t, mk, k, off));
        assert(b[i + 3] == baked_alpha(t[i + 3], cov));
        assert(t[i + 3] * cov <= 255 * 255) by (nonlinear_arith)
            requires
                t[i + 3] <= 255,
                cov <= 255,
        ;
        assert(b[i] == t[i] && b[i + 1] == t[i + 1] && b[i + 2] == t[i + 2]);
        let p = map_px(tiles, lx as int, ly as int);
        assert(p == t.subrange(i, i + 4));
        assert(p[3] == t[i + 3] && p[0] == t[i] && p[1] == t[i + 1] && p[2] == t[i + 2]);
        assert(baked_alpha(t[i + 3], cov) == t[i + 3] * cov / 255);
        if !pr.contains_key(k) {
            assert(blank_bytes(b));
            assert(b[px_index(x, y) + 3] == 0);
            let q = map_px(pr, lx as int, ly as int);
            assert(q == clear_px());
            assert(q[3] == 0 && q.len() == 4);
            assert(q[3] == p[3] * cov / 255);
        } else {
            let q = map_px(pr, lx as int, ly as int);
            assert(pr[k] == b);
            assert(q == b.subrange(i, i + 4));
            assert(q[3] == b[i + 3] && q[0] == b[i] && q[1] == b[i + 1] && q[2] == b[i + 2]);
        }
    } else {
        assert(!pr.contains_key(k));
        let p = map_px(tiles, lx as int, ly as int);
        let q = map_px(pr, lx as int, ly as int);
        assert(p == clear_px() && q == clear_px());
        assert(q[3] == 0 && p[3] == 0 && q.len() == 4);
        assert(p[3] * cov / 255 == 0);
    }
}

/// The tiles of a raster kind; none for other kinds.
pub open spec fn raster_tiles(k: KindView) -> Map<TileCoord, Seq<u8>> {
    match k {
        KindView::Raster { tiles, .. } => tiles,
        _ => Map::empty(),
    }
}

/// Baking reads the mask where each pixel lands in the document: after the
/// command, a raster layer drawn at `offset` stays a raster layer at that
/// offset with no mask, and each layer pixel `(lx, ly)` has its alpha scaled
/// by the coverage at `(lx + offset[0], ly + offset[1])` (`alpha · cov /
/// 255`), its colour kept wherever alpha remains. So moving a layer and its
/// mask together gives the same baked pixels.
pub proof fn lemma_bake_reads_mask_at_document_position(
    c: ApplyLayerMask,
    d: DocView,
    art: Option<crate::node::PlaceholderArt>,
    off: [i32; 2],
    tiles: Map<TileCoord, Seq<u8>>,
    mk: Map<TileCoord, Seq<u8>>,
)
    requires
        d.nodes.contains_key(c.id.0),
        d.nodes[c.id.0].kind == (KindView::Raster { art, offset: off, tiles, mask: Some(mk) }),
        map_wf(tiles),
    ensures
        c.apply_view(d).nodes[c.id.0].kind matches KindView::Raster { offset: o2, mask: m2, .. } && o2 == off
            && m2 is None,
        forall|lx: i32, ly: i32|
            #![trigger map_px(tiles, lx as int, ly as int)]
            {
                let p = map_px(tiles, lx as int, ly as int);
                let q = map_px(raster_tiles(c.apply_view(d).nodes[c.id.0].kind), lx as int, ly as int);
                let cov = mask_px(mk, lx + off[0], ly + off[1]);
                &&& q[3] == p[3] * cov / 255
                &&& q[3] != 0 ==> q[0] == p[0] && q[1] == p[1] && q[2] == p[2]
            },
{
    assert(c.apply_view(d).nodes[c.id.0].kind == baked_kind(d.nodes[c.id.0].kind));
    assert(raster_tiles(c.apply_view(d).nodes[c.id.0].kind) == map_pruned(baked_tiles(tiles, mk, off)));
    assert forall|lx: i32, ly: i32|
        #![trigger map_px(tiles, lx as int, ly as int)]
        {
            let p = map_px(tiles, lx as int, ly as int);
            let q = map_px(raster_tiles(c.apply_view(d).nodes[c.id.0].kind), lx as int, ly as int);
            let cov = mask_px(mk, lx + off[0], ly + off[1]);
            &&& q[3] == p[3] * cov / 255
            &&& q[3] != 0 ==> q[0] == p[0] && q[1] == p[1] && q[2] == p[2]
        } by {
        lemma_baked_px(tiles, mk, off, lx, ly);
    }
}

/// `k` with a raster layer's mask baked into its tiles and cleared.
pub open spec fn baked_kind(k: KindView) -> KindView {
    match k {
        KindView::Raster { art, offset, tiles, mask: Some(m) } => KindView::Raster {
            art,
            offset,
            tiles: map_pruned(baked_tiles(tiles, m, offset)),
            mask: None,
        },
        _ => k,
    }
}

/// Bake a raster layer's mask into its pixel alpha and clear the mask.
/// Undoable: restores the pre-bake tiles and mask.
#[derive(Debug)]
pub struct ApplyLayerMask {
    pub id: NodeId,
    /// Captured on apply: the tiles and mask before baking.
    pub old_tiles: Option<TileMap>,
    pub old_mask: Option<Mask>,
}

impl ApplyLayerMask {
    /// Build the command; nothing is captured until apply.
    pub fn new(doc: &Document, id: NodeId) -> (r: ApplyLayerMask)
        ensures
            r.id == id,
            r.old_tiles is None,
            r.old_mask is None,
    {
        ApplyLayerMask { id, old_tiles: None, old_mask: None }
    }

    /// "Apply Layer Mask".
    pub fn label(&self) -> (r: String)
        ensures
            r@ == "Apply Layer Mask"@,
    {
        String::from_str("Apply Layer Mask")
    }

    /// A raster layer with a mask has well-formed tiles and mask, and its
    /// pixel positions fit `i32`.
    pub open spec fn can_apply(&self, d: DocView) -> bool {
        d.nodes.contains_key(self.id.0) ==> match d.nodes[self.id.0].kind {
            KindView::Raster { offset, tiles, mask: Some(m), .. } => map_wf(tiles) && mask_wf(m) && bake_fits(
                tiles,
                offset,
            ),
            _ => true,
        }
    }

    /// The document after apply: the layer's mask baked and cleared.
    pub open spec fn apply_view(&self, d: DocView) -> DocView {
        if d.nodes.contains_key(self.id.0) {
            with_kind(d, self.id.0, baked_kind(d.nodes[self.id.0].kind))
        } else {
            d
        }
    }

    /// Undo always restores the document exactly.
    pub open spec fn undoable(&self, d: DocView) -> bool {
        true
    }

    /// The document after revert: a raster layer gets the captured tiles
    /// (when captured) and the captured mask back.
    pub open spec fn revert_view(&self, d: DocView) -> DocView {
        if d.nodes.contains_key(self.id.0) {
            match d.nodes[self.id.0].kind {
                KindView::Raster { art, offset, tiles, mask } => with_kind(
                    d,
                    self.id.0,
                    KindView::Raster {
                        art,
                        offset,
                        tiles: match self.old_tiles {
                            Some(t) => t@,
                            None => tiles,
                        },
                        mask: mask_view(self.old_mask),
                    },
                ),
                _ => d,
            }
        } else {
            d
        }
    }

    /// Baking again after revert is accepted and gives `d` back.
    pub open spec fn can_revert(&self, d: DocView) -> bool {
        &&& self.can_apply(self.revert_view(d))
        &&& self.apply_view(self.revert_view(d)) == d
    }

    /// Bake the mask. Undoing right after restores the document exactly.
    pub fn apply(&mut self, doc: &mut Document)
        requires
            old(doc).wf(),
            old(self).can_apply(old(doc)@),
        ensures
            final(doc).wf(),
            final(self).id == old(self).id,
            final(doc)@ == old(self).apply_view(old(doc)@),
            old(self).undoable(old(doc)@) ==> final(self).can_revert(final(doc)@) && final(self).revert_view(final(doc)@)
                == old(doc)@,
    {
        let ghost d = doc@;
        let ghost id = self.id.0;
        let is_raster = match doc.node(self.id) {
            Some(n) => match &n.kind {
                NodeKind::Raster(_) => true,
                _ => false,
            },
            None => false,
        };
        if !is_raster {
            proof {
                if d.nodes.contains_key(id) {
                    lemma_with_kind(d, id, d.nodes[id].kind, d.nodes[id].kind);
                }
            }
            return;
        }
        let ghost k0 = d.nodes[id].kind;
        let k = take_kind(doc, self.id);
        let k2 = match k {
            NodeKind::Raster(mut c) => {
                match c.mask.take() {
                    Some(m) => {
                        let mut baked = bake_tiles(&c.tiles, &m, c.offset);
                        baked.prune_blank();
                        let old = c.tiles;
                        c.tiles = baked;
                        self.old_tiles = Some(old);
                        self.old_mask = Some(m);
                    },
                    None => {
                        self.old_tiles = Some(c.tiles.duplicate());
                        self.old_mask = None;
                    },
                }
                NodeKind::Raster(c)
            },
            other => {
                assert(false);
                other
            },
        };
        let _ = doc.replace_kind(self.id, k2);
        proof {
            lemma_with_kind(d, id, KindView::Fill, k2@);
            assert(k2@ == baked_kind(k0));
            let d1 = doc@;
            let back = self.revert_view(d1);
            lemma_with_kind(d, id, k2@, k0);
            lemma_with_kind(d, id, k0, k0);
            assert(back == d);
        }
    }

    /// Put the captured tiles and mask back. Redoing right after restores
    /// the document exactly.
    pub fn revert(&mut self, doc: &mut Document)
        requires
            old(doc).wf(),
            old(self).can_revert(old(doc)@),
        ensures
            final(doc).wf(),
            final(self).id == old(self).id,
            final(self).old_tiles is None && final(self).old_mask is None,
            final(doc)@ == old(self).revert_view(old(doc)@),
            final(self).can_apply(final(doc)@),
            final(self).undoable(final(doc)@),
            final(self).apply_view(final(doc)@) == old(doc)@,
    {
        let ghost d = doc@;
        let ghost id = self.id.0;
        let ghost s0 = *self;
        let is_raster = match doc.node(self.id) {
            Some(n) => match &n.kind {
                NodeKind::Raster(_) => true,
                _ => false,
            },
            None => false,
        };
        if !is_raster {
            self.old_tiles = None;
            self.old_mask = None;
            return;
        }
        let k = take_kind(doc, self.id);
        let k2 = match k {
            NodeKind::Raster(mut c) => {
                match self.old_tiles.take() {
                    Some(t) => {
                        c.tiles = t;
                    },
                    None => {},
                }
                c.mask = self.old_mask.take();
                NodeKind::Raster(c)
            },
            other => {
                assert(false);
                other
            },
        };
        let _ = doc.replace_kind(self.id, k2);
        proof {
            lemma_with_kind(d, id, KindView::Fill, k2@);
            assert(doc@ == s0.revert_view(d));
        }
    }
}

} // verus!
