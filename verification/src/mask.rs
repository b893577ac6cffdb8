//! Single-channel 8-bit coverage mask in sparse 256×256 tiles (selections):
//! 0 is unselected, 255 fully selected; a tile that is not stored reads 0.

use std::collections::BTreeMap;
use vstd::prelude::*;
use crate::order::{coords_sorted, lemma_coord_order, lemma_keys_sorted};
use crate::tile::{
    coord_of, exact_extent, extent_tight, in_rect, lemma_extent_add, lemma_split_unique,
    rect_touches, sweep_touches, swept, tile_bounds_of, tile_coords_in_range, TileCoord, TILE_SIZE,
};
use vstd::std_specs::btree::spec_keys_iter;
use vstd::std_specs::iter::IteratorSpec;

pub mod boundary;
pub mod region;

verus! {

broadcast use vstd::std_specs::btree::group_btree_axioms;

/// Coverage values in one mask tile (256 · 256).
pub const TILE_PX: usize = 65536;

/// How a new selection shape combines with the existing selection.
#[derive(Debug, Clone, Copy, PartialEq, Eq, Structural)]
pub enum CombineOp {
    /// The new shape replaces the selection.
    Replace,
    /// Union: max(a, b).
    Add,
    /// a ∧ ¬b: min(a, 255 − b).
    Subtract,
    /// min(a, b).
    Intersect,
}

/// Index of in-tile position `(x, y)` in a mask tile.
pub open spec fn cov_index(x: int, y: int) -> int {
    y * 256 + x
}

/// Every stored mask tile holds `TILE_PX` coverage values.
pub open spec fn mask_wf(m: Map<TileCoord, Seq<u8>>) -> bool {
    forall|k: TileCoord| #[trigger] m.contains_key(k) ==> m[k].len() == TILE_PX
}

/// Coverage of document pixel `(x, y)`: 0 where no tile is stored.
pub open spec fn mask_px(m: Map<TileCoord, Seq<u8>>, x: int, y: int) -> u8 {
    if m.contains_key(coord_of(x, y)) {
        m[coord_of(x, y)][cov_index(x % 256, y % 256)]
    } else {
        0
    }
}

/// A mask tile with no coverage.
pub open spec fn zero_cov() -> Seq<u8> {
    Seq::new(TILE_PX as nat, |i: int| 0u8)
}

/// The stored mask tile at `c`, or an empty one.
pub open spec fn cov_or_zero(m: Map<TileCoord, Seq<u8>>, c: TileCoord) -> Seq<u8> {
    if m.contains_key(c) {
        m[c]
    } else {
        zero_cov()
    }
}

/// `m` after setting pixel `(x, y)` to `v`; writing 0 where no tile is
/// stored creates nothing.
pub open spec fn mask_with(m: Map<TileCoord, Seq<u8>>, x: int, y: int, v: u8) -> Map<TileCoord, Seq<u8>> {
    let c = coord_of(x, y);
    if v == 0 && !m.contains_key(c) {
        m
    } else {
        m.insert(c, cov_or_zero(m, c).update(cov_index(x % 256, y % 256), v))
    }
}

/// A mask tile with no coverage anywhere.
pub open spec fn cov_blank(t: Seq<u8>) -> bool {
    forall|i: int| 0 <= i < t.len() ==> #[trigger] t[i] == 0
}

/// `m` without its empty tiles.
pub open spec fn mask_pruned(m: Map<TileCoord, Seq<u8>>) -> Map<TileCoord, Seq<u8>> {
    Map::new(|k: TileCoord| m.contains_key(k) && !cov_blank(m[k]), |k: TileCoord| m[k])
}

/// Document pixel `(px, py)` has non-zero coverage.
pub open spec fn cov_content(m: Map<TileCoord, Seq<u8>>, px: int, py: int) -> bool {
    mask_px(m, px, py) != 0
}

/// Every pixel with coverage has `p` and `p + 1` inside `i32` on both axes.
pub open spec fn cov_in_range(m: Map<TileCoord, Seq<u8>>) -> bool {
    forall|k: TileCoord, x: int, y: int|
        #[trigger] m.contains_key(k) && 0 <= x < 256 && 0 <= y < 256 && #[trigger] m[k][cov_index(x, y)] != 0
            ==> i32::MIN <= k.0 * 256 && k.0 * 256 + x + 1 <= i32::MAX && i32::MIN <= k.1 * 256 && k.1
            * 256 + y + 1 <= i32::MAX
}

/// Pixels with coverage a row-major scan has visited (tiles `ks[..i]`, then
/// rows above `iy` and row `iy` left of `ix` in tile `ks[i]`).
pub open spec fn cov_scanned(
    m: Map<TileCoord, Seq<u8>>,
    ks: Seq<TileCoord>,
    i: int,
    ix: int,
    iy: int,
    px: i32,
    py: i32,
) -> bool {
    &&& cov_content(m, px as int, py as int)
    &&& (ks.take(i).contains(coord_of(px as int, py as int)) || (i < ks.len() && coord_of(px as int, py as int) == ks[i] && ((py as int) % 256 < iy || ((py as int) % 256 == iy && (px as int) % 256 < ix))))
}

/// The coverage a combine step computes from existing `a` and new `b`.
pub open spec fn combine_value(op: CombineOp, a: u8, b: u8) -> u8 {
    match op {
        CombineOp::Replace => b,
        CombineOp::Add => if a >= b { a } else { b },
        CombineOp::Subtract => if a <= 255 - b { a } else { (255 - b) as u8 },
        CombineOp::Intersect => if a <= b { a } else { b },
    }
}


/// Whether some pixel of `[0, w) × [0, h)` whose coverage is not full falls in tile `k`.
pub open spec fn uncovered_touches(m: Map<TileCoord, Seq<u8>>, w: int, h: int, k: TileCoord) -> bool {
    exists|px: i32, py: i32|
        in_rect(px as int, py as int, 0, 0, w, h) && mask_px(m, px as int, py as int) != 255
            && #[trigger] coord_of(px as int, py as int) == k
}

/// As `uncovered_touches`, over the pixels a row-major sweep visited before `(x, y)`.
pub open spec fn uncovered_swept(m: Map<TileCoord, Seq<u8>>, w: int, x: int, y: int, k: TileCoord) -> bool {
    exists|px: i32, py: i32|
        swept(px as int, py as int, 0, 0, w, x, y) && mask_px(m, px as int, py as int) != 255
            && #[trigger] coord_of(px as int, py as int) == k
}


/// Elementwise combine of two coverage tiles.
pub open spec fn combine_tile(op: CombineOp, a: Seq<u8>, b: Seq<u8>) -> Seq<u8> {
    Seq::new(a.len(), |i: int| combine_value(op, a[i], b[i]))
}

/// The tiles that combining `b` into `a` with `op` leaves.
pub open spec fn combine_map(op: CombineOp, a: Map<TileCoord, Seq<u8>>, b: Map<TileCoord, Seq<u8>>) -> Map<
    TileCoord,
    Seq<u8>,
> {
    match op {
        CombineOp::Replace => b,
        CombineOp::Add => Map::new(
            |k: TileCoord| a.contains_key(k) || b.contains_key(k),
            |k: TileCoord|
                if b.contains_key(k) {
                    combine_tile(op, cov_or_zero(a, k), b[k])
                } else {
                    a[k]
                },
        ),
        CombineOp::Subtract => mask_pruned(
            Map::new(
                |k: TileCoord| a.contains_key(k),
                |k: TileCoord|
                    if b.contains_key(k) {
                        combine_tile(op, a[k], b[k])
                    } else {
                        a[k]
                    },
            ),
        ),
        CombineOp::Intersect => mask_pruned(
            Map::new(
                |k: TileCoord| a.contains_key(k) && b.contains_key(k),
                |k: TileCoord| combine_tile(op, a[k], b[k]),
            ),
        ),
    }
}

/// Combining masks acts pixel by pixel: each pixel's new coverage is the
/// combine of its old coverage and the other mask's coverage there.
pub proof fn lemma_combine_pointwise(op: CombineOp, a: Map<TileCoord, Seq<u8>>, b: Map<TileCoord, Seq<u8>>)
    requires
        mask_wf(a),
        mask_wf(b),
    ensures
        mask_wf(combine_map(op, a, b)),
        forall|px: i32, py: i32|
            #[trigger] mask_px(combine_map(op, a, b), px as int, py as int) == combine_value(
                op,
                mask_px(a, px as int, py as int),
                mask_px(b, px as int, py as int),
            ),
{
    let r = combine_map(op, a, b);
    assert forall|px: i32, py: i32|
        #[trigger] mask_px(r, px as int, py as int) == combine_value(
            op,
            mask_px(a, px as int, py as int),
            mask_px(b, px as int, py as int),
        ) by {
        lemma_split_unique(px, py, px, py);
        let c = coord_of(px as int, py as int);
        let i = cov_index((px as int) % 256, (py as int) % 256);
        assert(0 <= i < TILE_PX);
        if op == CombineOp::Subtract || op == CombineOp::Intersect {
            let pre = if op == CombineOp::Subtract {
                Map::new(
                    |k: TileCoord| a.contains_key(k),
                    |k: TileCoord|
                        if b.contains_key(k) {
                            combine_tile(op, a[k], b[k])
                        } else {
                            a[k]
                        },
                )
            } else {
                Map::new(
                    |k: TileCoord| a.contains_key(k) && b.contains_key(k),
                    |k: TileCoord| combine_tile(op, a[k], b[k]),
                )
            };
            assert(r == mask_pruned(pre));
            if pre.contains_key(c) && !r.contains_key(c) {
                assert(cov_blank(pre[c]));
                assert(pre[c][i] == 0);
            }
        }
    }
}

/// What each combine does at every pixel, in terms of the two coverages `a`
/// (existing) and `b` (new shape): replace takes `b`; add takes the larger
/// and never loses coverage; subtract never grows the selection and leaves
/// nothing above `255 − b`; intersect never exceeds either input and is one
/// of them.
pub proof fn lemma_combine_laws(op: CombineOp, a: Map<TileCoord, Seq<u8>>, b: Map<TileCoord, Seq<u8>>)
    requires
        mask_wf(a),
        mask_wf(b),
    ensures
        forall|px: i32, py: i32|
            {
                let r = #[trigger] mask_px(combine_map(op, a, b), px as int, py as int);
                let x = mask_px(a, px as int, py as int);
                let y = mask_px(b, px as int, py as int);
                &&& op == CombineOp::Replace ==> r == y
                &&& op == CombineOp::Add ==> x <= r && y <= r && (r == x || r == y)
                &&& op == CombineOp::Subtract ==> r <= x && r + y <= 255 && (r == x || r + y == 255)
                &&& op == CombineOp::Intersect ==> r <= x && r <= y && (r == x || r == y)
            },
{
    lemma_combine_pointwise(op, a, b);
}

/// A stored tile with some coverage, inside `i32` pixel range, shows that
/// coverage at some `i32` pixel.
pub proof fn lemma_coverage_reached(m: Map<TileCoord, Seq<u8>>, c: TileCoord)
    requires
        mask_wf(m),
        tile_coords_in_range(m),
        m.contains_key(c),
        !cov_blank(m[c]),
    ensures
        exists|px: i32, py: i32| mask_px(m, px as int, py as int) != 0,
{
    let t = m[c];
    let j = choose|j: int| 0 <= j < t.len() && t[j] != 0;
    let ix = j % 256;
    let iy = j / 256;
    assert(0 <= iy < 256 && iy * 256 + ix == j);
    let px = (c.0 * 256 + ix) as i32;
    let py = (c.1 * 256 + iy) as i32;
    assert(px == c.0 * 256 + ix && py == c.1 * 256 + iy);
    assert((px as int) / 256 == c.0 && (px as int) % 256 == ix);
    assert((py as int) / 256 == c.1 && (py as int) % 256 == iy);
    assert(coord_of(px as int, py as int) == c);
    assert(mask_px(m, px as int, py as int) == t[j]);
}

/// Pruning keeps every pixel's coverage, and leaves no tile stored exactly
/// when the mask is empty; so after `prune_blank` the tile-granular bounds
/// are `None` exactly when no pixel has coverage.
pub proof fn lemma_prune_blank_law(m: Map<TileCoord, Seq<u8>>)
    requires
        mask_wf(m),
    ensures
        forall|px: int, py: int| #[trigger] mask_px(mask_pruned(m), px, py) == mask_px(m, px, py),
        mask_pruned(m).dom() == Set::<TileCoord>::empty() <==> forall|k: TileCoord|
            #[trigger] m.contains_key(k) ==> cov_blank(m[k]),
        mask_pruned(mask_pruned(m)) == mask_pruned(m),
{
    let p = mask_pruned(m);
    assert forall|px: int, py: int| #[trigger] mask_px(p, px, py) == mask_px(m, px, py) by {
        let c = coord_of(px, py);
        if m.contains_key(c) && cov_blank(m[c]) {
            assert(0 <= px % 256 < 256 && 0 <= py % 256 < 256);
            assert(0 <= cov_index(px % 256, py % 256) < TILE_PX);
        }
    }
    if p.dom() == Set::<TileCoord>::empty() {
        assert forall|k: TileCoord| #[trigger] m.contains_key(k) implies cov_blank(m[k]) by {
            assert(!p.dom().contains(k));
        }
    }
    if forall|k: TileCoord| #[trigger] m.contains_key(k) ==> cov_blank(m[k]) {
        assert(p.dom() =~= Set::<TileCoord>::empty());
    }
    assert(mask_pruned(p) =~= p);
}

/// The pixel extent lies inside the tile extent: the exact bounds of the
/// pixels with coverage never leave the whole-tile bounds of the tiles that
/// hold coverage.
pub proof fn lemma_mask_pixel_bounds_within(m: Map<TileCoord, Seq<u8>>, tb: Seq<i32>, pb: Seq<i32>)
    requires
        mask_wf(m),
        tile_bounds_of(mask_pruned(m), tb),
        exact_extent(|px: i32, py: i32| cov_content(m, px as int, py as int), pb),
    ensures
        tb[0] <= pb[0],
        tb[1] <= pb[1],
        pb[2] <= tb[2],
        pb[3] <= tb[3],
{
    let p = |px: i32, py: i32| cov_content(m, px as int, py as int);
    let q = mask_pruned(m);
    lemma_prune_blank_law(m);
    let (ax, ay) = choose|px: i32, py: i32| #[trigger] p(px, py) && px == pb[0];
    let (bx, by) = choose|px: i32, py: i32| #[trigger] p(px, py) && px + 1 == pb[2];
    let (cx, cy) = choose|px: i32, py: i32| #[trigger] p(px, py) && py == pb[1];
    let (dx, dy) = choose|px: i32, py: i32| #[trigger] p(px, py) && py + 1 == pb[3];
    assert(mask_px(q, ax as int, ay as int) != 0);
    assert(mask_px(q, bx as int, by as int) != 0);
    assert(mask_px(q, cx as int, cy as int) != 0);
    assert(mask_px(q, dx as int, dy as int) != 0);
    assert(q.contains_key(coord_of(ax as int, ay as int)));
    assert(q.contains_key(coord_of(bx as int, by as int)));
    assert(q.contains_key(coord_of(cx as int, cy as int)));
    assert(q.contains_key(coord_of(dx as int, dy as int)));
    assert((ax as int / 256) * 256 <= ax);
    assert(bx < (bx as int / 256 + 1) * 256);
    assert((cy as int / 256) * 256 <= cy);
    assert(dy < (dy as int / 256 + 1) * 256);
}

/// Setting one mask pixel changes that pixel and no other.
pub proof fn lemma_mask_with(m: Map<TileCoord, Seq<u8>>, x: i32, y: i32, v: u8)
    requires
        mask_wf(m),
    ensures
        mask_wf(mask_with(m, x as int, y as int, v)),
        forall|px: i32, py: i32|
            #[trigger] mask_px(mask_with(m, x as int, y as int, v), px as int, py as int) == if px == x && py
                == y {
                v
            } else {
                mask_px(m, px as int, py as int)
            },
{
    let c = coord_of(x as int, y as int);
    lemma_split_unique(x, y, x, y);
    let n = mask_with(m, x as int, y as int, v);
    assert forall|px: i32, py: i32| #[trigger]
        mask_px(n, px as int, py as int) == if px == x && py == y {
            v
        } else {
            mask_px(m, px as int, py as int)
        } by {
        lemma_split_unique(x, y, px, py);
        if coord_of(px as int, py as int) == c && !(px == x && py == y) {
            assert(cov_index((px as int) % 256, (py as int) % 256) != cov_index((x as int) % 256, (y as int) % 256));
        }
    }
}

/// Sparse coverage storage: a map from tile coordinate to `TILE_PX` values.
#[derive(Debug, Clone, PartialEq, Eq)]
pub struct Mask {
    tiles: BTreeMap<TileCoord, Vec<u8>>,
}

impl View for Mask {
    type V = Map<TileCoord, Seq<u8>>;

    closed spec fn view(&self) -> Map<TileCoord, Seq<u8>> {
        self.tiles@.map_values(|t: Vec<u8>| t@)
    }
}

/// A mask tile with no coverage.
fn zero_cov_tile() -> (r: Vec<u8>)
    ensures
        r@ == zero_cov(),
{
    let mut v: Vec<u8> = Vec::new();
    while v.len() < TILE_PX
        invariant
            v.len() <= TILE_PX,
            forall|i: int| 0 <= i < v.len() ==> v@[i] == 0u8,
        decreases TILE_PX - v.len(),
    {
        v.push(0u8);
    }
    assert(v@ =~= zero_cov());
    v
}


/// True when no value of a coverage tile is non-zero.
fn cov_all_zero(t: &Vec<u8>) -> (r: bool)
    ensures
        r == cov_blank(t@),
{
    let mut i: usize = 0;
    while i < t.len()
        invariant
            i <= t.len(),
            forall|j: int| 0 <= j < i ==> t@[j] == 0,
        decreases t.len() - i,
    {
        if t[i] != 0 {
            return false;
        }
        i += 1;
    }
    true
}


/// `dst[i] = combine(op, dst[i], src[i])` for every value of a coverage tile.
fn combine_into(dst: &mut Vec<u8>, src: &Vec<u8>, op: CombineOp)
    requires
        old(dst)@.len() == TILE_PX,
        src@.len() == TILE_PX,
    ensures
        final(dst)@ == combine_tile(op, old(dst)@, src@),
{
    let mut i: usize = 0;
    while i < TILE_PX
        invariant
            dst@.len() == TILE_PX,
            src@.len() == TILE_PX,
            i <= TILE_PX,
            forall|j: int| 0 <= j < i ==> dst@[j] == combine_value(op, old(dst)@[j], src@[j]),
            forall|j: int| i <= j < TILE_PX ==> dst@[j] == old(dst)@[j],
        decreases TILE_PX - i,
    {
        let a = dst[i];
        let b = src[i];
        let v = match op {
            CombineOp::Replace => b,
            CombineOp::Add => if a >= b { a } else { b },
            CombineOp::Subtract => if a <= 255 - b { a } else { 255 - b },
            CombineOp::Intersect => if a <= b { a } else { b },
        };
        dst.set(i, v);
        i += 1;
    }
    assert(dst@ =~= combine_tile(op, old(dst)@, src@));
}

impl Default for Mask {
    /// A mask with nothing selected.
    fn default() -> (r: Mask)
        ensures
            r@ == Map::<TileCoord, Seq<u8>>::empty(),
            r.wf(),
    {
        Mask::new()
    }
}

impl Mask {
    /// Every stored tile is well formed.
    pub open spec fn wf(&self) -> bool {
        mask_wf(self@)
    }

    /// An empty mask (nothing selected).
    pub fn new() -> (r: Mask)
        ensures
            r@ == Map::<TileCoord, Seq<u8>>::empty(),
            r.wf(),
    {
        let r = Mask { tiles: BTreeMap::new() };
        assert(r@ =~= Map::<TileCoord, Seq<u8>>::empty());
        r
    }

    /// Coordinates of the stored tiles, in increasing lexicographic order.
    pub fn coords(&self) -> (r: Vec<TileCoord>)
        ensures
            r@.to_set() == self@.dom(),
            r@.no_duplicates(),
            coords_sorted(r@),
    {
        proof {
            lemma_coord_order();
        }
        let ghost ks = spec_keys_iter(&self.tiles).remaining();
        let mut out: Vec<TileCoord> = Vec::new();
        for k in it: self.tiles.keys()
            invariant
                it.seq() == ks,
                out@.len() == it.index(),
                out@ == ks.take(it.index()).unref(),
        {
            out.push(*k);
        }
        proof {
            assert(out@.len() == ks.len());
            assert(ks.take(ks.len() as int) =~= ks);
            lemma_keys_sorted(ks);
            assert(self@.dom() =~= self.tiles@.dom());
        }
        out
    }

    /// The coverage tile stored at `coord`, if any.
    fn tile_at(&self, coord: TileCoord) -> (r: Option<&Vec<u8>>)
        ensures
            match r {
                Some(t) => self@.contains_key(coord) && t@ == self@[coord],
                None => !self@.contains_key(coord),
            },
    {
        proof {
            lemma_coord_order();
        }
        self.tiles.get(&coord)
    }

    /// Remove and return the coverage tile at `coord`.
    fn take_tile(&mut self, coord: TileCoord) -> (r: Option<Vec<u8>>)
        ensures
            final(self)@ == old(self)@.remove(coord),
            match r {
                Some(t) => old(self)@.contains_key(coord) && t@ == old(self)@[coord],
                None => !old(self)@.contains_key(coord),
            },
    {
        proof {
            lemma_coord_order();
        }
        let r = self.tiles.remove(&coord);
        assert(self@ =~= old(self)@.remove(coord));
        r
    }

    /// Store a coverage tile at `coord`.
    fn put_tile(&mut self, coord: TileCoord, t: Vec<u8>)
        ensures
            final(self)@ == old(self)@.insert(coord, t@),
    {
        proof {
            lemma_coord_order();
        }
        self.tiles.insert(coord, t);
        assert(self@ =~= old(self)@.insert(coord, t@));
    }

    /// Split a document coordinate into its tile and in-tile index.
    fn split(x: i32, y: i32) -> (r: (TileCoord, usize))
        ensures
            r.0 == coord_of(x as int, y as int),
            r.1 == cov_index((x as int) % 256, (y as int) % 256),
            r.1 < TILE_PX,
    {
        let tx = match x.checked_div_euclid(256) {
            Some(v) => v,
            None => 0,
        };
        let ty = match y.checked_div_euclid(256) {
            Some(v) => v,
            None => 0,
        };
        let ix = match x.checked_rem_euclid(256) {
            Some(v) => v,
            None => 0,
        };
        let iy = match y.checked_rem_euclid(256) {
            Some(v) => v,
            None => 0,
        };
        ((tx, ty), iy as usize * TILE_SIZE + ix as usize)
    }

    /// Coverage at document `(x, y)`; 0 where no tile is stored.
    pub fn get(&self, x: i32, y: i32) -> (r: u8)
        requires
            self.wf(),
        ensures
            r == mask_px(self@, x as int, y as int),
    {
        let (coord, i) = Self::split(x, y);
        match self.tile_at(coord) {
            Some(t) => t[i],
            None => 0,
        }
    }

    /// Set coverage at document `(x, y)`; writing 0 where no tile is stored
    /// creates nothing.
    pub fn set(&mut self, x: i32, y: i32, v: u8)
        requires
            old(self).wf(),
        ensures
            final(self)@ == mask_with(old(self)@, x as int, y as int, v),
            final(self).wf(),
            forall|px: i32, py: i32|
                #[trigger] mask_px(final(self)@, px as int, py as int) == if px == x && py == y {
                    v
                } else {
                    mask_px(old(self)@, px as int, py as int)
                },
    {
        proof {
            lemma_mask_with(old(self)@, x, y, v);
        }
        let (coord, i) = Self::split(x, y);
        let present = self.tile_at(coord).is_some();
        if v == 0 && !present {
            return;
        }
        let mut t = match self.take_tile(coord) {
            Some(t) => t,
            None => zero_cov_tile(),
        };
        t.set(i, v);
        self.put_tile(coord, t);
        assert(self@ =~= mask_with(old(self)@, x as int, y as int, v));
    }

    /// An owned copy with the same coverage.
    pub fn duplicate(&self) -> (r: Mask)
        ensures
            r@ == self@,
    {
        let ks = self.coords();
        let mut out = Mask::new();
        let mut i: usize = 0;
        while i < ks.len()
            invariant
                ks@.to_set() == self@.dom(),
                i <= ks.len(),
                forall|j: int| 0 <= j < i ==> #[trigger] out@.contains_key(ks@[j]),
                forall|k: TileCoord| #[trigger] out@.contains_key(k) ==> self@.contains_key(k) && out@[k] == self@[k],
            decreases ks.len() - i,
        {
            let c = ks[i];
            assert(ks@.to_set().contains(c));
            let t = self.tile_at(c).unwrap().clone();
            out.put_tile(c, t);
            i += 1;
        }
        proof {
            assert forall|k: TileCoord| self@.contains_key(k) implies out@.contains_key(k) by {
                assert(ks@.to_set().contains(k));
                let j = choose|j: int| 0 <= j < ks@.len() && ks@[j] == k;
                assert(out@.contains_key(ks@[j]));
            }
            assert(out@ =~= self@);
        }
        out
    }

    /// Every stored tile lies inside `i32` pixel range (one past its far edge
    /// included), which the bounds and the part encoding need.
    pub fn tiles_in_range(&self) -> (r: bool)
        requires
            self.wf(),
        ensures
            r == tile_coords_in_range(self@),
            r ==> cov_in_range(self@),
    {
        let ks = self.coords();
        let mut i: usize = 0;
        while i < ks.len()
            invariant
                ks@.to_set() == self@.dom(),
                i <= ks.len(),
                forall|j: int|
                    0 <= j < i ==> i32::MIN <= (#[trigger] ks@[j]).0 * 256 && (ks@[j].0 + 1) * 256 <= i32::MAX
                        && i32::MIN <= ks@[j].1 * 256 && (ks@[j].1 + 1) * 256 <= i32::MAX,
            decreases ks.len() - i,
        {
            let (tx, ty) = ks[i];
            if tx < -8388608 || tx > 8388606 || ty < -8388608 || ty > 8388606 {
                proof {
                    assert(ks@.to_set().contains(ks@[i as int]));
                }
                return false;
            }
            i += 1;
        }
        proof {
            assert forall|k: TileCoord| #[trigger] self@.contains_key(k) implies i32::MIN <= k.0 * 256 && (k.0
                + 1) * 256 <= i32::MAX && i32::MIN <= k.1 * 256 && (k.1 + 1) * 256 <= i32::MAX by {
                assert(ks@.to_set().contains(k));
                let j = choose|j: int| 0 <= j < ks@.len() && ks@[j] == k;
                assert(ks@[j] == k);
            }
        }
        true
    }

    /// True when no pixel has coverage.
    pub fn is_empty(&self) -> (r: bool)
        requires
            self.wf(),
        ensures
            r == (forall|k: TileCoord| #[trigger] self@.contains_key(k) ==> cov_blank(self@[k])),
            r ==> forall|px: i32, py: i32| mask_px(self@, px as int, py as int) == 0,
            tile_coords_in_range(self@) && (forall|px: i32, py: i32| mask_px(self@, px as int, py as int) == 0)
                ==> r,
    {
        let ks = self.coords();
        let mut i: usize = 0;
        while i < ks.len()
            invariant
                self.wf(),
                ks@.to_set() == self@.dom(),
                i <= ks.len(),
                forall|j: int| 0 <= j < i ==> cov_blank(self@[#[trigger] ks@[j]]),
            decreases ks.len() - i,
        {
            let c = ks[i];
            assert(ks@.to_set().contains(c));
            let t = self.tile_at(c).unwrap();
            if !cov_all_zero(t) {
                proof {
                    if tile_coords_in_range(self@) {
                        lemma_coverage_reached(self@, c);
                    }
                }
                return false;
            }
            i += 1;
        }
        proof {
            assert forall|k: TileCoord| #[trigger] self@.contains_key(k) implies cov_blank(self@[k]) by {
                assert(ks@.to_set().contains(k));
                let j = choose|j: int| 0 <= j < ks@.len() && ks@[j] == k;
                assert(cov_blank(self@[ks@[j]]));
            }
            assert forall|px: i32, py: i32| mask_px(self@, px as int, py as int) == 0 by {
                let c = coord_of(px as int, py as int);
                lemma_split_unique(px, py, px, py);
                if self@.contains_key(c) {
                    assert(cov_blank(self@[c]));
                    assert(0 <= cov_index((px as int) % 256, (py as int) % 256) < TILE_PX);
                }
            }
        }
        true
    }

    /// Drop the tiles with no coverage (sparseness maintenance).
    pub fn prune_blank(&mut self)
        requires
            old(self).wf(),
        ensures
            final(self)@ == mask_pruned(old(self)@),
            final(self).wf(),
    {
        let ghost old_m = self@;
        let ks = self.coords();
        let mut i: usize = 0;
        while i < ks.len()
            invariant
                ks@.to_set() == old_m.dom(),
                ks@.no_duplicates(),
                i <= ks.len(),
                mask_wf(old_m),
                forall|k: TileCoord| #[trigger]
                    self@.contains_key(k) ==> old_m.contains_key(k) && self@[k] == old_m[k],
                forall|k: TileCoord|
                    old_m.contains_key(k) ==> (#[trigger] self@.contains_key(k) <==> (!cov_blank(old_m[k])
                        || !ks@.take(i as int).contains(k))),
            decreases ks.len() - i,
        {
            let c = ks[i];
            assert(ks@.to_set().contains(c));
            proof {
                let a = ks@.take(i as int);
                let b = ks@.take(i + 1);
                assert(b =~= a.push(c));
                assert forall|k: TileCoord| #[trigger] b.contains(k) == (a.contains(k) || k == c) by {
                    if b.contains(k) && k != c {
                        let j = choose|j: int| 0 <= j < b.len() && b[j] == k;
                        assert(a[j] == k);
                    }
                    if a.contains(k) {
                        let j = choose|j: int| 0 <= j < a.len() && a[j] == k;
                        assert(b[j] == k);
                    }
                    if k == c {
                        assert(b[i as int] == k);
                    }
                }
                assert(!a.contains(c)) by {
                    if a.contains(c) {
                        let j = choose|j: int| 0 <= j < i && a[j] == c;
                        assert(ks@[j] == ks@[i as int]);
                    }
                }
            }
            let blank = match self.tile_at(c) {
                Some(t) => cov_all_zero(t),
                None => false,
            };
            if blank {
                self.take_tile(c);
            }
            i += 1;
        }
        proof {
            assert(ks@.take(ks.len() as int) =~= ks@);
            assert forall|k: TileCoord| old_m.contains_key(k) implies ks@.contains(k) by {
                assert(ks@.to_set().contains(k));
            }
            assert(self@ =~= mask_pruned(old_m));
        }
    }

    /// Tile-granular content bounds `[x0, y0, x1, y1)` in document pixels:
    /// the smallest rect of whole tiles covering every tile that holds some
    /// coverage; `None` when the mask is empty.
    pub fn bounds(&self) -> (r: Option<[i32; 4]>)
        requires
            self.wf(),
            tile_coords_in_range(self@),
        ensures
            match r {
                None => forall|k: TileCoord| #[trigger] self@.contains_key(k) ==> cov_blank(self@[k]),
                Some(b) => tile_bounds_of(mask_pruned(self@), b@),
            },
    {
        let ghost p = mask_pruned(self@);
        let ks = self.coords();
        let mut found = false;
        let (mut x0, mut y0, mut x1, mut y1) = (0i32, 0i32, 0i32, 0i32);
        let mut i: usize = 0;
        while i < ks.len()
            invariant
                self.wf(),
                p == mask_pruned(self@),
                ks@.to_set() == self@.dom(),
                i <= ks.len(),
                found <==> exists|j: int| 0 <= j < i && p.contains_key(#[trigger] ks@[j]),
                found ==> forall|j: int|
                    0 <= j < i && p.contains_key(#[trigger] ks@[j]) ==> x0 <= ks@[j].0 <= x1 && y0 <= ks@[j].1
                        <= y1,
                found ==> exists|j: int| 0 <= j < i && p.contains_key(#[trigger] ks@[j]) && ks@[j].0 == x0,
                found ==> exists|j: int| 0 <= j < i && p.contains_key(#[trigger] ks@[j]) && ks@[j].0 == x1,
                found ==> exists|j: int| 0 <= j < i && p.contains_key(#[trigger] ks@[j]) && ks@[j].1 == y0,
                found ==> exists|j: int| 0 <= j < i && p.contains_key(#[trigger] ks@[j]) && ks@[j].1 == y1,
            decreases ks.len() - i,
        {
            let (tx, ty) = ks[i];
            assert(ks@.to_set().contains(ks@[i as int]));
            let t = self.tile_at((tx, ty)).unwrap();
            if !cov_all_zero(t) {
                assert(p.contains_key(ks@[i as int]));
                if !found {
                    x0 = tx;
                    x1 = tx;
                    y0 = ty;
                    y1 = ty;
                    found = true;
                } else {
                    if tx < x0 {
                        x0 = tx;
                    }
                    if ty < y0 {
                        y0 = ty;
                    }
                    if tx > x1 {
                        x1 = tx;
                    }
                    if ty > y1 {
                        y1 = ty;
                    }
                }
            } else {
                assert(!p.contains_key(ks@[i as int]));
            }
            i += 1;
        }
        if !found {
            proof {
                assert forall|k: TileCoord| #[trigger] self@.contains_key(k) implies cov_blank(self@[k]) by {
                    assert(ks@.to_set().contains(k));
                    let j = choose|j: int| 0 <= j < ks@.len() && ks@[j] == k;
                    if !cov_blank(self@[k]) {
                        assert(p.contains_key(ks@[j]));
                    }
                }
            }
            return None;
        }
        proof {
            let j0 = choose|j: int| 0 <= j < ks@.len() && p.contains_key(#[trigger] ks@[j]) && ks@[j].0 == x0;
            let j1 = choose|j: int| 0 <= j < ks@.len() && p.contains_key(#[trigger] ks@[j]) && ks@[j].0 == x1;
            let j2 = choose|j: int| 0 <= j < ks@.len() && p.contains_key(#[trigger] ks@[j]) && ks@[j].1 == y0;
            let j3 = choose|j: int| 0 <= j < ks@.len() && p.contains_key(#[trigger] ks@[j]) && ks@[j].1 == y1;
            assert(self@.contains_key(ks@[j0]));
            assert(self@.contains_key(ks@[j1]));
            assert(self@.contains_key(ks@[j2]));
            assert(self@.contains_key(ks@[j3]));
        }
        let r = [x0 * 256, y0 * 256, (x1 + 1) * 256, (y1 + 1) * 256];
        proof {
            assert forall|k: TileCoord| #[trigger] p.contains_key(k) implies x0 <= k.0 <= x1 && y0 <= k.1
                <= y1 by {
                assert(ks@.to_set().contains(k));
                let j = choose|j: int| 0 <= j < ks@.len() && ks@[j] == k;
                assert(p.contains_key(ks@[j]));
            }
            let j0 = choose|j: int| 0 <= j < ks@.len() && p.contains_key(#[trigger] ks@[j]) && ks@[j].0 == x0;
            let j1 = choose|j: int| 0 <= j < ks@.len() && p.contains_key(#[trigger] ks@[j]) && ks@[j].0 == x1;
            let j2 = choose|j: int| 0 <= j < ks@.len() && p.contains_key(#[trigger] ks@[j]) && ks@[j].1 == y0;
            let j3 = choose|j: int| 0 <= j < ks@.len() && p.contains_key(#[trigger] ks@[j]) && ks@[j].1 == y1;
            assert(p.contains_key(ks@[j0]) && ks@[j0].0 * 256 == r@[0]);
            assert(p.contains_key(ks@[j1]) && (ks@[j1].0 + 1) * 256 == r@[2]);
            assert(p.contains_key(ks@[j2]) && ks@[j2].1 * 256 == r@[1]);
            assert(p.contains_key(ks@[j3]) && (ks@[j3].1 + 1) * 256 == r@[3]);
        }
        Some(r)
    }


    /// Pixel-exact content bounds `[x0, y0, x1, y1)` over the pixels with
    /// coverage; `None` when there is none.
    pub fn pixel_bounds(&self) -> (r: Option<[i32; 4]>)
        requires
            self.wf(),
            cov_in_range(self@),
        ensures
            match r {
                None => forall|px: i32, py: i32| !cov_content(self@, px as int, py as int),
                Some(b) => exact_extent(|px: i32, py: i32| cov_content(self@, px as int, py as int), b@),
            },
    {
        let ghost m = self@;
        let ks = self.coords();
        let mut found = false;
        let mut x0 = i32::MAX;
        let mut y0 = i32::MAX;
        let mut x1 = i32::MIN;
        let mut y1 = i32::MIN;
        let mut i: usize = 0;
        while i < ks.len()
            invariant
                m == self@,
                self.wf(),
                cov_in_range(m),
                ks@.to_set() == m.dom(),
                ks@.no_duplicates(),
                i <= ks.len(),
                extent_tight(|px: i32, py: i32| cov_scanned(m, ks@, i as int, 0, 0, px, py), found, x0, y0, x1, y1),
            decreases ks.len() - i,
        {
            let (tx, ty) = ks[i];
            assert(ks@.to_set().contains(ks@[i as int]));
            let t = self.tile_at((tx, ty)).unwrap();
            let mut iy: usize = 0;
            while iy < TILE_SIZE
                invariant
                    m == self@,
                    self.wf(),
                    cov_in_range(m),
                    ks@.to_set() == m.dom(),
                    ks@.no_duplicates(),
                    i < ks.len(),
                    ks@[i as int] == (tx, ty),
                    m.contains_key((tx, ty)),
                    t@ == m[(tx, ty)],
                        t@.len() == TILE_PX,
                    iy <= TILE_SIZE,
                    extent_tight(|px: i32, py: i32| cov_scanned(m, ks@, i as int, 0, iy as int, px, py), found, x0, y0, x1, y1),
                decreases TILE_SIZE - iy,
            {
                let mut ix: usize = 0;
                while ix < TILE_SIZE
                    invariant
                        m == self@,
                        self.wf(),
                        cov_in_range(m),
                        ks@.to_set() == m.dom(),
                        ks@.no_duplicates(),
                        i < ks.len(),
                        ks@[i as int] == (tx, ty),
                        m.contains_key((tx, ty)),
                        t@ == m[(tx, ty)],
                        iy < TILE_SIZE,
                        ix <= TILE_SIZE,
                        extent_tight(|px: i32, py: i32| cov_scanned(m, ks@, i as int, ix as int, iy as int, px, py), found, x0, y0, x1, y1),
                    decreases TILE_SIZE - ix,
                {
                    let ghost p = |px: i32, py: i32| cov_scanned(m, ks@, i as int, ix as int, iy as int, px, py);
                    let ghost q = |px: i32, py: i32| cov_scanned(m, ks@, i as int, ix + 1, iy as int, px, py);
                    proof {
                        assert(!ks@.take(i as int).contains((tx, ty))) by {
                            if ks@.take(i as int).contains((tx, ty)) {
                                let j = choose|j: int| 0 <= j < i && ks@.take(i as int)[j] == (tx, ty);
                                assert(ks@[j] == ks@[i as int]);
                            }
                        }
                    }
                    if t[iy * TILE_SIZE + ix] != 0 {
                        assert(m.contains_key((tx, ty)));
                        assert(m[(tx, ty)][cov_index(ix as int, iy as int)] != 0);
                        let px = tx * 256 + ix as i32;
                        let py = ty * 256 + iy as i32;
                        proof {
                            assert(coord_of(px as int, py as int) == (tx, ty));
                            assert((px as int) % 256 == ix);
                            assert((py as int) % 256 == iy);
                            assert forall|ax: i32, ay: i32| #[trigger] q(ax, ay) == (p(ax, ay) || (ax == px && ay == py)) by {
                                lemma_split_unique(px, py, ax, ay);
                            }
                            lemma_extent_add(p, q, found, x0, y0, x1, y1, px, py);
                        }
                        if px < x0 {
                            x0 = px;
                        }
                        if py < y0 {
                            y0 = py;
                        }
                        if px + 1 > x1 {
                            x1 = px + 1;
                        }
                        if py + 1 > y1 {
                            y1 = py + 1;
                        }
                        found = true;
                    } else {
                        proof {
                            assert forall|ax: i32, ay: i32| #[trigger] q(ax, ay) == p(ax, ay) by {
                                lemma_split_unique(ax, ay, ax, ay);
                                if q(ax, ay) && !p(ax, ay) {
                                    assert(coord_of(ax as int, ay as int) == (tx, ty));
                                    assert((ax as int) % 256 == ix && (ay as int) % 256 == iy);
                                }
                            }
                            assert(p =~= q);
                        }
                    }
                    ix += 1;
                }
                proof {
                    let p = |px: i32, py: i32| cov_scanned(m, ks@, i as int, 256, iy as int, px, py);
                    let q = |px: i32, py: i32| cov_scanned(m, ks@, i as int, 0, iy + 1, px, py);
                    assert forall|ax: i32, ay: i32| #[trigger] q(ax, ay) == p(ax, ay) by {
                        lemma_split_unique(ax, ay, ax, ay);
                    }
                    assert(p =~= q);
                }
                iy += 1;
            }
            proof {
                let p = |px: i32, py: i32| cov_scanned(m, ks@, i as int, 0, 256, px, py);
                let q = |px: i32, py: i32| cov_scanned(m, ks@, i + 1, 0, 0, px, py);
                let a = ks@.take(i as int);
                let b = ks@.take(i + 1);
                assert(b =~= a.push((tx, ty)));
                assert forall|ax: i32, ay: i32| #[trigger] q(ax, ay) == p(ax, ay) by {
                    lemma_split_unique(ax, ay, ax, ay);
                    let c = coord_of(ax as int, ay as int);
                    if b.contains(c) && c != (tx, ty) {
                        let j = choose|j: int| 0 <= j < b.len() && b[j] == c;
                        assert(a[j] == c);
                    }
                    if a.contains(c) {
                        let j = choose|j: int| 0 <= j < a.len() && a[j] == c;
                        assert(b[j] == c);
                    }
                    if c == (tx, ty) {
                        assert(b[i as int] == c);
                    }
                }
                assert(p =~= q);
            }
            i += 1;
        }
        proof {
            let p = |px: i32, py: i32| cov_scanned(m, ks@, ks@.len() as int, 0, 0, px, py);
            let q = |px: i32, py: i32| cov_content(m, px as int, py as int);
            assert(ks@.take(ks@.len() as int) =~= ks@);
            assert forall|ax: i32, ay: i32| #[trigger] q(ax, ay) == p(ax, ay) by {
                if q(ax, ay) {
                    assert(ks@.to_set().contains(coord_of(ax as int, ay as int)));
                }
            }
            assert(p =~= q);
            assert(extent_tight(q, found, x0, y0, x1, y1));
        }
        if x1 > x0 {
            Some([x0, y0, x1, y1])
        } else {
            proof {
                if found {
                    let q = |px: i32, py: i32| cov_content(m, px as int, py as int);
                    let (ax, ay) = choose|px: i32, py: i32| #[trigger] q(px, py) && px == x0;
                    assert(q(ax, ay));
                    assert(x0 <= ax < x1);
                } else {
                    let q = |px: i32, py: i32| cov_content(m, px as int, py as int);
                    assert forall|px: i32, py: i32| !cov_content(m, px as int, py as int) by {
                        assert(!q(px, py));
                    }
                }
            }
            None
        }
    }



    /// Set coverage `v` (non-zero) over the half-open rect `[x0, x1) × [y0, y1)`.
    fn fill_value(&mut self, x0: i32, y0: i32, x1: i32, y1: i32, v: u8)
        requires
            old(self).wf(),
            v != 0,
        ensures
            final(self).wf(),
            forall|px: i32, py: i32|
                #[trigger] mask_px(final(self)@, px as int, py as int) == if in_rect(
                    px as int,
                    py as int,
                    x0 as int,
                    y0 as int,
                    x1 as int,
                    y1 as int,
                ) {
                    v
                } else {
                    mask_px(old(self)@, px as int, py as int)
                },
            forall|k: TileCoord|
                #[trigger] final(self)@.contains_key(k) <==> old(self)@.contains_key(k) || rect_touches(
                    x0 as int,
                    y0 as int,
                    x1 as int,
                    y1 as int,
                    k,
                ),
            forall|k: TileCoord|
                old(self)@.contains_key(k) && !rect_touches(x0 as int, y0 as int, x1 as int, y1 as int, k)
                    ==> #[trigger] final(self)@[k] == old(self)@[k],
    {
        let ghost old_m = self@;
        let mut y = y0;
        while y < y1
            invariant
                v != 0,
                y0 <= y1 ==> y0 <= y <= y1,
                y0 > y1 ==> y == y0,
                self.wf(),
                forall|px: i32, py: i32|
                    #[trigger] mask_px(self@, px as int, py as int) == if in_rect(
                        px as int,
                        py as int,
                        x0 as int,
                        y0 as int,
                        x1 as int,
                        y as int,
                    ) {
                        v
                    } else {
                        mask_px(old_m, px as int, py as int)
                    },
                forall|k: TileCoord|
                    #[trigger] self@.contains_key(k) <==> old_m.contains_key(k) || rect_touches(
                        x0 as int,
                        y0 as int,
                        x1 as int,
                        y as int,
                        k,
                    ),
                forall|k: TileCoord|
                    old_m.contains_key(k) && !rect_touches(x0 as int, y0 as int, x1 as int, y as int, k)
                        ==> #[trigger] self@[k] == old_m[k],
            decreases y1 - y,
        {
            let mut x = x0;
            while x < x1
                invariant
                    v != 0,
                    y0 <= y < y1,
                    x0 <= x1 ==> x0 <= x <= x1,
                    x0 > x1 ==> x == x0,
                    self.wf(),
                    forall|px: i32, py: i32|
                        #[trigger] mask_px(self@, px as int, py as int) == if swept(
                            px as int,
                            py as int,
                            x0 as int,
                            y0 as int,
                            x1 as int,
                            x as int,
                            y as int,
                        ) {
                            v
                        } else {
                            mask_px(old_m, px as int, py as int)
                        },
                    forall|k: TileCoord|
                        #[trigger] self@.contains_key(k) <==> old_m.contains_key(k) || sweep_touches(
                            x0 as int,
                            y0 as int,
                            x1 as int,
                            x as int,
                            y as int,
                            k,
                        ),
                    forall|k: TileCoord|
                        old_m.contains_key(k) && !sweep_touches(
                            x0 as int,
                            y0 as int,
                            x1 as int,
                            x as int,
                            y as int,
                            k,
                        ) ==> #[trigger] self@[k] == old_m[k],
                decreases x1 - x,
            {
                let ghost before = self@;
                self.set(x, y, v);
                proof {
                    let c = coord_of(x as int, y as int);
                    assert(swept(x as int, y as int, x0 as int, y0 as int, x1 as int, x + 1, y as int));
                    assert forall|k: TileCoord|
                        #[trigger] self@.contains_key(k) <==> old_m.contains_key(k) || sweep_touches(
                            x0 as int,
                            y0 as int,
                            x1 as int,
                            x + 1,
                            y as int,
                            k,
                        ) by {
                        if sweep_touches(x0 as int, y0 as int, x1 as int, x + 1, y as int, k) && k != c {
                            let (px, py) = choose|px: i32, py: i32|
                                swept(px as int, py as int, x0 as int, y0 as int, x1 as int, x + 1, y as int)
                                    && #[trigger] coord_of(px as int, py as int) == k;
                            assert(swept(px as int, py as int, x0 as int, y0 as int, x1 as int, x as int, y as int));
                        }
                        if k == c {
                            assert(coord_of(x as int, y as int) == k);
                        }
                    }
                    assert forall|k: TileCoord|
                        old_m.contains_key(k) && !sweep_touches(
                            x0 as int,
                            y0 as int,
                            x1 as int,
                            x + 1,
                            y as int,
                            k,
                        ) implies #[trigger] self@[k] == old_m[k] by {
                        assert(coord_of(x as int, y as int) == c);
                        if sweep_touches(x0 as int, y0 as int, x1 as int, x as int, y as int, k) {
                            let (px, py) = choose|px: i32, py: i32|
                                swept(px as int, py as int, x0 as int, y0 as int, x1 as int, x as int, y as int)
                                    && #[trigger] coord_of(px as int, py as int) == k;
                            assert(swept(px as int, py as int, x0 as int, y0 as int, x1 as int, x + 1, y as int));
                        }
                    }
                }
                x = x + 1;
            }
            proof {
                assert forall|k: TileCoord|
                    #[trigger] rect_touches(x0 as int, y0 as int, x1 as int, y + 1, k)
                        == sweep_touches(x0 as int, y0 as int, x1 as int, x as int, y as int, k) by {
                    if rect_touches(x0 as int, y0 as int, x1 as int, y + 1, k) {
                        let (px, py) = choose|px: i32, py: i32|
                            in_rect(px as int, py as int, x0 as int, y0 as int, x1 as int, y + 1)
                                && #[trigger] coord_of(px as int, py as int) == k;
                        assert(swept(px as int, py as int, x0 as int, y0 as int, x1 as int, x as int, y as int));
                    }
                    if sweep_touches(x0 as int, y0 as int, x1 as int, x as int, y as int, k) {
                        let (px, py) = choose|px: i32, py: i32|
                            swept(px as int, py as int, x0 as int, y0 as int, x1 as int, x as int, y as int)
                                && #[trigger] coord_of(px as int, py as int) == k;
                        assert(in_rect(px as int, py as int, x0 as int, y0 as int, x1 as int, y + 1));
                    }
                }
            }
            y = y + 1;
        }
    }



    /// Fully selected mask over the document rect `[0, w) × [0, h)`, where `w`
    /// and `h` are `size` taken as `i32`.
    pub fn select_all(size: [u32; 2]) -> (r: Mask)
        ensures
            r.wf(),
            forall|px: i32, py: i32|
                #[trigger] mask_px(r@, px as int, py as int) == if in_rect(
                    px as int,
                    py as int,
                    0,
                    0,
                    (size[0] as i32) as int,
                    (size[1] as i32) as int,
                ) {
                    255u8
                } else {
                    0u8
                },
            forall|k: TileCoord|
                #[trigger] r@.contains_key(k) <==> rect_touches(
                    0,
                    0,
                    (size[0] as i32) as int,
                    (size[1] as i32) as int,
                    k,
                ),
    {
        let w = size[0] as i32;
        let h = size[1] as i32;
        let mut m = Mask::new();
        m.fill_value(0, 0, w, h, 255);
        m
    }



    /// Inverse coverage within the document rect `[0, w) × [0, h)` (`size`
    /// taken as `i32`); outside the canvas stays 0.
    pub fn inverted(&self, size: [u32; 2]) -> (r: Mask)
        requires
            self.wf(),
        ensures
            r.wf(),
            forall|px: i32, py: i32|
                #[trigger] mask_px(r@, px as int, py as int) == if in_rect(
                    px as int,
                    py as int,
                    0,
                    0,
                    (size[0] as i32) as int,
                    (size[1] as i32) as int,
                ) {
                    (255 - mask_px(self@, px as int, py as int)) as u8
                } else {
                    0u8
                },
            forall|k: TileCoord|
                #[trigger] r@.contains_key(k) <==> uncovered_touches(
                    self@,
                    (size[0] as i32) as int,
                    (size[1] as i32) as int,
                    k,
                ),
    {
        let ghost s = self@;
        let w = size[0] as i32;
        let h = size[1] as i32;
        let mut out = Mask::new();
        let mut y: i32 = 0;
        while y < h
            invariant
                s == self@,
                self.wf(),
                0 <= h ==> 0 <= y <= h,
                0 > h ==> y == 0,
                out.wf(),
                forall|px: i32, py: i32|
                    #[trigger] mask_px(out@, px as int, py as int) == if in_rect(px as int, py as int, 0, 0, w as int, y as int) {
                        (255 - mask_px(s, px as int, py as int)) as u8
                    } else {
                        0u8
                    },
                forall|k: TileCoord|
                    #[trigger] out@.contains_key(k) <==> uncovered_touches(s, w as int, y as int, k),
            decreases h - y,
        {
            let mut x: i32 = 0;
            while x < w
                invariant
                    s == self@,
                    self.wf(),
                    0 <= y < h,
                    0 <= w ==> 0 <= x <= w,
                    0 > w ==> x == 0,
                    out.wf(),
                    forall|px: i32, py: i32|
                        #[trigger] mask_px(out@, px as int, py as int) == if swept(px as int, py as int, 0, 0, w as int, x as int, y as int) {
                            (255 - mask_px(s, px as int, py as int)) as u8
                        } else {
                            0u8
                        },
                    forall|k: TileCoord|
                        #[trigger] out@.contains_key(k) <==> uncovered_swept(s, w as int, x as int, y as int, k),
                decreases w - x,
            {
                let v = 255 - self.get(x, y);
                let ghost before = out@;
                if v != 0 {
                    out.set(x, y, v);
                }
                proof {
                    let c = coord_of(x as int, y as int);
                    assert(swept(x as int, y as int, 0, 0, w as int, x + 1, y as int));
                    assert forall|k: TileCoord|
                        #[trigger] out@.contains_key(k) <==> uncovered_swept(s, w as int, x + 1, y as int, k) by {
                        if uncovered_swept(s, w as int, x + 1, y as int, k) && !uncovered_swept(s, w as int, x as int, y as int, k) {
                            let (px, py) = choose|px: i32, py: i32|
                                swept(px as int, py as int, 0, 0, w as int, x + 1, y as int) && mask_px(s, px as int, py as int) != 255
                                    && #[trigger] coord_of(px as int, py as int) == k;
                            assert(px == x && py == y);
                        }
                        if uncovered_swept(s, w as int, x as int, y as int, k) {
                            let (px, py) = choose|px: i32, py: i32|
                                swept(px as int, py as int, 0, 0, w as int, x as int, y as int) && mask_px(s, px as int, py as int) != 255
                                    && #[trigger] coord_of(px as int, py as int) == k;
                            assert(swept(px as int, py as int, 0, 0, w as int, x + 1, y as int));
                        }
                        if v != 0 && k == c {
                            assert(coord_of(x as int, y as int) == k);
                        }
                    }
                }
                x = x + 1;
            }
            proof {
                assert forall|k: TileCoord|
                    #[trigger] uncovered_touches(s, w as int, y + 1, k) == uncovered_swept(s, w as int, x as int, y as int, k) by {
                    if uncovered_touches(s, w as int, y + 1, k) {
                        let (px, py) = choose|px: i32, py: i32|
                            in_rect(px as int, py as int, 0, 0, w as int, y + 1) && mask_px(s, px as int, py as int) != 255
                                && #[trigger] coord_of(px as int, py as int) == k;
                        assert(swept(px as int, py as int, 0, 0, w as int, x as int, y as int));
                    }
                    if uncovered_swept(s, w as int, x as int, y as int, k) {
                        let (px, py) = choose|px: i32, py: i32|
                            swept(px as int, py as int, 0, 0, w as int, x as int, y as int) && mask_px(s, px as int, py as int) != 255
                                && #[trigger] coord_of(px as int, py as int) == k;
                        assert(in_rect(px as int, py as int, 0, 0, w as int, y + 1));
                    }
                }
            }
            y = y + 1;
        }
        out
    }



    /// Combine `other` (the new shape) into this selection with `op`.
    pub fn combine(&mut self, other: &Mask, op: CombineOp)
        requires
            old(self).wf(),
            other.wf(),
        ensures
            final(self)@ == combine_map(op, old(self)@, other@),
            final(self).wf(),
            forall|px: i32, py: i32|
                #[trigger] mask_px(final(self)@, px as int, py as int) == combine_value(
                    op,
                    mask_px(old(self)@, px as int, py as int),
                    mask_px(other@, px as int, py as int),
                ),
    {
        let ghost a = self@;
        let ghost b = other@;
        proof {
            lemma_combine_pointwise(op, a, b);
        }
        match op {
            CombineOp::Replace => {
                *self = other.duplicate();
            },
            CombineOp::Add => {
                let ks = other.coords();
                let mut i: usize = 0;
                while i < ks.len()
                    invariant
                        op == CombineOp::Add,
                        a == old(self)@,
                        b == other@,
                        mask_wf(a),
                        mask_wf(b),
                        ks@.to_set() == b.dom(),
                        ks@.no_duplicates(),
                        i <= ks.len(),
                        self@ == Map::new(
                            |k: TileCoord| a.contains_key(k) || ks@.take(i as int).contains(k),
                            |k: TileCoord|
                                if ks@.take(i as int).contains(k) {
                                    combine_tile(op, cov_or_zero(a, k), b[k])
                                } else {
                                    a[k]
                                },
                        ),
                    decreases ks.len() - i,
                {
                    let c = ks[i];
                    assert(ks@.to_set().contains(c));
                    let ghost pa = ks@.take(i as int);
                    let ghost pb = ks@.take(i + 1);
                    proof {
                        assert(pb =~= pa.push(c));
                        assert forall|k: TileCoord| #[trigger] pb.contains(k) == (pa.contains(k) || k == c) by {
                            if pb.contains(k) && k != c {
                                let j = choose|j: int| 0 <= j < pb.len() && pb[j] == k;
                                assert(pa[j] == k);
                            }
                            if pa.contains(k) {
                                let j = choose|j: int| 0 <= j < pa.len() && pa[j] == k;
                                assert(pb[j] == k);
                            }
                            if k == c {
                                assert(pb[i as int] == k);
                            }
                        }
                        assert(!pa.contains(c)) by {
                            if pa.contains(c) {
                                let j = choose|j: int| 0 <= j < i && pa[j] == c;
                                assert(ks@[j] == ks@[i as int]);
                            }
                        }
                    }
                    let src = other.tile_at(c).unwrap();
                    let mut dst = match self.take_tile(c) {
                        Some(t) => t,
                        None => zero_cov_tile(),
                    };
                    assert(dst@ == cov_or_zero(a, c));
                    combine_into(&mut dst, src, CombineOp::Add);
                    self.put_tile(c, dst);
                    i += 1;
                    proof {
                        assert(self@ =~= Map::new(
                            |k: TileCoord| a.contains_key(k) || pb.contains(k),
                            |k: TileCoord|
                                if pb.contains(k) {
                                    combine_tile(op, cov_or_zero(a, k), b[k])
                                } else {
                                    a[k]
                                },
                        ));
                    }
                }
                proof {
                    assert(ks@.take(ks.len() as int) =~= ks@);
                    assert forall|k: TileCoord| #[trigger] ks@.contains(k) == b.contains_key(k) by {
                        assert(ks@.to_set().contains(k) == b.dom().contains(k));
                    }
                    assert(self@ =~= combine_map(op, a, b));
                }
            },
            CombineOp::Subtract => {
                let ks = other.coords();
                let mut i: usize = 0;
                while i < ks.len()
                    invariant
                        op == CombineOp::Subtract,
                        a == old(self)@,
                        b == other@,
                        mask_wf(a),
                        mask_wf(b),
                        ks@.to_set() == b.dom(),
                        ks@.no_duplicates(),
                        i <= ks.len(),
                        self@ == Map::new(
                            |k: TileCoord| a.contains_key(k),
                            |k: TileCoord|
                                if ks@.take(i as int).contains(k) {
                                    combine_tile(op, a[k], b[k])
                                } else {
                                    a[k]
                                },
                        ),
                    decreases ks.len() - i,
                {
                    let c = ks[i];
                    assert(ks@.to_set().contains(c));
                    let ghost pa = ks@.take(i as int);
                    let ghost pb = ks@.take(i + 1);
                    proof {
                        assert(pb =~= pa.push(c));
                        assert forall|k: TileCoord| #[trigger] pb.contains(k) == (pa.contains(k) || k == c) by {
                            if pb.contains(k) && k != c {
                                let j = choose|j: int| 0 <= j < pb.len() && pb[j] == k;
                                assert(pa[j] == k);
                            }
                            if pa.contains(k) {
                                let j = choose|j: int| 0 <= j < pa.len() && pa[j] == k;
                                assert(pb[j] == k);
                            }
                            if k == c {
                                assert(pb[i as int] == k);
                            }
                        }
                        assert(!pa.contains(c)) by {
                            if pa.contains(c) {
                                let j = choose|j: int| 0 <= j < i && pa[j] == c;
                                assert(ks@[j] == ks@[i as int]);
                            }
                        }
                    }
                    let src = other.tile_at(c).unwrap();
                    match self.take_tile(c) {
                        Some(t) => {
                            let mut dst = t;
                            combine_into(&mut dst, src, CombineOp::Subtract);
                            self.put_tile(c, dst);
                        },
                        None => {},
                    }
                    i += 1;
                    proof {
                        assert(self@ =~= Map::new(
                            |k: TileCoord| a.contains_key(k),
                            |k: TileCoord|
                                if pb.contains(k) {
                                    combine_tile(op, a[k], b[k])
                                } else {
                                    a[k]
                                },
                        ));
                    }
                }
                proof {
                    assert(ks@.take(ks.len() as int) =~= ks@);
                    assert forall|k: TileCoord| #[trigger] ks@.contains(k) == b.contains_key(k) by {
                        assert(ks@.to_set().contains(k) == b.dom().contains(k));
                    }
                    let pre = Map::new(
                        |k: TileCoord| a.contains_key(k),
                        |k: TileCoord|
                            if b.contains_key(k) {
                                combine_tile(op, a[k], b[k])
                            } else {
                                a[k]
                            },
                    );
                    assert(self@ =~= pre);
                }
                self.prune_blank();
            },
            CombineOp::Intersect => {
                let ks = self.coords();
                let mut i: usize = 0;
                while i < ks.len()
                    invariant
                        op == CombineOp::Intersect,
                        a == old(self)@,
                        b == other@,
                        mask_wf(a),
                        mask_wf(b),
                        ks@.to_set() == a.dom(),
                        ks@.no_duplicates(),
                        i <= ks.len(),
                        self@ == Map::new(
                            |k: TileCoord| a.contains_key(k) && (!ks@.take(i as int).contains(k) || b.contains_key(k)),
                            |k: TileCoord|
                                if ks@.take(i as int).contains(k) {
                                    combine_tile(op, a[k], b[k])
                                } else {
                                    a[k]
                                },
                        ),
                    decreases ks.len() - i,
                {
                    let c = ks[i];
                    assert(ks@.to_set().contains(c));
                    let ghost pa = ks@.take(i as int);
                    let ghost pb = ks@.take(i + 1);
                    proof {
                        assert(pb =~= pa.push(c));
                        assert forall|k: TileCoord| #[trigger] pb.contains(k) == (pa.contains(k) || k == c) by {
                            if pb.contains(k) && k != c {
                                let j = choose|j: int| 0 <= j < pb.len() && pb[j] == k;
                                assert(pa[j] == k);
                            }
                            if pa.contains(k) {
                                let j = choose|j: int| 0 <= j < pa.len() && pa[j] == k;
                                assert(pb[j] == k);
                            }
                            if k == c {
                                assert(pb[i as int] == k);
                            }
                        }
                        assert(!pa.contains(c)) by {
                            if pa.contains(c) {
                                let j = choose|j: int| 0 <= j < i && pa[j] == c;
                                assert(ks@[j] == ks@[i as int]);
                            }
                        }
                    }
                    match other.tile_at(c) {
                        Some(src) => {
                            let mut dst = self.take_tile(c).unwrap();
                            combine_into(&mut dst, src, CombineOp::Intersect);
                            self.put_tile(c, dst);
                        },
                        None => {
                            self.take_tile(c);
                        },
                    }
                    i += 1;
                    proof {
                        assert(self@ =~= Map::new(
                            |k: TileCoord| a.contains_key(k) && (!pb.contains(k) || b.contains_key(k)),
                            |k: TileCoord|
                                if pb.contains(k) {
                                    combine_tile(op, a[k], b[k])
                                } else {
                                    a[k]
                                },
                        ));
                    }
                }
                proof {
                    assert(ks@.take(ks.len() as int) =~= ks@);
                    assert forall|k: TileCoord| #[trigger] ks@.contains(k) == a.contains_key(k) by {
                        assert(ks@.to_set().contains(k) == a.dom().contains(k));
                    }
                    let pre = Map::new(
                        |k: TileCoord| a.contains_key(k) && b.contains_key(k),
                        |k: TileCoord| combine_tile(op, a[k], b[k]),
                    );
                    assert(self@ =~= pre);
                }
                self.prune_blank();
            },
        }
    }


}

} // verus!
