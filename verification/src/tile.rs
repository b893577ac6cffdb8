//! Sparse 256×256 RGBA8 tile storage. Pixels are straight-alpha bytes in
//! document coordinates; a tile that is not stored reads fully transparent.

use std::collections::BTreeMap;
use vstd::prelude::*;
use vstd::std_specs::btree::spec_keys_iter;
use vstd::std_specs::iter::IteratorSpec;
use crate::order::{coords_sorted, lemma_coord_order, lemma_keys_sorted};

verus! {

broadcast use vstd::std_specs::btree::group_btree_axioms;

/// Edge length of a square tile, in pixels.
pub const TILE_SIZE: usize = 256;

/// Bytes in one RGBA8 tile (256 · 256 · 4).
pub const TILE_BYTES: usize = 262144;

/// Tile coordinate in whole tiles: document pixel x = tx · 256 + in-tile x.
pub type TileCoord = (i32, i32);

/// Byte offset of in-tile pixel `(x, y)` (row-major, 4 bytes per pixel).
pub open spec fn px_index(x: int, y: int) -> int {
    (y * 256 + x) * 4
}

/// The four RGBA bytes of in-tile pixel `(x, y)` of a tile's byte sequence.
pub open spec fn tile_px(t: Seq<u8>, x: int, y: int) -> Seq<u8> {
    t.subrange(px_index(x, y), px_index(x, y) + 4)
}

/// The alpha byte of in-tile pixel `(x, y)`.
pub open spec fn tile_alpha(t: Seq<u8>, x: int, y: int) -> u8 {
    t[px_index(x, y) + 3]
}

/// Whether `(x, y)` lies inside one tile.
pub open spec fn in_tile(x: int, y: int) -> bool {
    0 <= x < 256 && 0 <= y < 256
}

/// A tile is blank when every pixel's alpha is zero.
pub open spec fn blank_bytes(t: Seq<u8>) -> bool {
    forall|x: int, y: int| #[trigger] in_tile(x, y) ==> tile_alpha(t, x, y) == 0
}

/// `t` with the pixel at `(x, y)` replaced by `rgba`.
pub open spec fn tile_with(t: Seq<u8>, x: int, y: int, rgba: Seq<u8>) -> Seq<u8> {
    let i = px_index(x, y);
    t.take(i) + rgba + t.skip(i + 4)
}

/// A fully transparent tile.
pub open spec fn zero_tile() -> Seq<u8> {
    Seq::new(TILE_BYTES as nat, |i: int| 0u8)
}

/// Transparent black.
pub open spec fn clear_px() -> Seq<u8> {
    seq![0u8, 0u8, 0u8, 0u8]
}

/// Writing one pixel changes that pixel and no other.
pub proof fn lemma_tile_with(t: Seq<u8>, x: int, y: int, rgba: Seq<u8>)
    requires
        t.len() == TILE_BYTES,
        in_tile(x, y),
        rgba.len() == 4,
    ensures
        tile_with(t, x, y, rgba).len() == TILE_BYTES,
        forall|px: int, py: int|
            #[trigger] in_tile(px, py) ==> tile_px(tile_with(t, x, y, rgba), px, py) == if px == x
                && py == y {
                rgba
            } else {
                tile_px(t, px, py)
            },
{
    let n = tile_with(t, x, y, rgba);
    assert forall|px: int, py: int| #[trigger] in_tile(px, py) implies tile_px(n, px, py) == if px
        == x && py == y {
        rgba
    } else {
        tile_px(t, px, py)
    } by {
        if px == x && py == y {
            assert(tile_px(n, px, py) =~= rgba);
        } else {
            let j = px_index(px, py);
            let i = px_index(x, y);
            assert(j + 4 <= i || i + 4 <= j);
            assert(tile_px(n, px, py) =~= tile_px(t, px, py));
        }
    }
}

/// One 256×256 straight-alpha RGBA8 tile.
#[derive(Debug, Clone, PartialEq, Eq)]
pub struct Tile {
    data: Vec<u8>,
}

impl View for Tile {
    type V = Seq<u8>;

    closed spec fn view(&self) -> Seq<u8> {
        self.data@
    }
}

impl Tile {
    /// A well-formed tile holds exactly `TILE_BYTES` bytes.
    pub open spec fn wf(&self) -> bool {
        self@.len() == TILE_BYTES
    }

    /// A fully transparent tile.
    pub fn blank() -> (t: Tile)
        ensures
            t@ == zero_tile(),
            t.wf(),
    {
        let mut data: Vec<u8> = Vec::new();
        while data.len() < TILE_BYTES
            invariant
                data.len() <= TILE_BYTES,
                forall|i: int| 0 <= i < data.len() ==> data@[i] == 0u8,
            decreases TILE_BYTES - data.len(),
        {
            data.push(0u8);
        }
        assert(data@ =~= zero_tile());
        Tile { data }
    }

    /// Wrap raw RGBA8 bytes; they must be exactly `TILE_BYTES` long.
    pub fn from_bytes(data: Vec<u8>) -> (r: Result<Tile, TileError>)
        ensures
            match r {
                Ok(t) => data@.len() == TILE_BYTES && t@ == data@ && t.wf(),
                Err(e) => data@.len() != TILE_BYTES && e == TileError::BadLength(data@.len() as usize),
            },
    {
        if data.len() != TILE_BYTES {
            return Err(TileError::BadLength(data.len()));
        }
        Ok(Tile { data })
    }

    /// The tile's raw bytes.
    pub fn bytes(&self) -> (r: &[u8])
        ensures
            r@ == self@,
    {
        self.data.as_slice()
    }

    /// An owned copy with the same bytes.
    pub fn duplicate(&self) -> (r: Tile)
        ensures
            r@ == self@,
    {
        Tile { data: self.data.clone() }
    }

    /// The pixel at in-tile `(x, y)`.
    pub fn pixel(&self, x: usize, y: usize) -> (r: [u8; 4])
        requires
            self.wf(),
            x < TILE_SIZE,
            y < TILE_SIZE,
        ensures
            r@ == tile_px(self@, x as int, y as int),
    {
        let i = (y * TILE_SIZE + x) * 4;
        let r = [self.data[i], self.data[i + 1], self.data[i + 2], self.data[i + 3]];
        assert(r@ =~= tile_px(self@, x as int, y as int));
        r
    }

    /// The alpha byte of the pixel at in-tile `(x, y)`.
    pub fn alpha(&self, x: usize, y: usize) -> (r: u8)
        requires
            self.wf(),
            x < TILE_SIZE,
            y < TILE_SIZE,
        ensures
            r == tile_alpha(self@, x as int, y as int),
    {
        self.data[(y * TILE_SIZE + x) * 4 + 3]
    }

    /// Overwrite the pixel at in-tile `(x, y)`.
    pub fn set_pixel(&mut self, x: usize, y: usize, rgba: [u8; 4])
        requires
            old(self).wf(),
            x < TILE_SIZE,
            y < TILE_SIZE,
        ensures
            final(self).wf(),
            final(self)@ == tile_with(old(self)@, x as int, y as int, rgba@),
    {
        let i = (y * TILE_SIZE + x) * 4;
        self.data.set(i, rgba[0]);
        self.data.set(i + 1, rgba[1]);
        self.data.set(i + 2, rgba[2]);
        self.data.set(i + 3, rgba[3]);
        assert(self.data@ =~= tile_with(old(self)@, x as int, y as int, rgba@));
    }

    /// True when every pixel's alpha is zero (the tile contributes nothing).
    pub fn is_blank(&self) -> (r: bool)
        requires
            self.wf(),
        ensures
            r == blank_bytes(self@),
    {
        let mut y: usize = 0;
        while y < TILE_SIZE
            invariant
                y <= TILE_SIZE,
                self@.len() == TILE_BYTES,
                forall|px: int, py: int| 0 <= px < 256 && 0 <= py < y ==> tile_alpha(self@, px, py) == 0,
            decreases TILE_SIZE - y,
        {
            let mut x: usize = 0;
            while x < TILE_SIZE
                invariant
                    x <= TILE_SIZE,
                    y < TILE_SIZE,
                    self@.len() == TILE_BYTES,
                    forall|px: int, py: int|
                        0 <= px < 256 && 0 <= py < y ==> tile_alpha(self@, px, py) == 0,
                    forall|px: int| 0 <= px < x ==> tile_alpha(self@, px, y as int) == 0,
                decreases TILE_SIZE - x,
            {
                if self.data[(y * TILE_SIZE + x) * 4 + 3] != 0 {
                    assert(in_tile(x as int, y as int));
                    return false;
                }
                x += 1;
            }
            y += 1;
        }
        true
    }
}


/// The tile that holds document pixel `(x, y)`.
pub open spec fn coord_of(x: int, y: int) -> TileCoord {
    ((x / 256) as i32, (y / 256) as i32)
}

/// Every stored tile holds exactly `TILE_BYTES` bytes.
pub open spec fn map_wf(m: Map<TileCoord, Seq<u8>>) -> bool {
    forall|k: TileCoord| #[trigger] m.contains_key(k) ==> m[k].len() == TILE_BYTES
}

/// The RGBA of document pixel `(x, y)`: transparent black where no tile is stored.
pub open spec fn map_px(m: Map<TileCoord, Seq<u8>>, x: int, y: int) -> Seq<u8> {
    if m.contains_key(coord_of(x, y)) {
        tile_px(m[coord_of(x, y)], (x as int) % 256, (y as int) % 256)
    } else {
        clear_px()
    }
}

/// The stored tile at `c`, or a transparent one.
pub open spec fn tile_or_zero(m: Map<TileCoord, Seq<u8>>, c: TileCoord) -> Seq<u8> {
    if m.contains_key(c) {
        m[c]
    } else {
        zero_tile()
    }
}

/// `m` with document pixel `(x, y)` set to `rgba`, creating its tile on demand.
pub open spec fn map_with(m: Map<TileCoord, Seq<u8>>, x: int, y: int, rgba: Seq<u8>) -> Map<
    TileCoord,
    Seq<u8>,
> {
    m.insert(coord_of(x, y), tile_with(tile_or_zero(m, coord_of(x, y)), (x as int) % 256, (y as int) % 256, rgba))
}

/// `m` without its blank tiles.
pub open spec fn map_pruned(m: Map<TileCoord, Seq<u8>>) -> Map<TileCoord, Seq<u8>> {
    Map::new(|k: TileCoord| m.contains_key(k) && !blank_bytes(m[k]), |k: TileCoord| m[k])
}

/// Whether document pixel `(x, y)` lies in the half-open rect `[x0, x1) × [y0, y1)`.
pub open spec fn in_rect(x: int, y: int, x0: int, y0: int, x1: int, y1: int) -> bool {
    x0 <= x < x1 && y0 <= y < y1
}


/// Whether some document pixel of the rect `[x0, x1) × [y0, y1)` falls in tile `k`.
pub open spec fn rect_touches(x0: int, y0: int, x1: int, y1: int, k: TileCoord) -> bool {
    exists|px: i32, py: i32|
        in_rect(px as int, py as int, x0, y0, x1, y1) && #[trigger] coord_of(px as int, py as int) == k
}

/// Pixels of a row-major sweep over `[x0, x1) × [y0, ..)` that come before `(x, y)`.
pub open spec fn swept(px: int, py: int, x0: int, y0: int, x1: int, x: int, y: int) -> bool {
    in_rect(px, py, x0, y0, x1, y) || (py == y && x0 <= px < x)
}

/// Whether some pixel swept before `(x, y)` falls in tile `k`.
pub open spec fn sweep_touches(x0: int, y0: int, x1: int, x: int, y: int, k: TileCoord) -> bool {
    exists|px: i32, py: i32|
        swept(px as int, py as int, x0, y0, x1, x, y) && #[trigger] coord_of(px as int, py as int)
            == k
}


/// Every stored tile's pixel extent fits `i32` document coordinates.
pub open spec fn tile_coords_in_range(m: Map<TileCoord, Seq<u8>>) -> bool {
    forall|k: TileCoord|
        #[trigger] m.contains_key(k) ==> i32::MIN <= k.0 * 256 && (k.0 + 1) * 256 <= i32::MAX && i32::MIN
            <= k.1 * 256 && (k.1 + 1) * 256 <= i32::MAX
}

/// `b` is the tile-granular bounds of a non-empty map: whole-tile extents of
/// the smallest and largest tile coordinate on each axis.
pub open spec fn tile_bounds_of(m: Map<TileCoord, Seq<u8>>, b: Seq<i32>) -> bool {
    &&& b.len() == 4
    &&& b[0] % 256 == 0 && b[1] % 256 == 0 && b[2] % 256 == 0 && b[3] % 256 == 0
    &&& forall|k: TileCoord|
        #[trigger] m.contains_key(k) ==> b[0] <= k.0 * 256 && (k.0 + 1) * 256 <= b[2] && b[1] <= k.1
            * 256 && (k.1 + 1) * 256 <= b[3]
    &&& exists|k: TileCoord| #[trigger] m.contains_key(k) && k.0 * 256 == b[0]
    &&& exists|k: TileCoord| #[trigger] m.contains_key(k) && (k.0 + 1) * 256 == b[2]
    &&& exists|k: TileCoord| #[trigger] m.contains_key(k) && k.1 * 256 == b[1]
    &&& exists|k: TileCoord| #[trigger] m.contains_key(k) && (k.1 + 1) * 256 == b[3]
}


/// Document pixel `(px, py)` is stored and not fully transparent.
pub open spec fn content_px(m: Map<TileCoord, Seq<u8>>, px: int, py: int) -> bool {
    m.contains_key(coord_of(px, py)) && tile_alpha(m[coord_of(px, py)], px % 256, py % 256) != 0
}

/// Every non-transparent stored pixel `p` has `p` and `p + 1` inside `i32` on both axes.
pub open spec fn content_in_range(m: Map<TileCoord, Seq<u8>>) -> bool {
    forall|k: TileCoord, x: int, y: int|
        #[trigger] m.contains_key(k) && in_tile(x, y) && #[trigger] tile_alpha(m[k], x, y) != 0 ==> i32::MIN
            <= k.0 * 256 && k.0 * 256 + x + 1 <= i32::MAX && i32::MIN <= k.1 * 256 && k.1 * 256 + y + 1
            <= i32::MAX
}

/// `b` is the exact half-open extent of the pixels that satisfy `p`.
pub open spec fn exact_extent(p: spec_fn(i32, i32) -> bool, b: Seq<i32>) -> bool {
    &&& b.len() == 4
    &&& forall|px: i32, py: i32| #[trigger] p(px, py) ==> b[0] <= px < b[2] && b[1] <= py < b[3]
    &&& exists|px: i32, py: i32| #[trigger] p(px, py) && px == b[0]
    &&& exists|px: i32, py: i32| #[trigger] p(px, py) && px + 1 == b[2]
    &&& exists|px: i32, py: i32| #[trigger] p(px, py) && py == b[1]
    &&& exists|px: i32, py: i32| #[trigger] p(px, py) && py + 1 == b[3]
}

/// Running extent of a pixel scan: the sentinels stand while nothing has been found.
pub open spec fn extent_tight(
    p: spec_fn(i32, i32) -> bool,
    found: bool,
    x0: i32,
    y0: i32,
    x1: i32,
    y1: i32,
) -> bool {
    &&& found ==> exact_extent(p, seq![x0, y0, x1, y1])
    &&& !found ==> (forall|px: i32, py: i32| !#[trigger] p(px, py)) && x0 == i32::MAX && y0 == i32::MAX
        && x1 == i32::MIN && y1 == i32::MIN
}

/// Adding one pixel to a scanned set moves each bound by at most that pixel.
pub proof fn lemma_extent_add(
    p: spec_fn(i32, i32) -> bool,
    q: spec_fn(i32, i32) -> bool,
    found: bool,
    x0: i32,
    y0: i32,
    x1: i32,
    y1: i32,
    qx: i32,
    qy: i32,
)
    requires
        extent_tight(p, found, x0, y0, x1, y1),
        qx < i32::MAX,
        qy < i32::MAX,
        forall|px: i32, py: i32| #[trigger] q(px, py) == (p(px, py) || (px == qx && py == qy)),
    ensures
        extent_tight(
            q,
            true,
            if qx < x0 { qx } else { x0 },
            if qy < y0 { qy } else { y0 },
            if qx + 1 > x1 { (qx + 1) as i32 } else { x1 },
            if qy + 1 > y1 { (qy + 1) as i32 } else { y1 },
        ),
{
    let nx0 = if qx < x0 { qx } else { x0 };
    let ny0 = if qy < y0 { qy } else { y0 };
    let nx1 = if qx + 1 > x1 { (qx + 1) as i32 } else { x1 };
    let ny1 = if qy + 1 > y1 { (qy + 1) as i32 } else { y1 };
    assert(q(qx, qy));
    if found {
        let (ax, ay) = choose|px: i32, py: i32| #[trigger] p(px, py) && px == x0;
        let (bx, by) = choose|px: i32, py: i32| #[trigger] p(px, py) && px + 1 == x1;
        let (cx, cy) = choose|px: i32, py: i32| #[trigger] p(px, py) && py == y0;
        let (dx, dy) = choose|px: i32, py: i32| #[trigger] p(px, py) && py + 1 == y1;
        assert(q(ax, ay) && q(bx, by) && q(cx, cy) && q(dx, dy));
        if nx0 == x0 {
            assert(q(ax, ay) && ax == nx0);
        }
        if nx1 == x1 {
            assert(q(bx, by) && bx + 1 == nx1);
        }
        if ny0 == y0 {
            assert(q(cx, cy) && cy == ny0);
        }
        if ny1 == y1 {
            assert(q(dx, dy) && dy + 1 == ny1);
        }
    }
    assert(exact_extent(q, seq![nx0, ny0, nx1, ny1]));
}


/// Non-transparent pixels a row-major scan has visited: all pixels of the tiles
/// `ks[..i]`, and in tile `ks[i]` the rows above `iy` plus row `iy` left of `ix`.
pub open spec fn scanned_content(
    m: Map<TileCoord, Seq<u8>>,
    ks: Seq<TileCoord>,
    i: int,
    ix: int,
    iy: int,
    px: i32,
    py: i32,
) -> bool {
    &&& content_px(m, px as int, py as int)
    &&& (ks.take(i).contains(coord_of(px as int, py as int)) || (i < ks.len() && coord_of(px as int, py as int) == ks[i] && ((py as int) % 256 < iy || ((py as int) % 256 == iy && (px as int) % 256 < ix))))
}


/// Whether a tile at index `k` on one axis overlaps the 256-pixel span that
/// starts at `s` on that axis.
pub open spec fn span_meets(k: int, s: int) -> bool {
    k * 256 < s + 256 && s < k * 256 + 256
}

/// Whether some stored tile intersects the source region
/// `[tx·256 − ox, +256) × [ty·256 − oy, +256)` that lands on document tile
/// `(tx, ty)` when the map is drawn at offset `(ox, oy)`.
pub open spec fn shifted_sources(m: Map<TileCoord, Seq<u8>>, tx: int, ty: int, ox: int, oy: int) -> bool {
    exists|k: TileCoord|
        #[trigger] m.contains_key(k) && span_meets(k.0 as int, tx * 256 - ox) && span_meets(
            k.1 as int,
            ty * 256 - oy,
        )
}

/// The tiles that overlap a 256-pixel span starting at `s`: the one holding
/// `s`, and the next one unless `s` lies on a tile edge.
pub proof fn lemma_span_meets(k: int, s: int)
    ensures
        span_meets(k, s) <==> (k == s / 256 || (s % 256 != 0 && k == s / 256 + 1)),
{
    let q = s / 256;
    let r = s % 256;
    assert(s == 256 * q + r && 0 <= r < 256);
    if span_meets(k, s) {
        assert(256 * q - 256 < k * 256 < 256 * q + 512);
        assert(q - 1 < k < q + 2) by (nonlinear_arith)
            requires
                256 * q - 256 < k * 256 < 256 * q + 512,
        ;
        if r == 0 {
            assert(k * 256 < 256 * q + 256);
            assert(k < q + 1) by (nonlinear_arith)
                requires
                    k * 256 < 256 * q + 256,
            ;
        }
    }
}

/// In-tile pixel `(x, y)` of document tile `(tx, ty)` when the map is drawn at
/// offset `(ox, oy)`: the source pixel if it is not fully transparent, else
/// transparent black.
pub open spec fn shifted_px(
    m: Map<TileCoord, Seq<u8>>,
    tx: int,
    ty: int,
    ox: int,
    oy: int,
    x: int,
    y: int,
) -> Seq<u8> {
    let p = map_px(m, tx * 256 + x - ox, ty * 256 + y - oy);
    if p[3] != 0 {
        p
    } else {
        clear_px()
    }
}

/// The pixel extent lies inside the tile extent: the exact bounds of the
/// non-transparent pixels never leave the whole-tile bounds of the map.
pub proof fn lemma_pixel_bounds_within_tile_bounds(m: Map<TileCoord, Seq<u8>>, tb: Seq<i32>, pb: Seq<i32>)
    requires
        tile_bounds_of(m, tb),
        exact_extent(|px: i32, py: i32| content_px(m, px as int, py as int), pb),
    ensures
        tb[0] <= pb[0],
        tb[1] <= pb[1],
        pb[2] <= tb[2],
        pb[3] <= tb[3],
{
    let p = |px: i32, py: i32| content_px(m, px as int, py as int);
    let (ax, ay) = choose|px: i32, py: i32| #[trigger] p(px, py) && px == pb[0];
    let (bx, by) = choose|px: i32, py: i32| #[trigger] p(px, py) && px + 1 == pb[2];
    let (cx, cy) = choose|px: i32, py: i32| #[trigger] p(px, py) && py == pb[1];
    let (dx, dy) = choose|px: i32, py: i32| #[trigger] p(px, py) && py + 1 == pb[3];
    assert(m.contains_key(coord_of(ax as int, ay as int)));
    assert(m.contains_key(coord_of(bx as int, by as int)));
    assert(m.contains_key(coord_of(cx as int, cy as int)));
    assert(m.contains_key(coord_of(dx as int, dy as int)));
    assert((ax as int / 256) * 256 <= ax);
    assert(bx < (bx as int / 256 + 1) * 256);
    assert((cy as int / 256) * 256 <= cy);
    assert(dy < (dy as int / 256 + 1) * 256);
}

/// Splitting a document coordinate into tile and in-tile parts loses nothing.
pub proof fn lemma_split_unique(x: i32, y: i32, px: i32, py: i32)
    ensures
        coord_of(px as int, py as int) == coord_of(x as int, y as int) && (px as int) % 256 == (x as int) % 256 && py
            % 256 == (y as int) % 256 ==> px == x && py == y,
        0 <= (x as int) % 256 < 256,
        0 <= (y as int) % 256 < 256,
{
    assert(i32::MIN / 256 <= x / 256 <= i32::MAX / 256);
    assert(i32::MIN / 256 <= px / 256 <= i32::MAX / 256);
    assert(i32::MIN / 256 <= y / 256 <= i32::MAX / 256);
    assert(i32::MIN / 256 <= py / 256 <= i32::MAX / 256);
    if coord_of(px as int, py as int) == coord_of(x as int, y as int) && (px as int) % 256 == (x as int) % 256 && py
        % 256 == (y as int) % 256 {
        assert(px / 256 == x / 256);
        assert(py / 256 == y / 256);
    }
}

/// Setting one document pixel changes that pixel and no other.
pub proof fn lemma_map_with(m: Map<TileCoord, Seq<u8>>, x: i32, y: i32, rgba: Seq<u8>)
    requires
        map_wf(m),
        rgba.len() == 4,
    ensures
        map_wf(map_with(m, x as int, y as int, rgba)),
        forall|px: i32, py: i32|
            #[trigger] map_px(map_with(m, x as int, y as int, rgba), px as int, py as int) == if px
                == x && py == y {
                rgba
            } else {
                map_px(m, px as int, py as int)
            },
{
    let c = coord_of(x as int, y as int);
    let base = tile_or_zero(m, c);
    lemma_split_unique(x, y, x, y);
    lemma_tile_with(base, (x as int) % 256, (y as int) % 256, rgba);
    let n = map_with(m, x as int, y as int, rgba);
    assert forall|px: i32, py: i32| #[trigger]
        map_px(n, px as int, py as int) == if px == x && py == y {
            rgba
        } else {
            map_px(m, px as int, py as int)
        } by {
        lemma_split_unique(x, y, px, py);
        assert(in_tile((px as int) % 256, (py as int) % 256));
        if coord_of(px as int, py as int) == c {
            if !m.contains_key(c) {
                assert(tile_px(zero_tile(), (px as int) % 256, (py as int) % 256) =~= clear_px());
            }
        }
    }
}

/// Sparse tile storage: a map from tile coordinate to tile.
#[derive(Debug, Clone, PartialEq, Eq)]
pub struct TileMap {
    tiles: BTreeMap<TileCoord, Tile>,
}

impl View for TileMap {
    type V = Map<TileCoord, Seq<u8>>;

    closed spec fn view(&self) -> Map<TileCoord, Seq<u8>> {
        self.tiles@.map_values(|t: Tile| t@)
    }
}

impl Default for Tile {
    /// A fully transparent tile.
    fn default() -> (t: Tile)
        ensures
            t.wf(),
            t@ == zero_tile(),
    {
        Tile::blank()
    }
}

impl Default for TileMap {
    /// A map with no tiles.
    fn default() -> (r: TileMap)
        ensures
            r@ == Map::<TileCoord, Seq<u8>>::empty(),
            r.wf(),
    {
        TileMap::new()
    }
}

impl TileMap {
    /// Every stored tile is well formed.
    pub open spec fn wf(&self) -> bool {
        map_wf(self@)
    }

    /// An empty map.
    pub fn new() -> (r: TileMap)
        ensures
            r@ == Map::<TileCoord, Seq<u8>>::empty(),
            r.wf(),
    {
        let r = TileMap { tiles: BTreeMap::new() };
        assert(r@ =~= Map::<TileCoord, Seq<u8>>::empty());
        r
    }

    /// An owned copy with the same tiles.
    pub fn duplicate(&self) -> (r: TileMap)
        ensures
            r@ == self@,
    {
        proof {
            lemma_coord_order();
        }
        let ks = self.coords();
        let mut out = TileMap::new();
        let mut i: usize = 0;
        while i < ks.len()
            invariant
                ks@.to_set() == self@.dom(),
                i <= ks.len(),
                forall|j: int| 0 <= j < i ==> #[trigger] out@.contains_key(ks@[j]),
                forall|k: TileCoord| #[trigger] out@.contains_key(k) ==> self@.contains_key(k) && out@[k] == self@[k],
            decreases ks.len() - i,
        {
            let c = ks[i];
            assert(ks@.to_set().contains(c));
            let t = self.tile_at(c).unwrap().duplicate();
            out.insert_tile(c, t);
            i += 1;
        }
        proof {
            assert forall|k: TileCoord| self@.contains_key(k) implies out@.contains_key(k) by {
                assert(ks@.to_set().contains(k));
                let j = choose|j: int| 0 <= j < ks@.len() && ks@[j] == k;
                assert(out@.contains_key(ks@[j]));
            }
            assert(out@ =~= self@);
        }
        out
    }

    /// True when no tile is stored.
    pub fn is_empty(&self) -> (r: bool)
        ensures
            r == (self@.dom() == Set::<TileCoord>::empty()),
    {
        let r = self.tiles.is_empty();
        proof {
            if !r {
                assert(!self.tiles@.is_empty());
                let k = self.tiles@.dom().choose();
                assert(self@.dom().contains(k));
            } else {
                assert(self@.dom() =~= Set::<TileCoord>::empty());
            }
        }
        r
    }

    /// Number of stored tiles.
    pub fn tile_count(&self) -> (r: usize)
        ensures
            r == self@.dom().len(),
    {
        proof {
            lemma_coord_order();
            assert(self@.dom() =~= self.tiles@.dom());
        }
        self.tiles.len()
    }

    /// Coordinates of the stored tiles, in increasing lexicographic order.
    pub fn coords(&self) -> (r: Vec<TileCoord>)
        ensures
            r@.to_set() == self@.dom(),
            r@.no_duplicates(),
            coords_sorted(r@),
    {
        proof {
            lemma_coord_order();
        }
        let ghost ks = spec_keys_iter(&self.tiles).remaining();
        let mut out: Vec<TileCoord> = Vec::new();
        for k in it: self.tiles.keys()
            invariant
                it.seq() == ks,
                out@.len() == it.index(),
                out@ == ks.take(it.index()).unref(),
        {
            out.push(*k);
        }
        proof {
            assert(out@.len() == ks.len());
            assert(ks.take(ks.len() as int) =~= ks);
            lemma_keys_sorted(ks);
            assert(self@.dom() =~= self.tiles@.dom());
        }
        out
    }

    /// The stored tiles with their coordinates, in increasing coordinate order.
    pub fn tiles(&self) -> (r: Vec<(TileCoord, &Tile)>)
        ensures
            r@.len() == self@.dom().len(),
            coords_sorted(r@.map_values(|p: (TileCoord, &Tile)| p.0)),
            forall|i: int|
                0 <= i < r@.len() ==> self@.contains_key(#[trigger] r@[i].0) && r@[i].1@ == self@[r@[i].0],
            forall|k: TileCoord| #[trigger] self@.contains_key(k) ==> exists|i: int| 0 <= i < r@.len() && r@[i].0 == k,
    {
        proof {
            lemma_coord_order();
        }
        let ks = self.coords();
        let mut out: Vec<(TileCoord, &Tile)> = Vec::new();
        let mut i: usize = 0;
        while i < ks.len()
            invariant
                ks@.to_set() == self@.dom(),
                ks@.no_duplicates(),
                coords_sorted(ks@),
                i <= ks.len(),
                out@.len() == i,
                forall|j: int| 0 <= j < i ==> (#[trigger] out@[j]).0 == ks@[j] && out@[j].1@ == self@[ks@[j]],
            decreases ks.len() - i,
        {
            let c = ks[i];
            assert(ks@.to_set().contains(c));
            let t = self.tile_at(c).unwrap();
            out.push((c, t));
            i += 1;
        }
        proof {
            ks@.unique_seq_to_set();
            assert(out@.map_values(|p: (TileCoord, &Tile)| p.0) =~= ks@);
            assert forall|k: TileCoord| #[trigger] self@.contains_key(k) implies exists|i: int| 0 <= i < out@.len() && out@[i].0 == k by {
                assert(ks@.to_set().contains(k));
                let j = choose|j: int| 0 <= j < ks@.len() && ks@[j] == k;
                assert(out@[j].0 == k);
            }
        }
        out
    }

    /// The tile stored at `coord`, if any.
    pub fn tile_at(&self, coord: TileCoord) -> (r: Option<&Tile>)
        ensures
            match r {
                Some(t) => self@.contains_key(coord) && t@ == self@[coord],
                None => !self@.contains_key(coord),
            },
    {
        proof {
            lemma_coord_order();
        }
        self.tiles.get(&coord)
    }

    /// Store `tile` at `coord`, replacing any tile there.
    pub fn insert_tile(&mut self, coord: TileCoord, tile: Tile)
        ensures
            final(self)@ == old(self)@.insert(coord, tile@),
    {
        proof {
            lemma_coord_order();
        }
        self.tiles.insert(coord, tile);
        assert(self@ =~= old(self)@.insert(coord, tile@));
    }

    /// Drop the tile at `coord`, if any.
    pub fn remove_tile(&mut self, coord: TileCoord)
        ensures
            final(self)@ == old(self)@.remove(coord),
    {
        proof {
            lemma_coord_order();
        }
        self.tiles.remove(&coord);
        assert(self@ =~= old(self)@.remove(coord));
    }

    /// Split a document coordinate into its tile and in-tile position.
    fn split(doc_x: i32, doc_y: i32) -> (r: (TileCoord, usize, usize))
        ensures
            r.0 == coord_of(doc_x as int, doc_y as int),
            r.1 == (doc_x as int) % 256,
            r.2 == (doc_y as int) % 256,
            r.1 < TILE_SIZE,
            r.2 < TILE_SIZE,
    {
        let tx = match doc_x.checked_div_euclid(256) {
            Some(v) => v,
            None => 0,
        };
        let ty = match doc_y.checked_div_euclid(256) {
            Some(v) => v,
            None => 0,
        };
        let ix = match doc_x.checked_rem_euclid(256) {
            Some(v) => v,
            None => 0,
        };
        let iy = match doc_y.checked_rem_euclid(256) {
            Some(v) => v,
            None => 0,
        };
        ((tx, ty), ix as usize, iy as usize)
    }

    /// The pixel at document `(doc_x, doc_y)`; transparent black where no tile exists.
    pub fn pixel(&self, doc_x: i32, doc_y: i32) -> (r: [u8; 4])
        requires
            self.wf(),
        ensures
            r@ == map_px(self@, doc_x as int, doc_y as int),
    {
        proof {
            lemma_coord_order();
        }
        let (coord, ix, iy) = Self::split(doc_x, doc_y);
        match self.tile_at(coord) {
            Some(t) => t.pixel(ix, iy),
            None => {
                let r = [0u8, 0u8, 0u8, 0u8];
                assert(r@ =~= clear_px());
                r
            },
        }
    }

    /// Write the pixel at document `(doc_x, doc_y)`, creating its tile on demand.
    pub fn set_pixel(&mut self, doc_x: i32, doc_y: i32, rgba: [u8; 4])
        requires
            old(self).wf(),
        ensures
            final(self)@ == map_with(old(self)@, doc_x as int, doc_y as int, rgba@),
            final(self).wf(),
            forall|px: i32, py: i32|
                #[trigger] map_px(final(self)@, px as int, py as int) == if px == doc_x && py == doc_y {
                    rgba@
                } else {
                    map_px(old(self)@, px as int, py as int)
                },
    {
        proof {
            lemma_coord_order();
            lemma_map_with(old(self)@, doc_x, doc_y, rgba@);
        }
        let (coord, ix, iy) = Self::split(doc_x, doc_y);
        let mut t = match self.tiles.remove(&coord) {
            Some(t) => t,
            None => Tile::blank(),
        };
        t.set_pixel(ix, iy, rgba);
        self.tiles.insert(coord, t);
        assert(self@ =~= map_with(old(self)@, doc_x as int, doc_y as int, rgba@));
    }

    /// Fill the half-open document rect `[x0, x1) × [y0, y1)` with one color,
    /// creating the touched tiles on demand.
    pub fn fill_rect(&mut self, x0: i32, y0: i32, x1: i32, y1: i32, rgba: [u8; 4])
        requires
            old(self).wf(),
        ensures
            final(self).wf(),
            forall|px: i32, py: i32|
                #[trigger] map_px(final(self)@, px as int, py as int) == if in_rect(
                    px as int,
                    py as int,
                    x0 as int,
                    y0 as int,
                    x1 as int,
                    y1 as int,
                ) {
                    rgba@
                } else {
                    map_px(old(self)@, px as int, py as int)
                },
            forall|k: TileCoord|
                #[trigger] final(self)@.contains_key(k) <==> old(self)@.contains_key(k) || rect_touches(
                    x0 as int,
                    y0 as int,
                    x1 as int,
                    y1 as int,
                    k,
                ),
            forall|k: TileCoord|
                old(self)@.contains_key(k) && !rect_touches(x0 as int, y0 as int, x1 as int, y1 as int, k)
                    ==> #[trigger] final(self)@[k] == old(self)@[k],
    {
        let ghost old_m = self@;
        let mut y = y0;
        while y < y1
            invariant
                y0 <= y1 ==> y0 <= y <= y1,
                y0 > y1 ==> y == y0,
                self.wf(),
                forall|px: i32, py: i32|
                    #[trigger] map_px(self@, px as int, py as int) == if in_rect(
                        px as int,
                        py as int,
                        x0 as int,
                        y0 as int,
                        x1 as int,
                        y as int,
                    ) {
                        rgba@
                    } else {
                        map_px(old_m, px as int, py as int)
                    },
                forall|k: TileCoord|
                    #[trigger] self@.contains_key(k) <==> old_m.contains_key(k) || rect_touches(
                        x0 as int,
                        y0 as int,
                        x1 as int,
                        y as int,
                        k,
                    ),
                forall|k: TileCoord|
                    old_m.contains_key(k) && !rect_touches(x0 as int, y0 as int, x1 as int, y as int, k)
                        ==> #[trigger] self@[k] == old_m[k],
            decreases y1 - y,
        {
            let mut x = x0;
            while x < x1
                invariant
                    y0 <= y < y1,
                    x0 <= x1 ==> x0 <= x <= x1,
                    x0 > x1 ==> x == x0,
                    self.wf(),
                    forall|px: i32, py: i32|
                        #[trigger] map_px(self@, px as int, py as int) == if swept(
                            px as int,
                            py as int,
                            x0 as int,
                            y0 as int,
                            x1 as int,
                            x as int,
                            y as int,
                        ) {
                            rgba@
                        } else {
                            map_px(old_m, px as int, py as int)
                        },
                    forall|k: TileCoord|
                        #[trigger] self@.contains_key(k) <==> old_m.contains_key(k) || sweep_touches(
                            x0 as int,
                            y0 as int,
                            x1 as int,
                            x as int,
                            y as int,
                            k,
                        ),
                    forall|k: TileCoord|
                        old_m.contains_key(k) && !sweep_touches(
                            x0 as int,
                            y0 as int,
                            x1 as int,
                            x as int,
                            y as int,
                            k,
                        ) ==> #[trigger] self@[k] == old_m[k],
                decreases x1 - x,
            {
                let ghost before = self@;
                self.set_pixel(x, y, rgba);
                proof {
                    let c = coord_of(x as int, y as int);
                    assert(swept(x as int, y as int, x0 as int, y0 as int, x1 as int, x + 1, y as int));
                    assert forall|k: TileCoord|
                        #[trigger] self@.contains_key(k) <==> old_m.contains_key(k) || sweep_touches(
                            x0 as int,
                            y0 as int,
                            x1 as int,
                            x + 1,
                            y as int,
                            k,
                        ) by {
                        if sweep_touches(x0 as int, y0 as int, x1 as int, x + 1, y as int, k) && k != c {
                            let (px, py) = choose|px: i32, py: i32|
                                swept(px as int, py as int, x0 as int, y0 as int, x1 as int, x + 1, y as int)
                                    && #[trigger] coord_of(px as int, py as int) == k;
                            assert(swept(px as int, py as int, x0 as int, y0 as int, x1 as int, x as int, y as int));
                        }
                        if k == c {
                            assert(coord_of(x as int, y as int) == k);
                        }
                    }
                    assert forall|k: TileCoord|
                        old_m.contains_key(k) && !sweep_touches(
                            x0 as int,
                            y0 as int,
                            x1 as int,
                            x + 1,
                            y as int,
                            k,
                        ) implies #[trigger] self@[k] == old_m[k] by {
                        assert(coord_of(x as int, y as int) == c);
                        if sweep_touches(x0 as int, y0 as int, x1 as int, x as int, y as int, k) {
                            let (px, py) = choose|px: i32, py: i32|
                                swept(px as int, py as int, x0 as int, y0 as int, x1 as int, x as int, y as int)
                                    && #[trigger] coord_of(px as int, py as int) == k;
                            assert(swept(px as int, py as int, x0 as int, y0 as int, x1 as int, x + 1, y as int));
                        }
                    }
                }
                x = x + 1;
            }
            proof {
                assert forall|k: TileCoord|
                    #[trigger] rect_touches(x0 as int, y0 as int, x1 as int, y + 1, k)
                        == sweep_touches(x0 as int, y0 as int, x1 as int, x as int, y as int, k) by {
                    if rect_touches(x0 as int, y0 as int, x1 as int, y + 1, k) {
                        let (px, py) = choose|px: i32, py: i32|
                            in_rect(px as int, py as int, x0 as int, y0 as int, x1 as int, y + 1)
                                && #[trigger] coord_of(px as int, py as int) == k;
                        assert(swept(px as int, py as int, x0 as int, y0 as int, x1 as int, x as int, y as int));
                    }
                    if sweep_touches(x0 as int, y0 as int, x1 as int, x as int, y as int, k) {
                        let (px, py) = choose|px: i32, py: i32|
                            swept(px as int, py as int, x0 as int, y0 as int, x1 as int, x as int, y as int)
                                && #[trigger] coord_of(px as int, py as int) == k;
                        assert(in_rect(px as int, py as int, x0 as int, y0 as int, x1 as int, y + 1));
                    }
                }
            }
            y = y + 1;
        }
    }


    /// Drop the tiles that are fully transparent (alpha zero everywhere).
    pub fn prune_blank(&mut self)
        requires
            old(self).wf(),
        ensures
            final(self)@ == map_pruned(old(self)@),
            final(self).wf(),
    {
        let ghost old_m = self@;
        let ks = self.coords();
        let mut i: usize = 0;
        while i < ks.len()
            invariant
                ks@.to_set() == old_m.dom(),
                ks@.no_duplicates(),
                i <= ks.len(),
                map_wf(old_m),
                forall|k: TileCoord| #[trigger]
                    self@.contains_key(k) ==> old_m.contains_key(k) && self@[k] == old_m[k],
                forall|k: TileCoord|
                    old_m.contains_key(k) ==> (#[trigger] self@.contains_key(k) <==> (!blank_bytes(old_m[k])
                        || !ks@.take(i as int).contains(k))),
            decreases ks.len() - i,
        {
            let c = ks[i];
            assert(ks@.to_set().contains(c));
            proof {
                let a = ks@.take(i as int);
                let b = ks@.take(i + 1);
                assert(b =~= a.push(c));
                assert forall|k: TileCoord| #[trigger] b.contains(k) == (a.contains(k) || k == c) by {
                    if b.contains(k) && k != c {
                        let j = choose|j: int| 0 <= j < b.len() && b[j] == k;
                        assert(a[j] == k);
                    }
                    if a.contains(k) {
                        let j = choose|j: int| 0 <= j < a.len() && a[j] == k;
                        assert(b[j] == k);
                    }
                    if k == c {
                        assert(b[i as int] == k);
                    }
                }
                assert(!ks@.take(i as int).contains(c)) by {
                    if ks@.take(i as int).contains(c) {
                        let j = choose|j: int| 0 <= j < i && ks@.take(i as int)[j] == c;
                        assert(ks@[j] == ks@[i as int]);
                    }
                }
            }
            let blank = match self.tile_at(c) {
                Some(t) => t.is_blank(),
                None => false,
            };
            if blank {
                self.remove_tile(c);
            }
            i += 1;
        }
        proof {
            assert(ks@.take(ks.len() as int) =~= ks@);
            assert forall|k: TileCoord| old_m.contains_key(k) implies ks@.contains(k) by {
                assert(ks@.to_set().contains(k));
            }
            assert(self@ =~= map_pruned(old_m));
        }
    }

    /// Tile-granular content bounds `[x0, y0, x1, y1)` in document pixels:
    /// the smallest rect of whole tiles covering every stored tile; `None` when empty.
    pub fn bounds(&self) -> (r: Option<[i32; 4]>)
        requires
            tile_coords_in_range(self@),
        ensures
            match r {
                None => self@.dom() == Set::<TileCoord>::empty(),
                Some(b) => tile_bounds_of(self@, b@),
            },
    {
        let ks = self.coords();
        if ks.len() == 0 {
            proof {
                assert(self@.dom() =~= Set::<TileCoord>::empty()) by {
                    assert forall|k: TileCoord| !self@.dom().contains(k) by {
                        if self@.dom().contains(k) {
                            assert(ks@.to_set().contains(k));
                        }
                    }
                }
            }
            return None;
        }
        let (mut x0, mut y0) = ks[0];
        let (mut x1, mut y1) = ks[0];
        assert(ks@.to_set().contains(ks@[0]));
        let mut i: usize = 1;
        while i < ks.len()
            invariant
                ks@.to_set() == self@.dom(),
                1 <= i <= ks.len(),
                forall|j: int| 0 <= j < i ==> x0 <= (#[trigger] ks@[j]).0 <= x1 && y0 <= ks@[j].1 <= y1,
                exists|j: int| 0 <= j < i && (#[trigger] ks@[j]).0 == x0,
                exists|j: int| 0 <= j < i && (#[trigger] ks@[j]).0 == x1,
                exists|j: int| 0 <= j < i && (#[trigger] ks@[j]).1 == y0,
                exists|j: int| 0 <= j < i && (#[trigger] ks@[j]).1 == y1,
            decreases ks.len() - i,
        {
            let (tx, ty) = ks[i];
            if tx < x0 {
                x0 = tx;
            }
            if ty < y0 {
                y0 = ty;
            }
            if tx > x1 {
                x1 = tx;
            }
            if ty > y1 {
                y1 = ty;
            }
            i += 1;
        }
        proof {
            let j0 = choose|j: int| 0 <= j < ks@.len() && (#[trigger] ks@[j]).0 == x0;
            let j1 = choose|j: int| 0 <= j < ks@.len() && (#[trigger] ks@[j]).0 == x1;
            let j2 = choose|j: int| 0 <= j < ks@.len() && (#[trigger] ks@[j]).1 == y0;
            let j3 = choose|j: int| 0 <= j < ks@.len() && (#[trigger] ks@[j]).1 == y1;
            assert(ks@.to_set().contains(ks@[j0]));
            assert(ks@.to_set().contains(ks@[j1]));
            assert(ks@.to_set().contains(ks@[j2]));
            assert(ks@.to_set().contains(ks@[j3]));
            assert(self@.contains_key(ks@[j0]));
            assert(self@.contains_key(ks@[j1]));
            assert(self@.contains_key(ks@[j2]));
            assert(self@.contains_key(ks@[j3]));
        }
        let r = [x0 * 256, y0 * 256, (x1 + 1) * 256, (y1 + 1) * 256];
        proof {
            assert forall|k: TileCoord| #[trigger] self@.contains_key(k) implies x0 <= k.0 <= x1 && y0
                <= k.1 <= y1 by {
                assert(ks@.to_set().contains(k));
                let j = choose|j: int| 0 <= j < ks@.len() && ks@[j] == k;
                assert(x0 <= ks@[j].0 <= x1);
            }
        }
        Some(r)
    }


    /// Pixel-exact content bounds `[x0, y0, x1, y1)` over the pixels whose alpha
    /// is not zero; `None` when there is none.
    pub fn pixel_bounds(&self) -> (r: Option<[i32; 4]>)
        requires
            self.wf(),
            content_in_range(self@),
        ensures
            match r {
                None => forall|px: i32, py: i32| !content_px(self@, px as int, py as int),
                Some(b) => exact_extent(|px: i32, py: i32| content_px(self@, px as int, py as int), b@),
            },
    {
        let ghost m = self@;
        let ks = self.coords();
        let mut found = false;
        let mut x0 = i32::MAX;
        let mut y0 = i32::MAX;
        let mut x1 = i32::MIN;
        let mut y1 = i32::MIN;
        let mut i: usize = 0;
        while i < ks.len()
            invariant
                m == self@,
                self.wf(),
                content_in_range(m),
                ks@.to_set() == m.dom(),
                ks@.no_duplicates(),
                i <= ks.len(),
                extent_tight(|px: i32, py: i32| scanned_content(m, ks@, i as int, 0, 0, px, py), found, x0, y0, x1, y1),
            decreases ks.len() - i,
        {
            let (tx, ty) = ks[i];
            assert(ks@.to_set().contains(ks@[i as int]));
            let t = self.tile_at((tx, ty)).unwrap();
            let mut iy: usize = 0;
            while iy < TILE_SIZE
                invariant
                    m == self@,
                    self.wf(),
                    content_in_range(m),
                    ks@.to_set() == m.dom(),
                    ks@.no_duplicates(),
                    i < ks.len(),
                    ks@[i as int] == (tx, ty),
                    m.contains_key((tx, ty)),
                    t@ == m[(tx, ty)],
                    iy <= TILE_SIZE,
                    extent_tight(|px: i32, py: i32| scanned_content(m, ks@, i as int, 0, iy as int, px, py), found, x0, y0, x1, y1),
                decreases TILE_SIZE - iy,
            {
                let mut ix: usize = 0;
                while ix < TILE_SIZE
                    invariant
                        m == self@,
                        self.wf(),
                        content_in_range(m),
                        ks@.to_set() == m.dom(),
                        ks@.no_duplicates(),
                        i < ks.len(),
                        ks@[i as int] == (tx, ty),
                        m.contains_key((tx, ty)),
                        t@ == m[(tx, ty)],
                        iy < TILE_SIZE,
                        ix <= TILE_SIZE,
                        extent_tight(|px: i32, py: i32| scanned_content(m, ks@, i as int, ix as int, iy as int, px, py), found, x0, y0, x1, y1),
                    decreases TILE_SIZE - ix,
                {
                    let ghost p = |px: i32, py: i32| scanned_content(m, ks@, i as int, ix as int, iy as int, px, py);
                    let ghost q = |px: i32, py: i32| scanned_content(m, ks@, i as int, ix + 1, iy as int, px, py);
                    proof {
                        assert(!ks@.take(i as int).contains((tx, ty))) by {
                            if ks@.take(i as int).contains((tx, ty)) {
                                let j = choose|j: int| 0 <= j < i && ks@.take(i as int)[j] == (tx, ty);
                                assert(ks@[j] == ks@[i as int]);
                            }
                        }
                    }
                    if t.alpha(ix, iy) != 0 {
                        assert(in_tile(ix as int, iy as int));
                        assert(m.contains_key((tx, ty)));
                        let px = tx * 256 + ix as i32;
                        let py = ty * 256 + iy as i32;
                        proof {
                            assert(coord_of(px as int, py as int) == (tx, ty));
                            assert((px as int) % 256 == ix);
                            assert((py as int) % 256 == iy);
                            assert forall|ax: i32, ay: i32| #[trigger] q(ax, ay) == (p(ax, ay) || (ax == px && ay == py)) by {
                                lemma_split_unique(px, py, ax, ay);
                            }
                            lemma_extent_add(p, q, found, x0, y0, x1, y1, px, py);
                        }
                        if px < x0 {
                            x0 = px;
                        }
                        if py < y0 {
                            y0 = py;
                        }
                        if px + 1 > x1 {
                            x1 = px + 1;
                        }
                        if py + 1 > y1 {
                            y1 = py + 1;
                        }
                        found = true;
                    } else {
                        proof {
                            assert forall|ax: i32, ay: i32| #[trigger] q(ax, ay) == p(ax, ay) by {
                                lemma_split_unique(ax, ay, ax, ay);
                                if q(ax, ay) && !p(ax, ay) {
                                    assert(coord_of(ax as int, ay as int) == (tx, ty));
                                    assert((ax as int) % 256 == ix && (ay as int) % 256 == iy);
                                }
                            }
                            assert(p =~= q);
                        }
                    }
                    ix += 1;
                }
                proof {
                    let p = |px: i32, py: i32| scanned_content(m, ks@, i as int, 256, iy as int, px, py);
                    let q = |px: i32, py: i32| scanned_content(m, ks@, i as int, 0, iy + 1, px, py);
                    assert forall|ax: i32, ay: i32| #[trigger] q(ax, ay) == p(ax, ay) by {
                        lemma_split_unique(ax, ay, ax, ay);
                    }
                    assert(p =~= q);
                }
                iy += 1;
            }
            proof {
                let p = |px: i32, py: i32| scanned_content(m, ks@, i as int, 0, 256, px, py);
                let q = |px: i32, py: i32| scanned_content(m, ks@, i + 1, 0, 0, px, py);
                let a = ks@.take(i as int);
                let b = ks@.take(i + 1);
                assert(b =~= a.push((tx, ty)));
                assert forall|ax: i32, ay: i32| #[trigger] q(ax, ay) == p(ax, ay) by {
                    lemma_split_unique(ax, ay, ax, ay);
                    let c = coord_of(ax as int, ay as int);
                    if b.contains(c) && c != (tx, ty) {
                        let j = choose|j: int| 0 <= j < b.len() && b[j] == c;
                        assert(a[j] == c);
                    }
                    if a.contains(c) {
                        let j = choose|j: int| 0 <= j < a.len() && a[j] == c;
                        assert(b[j] == c);
                    }
                    if c == (tx, ty) {
                        assert(b[i as int] == c);
                    }
                }
                assert(p =~= q);
            }
            i += 1;
        }
        proof {
            let p = |px: i32, py: i32| scanned_content(m, ks@, ks@.len() as int, 0, 0, px, py);
            let q = |px: i32, py: i32| content_px(m, px as int, py as int);
            assert(ks@.take(ks@.len() as int) =~= ks@);
            assert forall|ax: i32, ay: i32| #[trigger] q(ax, ay) == p(ax, ay) by {
                if q(ax, ay) {
                    assert(ks@.to_set().contains(coord_of(ax as int, ay as int)));
                }
            }
            assert(p =~= q);
            assert(extent_tight(q, found, x0, y0, x1, y1));
        }
        if x1 > x0 {
            Some([x0, y0, x1, y1])
        } else {
            proof {
                if found {
                    let q = |px: i32, py: i32| content_px(m, px as int, py as int);
                    let (ax, ay) = choose|px: i32, py: i32| #[trigger] q(px, py) && px == x0;
                    assert(q(ax, ay));
                    assert(x0 <= ax < x1);
                } else {
                    let q = |px: i32, py: i32| content_px(m, px as int, py as int);
                    assert forall|px: i32, py: i32| !content_px(m, px as int, py as int) by {
                        assert(!q(px, py));
                    }
                }
            }
            None
        }
    }


    /// The 256×256 region that lands on document tile `(tx, ty)` when this map
    /// is drawn at `offset` (source pixels `doc − offset`), keeping only the
    /// pixels that are not fully transparent; `None` exactly when no stored
    /// tile intersects that source region.
    pub fn extract_shifted(&self, tx: i32, ty: i32, offset: [i32; 2]) -> (r: Option<Tile>)
        requires
            self.wf(),
            i32::MIN <= tx * 256 <= i32::MAX,
            i32::MIN <= ty * 256 <= i32::MAX,
            i32::MIN <= tx * 256 - offset[0],
            tx * 256 + 255 - offset[0] <= i32::MAX,
            i32::MIN <= ty * 256 - offset[1],
            ty * 256 + 255 - offset[1] <= i32::MAX,
        ensures
            match r {
                None => !shifted_sources(self@, tx as int, ty as int, offset[0] as int, offset[1] as int),
                Some(t) => {
                    &&& shifted_sources(self@, tx as int, ty as int, offset[0] as int, offset[1] as int)
                    &&& t.wf()
                    &&& forall|x: int, y: int|
                        #[trigger] in_tile(x, y) ==> tile_px(t@, x, y) == shifted_px(
                            self@,
                            tx as int,
                            ty as int,
                            offset[0] as int,
                            offset[1] as int,
                            x,
                            y,
                        )
                },
            },
    {
        let dx0 = tx * 256;
        let dy0 = ty * 256;
        let sx = dx0 - offset[0];
        let sy = dy0 - offset[1];
        let sx0 = match sx.checked_div_euclid(256) {
            Some(v) => v,
            None => 0,
        };
        let sy0 = match sy.checked_div_euclid(256) {
            Some(v) => v,
            None => 0,
        };
        let rx = match sx.checked_rem_euclid(256) {
            Some(v) => v,
            None => 0,
        };
        let ry = match sy.checked_rem_euclid(256) {
            Some(v) => v,
            None => 0,
        };
        assert(sx0 == sx as int / 256 && sy0 == sy as int / 256);
        assert(rx == sx as int % 256 && ry == sy as int % 256);
        let a = self.tile_at((sx0, sy0)).is_some();
        let b = rx != 0 && self.tile_at((sx0 + 1, sy0)).is_some();
        let c = ry != 0 && self.tile_at((sx0, sy0 + 1)).is_some();
        let d = rx != 0 && ry != 0 && self.tile_at((sx0 + 1, sy0 + 1)).is_some();
        proof {
            let ex = tx * 256 - offset[0];
            let ey = ty * 256 - offset[1];
            assert forall|k: TileCoord| #[trigger]
                self@.contains_key(k) && span_meets(k.0 as int, ex) && span_meets(k.1 as int, ey)
                implies a || b || c || d by {
                lemma_span_meets(k.0 as int, ex);
                lemma_span_meets(k.1 as int, ey);
                if k.0 == sx0 && k.1 == sy0 {
                    assert(k == (sx0, sy0));
                } else if k.0 == sx0 + 1 && k.1 == sy0 {
                    assert(k == ((sx0 + 1) as i32, sy0));
                } else if k.0 == sx0 && k.1 == sy0 + 1 {
                    assert(k == (sx0, (sy0 + 1) as i32));
                } else {
                    assert(k == ((sx0 + 1) as i32, (sy0 + 1) as i32));
                }
            }
            lemma_span_meets(sx0 as int, ex);
            lemma_span_meets(sy0 as int, ey);
            lemma_span_meets(sx0 + 1, ex);
            lemma_span_meets(sy0 + 1, ey);
            if a {
                assert(self@.contains_key((sx0, sy0)));
            } else if b {
                assert(self@.contains_key(((sx0 + 1) as i32, sy0)));
            } else if c {
                assert(self@.contains_key((sx0, (sy0 + 1) as i32)));
            } else if d {
                assert(self@.contains_key(((sx0 + 1) as i32, (sy0 + 1) as i32)));
            }
        }
        if !(a || b || c || d) {
            return None;
        }
        let ghost m = self@;
        let ghost ox = offset[0] as int;
        let ghost oy = offset[1] as int;
        let mut out = Tile::blank();
        let mut y: usize = 0;
        while y < TILE_SIZE
            invariant
                m == self@,
                self.wf(),
                ox == offset[0],
                oy == offset[1],
                dx0 == tx * 256,
                dy0 == ty * 256,
                i32::MIN <= tx * 256 - offset[0],
                tx * 256 + 255 - offset[0] <= i32::MAX,
                i32::MIN <= ty * 256 - offset[1],
                ty * 256 + 255 - offset[1] <= i32::MAX,
                out.wf(),
                y <= TILE_SIZE,
                forall|px: int, py: int|
                    #[trigger] in_tile(px, py) ==> tile_px(out@, px, py) == if py < y {
                        shifted_px(m, tx as int, ty as int, ox, oy, px, py)
                    } else {
                        clear_px()
                    },
            decreases TILE_SIZE - y,
        {
            let mut x: usize = 0;
            while x < TILE_SIZE
                invariant
                    m == self@,
                    self.wf(),
                    ox == offset[0],
                    oy == offset[1],
                    dx0 == tx * 256,
                    dy0 == ty * 256,
                    i32::MIN <= tx * 256 - offset[0],
                    tx * 256 + 255 - offset[0] <= i32::MAX,
                    i32::MIN <= ty * 256 - offset[1],
                    ty * 256 + 255 - offset[1] <= i32::MAX,
                    out.wf(),
                    y < TILE_SIZE,
                    x <= TILE_SIZE,
                    forall|px: int, py: int|
                        #[trigger] in_tile(px, py) ==> tile_px(out@, px, py) == if py < y || (py == y
                            && px < x) {
                            shifted_px(m, tx as int, ty as int, ox, oy, px, py)
                        } else {
                            clear_px()
                        },
                decreases TILE_SIZE - x,
            {
                let px = self.pixel(dx0 + x as i32 - offset[0], dy0 + y as i32 - offset[1]);
                let ghost before = out@;
                if px[3] != 0 {
                    out.set_pixel(x, y, px);
                    proof {
                        lemma_tile_with(before, x as int, y as int, px@);
                    }
                }
                proof {
                    assert(in_tile(x as int, y as int));
                    if px[3] == 0 {
                        assert(shifted_px(m, tx as int, ty as int, ox, oy, x as int, y as int) == clear_px());
                    }
                }
                x += 1;
            }
            y += 1;
        }
        Some(out)
    }

}

/// Errors from building a tile out of raw bytes.
#[derive(Debug, PartialEq, Eq, Structural)]
pub enum TileError {
    /// The byte length was not `TILE_BYTES`.
    BadLength(usize),
}

} // verus!
