//! A selection's outline at coverage 128: the unit pixel edges between a
//! selected and an unselected pixel, for drawing "marching ants".

use vstd::prelude::*;
use crate::mask::{cov_blank, cov_index, mask_pruned, mask_px, mask_wf, Mask, TILE_PX};
use crate::tile::{coord_of, tile_bounds_of, tile_coords_in_range, TileCoord};

verus! {

/// An edge from one lattice point to the next.
pub type Edge = ([i32; 2], [i32; 2]);

/// Pixel `(x, y)` counts as selected.
pub open spec fn selected(m: Map<TileCoord, Seq<u8>>, x: int, y: int) -> bool {
    mask_px(m, x, y) >= 128
}

/// The edges at cell `(x, y)`: the vertical edge at `x` when the pixel and
/// its left neighbour differ, then the horizontal edge at `y` when the pixel
/// and the one above differ.
pub open spec fn cell_edges(m: Map<TileCoord, Seq<u8>>, x: i32, y: i32) -> Seq<Edge> {
    let here = selected(m, x as int, y as int);
    (if here != selected(m, x - 1, y as int) {
        seq![([x, y], [x, (y + 1) as i32])]
    } else {
        Seq::empty()
    }) + (if here != selected(m, x as int, y - 1) {
        seq![([x, y], [(x + 1) as i32, y])]
    } else {
        Seq::empty()
    })
}

/// The edges of cells `x0 ..< x` in row `y`, left to right.
pub open spec fn row_edges(m: Map<TileCoord, Seq<u8>>, y: i32, x0: i32, x: int) -> Seq<Edge>
    decreases x - x0,
{
    if x <= x0 {
        Seq::empty()
    } else {
        row_edges(m, y, x0, x - 1) + cell_edges(m, (x - 1) as i32, y)
    }
}

/// The edges of rows `y0 ..< y`, cells `x0 ..= x1` in each, top to bottom.
pub open spec fn grid_edges(m: Map<TileCoord, Seq<u8>>, x0: i32, x1: i32, y0: i32, y: int) -> Seq<Edge>
    decreases y - y0,
{
    if y <= y0 {
        Seq::empty()
    } else {
        grid_edges(m, x0, x1, y0, y - 1) + row_edges(m, (y - 1) as i32, x0, x1 + 1)
    }
}

/// The outline edges over the cells of rect `b` and one past its right and
/// bottom sides, row by row.
pub open spec fn outline(m: Map<TileCoord, Seq<u8>>, b: Seq<i32>) -> Seq<Edge> {
    grid_edges(m, b[0], b[2], b[1], b[3] + 1)
}

proof fn lemma_concat_contains(a: Seq<Edge>, b: Seq<Edge>, e: Edge)
    ensures
        a.contains(e) ==> (a + b).contains(e),
        b.contains(e) ==> (a + b).contains(e),
{
    if a.contains(e) {
        let j = choose|j: int| 0 <= j < a.len() && a[j] == e;
        assert((a + b)[j] == e);
    }
    if b.contains(e) {
        let j = choose|j: int| 0 <= j < b.len() && b[j] == e;
        assert((a + b)[a.len() + j] == e);
    }
}

/// The edges of cell `c` of row `y` are among the row's edges when the row
/// spans it.
proof fn lemma_row_has_cell(m: Map<TileCoord, Seq<u8>>, y: i32, x0: i32, x: int, c: i32, e: Edge)
    requires
        x0 <= c < x,
        cell_edges(m, c, y).contains(e),
    ensures
        row_edges(m, y, x0, x).contains(e),
    decreases x - x0,
{
    let prev = row_edges(m, y, x0, x - 1);
    let last = cell_edges(m, (x - 1) as i32, y);
    if c == x - 1 {
        lemma_concat_contains(prev, last, e);
    } else {
        lemma_row_has_cell(m, y, x0, x - 1, c, e);
        lemma_concat_contains(prev, last, e);
    }
}

/// The edges of row `r` are among the grid's edges when the grid spans it.
proof fn lemma_grid_has_row(m: Map<TileCoord, Seq<u8>>, x0: i32, x1: i32, y0: i32, y: int, r: i32, e: Edge)
    requires
        y0 <= r < y,
        row_edges(m, r, x0, x1 + 1).contains(e),
    ensures
        grid_edges(m, x0, x1, y0, y).contains(e),
    decreases y - y0,
{
    let prev = grid_edges(m, x0, x1, y0, y - 1);
    let last = row_edges(m, (y - 1) as i32, x0, x1 + 1);
    if r == y - 1 {
        lemma_concat_contains(prev, last, e);
    } else {
        lemma_grid_has_row(m, x0, x1, y0, y - 1, r, e);
        lemma_concat_contains(prev, last, e);
    }
}

/// Cell `(x, y)` of the outline of `b` contributes its edges.
proof fn lemma_outline_has_cell(m: Map<TileCoord, Seq<u8>>, b: Seq<i32>, x: i32, y: i32, e: Edge)
    requires
        b.len() == 4,
        b[0] <= x <= b[2],
        b[1] <= y <= b[3],
        cell_edges(m, x, y).contains(e),
    ensures
        outline(m, b).contains(e),
{
    lemma_row_has_cell(m, y, b[0], b[2] + 1, x, e);
    lemma_grid_has_row(m, b[0], b[2], b[1], b[3] + 1, y, e);
}

/// The outline is closed: for every selected pixel (coverage at least 128),
/// each side it shares with an unselected neighbour (left, right, above,
/// below) is an edge of the outline over the mask's tile bounds.
pub proof fn lemma_outline_has_every_boundary_edge(m: Map<TileCoord, Seq<u8>>, b: Seq<i32>, x: i32, y: i32)
    requires
        mask_wf(m),
        tile_bounds_of(mask_pruned(m), b),
        selected(m, x as int, y as int),
    ensures
        x < i32::MAX && y < i32::MAX,
        !selected(m, x - 1, y as int) ==> outline(m, b).contains(([x, y], [x, (y + 1) as i32])),
        !selected(m, x + 1, y as int) ==> outline(m, b).contains(
            ([(x + 1) as i32, y], [(x + 1) as i32, (y + 1) as i32]),
        ),
        !selected(m, x as int, y - 1) ==> outline(m, b).contains(([x, y], [(x + 1) as i32, y])),
        !selected(m, x as int, y + 1) ==> outline(m, b).contains(
            ([x, (y + 1) as i32], [(x + 1) as i32, (y + 1) as i32]),
        ),
{
    let k = coord_of(x as int, y as int);
    let i = cov_index((x as int) % 256, (y as int) % 256);
    assert(m.contains_key(k));
    assert(0 <= (x as int) % 256 < 256 && 0 <= (y as int) % 256 < 256);
    assert(0 <= i < TILE_PX);
    assert(m[k][i] != 0);
    assert(!cov_blank(m[k]));
    assert(mask_pruned(m).contains_key(k));
    assert(k.0 == (x as int) / 256 && k.1 == (y as int) / 256);
    assert(b[0] <= x && x + 1 <= b[2] && b[1] <= y && y + 1 <= b[3]);
    let x1 = (x + 1) as i32;
    let y1 = (y + 1) as i32;
    // Cell (x, y): its left and top edges.
    let here = cell_edges(m, x, y);
    if !selected(m, x - 1, y as int) {
        let e = ([x, y], [x, y1]);
        assert(here[0] == e);
        lemma_outline_has_cell(m, b, x, y, e);
    }
    if !selected(m, x as int, y - 1) {
        let e = ([x, y], [x1, y]);
        let v = if selected(m, x as int, y as int) != selected(m, x - 1, y as int) {
            seq![([x, y], [x, y1])]
        } else {
            Seq::empty()
        };
        assert(here == v + seq![e]);
        assert(here[v.len() as int] == e);
        lemma_outline_has_cell(m, b, x, y, e);
    }
    // Cell (x + 1, y): its left edge is this pixel's right side.
    if !selected(m, x + 1, y as int) {
        let e = ([x1, y], [x1, y1]);
        assert(cell_edges(m, x1, y)[0] == e);
        lemma_outline_has_cell(m, b, x1, y, e);
    }
    // Cell (x, y + 1): its top edge is this pixel's lower side.
    if !selected(m, x as int, y + 1) {
        let e = ([x, y1], [x1, y1]);
        let c = cell_edges(m, x, y1);
        let v = if selected(m, x as int, y1 as int) != selected(m, x - 1, y1 as int) {
            seq![([x, y1], [x, (y1 + 1) as i32])]
        } else {
            Seq::empty()
        };
        assert(c == v + seq![e]);
        assert(c[v.len() as int] == e);
        lemma_outline_has_cell(m, b, x, y1, e);
    }
}

/// The outline of `mask`'s selection at threshold 128, scanning the cells of
/// its tile bounds (and one past them) row by row; nothing when no pixel has
/// coverage. The first tile row and column must leave room for a neighbour in
/// `i32`.
pub fn boundary_segments(mask: &Mask) -> (r: Vec<Edge>)
    requires
        mask.wf(),
        tile_coords_in_range(mask@),
        forall|k: TileCoord| #[trigger] mask@.contains_key(k) ==> k.0 * 256 > i32::MIN && k.1 * 256 > i32::MIN,
    ensures
        mask_pruned(mask@).dom() == Set::<TileCoord>::empty() ==> r@.len() == 0,
        mask_pruned(mask@).dom() != Set::<TileCoord>::empty() ==> exists|b: Seq<i32>|
            tile_bounds_of(mask_pruned(mask@), b) && r@ == outline(mask@, b),
{
    let ghost m = mask@;
    let ghost p = mask_pruned(m);
    let b = match mask.bounds() {
        Some(b) => b,
        None => {
            proof {
                assert(p.dom() =~= Set::<TileCoord>::empty());
            }
            return Vec::new();
        },
    };
    proof {
        let k0 = choose|k: TileCoord| #[trigger] p.contains_key(k) && k.0 * 256 == b@[0];
        let k1 = choose|k: TileCoord| #[trigger] p.contains_key(k) && k.1 * 256 == b@[1];
        let k2 = choose|k: TileCoord| #[trigger] p.contains_key(k) && (k.0 + 1) * 256 == b@[2];
        let k3 = choose|k: TileCoord| #[trigger] p.contains_key(k) && (k.1 + 1) * 256 == b@[3];
        assert(m.contains_key(k0) && m.contains_key(k1) && m.contains_key(k2) && m.contains_key(k3));
        assert(b[0] > i32::MIN && b[1] > i32::MIN);
        assert(b[2] <= i32::MAX - 1 && b[3] <= i32::MAX - 1);
        assert(b[0] <= b[2] && b[1] <= b[3]);
    }
    let mut out: Vec<Edge> = Vec::new();
    let mut y: i32 = b[1];
    while y <= b[3]
        invariant
            mask.wf(),
            m == mask@,
            i32::MIN < b[0] <= b[2] < i32::MAX,
            i32::MIN < b[1] <= b[3] < i32::MAX,
            b[1] <= y <= b[3] + 1,
            out@ == grid_edges(m, b[0], b[2], b[1], y as int),
        decreases b[3] + 1 - y,
    {
        let mut x: i32 = b[0];
        while x <= b[2]
            invariant
                mask.wf(),
                m == mask@,
                i32::MIN < b[0] <= b[2] < i32::MAX,
                i32::MIN < b[1] <= b[3] < i32::MAX,
                b[1] <= y <= b[3],
                b[0] <= x <= b[2] + 1,
                out@ == grid_edges(m, b[0], b[2], b[1], y as int) + row_edges(m, y, b[0], x as int),
            decreases b[2] + 1 - x,
        {
            let here = mask.get(x, y) >= 128;
            let ghost before = out@;
            if here != (mask.get(x - 1, y) >= 128) {
                out.push(([x, y], [x, y + 1]));
            }
            let ghost mid = out@;
            if here != (mask.get(x, y - 1) >= 128) {
                out.push(([x, y], [x + 1, y]));
            }
            proof {
                assert(out@ =~= before + cell_edges(m, x, y));
            }
            x += 1;
        }
        y += 1;
    }
    proof {
        assert(tile_bounds_of(p, b@));
        assert(out@ == outline(m, b@));
        let k = choose|k: TileCoord| #[trigger] p.contains_key(k) && k.0 * 256 == b@[0];
        assert(p.dom().contains(k));
    }
    out
}

} // verus!
