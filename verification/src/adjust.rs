//! Tile selection for applying adjustments over a layer.

use vstd::prelude::*;
use crate::order::coords_sorted;
use crate::tile::{TileCoord, TileMap};

verus! {

/// Whether tile `k` of a layer drawn at `offset` meets the document rect `b`
/// (`[x0, y0, x1, y1)`), or `b` is absent.
pub open spec fn tile_targeted(k: TileCoord, bounds: Option<Seq<i32>>, offset: Seq<i32>) -> bool {
    match bounds {
        None => true,
        Some(b) => {
            let x0 = k.0 * 256 + offset[0];
            let y0 = k.1 * 256 + offset[1];
            x0 < b[2] && x0 + 256 > b[0] && y0 < b[3] && y0 + 256 > b[1]
        },
    }
}

/// The optional rect as a sequence.
pub open spec fn rect_view(b: Option<[i32; 4]>) -> Option<Seq<i32>> {
    match b {
        Some(r) => Some(r@),
        None => None,
    }
}

/// With bounds given, every stored tile's drawn extent fits `i32`.
pub open spec fn targets_in_range(m: Map<TileCoord, Seq<u8>>, bounds: Option<Seq<i32>>, offset: Seq<i32>) -> bool {
    bounds is Some ==> forall|k: TileCoord|
        #[trigger] m.contains_key(k) ==> i32::MIN <= k.0 * 256 <= i32::MAX && i32::MIN <= k.1 * 256
            <= i32::MAX && i32::MIN <= k.0 * 256 + offset[0] && k.0 * 256 + offset[0] + 256 <= i32::MAX
            && i32::MIN <= k.1 * 256 + offset[1] && k.1 * 256 + offset[1] + 256 <= i32::MAX
}

/// Tiles to apply over: those whose drawn extent intersects `bounds`
/// (document pixels) if given, else all, in increasing coordinate order.
pub fn target_tiles(tiles: &TileMap, bounds: Option<[i32; 4]>, offset: [i32; 2]) -> (r: Vec<(i32, i32)>)
    requires
        targets_in_range(tiles@, rect_view(bounds), offset@),
    ensures
        r@.no_duplicates(),
        coords_sorted(r@),
        forall|k: TileCoord|
            #[trigger] r@.contains(k) <==> tiles@.contains_key(k) && tile_targeted(
                k,
                rect_view(bounds),
                offset@,
            ),
{
    let ghost bv = rect_view(bounds);
    let ks = tiles.coords();
    let mut out: Vec<(i32, i32)> = Vec::new();
    let mut i: usize = 0;
    while i < ks.len()
        invariant
            bv == rect_view(bounds),
            targets_in_range(tiles@, bv, offset@),
            ks@.to_set() == tiles@.dom(),
            ks@.no_duplicates(),
            coords_sorted(ks@),
            i <= ks.len(),
            out@.no_duplicates(),
            coords_sorted(out@),
            forall|j: int| 0 <= j < out@.len() ==> exists|l: int| 0 <= l < i && ks@[l] == #[trigger] out@[j],
            forall|k: TileCoord|
                #[trigger] out@.contains(k) <==> ks@.take(i as int).contains(k) && tile_targeted(k, bv, offset@),
        decreases ks.len() - i,
    {
        let (tx, ty) = ks[i];
        assert(ks@.to_set().contains(ks@[i as int]));
        let hit = match bounds {
            None => true,
            Some(b) => {
                let x0 = tx * 256 + offset[0];
                let y0 = ty * 256 + offset[1];
                x0 < b[2] && x0 + 256 > b[0] && y0 < b[3] && y0 + 256 > b[1]
            },
        };
        let ghost pa = ks@.take(i as int);
        let ghost pb = ks@.take(i + 1);
        let ghost before = out@;
        proof {
            assert(pb =~= pa.push((tx, ty)));
            assert forall|k: TileCoord| #[trigger] pb.contains(k) == (pa.contains(k) || k == (tx, ty)) by {
                if pb.contains(k) && k != (tx, ty) {
                    let j = choose|j: int| 0 <= j < pb.len() && pb[j] == k;
                    assert(pa[j] == k);
                }
                if pa.contains(k) {
                    let j = choose|j: int| 0 <= j < pa.len() && pa[j] == k;
                    assert(pb[j] == k);
                }
                if k == (tx, ty) {
                    assert(pb[i as int] == k);
                }
            }
        }
        if hit {
            out.push((tx, ty));
            proof {
                assert forall|j: int| 0 <= j < before.len() implies crate::order::coord_lt(#[trigger] before[j], (tx, ty)) by {
                    let l = choose|l: int| 0 <= l < i && ks@[l] == before[j];
                    assert(crate::order::coord_lt(ks@[l], ks@[i as int]));
                }
                assert forall|k: TileCoord| #[trigger] out@.contains(k) == (before.contains(k) || k == (tx, ty)) by {
                    if out@.contains(k) && k != (tx, ty) {
                        let j = choose|j: int| 0 <= j < out@.len() && out@[j] == k;
                        assert(before[j] == k);
                    }
                    if before.contains(k) {
                        let j = choose|j: int| 0 <= j < before.len() && before[j] == k;
                        assert(out@[j] == k);
                    }
                    if k == (tx, ty) {
                        assert(out@[before.len() as int] == k);
                    }
                }
                assert forall|j: int| 0 <= j < out@.len() implies exists|l: int| 0 <= l < i + 1 && ks@[l] == #[trigger] out@[j] by {
                    if j == before.len() {
                        assert(ks@[i as int] == out@[j]);
                    } else {
                        assert(out@[j] == before[j]);
                    }
                }
            }
        }
        i += 1;
    }
    proof {
        assert(ks@.take(ks.len() as int) =~= ks@);
        assert forall|k: TileCoord| #[trigger] ks@.contains(k) == tiles@.contains_key(k) by {
            assert(ks@.to_set().contains(k) == tiles@.dom().contains(k));
        }
    }
    out
}

} // verus!
