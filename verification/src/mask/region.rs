//! A mask's coverage as one rectangular block of bytes.

use vstd::prelude::*;
use vstd::arithmetic::div_mod::{lemma_fundamental_div_mod, lemma_fundamental_div_mod_converse};
use crate::mask::{cov_content, cov_in_range, mask_px, Mask};
use crate::tile::{exact_extent, TileCoord};

verus! {

/// Coverage of the `w × h` rect at `(x0, y0)`, row-major.
pub open spec fn region_cov(m: Map<TileCoord, Seq<u8>>, x0: int, y0: int, w: int, h: int) -> Seq<u8> {
    Seq::new((w * h) as nat, |i: int| mask_px(m, x0 + i % w, y0 + i / w))
}

/// Coverage that `cov`, the `w × h` rect at `(x0, y0)` row-major, gives
/// document pixel `(px, py)`: its byte inside the rect, 0 outside.
pub open spec fn region_px(x0: int, y0: int, w: int, h: int, cov: Seq<u8>, px: int, py: int) -> u8 {
    if x0 <= px < x0 + w && y0 <= py < y0 + h {
        cov[(py - y0) * w + (px - x0)]
    } else {
        0
    }
}

/// Where flat index `k` of a `w`-wide rect lies: column `k % w`, row `k / w`.
proof fn lemma_flat(k: int, w: int, h: int)
    requires
        0 < w,
        0 <= k < w * h,
    ensures
        0 <= k % w < w,
        0 <= k / w < h,
        (k / w) * w + k % w == k,
{
    lemma_fundamental_div_mod(k, w);
    assert(0 <= k % w < w);
    assert(k == w * (k / w) + k % w);
    assert((k / w) * w == w * (k / w)) by (nonlinear_arith);
    if k / w >= h {
        assert((k / w) * w >= h * w) by (nonlinear_arith)
            requires
                k / w >= h,
                w > 0,
        ;
        assert(h * w == w * h) by (nonlinear_arith);
    }
    if k / w < 0 {
        assert((k / w) * w <= -w) by (nonlinear_arith)
            requires
                k / w < 0,
                w > 0,
        ;
    }
}

/// A rect position's flat index is in range and leads back to it.
proof fn lemma_unflat(px: int, py: int, w: int, h: int)
    requires
        0 <= px < w,
        0 <= py < h,
    ensures
        0 <= py * w + px < w * h,
        (py * w + px) % w == px,
        (py * w + px) / w == py,
{
    lemma_fundamental_div_mod_converse(py * w + px, w, py, px);
    assert(py * w + px < w * h) by (nonlinear_arith)
        requires
            0 <= px < w,
            0 <= py < h,
    ;
    assert(0 <= py * w) by (nonlinear_arith)
        requires
            0 <= py,
            0 < w,
    ;
}

/// Reading back the bytes of a mask's bounding rect gives its coverage at
/// every pixel.
pub proof fn lemma_region_round_trip(m: Map<TileCoord, Seq<u8>>, x0: i32, y0: i32, w: int, h: int)
    requires
        exact_extent(|px: i32, py: i32| cov_content(m, px as int, py as int), seq![x0, y0, (x0 + w) as i32, (y0 + h) as i32]),
        0 <= w,
        0 <= h,
        x0 + w <= i32::MAX,
        y0 + h <= i32::MAX,
    ensures
        forall|px: i32, py: i32|
            #[trigger] region_px(x0 as int, y0 as int, w, h, region_cov(m, x0 as int, y0 as int, w, h), px as int, py as int)
                == mask_px(m, px as int, py as int),
{
    let pred = |px: i32, py: i32| cov_content(m, px as int, py as int);
    let cov = region_cov(m, x0 as int, y0 as int, w, h);
    assert forall|px: i32, py: i32|
        #[trigger] region_px(x0 as int, y0 as int, w, h, cov, px as int, py as int) == mask_px(m, px as int, py as int) by {
        if x0 <= px < x0 + w && y0 <= py < y0 + h {
            lemma_unflat(px - x0, py - y0, w, h);
            let k = (py - y0) * w + (px - x0);
            assert(cov.len() == w * h);
            assert(cov[k] == mask_px(m, x0 + k % w, y0 + k / w));
            assert(x0 + k % w == px);
            assert(y0 + k / w == py);
            assert(region_px(x0 as int, y0 as int, w, h, cov, px as int, py as int) == cov[k]);
        } else {
            if mask_px(m, px as int, py as int) != 0 {
                assert(pred(px, py));
                assert(x0 <= px < ((x0 + w) as i32));
                assert(y0 <= py < ((y0 + h) as i32));
            }
        }
    }
}

impl Mask {
    /// The coverage inside the mask's pixel bounds as `(x0, y0, w, h,
    /// bytes)`, row-major; `None` when nothing is covered.
    pub fn to_region_bytes(&self) -> (r: Option<(i32, i32, u32, u32, Vec<u8>)>)
        requires
            self.wf(),
            cov_in_range(self@),
        ensures
            r is None <==> forall|px: i32, py: i32| !cov_content(self@, px as int, py as int),
            r matches Some((x0, y0, w, h, cov)) ==> {
                &&& x0 + w <= i32::MAX
                &&& y0 + h <= i32::MAX
                &&& exact_extent(
                    |px: i32, py: i32| cov_content(self@, px as int, py as int),
                    seq![x0, y0, (x0 + w) as i32, (y0 + h) as i32],
                )
                &&& cov@ == region_cov(self@, x0 as int, y0 as int, w as int, h as int)
            },
    {
        let b = match self.pixel_bounds() {
            None => return None,
            Some(b) => b,
        };
        let ghost pred = |px: i32, py: i32| cov_content(self@, px as int, py as int);
        proof {
            let px = choose|px: i32, py: i32| #[trigger] pred(px, py) && px == b@[0];
        }
        let x0 = b[0];
        let y0 = b[1];
        let w = (b[2] as i64 - b[0] as i64) as u32;
        let h = (b[3] as i64 - b[1] as i64) as u32;
        let ghost want = region_cov(self@, x0 as int, y0 as int, w as int, h as int);
        proof {
            assert(seq![x0, y0, (x0 + w) as i32, (y0 + h) as i32] =~= b@);
            assert(w as int * h as int <= u64::MAX) by (nonlinear_arith)
                requires
                    w <= u32::MAX,
                    h <= u32::MAX,
            ;
        }
        let n: u64 = w as u64 * h as u64;
        let mut cov: Vec<u8> = Vec::new();
        let mut k: u64 = 0;
        while k < n
            invariant
                k <= n,
                n == w * h,
                0 < w,
                x0 + w <= i32::MAX,
                y0 + h <= i32::MAX,
                self.wf(),
                want == region_cov(self@, x0 as int, y0 as int, w as int, h as int),
                cov@ == want.take(k as int),
            decreases n - k,
        {
            proof {
                lemma_flat(k as int, w as int, h as int);
            }
            let px = (x0 as i64 + (k % w as u64) as i64) as i32;
            let py = (y0 as i64 + (k / w as u64) as i64) as i32;
            let v = self.get(px, py);
            cov.push(v);
            proof {
                assert(want.take(k + 1) =~= want.take(k as int).push(want[k as int]));
            }
            k += 1;
        }
        proof {
            assert(want.take(n as int) =~= want);
        }
        Some((x0, y0, w, h, cov))
    }

    /// A mask holding `cov`, the `w × h` rect at `(x0, y0)` row-major, and
    /// nothing outside it.
    pub fn from_region_bytes(x0: i32, y0: i32, w: u32, h: u32, cov: &[u8]) -> (r: Mask)
        requires
            cov@.len() == w * h,
            x0 + w <= i32::MAX + 1,
            y0 + h <= i32::MAX + 1,
        ensures
            r.wf(),
            forall|px: i32, py: i32|
                #[trigger] mask_px(r@, px as int, py as int) == region_px(
                    x0 as int,
                    y0 as int,
                    w as int,
                    h as int,
                    cov@,
                    px as int,
                    py as int,
                ),
    {
        let mut m = Mask::new();
        let n = cov.len();
        let mut k: usize = 0;
        while k < n
            invariant
                k <= n,
                n == cov@.len(),
                n == w * h,
                x0 + w <= i32::MAX + 1,
                y0 + h <= i32::MAX + 1,
                m.wf(),
                forall|px: i32, py: i32|
                    #[trigger] mask_px(m@, px as int, py as int) == if x0 <= px < x0 + w && y0 <= py < y0 + h && (py - y0)
                        * w + (px - x0) < k {
                        cov@[(py - y0) * w + (px - x0)]
                    } else {
                        0
                    },
            decreases n - k,
        {
            proof {
                assert(0 < w) by {
                    if w == 0 {
                        assert(w * h == 0);
                    }
                }
                lemma_flat(k as int, w as int, h as int);
            }
            let px = (x0 as i64 + (k as u64 % w as u64) as i64) as i32;
            let py = (y0 as i64 + (k as u64 / w as u64) as i64) as i32;
            let ghost before = m@;
            m.set(px, py, cov[k]);
            proof {
                assert forall|qx: i32, qy: i32|
                    #[trigger] mask_px(m@, qx as int, qy as int) == if x0 <= qx < x0 + w && y0 <= qy < y0 + h && (qy
                        - y0) * w + (qx - x0) < k + 1 {
                        cov@[(qy - y0) * w + (qx - x0)]
                    } else {
                        0
                    } by {
                    if x0 <= qx < x0 + w && y0 <= qy < y0 + h {
                        lemma_unflat(qx - x0, qy - y0, w as int, h as int);
                        let j = (qy - y0) * w + (qx - x0);
                        if j == k {
                            assert(qx - x0 == (k as int) % (w as int));
                            assert(qy - y0 == (k as int) / (w as int));
                        }
                        if qx == px && qy == py {
                            assert(j == k);
                        }
                    }
                }
            }
            k += 1;
        }
        proof {
            assert forall|px: i32, py: i32|
                #[trigger] mask_px(m@, px as int, py as int) == region_px(
                    x0 as int,
                    y0 as int,
                    w as int,
                    h as int,
                    cov@,
                    px as int,
                    py as int,
                ) by {
                if x0 <= px < x0 + w && y0 <= py < y0 + h {
                    lemma_unflat(px - x0, py - y0, w as int, h as int);
                }
            }
        }
        m
    }
}

} // verus!
