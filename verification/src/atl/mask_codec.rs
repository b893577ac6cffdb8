//! The bytes of a layer-mask part: a little-endian header `x0, y0, w, h`
//! (32 bits each) and the coverage of that rect row-major, lz4-compressed.

use vstd::prelude::*;
use crate::atl::{compress_block, decompress_block, lz4_block, lz4_unblock};
use crate::mask::region::{region_cov, region_px};
use crate::mask::{cov_content, cov_in_range, mask_px, Mask};
use crate::tile::{exact_extent, TileCoord};

verus! {

/// The four little-endian bytes of `v`.
pub open spec fn le_bytes(v: u32) -> Seq<u8> {
    seq![(v % 256) as u8, ((v / 256) % 256) as u8, ((v / 65536) % 256) as u8, (v / 16777216) as u8]
}

/// The `u32` of four little-endian bytes.
pub open spec fn le_u32(b: Seq<u8>) -> u32 {
    (b[0] + 256 * b[1] + 65536 * b[2] + 16777216 * b[3]) as u32
}

/// A mask part before compression: header, then coverage.
pub open spec fn mask_part_raw(x0: i32, y0: i32, w: u32, h: u32, cov: Seq<u8>) -> Seq<u8> {
    le_bytes(x0 as u32) + le_bytes(y0 as u32) + le_bytes(w) + le_bytes(h) + cov
}

/// The stored bytes of a mask part for the rect `(x0, y0, w, h)` of `m`.
pub open spec fn mask_part_of(m: Map<TileCoord, Seq<u8>>, x0: i32, y0: i32, w: u32, h: u32) -> Seq<u8> {
    lz4_block(mask_part_raw(x0, y0, w, h, region_cov(m, x0 as int, y0 as int, w as int, h as int)))
}

/// The header fields of raw mask-part bytes.
pub open spec fn header_of(raw: Seq<u8>) -> (i32, i32, u32, u32) {
    (
        le_u32(raw.subrange(0, 4)) as i32,
        le_u32(raw.subrange(4, 8)) as i32,
        le_u32(raw.subrange(8, 12)),
        le_u32(raw.subrange(12, 16)),
    )
}

/// Raw bytes read as a mask part: the header present, the coverage exactly
/// `w · h` bytes, and the rect inside `i32` coordinates.
pub open spec fn raw_ok(raw: Seq<u8>) -> bool {
    let (x0, y0, w, h) = header_of(raw);
    &&& raw.len() >= 16
    &&& raw.len() - 16 == w * h
    &&& x0 + w <= i32::MAX + 1
    &&& y0 + h <= i32::MAX + 1
}

/// Little-endian bytes read back as the value written.
proof fn lemma_le(v: u32)
    ensures
        le_u32(le_bytes(v)) == v,
        le_bytes(v).len() == 4,
{
    assert(le_bytes(v)[0] + 256 * le_bytes(v)[1] + 65536 * le_bytes(v)[2] + 16777216 * le_bytes(v)[3] == v) by (
    bit_vector);
}

/// A signed value survives the trip through its bit pattern.
proof fn lemma_i32_bits(x: i32)
    ensures
        (x as u32) as i32 == x,
{
    assert((x as u32) as i32 == x) by (bit_vector);
}

/// The little-endian bytes of `v`.
fn push_le(out: &mut Vec<u8>, v: u32)
    ensures
        final(out)@ == old(out)@ + le_bytes(v),
{
    out.push((v % 256) as u8);
    out.push(((v / 256) % 256) as u8);
    out.push(((v / 65536) % 256) as u8);
    out.push((v / 16777216) as u8);
    assert(final(out)@ =~= old(out)@ + le_bytes(v));
}

/// The `u32` of the four bytes at `at`.
fn read_le(b: &[u8], at: usize) -> (r: u32)
    requires
        at + 4 <= b@.len(),
    ensures
        r == le_u32(b@.subrange(at as int, at + 4)),
{
    b[at] as u32 + 256 * b[at + 1] as u32 + 65536 * b[at + 2] as u32 + 16777216 * b[at + 3] as u32
}

/// The stored bytes of a layer-mask part: the coverage inside the mask's
/// pixel bounds with its rect as header, lz4-compressed; `None` when
/// nothing is covered (no part is written).
pub fn encode_mask_part(mask: &Mask) -> (r: Option<Vec<u8>>)
    requires
        mask.wf(),
        cov_in_range(mask@),
    ensures
        r is None <==> forall|px: i32, py: i32| !cov_content(mask@, px as int, py as int),
        r matches Some(v) ==> exists|x0: i32, y0: i32, w: u32, h: u32|
            {
                &&& x0 + w <= i32::MAX
                &&& y0 + h <= i32::MAX
                &&& exact_extent(
                    |px: i32, py: i32| cov_content(mask@, px as int, py as int),
                    seq![x0, y0, (x0 + w) as i32, (y0 + h) as i32],
                )
                &&& v@ == #[trigger] mask_part_of(mask@, x0, y0, w, h)
            },
{
    match mask.to_region_bytes() {
        None => None,
        Some((x0, y0, w, h, cov)) => {
            let mut raw: Vec<u8> = Vec::new();
            push_le(&mut raw, x0 as u32);
            push_le(&mut raw, y0 as u32);
            push_le(&mut raw, w);
            push_le(&mut raw, h);
            let mut k: usize = 0;
            let ghost head = raw@;
            while k < cov.len()
                invariant
                    k <= cov@.len(),
                    raw@ == head + cov@.take(k as int),
                decreases cov@.len() - k,
            {
                raw.push(cov[k]);
                proof {
                    assert(cov@.take(k + 1) =~= cov@.take(k as int).push(cov@[k as int]));
                }
                k += 1;
            }
            proof {
                assert(cov@.take(cov@.len() as int) =~= cov@);
                assert(raw@ =~= mask_part_raw(x0, y0, w, h, cov@));
            }
            let v = compress_block(raw.as_slice());
            proof {
                assert(v@ == mask_part_of(mask@, x0, y0, w, h));
            }
            Some(v)
        },
    }
}

/// Read a layer-mask part's stored bytes back into a mask; `None` when they
/// do not decompress, or the header is missing, or the coverage is not
/// exactly `w · h` bytes, or the rect leaves `i32` coordinates. Bytes
/// written for a rect read back as that rect's coverage.
pub fn decode_mask_part(bytes: &[u8]) -> (r: Option<Mask>)
    ensures
        match r {
            Some(mk) => lz4_unblock(bytes@) matches Some(raw) && raw_ok(raw) && mk.wf() && ({
                let (x0, y0, w, h) = header_of(raw);
                forall|px: i32, py: i32|
                    #[trigger] mask_px(mk@, px as int, py as int) == region_px(
                        x0 as int,
                        y0 as int,
                        w as int,
                        h as int,
                        raw.skip(16),
                        px as int,
                        py as int,
                    )
            }),
            None => !(lz4_unblock(bytes@) matches Some(raw) && raw_ok(raw)),
        },
        forall|x0: i32, y0: i32, w: u32, h: u32, cov: Seq<u8>|
            cov.len() == w * h && x0 + w <= i32::MAX + 1 && y0 + h <= i32::MAX + 1 && 16 + cov.len() <= u32::MAX
                && bytes@ == #[trigger] lz4_block(mask_part_raw(x0, y0, w, h, cov)) ==> (r matches Some(mk) && forall|
                px: i32,
                py: i32,
            | #[trigger] mask_px(mk@, px as int, py as int) == region_px(
                x0 as int,
                y0 as int,
                w as int,
                h as int,
                cov,
                px as int,
                py as int,
            )),
{
    proof {
        assert forall|x0: i32, y0: i32, w: u32, h: u32, cov: Seq<u8>|
            #![trigger mask_part_raw(x0, y0, w, h, cov)]
            cov.len() == w * h implies header_of(mask_part_raw(x0, y0, w, h, cov)) == (x0, y0, w, h) && mask_part_raw(
            x0,
            y0,
            w,
            h,
            cov,
        ).skip(16) == cov && mask_part_raw(x0, y0, w, h, cov).len() == 16 + cov.len() by {
            let raw = mask_part_raw(x0, y0, w, h, cov);
            lemma_le(x0 as u32);
            lemma_le(y0 as u32);
            lemma_le(w);
            lemma_le(h);
            lemma_i32_bits(x0);
            lemma_i32_bits(y0);
            assert(raw.subrange(0, 4) =~= le_bytes(x0 as u32));
            assert(raw.subrange(4, 8) =~= le_bytes(y0 as u32));
            assert(raw.subrange(8, 12) =~= le_bytes(w));
            assert(raw.subrange(12, 16) =~= le_bytes(h));
            assert(raw.skip(16) =~= cov);
        }
    }
    let raw = match decompress_block(bytes) {
        Some(v) => v,
        None => return None,
    };
    if raw.len() < 16 {
        return None;
    }
    let x0 = read_le(raw.as_slice(), 0) as i32;
    let y0 = read_le(raw.as_slice(), 4) as i32;
    let w = read_le(raw.as_slice(), 8);
    let h = read_le(raw.as_slice(), 12);
    proof {
        assert(header_of(raw@) == (x0, y0, w, h));
    }
    let n = raw.len() - 16;
    proof {
        assert(w as int * h as int <= u64::MAX) by (nonlinear_arith)
            requires
                w <= u32::MAX,
                h <= u32::MAX,
        ;
    }
    if (n as u64) != (w as u64) * (h as u64) {
        return None;
    }
    if x0 as i64 + w as i64 > i32::MAX as i64 + 1 || y0 as i64 + h as i64 > i32::MAX as i64 + 1 {
        return None;
    }
    let mut cov: Vec<u8> = Vec::new();
    let mut k: usize = 16;
    while k < raw.len()
        invariant
            16 <= k <= raw@.len(),
            cov@ == raw@.subrange(16, k as int),
        decreases raw@.len() - k,
    {
        cov.push(raw[k]);
        proof {
            assert(raw@.subrange(16, k + 1) =~= raw@.subrange(16, k as int).push(raw@[k as int]));
        }
        k += 1;
    }
    proof {
        assert(raw@.subrange(16, raw@.len() as int) =~= raw@.skip(16));
    }
    Some(Mask::from_region_bytes(x0, y0, w, h, cov.as_slice()))
}

} // verus!
