//! The `.atl` container format: a schema-versioned JSON header part plus
//! lz4-compressed binary tile parts named `tiles/<key>/<tx>_<ty>.bin` and
//! layer-mask parts named `masks/<key>.bin`, where a key is the dotted chain
//! of node ids through nested smart objects. Reading and writing the zip
//! container and the JSON is left to the caller; this module decides what
//! part names and part bytes mean.

use vstd::prelude::*;
use vstd::string::StringSliceAdditionalSpecFns;
use crate::tile::{Tile, TileCoord, TILE_BYTES};

pub mod mask_codec;

verus! {

/// The newest schema version this library reads and writes.
pub const SCHEMA_VERSION: u32 = 3;

/// Why a container cannot be read.
#[derive(Debug, Clone, PartialEq, Eq)]
pub enum AtlError {
    /// The file uses a newer schema than this library reads.
    VersionTooNew(u32),
    /// A tile or mask part has a malformed name or contents.
    BadTilePart(String),
}

/// Accept a container's schema version: anything up to `SCHEMA_VERSION`.
pub fn check_schema(version: u32) -> (r: Result<(), AtlError>)
    ensures
        version <= SCHEMA_VERSION ==> r is Ok,
        version > SCHEMA_VERSION ==> r == Err::<(), AtlError>(AtlError::VersionTooNew(version)),
{
    if version > SCHEMA_VERSION {
        Err(AtlError::VersionTooNew(version))
    } else {
        Ok(())
    }
}

/// An ASCII decimal digit.
pub open spec fn is_digit(b: u8) -> bool {
    48 <= b <= 57
}

/// Every byte is a digit.
pub open spec fn all_digits(s: Seq<u8>) -> bool {
    forall|i: int| 0 <= i < s.len() ==> is_digit(#[trigger] s[i])
}

/// The value of a digit string, most significant first.
pub open spec fn digits_value(s: Seq<u8>) -> nat
    decreases s.len(),
{
    if s.len() == 0 {
        0
    } else {
        digits_value(s.drop_last()) * 10 + (s.last() - 48) as nat
    }
}

/// What std's `str::parse::<u64>` accepts: an optional `+`, then one or more
/// digits whose value fits.
pub open spec fn parsed_u64(s: Seq<u8>) -> Option<u64> {
    let d = if s.len() > 0 && s[0] == 43 { s.skip(1) } else { s };
    if d.len() > 0 && all_digits(d) && digits_value(d) <= u64::MAX {
        Some(digits_value(d) as u64)
    } else {
        None
    }
}

/// What std's `str::parse::<i32>` accepts: an optional `+` or `-`, then one
/// or more digits whose signed value fits.
pub open spec fn parsed_i32(s: Seq<u8>) -> Option<i32> {
    if s.len() > 0 && s[0] == 45 {
        let d = s.skip(1);
        if d.len() > 0 && all_digits(d) && digits_value(d) <= 0x8000_0000 {
            Some((-(digits_value(d) as int)) as i32)
        } else {
            None
        }
    } else {
        let d = if s.len() > 0 && s[0] == 43 { s.skip(1) } else { s };
        if d.len() > 0 && all_digits(d) && digits_value(d) <= i32::MAX {
            Some(digits_value(d) as i32)
        } else {
            None
        }
    }
}

/// A digit string's value is at least that of any of its prefixes.
proof fn lemma_digits_grow(s: Seq<u8>, k: int)
    requires
        0 <= k <= s.len(),
    ensures
        digits_value(s.take(k)) <= digits_value(s),
    decreases s.len(),
{
    if k < s.len() {
        lemma_digits_grow(s.drop_last(), k);
        assert(s.drop_last().take(k) =~= s.take(k));
    } else {
        assert(s.take(k) =~= s);
    }
}

/// Value of the digits `s[from..to]`, stopping early (`None`) once it would
/// exceed `limit`.
fn digits_upto(s: &[u8], from: usize, to: usize, limit: u64) -> (r: Option<u64>)
    requires
        from <= to <= s@.len(),
        limit >= 9,
    ensures
        match r {
            Some(v) => all_digits(s@.subrange(from as int, to as int)) && v == digits_value(s@.subrange(from as int, to as int))
                && v <= limit,
            None => !all_digits(s@.subrange(from as int, to as int)) || digits_value(s@.subrange(from as int, to as int))
                > limit,
        },
{
    let ghost full = s@.subrange(from as int, to as int);
    let mut v: u64 = 0;
    let mut i = from;
    while i < to
        invariant
            from <= i <= to <= s@.len(),
            full == s@.subrange(from as int, to as int),
            limit >= 9,
            all_digits(s@.subrange(from as int, i as int)),
            v == digits_value(s@.subrange(from as int, i as int)),
            v <= limit,
        decreases to - i,
    {
        let b = s[i];
        let ghost pre = s@.subrange(from as int, i as int);
        let ghost next = s@.subrange(from as int, i + 1);
        proof {
            assert(next.drop_last() =~= pre);
            assert(next.last() == b);
            assert(full.take((i + 1 - from) as int) =~= next);
            assert(full[(i - from) as int] == b);
        }
        if b < 48 || b > 57 {
            return None;
        }
        let d = (b - 48) as u64;
        if v > (limit - d) / 10 {
            proof {
                assert(digits_value(next) == v * 10 + d);
                assert(v * 10 + d > limit);
                lemma_digits_grow(full, (i + 1 - from) as int);
            }
            return None;
        }
        v = v * 10 + d;
        i += 1;
        proof {
            assert(digits_value(next) == digits_value(pre) * 10 + d);
            assert forall|j: int| 0 <= j < next.len() implies is_digit(#[trigger] next[j]) by {
                if j < pre.len() {
                    assert(next[j] == pre[j]);
                }
            }
        }
    }
    Some(v)
}

/// `s[from..to]` read as std reads a `u64`.
pub fn parse_u64(s: &[u8], from: usize, to: usize) -> (r: Option<u64>)
    requires
        from <= to <= s@.len(),
    ensures
        r == parsed_u64(s@.subrange(from as int, to as int)),
{
    let ghost seg = s@.subrange(from as int, to as int);
    let start = if from < to && s[from] == 43 {
        from + 1
    } else {
        from
    };
    proof {
        if from < to && s@[from as int] == 43 {
            assert(seg.skip(1) =~= s@.subrange(start as int, to as int));
        } else {
            assert(seg =~= s@.subrange(start as int, to as int));
        }
    }
    if start == to {
        return None;
    }
    match digits_upto(s, start, to, u64::MAX) {
        Some(v) => Some(v),
        None => None,
    }
}

/// `s[from..to]` read as std reads an `i32`.
pub fn parse_i32(s: &[u8], from: usize, to: usize) -> (r: Option<i32>)
    requires
        from <= to <= s@.len(),
    ensures
        r == parsed_i32(s@.subrange(from as int, to as int)),
{
    let ghost seg = s@.subrange(from as int, to as int);
    if from < to && s[from] == 45 {
        proof {
            assert(seg.skip(1) =~= s@.subrange(from + 1, to as int));
        }
        if from + 1 == to {
            return None;
        }
        match digits_upto(s, from + 1, to, 0x8000_0000) {
            Some(v) => Some((0 - (v as i64)) as i32),
            None => None,
        }
    } else {
        let start = if from < to && s[from] == 43 {
            from + 1
        } else {
            from
        };
        proof {
            if from < to && s@[from as int] == 43 {
                assert(seg.skip(1) =~= s@.subrange(start as int, to as int));
            } else {
                assert(seg =~= s@.subrange(start as int, to as int));
            }
        }
        if start == to {
            return None;
        }
        match digits_upto(s, start, to, 0x7fff_ffff) {
            Some(v) => Some(v as i32),
            None => None,
        }
    }
}

/// Ids of a dotted chain, read from the front: `cur` is the segment read so
/// far; `None` when a segment is not a `u64`.
pub open spec fn chain_from(s: Seq<u8>, cur: Seq<u8>) -> Option<Seq<u64>>
    decreases s.len(),
{
    if s.len() == 0 {
        match parsed_u64(cur) {
            Some(v) => Some(seq![v]),
            None => None,
        }
    } else if s[0] == 46 {
        match parsed_u64(cur) {
            Some(v) => match chain_from(s.skip(1), Seq::empty()) {
                Some(rest) => Some(seq![v] + rest),
                None => None,
            },
            None => None,
        }
    } else {
        chain_from(s.skip(1), cur.push(s[0]))
    }
}

/// Ids of a dotted node-id chain such as `3.1`: every `.`-separated segment
/// read as a `u64`.
pub open spec fn parsed_chain(s: Seq<u8>) -> Option<Seq<u64>> {
    chain_from(s, Seq::empty())
}

/// Parse the dotted chain `s[from..to]`.
fn parse_chain_bytes(s: &[u8], from: usize, to: usize) -> (r: Option<Vec<u64>>)
    requires
        from <= to <= s@.len(),
    ensures
        match r {
            Some(v) => parsed_chain(s@.subrange(from as int, to as int)) == Some(v@),
            None => parsed_chain(s@.subrange(from as int, to as int)) is None,
        },
{
    let ghost whole = s@.subrange(from as int, to as int);
    let mut out: Vec<u64> = Vec::new();
    let mut st = from;
    let mut i = from;
    proof {
        assert(s@.subrange(from as int, from as int) =~= Seq::<u8>::empty());
        match chain_from(whole, Seq::empty()) {
            Some(r) => {
                assert(out@ + r =~= r);
            },
            None => {},
        }
    }
    while i < to
        invariant
            from <= st <= i <= to <= s@.len(),
            whole == s@.subrange(from as int, to as int),
            parsed_chain(whole) == match chain_from(s@.subrange(i as int, to as int), s@.subrange(st as int, i as int)) {
                Some(r) => Some(out@ + r),
                None => None::<Seq<u64>>,
            },
        decreases to - i,
    {
        let ghost rest = s@.subrange(i as int, to as int);
        let ghost cur = s@.subrange(st as int, i as int);
        proof {
            assert(rest[0] == s@[i as int]);
            assert(rest.skip(1) =~= s@.subrange(i + 1, to as int));
        }
        if s[i] == 46 {
            match parse_u64(s, st, i) {
                Some(v) => {
                    proof {
                        assert(s@.subrange(i + 1, i + 1) =~= Seq::<u8>::empty());
                        match chain_from(s@.subrange(i + 1, to as int), Seq::empty()) {
                            Some(r) => {
                                assert(out@.push(v) + r =~= out@ + (seq![v] + r));
                            },
                            None => {},
                        }
                    }
                    out.push(v);
                    st = i + 1;
                },
                None => {
                    return None;
                },
            }
        } else {
            proof {
                assert(cur.push(s@[i as int]) =~= s@.subrange(st as int, i + 1));
            }
        }
        i += 1;
    }
    proof {
        assert(s@.subrange(to as int, to as int) =~= Seq::<u8>::empty());
    }
    match parse_u64(s, st, to) {
        Some(v) => {
            proof {
                assert(out@.push(v) =~= out@ + seq![v]);
            }
            out.push(v);
            Some(out)
        },
        None => None,
    }
}

/// Parse a dotted node-id chain such as `"3.1"` into ids; `None` when any
/// segment is empty or not a `u64`.
pub fn parse_chain(s: &str) -> (r: Option<Vec<u64>>)
    ensures
        match r {
            Some(v) => parsed_chain(s.spec_bytes()) == Some(v@),
            None => parsed_chain(s.spec_bytes()) is None,
        },
{
    let b = s.as_bytes();
    proof {
        assert(b@.subrange(0, b@.len() as int) =~= b@);
    }
    parse_chain_bytes(b, 0, b.len())
}

/// Index of the first `b` in `s`, or its length when there is none.
pub open spec fn first_of(s: Seq<u8>, b: u8) -> int
    decreases s.len(),
{
    if s.len() == 0 {
        0
    } else if s[0] == b {
        0
    } else {
        1 + first_of(s.skip(1), b)
    }
}

/// `k` is the first index of `b` in `s` (or its length).
proof fn lemma_first_of(s: Seq<u8>, b: u8, k: int)
    requires
        0 <= k <= s.len(),
        forall|j: int| 0 <= j < k ==> s[j] != b,
        k == s.len() || s[k] == b,
    ensures
        first_of(s, b) == k,
    decreases k,
{
    if k > 0 {
        let t = s.skip(1);
        assert forall|j: int| 0 <= j < k - 1 implies t[j] != b by {
            assert(t[j] == s[j + 1]);
        }
        if k < s.len() {
            assert(t[k - 1] == s[k]);
        }
        lemma_first_of(t, b, k - 1);
    }
}

/// Position of the first `b` in `s[from..to]`, or `to`.
fn find_byte(s: &[u8], from: usize, to: usize, b: u8) -> (r: usize)
    requires
        from <= to <= s@.len(),
    ensures
        from <= r <= to,
        r - from == first_of(s@.subrange(from as int, to as int), b),
{
    let mut i = from;
    while i < to && s[i] != b
        invariant
            from <= i <= to <= s@.len(),
            forall|j: int| from <= j < i ==> s@[j] != b,
        decreases to - i,
    {
        i += 1;
    }
    proof {
        let seg = s@.subrange(from as int, to as int);
        assert forall|j: int| 0 <= j < i - from implies seg[j] != b by {
            assert(seg[j] == s@[from + j]);
        }
        if i < to {
            assert(seg[i - from] == s@[i as int]);
        }
        lemma_first_of(seg, b, i - from);
    }
    i
}

/// `tiles/`.
pub open spec fn tiles_prefix() -> Seq<u8> {
    seq![116u8, 105, 108, 101, 115, 47]
}

/// `masks/`.
pub open spec fn masks_prefix() -> Seq<u8> {
    seq![109u8, 97, 115, 107, 115, 47]
}

/// `.bin`.
pub open spec fn bin_suffix() -> Seq<u8> {
    seq![46u8, 98, 105, 110]
}

/// What a part name says of a tile part: `None` when the name is not under
/// `tiles/`; `Some(None)` when it is malformed; else the node-id chain and
/// tile coordinates of `tiles/<chain>/<tx>_<ty>.bin`.
pub open spec fn tile_part_spec(n: Seq<u8>) -> Option<Option<(Seq<u64>, i32, i32)>> {
    if n.len() >= 6 && n.take(6) == tiles_prefix() {
        let rest = n.skip(6);
        let k = first_of(rest, 47);
        if k >= rest.len() {
            Some(None)
        } else {
            let key = rest.take(k);
            let coords = rest.skip(k + 1);
            if coords.len() >= 4 && coords.skip(coords.len() - 4) == bin_suffix() {
                let body = coords.take(coords.len() - 4);
                let u = first_of(body, 95);
                if u >= body.len() {
                    Some(None)
                } else {
                    match (parsed_chain(key), parsed_i32(body.take(u)), parsed_i32(body.skip(u + 1))) {
                        (Some(c), Some(x), Some(y)) => Some(Some((c, x, y))),
                        _ => Some(None),
                    }
                }
            } else {
                Some(None)
            }
        }
    } else {
        None
    }
}

/// What a part name says of a mask part: `None` when the name is not under
/// `masks/`; `Some(None)` when it is malformed; else the node-id chain of
/// `masks/<chain>.bin`.
pub open spec fn mask_part_spec(n: Seq<u8>) -> Option<Option<Seq<u64>>> {
    if n.len() >= 6 && n.take(6) == masks_prefix() {
        let rest = n.skip(6);
        if rest.len() >= 4 && rest.skip(rest.len() - 4) == bin_suffix() {
            Some(parsed_chain(rest.take(rest.len() - 4)))
        } else {
            Some(None)
        }
    } else {
        None
    }
}

/// `s[at..at + p.len()]` equals `p`.
fn bytes_at(s: &[u8], at: usize, p: &[u8]) -> (r: bool)
    requires
        at <= s@.len(),
    ensures
        r == (at + p@.len() <= s@.len() && s@.subrange(at as int, at + p@.len()) == p@),
{
    let sl = s.len();
    if sl - at < p.len() {
        return false;
    }
    let mut i: usize = 0;
    while i < p.len()
        invariant
            sl == s@.len(),
            at + p@.len() <= sl,
            i <= p@.len(),
            forall|j: int| 0 <= j < i ==> s@[at + j] == p@[j],
        decreases p@.len() - i,
    {
        if s[at + i] != p[i] {
            proof {
                assert(s@.subrange(at as int, at + p@.len())[i as int] != p@[i as int]);
            }
            return false;
        }
        i += 1;
    }
    proof {
        assert(s@.subrange(at as int, at + p@.len()) =~= p@);
    }
    true
}

/// Read a container part name as a tile part: `None` when it is not under
/// `tiles/`, `Some(None)` when malformed, else its node-id chain and tile
/// coordinates.
pub fn tile_part(name: &str) -> (r: Option<Option<(Vec<u64>, i32, i32)>>)
    ensures
        match r {
            None => tile_part_spec(name.spec_bytes()) is None,
            Some(None) => tile_part_spec(name.spec_bytes()) == Some(None::<(Seq<u64>, i32, i32)>),
            Some(Some((c, x, y))) => tile_part_spec(name.spec_bytes()) == Some(Some((c@, x, y))),
        },
{
    let n = name.as_bytes();
    let ghost ns = n@;
    let prefix: [u8; 6] = [116, 105, 108, 101, 115, 47];
    let suffix: [u8; 4] = [46, 98, 105, 110];
    proof {
        assert(prefix@ =~= tiles_prefix());
        assert(suffix@ =~= bin_suffix());
    }
    if !bytes_at(n, 0, &prefix) {
        proof {
            if ns.len() >= 6 {
                assert(ns.subrange(0, 6) =~= ns.take(6));
            }
        }
        return None;
    }
    let len = n.len();
    let ghost rest = ns.skip(6);
    proof {
        assert(ns.subrange(0, 6) =~= ns.take(6));
        assert(ns.subrange(6, len as int) =~= rest);
    }
    let slash = find_byte(n, 6, len, 47);
    if slash >= len {
        return Some(None);
    }
    let ghost k = slash - 6;
    let ghost coords = rest.skip(k + 1);
    proof {
        assert(rest.take(k) =~= ns.subrange(6, slash as int));
        assert(coords =~= ns.subrange(slash + 1, len as int));
    }
    if len - (slash + 1) < 4 || !bytes_at(n, len - 4, &suffix) {
        proof {
            if coords.len() >= 4 {
                assert(coords.skip(coords.len() - 4) =~= ns.subrange(len - 4, len as int));
            }
        }
        return Some(None);
    }
    let body_end = len - 4;
    let ghost body = coords.take(coords.len() - 4);
    proof {
        assert(coords.skip(coords.len() - 4) =~= ns.subrange(len - 4, len as int));
        assert(body =~= ns.subrange(slash + 1, body_end as int));
    }
    let us = find_byte(n, slash + 1, body_end, 95);
    if us >= body_end {
        return Some(None);
    }
    proof {
        let u = us - (slash + 1);
        assert(body.take(u) =~= ns.subrange(slash + 1, us as int));
        assert(body.skip(u + 1) =~= ns.subrange(us + 1, body_end as int));
    }
    let chain = parse_chain_bytes(n, 6, slash);
    let tx = parse_i32(n, slash + 1, us);
    let ty = parse_i32(n, us + 1, body_end);
    match (chain, tx, ty) {
        (Some(c), Some(x), Some(y)) => Some(Some((c, x, y))),
        _ => Some(None),
    }
}

/// Read a container part name as a mask part: `None` when it is not under
/// `masks/`, `Some(None)` when malformed, else its node-id chain.
pub fn mask_part(name: &str) -> (r: Option<Option<Vec<u64>>>)
    ensures
        match r {
            None => mask_part_spec(name.spec_bytes()) is None,
            Some(None) => mask_part_spec(name.spec_bytes()) == Some(None::<Seq<u64>>),
            Some(Some(c)) => mask_part_spec(name.spec_bytes()) == Some(Some(c@)),
        },
{
    let n = name.as_bytes();
    let ghost ns = n@;
    let prefix: [u8; 6] = [109, 97, 115, 107, 115, 47];
    let suffix: [u8; 4] = [46, 98, 105, 110];
    proof {
        assert(prefix@ =~= masks_prefix());
        assert(suffix@ =~= bin_suffix());
    }
    if !bytes_at(n, 0, &prefix) {
        proof {
            if ns.len() >= 6 {
                assert(ns.subrange(0, 6) =~= ns.take(6));
            }
        }
        return None;
    }
    let len = n.len();
    let ghost rest = ns.skip(6);
    proof {
        assert(ns.subrange(0, 6) =~= ns.take(6));
        assert(ns.subrange(6, len as int) =~= rest);
    }
    if len - 6 < 4 || !bytes_at(n, len - 4, &suffix) {
        proof {
            if rest.len() >= 4 {
                assert(rest.skip(rest.len() - 4) =~= ns.subrange(len - 4, len as int));
            }
        }
        return Some(None);
    }
    proof {
        assert(rest.skip(rest.len() - 4) =~= ns.subrange(len - 4, len as int));
        assert(rest.take(rest.len() - 4) =~= ns.subrange(6, len - 4));
    }
    match parse_chain_bytes(n, 6, len - 4) {
        Some(c) => Some(Some(c)),
        None => Some(None),
    }
}

/// The bytes `lz4_flex` writes for `input`: its length as a little-endian
/// `u32`, then the lz4 block.
pub uninterp spec fn lz4_block(input: Seq<u8>) -> Seq<u8>;

/// What `lz4_flex` reads back from size-prefixed block bytes; `None` when they
/// are not such a block.
pub uninterp spec fn lz4_unblock(input: Seq<u8>) -> Option<Seq<u8>>;

/// `lz4_flex::compress_prepend_size`.
#[verifier::external_body]
fn compress_block(input: &[u8]) -> (r: Vec<u8>)
    ensures
        r@ == lz4_block(input@),
{
    lz4_flex::compress_prepend_size(input)
}

/// `lz4_flex::decompress_size_prepended`, the inverse its documentation pairs
/// with `compress_prepend_size`: bytes that function wrote for an input whose
/// length fits the `u32` prefix decompress to that input.
#[verifier::external_body]
fn decompress_block(input: &[u8]) -> (r: Option<Vec<u8>>)
    ensures
        match r {
            Some(v) => lz4_unblock(input@) == Some(v@),
            None => lz4_unblock(input@) is None,
        },
        forall|x: Seq<u8>| x.len() <= u32::MAX && input@ == #[trigger] lz4_block(x) ==> r is Some && r.unwrap()@ == x,
{
    match lz4_flex::decompress_size_prepended(input) {
        Ok(v) => Some(v),
        Err(_) => None,
    }
}

/// The stored bytes of a tile part: the tile's pixels, lz4-compressed.
pub fn encode_tile_part(tile: &Tile) -> (r: Vec<u8>)
    ensures
        r@ == lz4_block(tile@),
{
    compress_block(tile.bytes())
}

/// Read a tile part's stored bytes back into a tile; `None` when they do not
/// decompress to exactly one tile's bytes. Bytes written by
/// `encode_tile_part` read back as the tile written.
pub fn decode_tile_part(bytes: &[u8]) -> (r: Option<Tile>)
    ensures
        match r {
            Some(t) => t.wf() && lz4_unblock(bytes@) == Some(t@),
            None => !(lz4_unblock(bytes@) matches Some(v) && v.len() == TILE_BYTES),
        },
        forall|t: Seq<u8>| t.len() == TILE_BYTES && bytes@ == #[trigger] lz4_block(t) ==> (r matches Some(x) && x@ == t),
{
    match decompress_block(bytes) {
        Some(v) => match Tile::from_bytes(v) {
            Ok(t) => Some(t),
            Err(_) => None,
        },
        None => None,
    }
}

} // verus!
