//! Vector shape data: cubic-Bézier subpaths with fill and stroke. Coordinates
//! and colors are carried as IEEE-754 single-precision bit patterns, which
//! this library moves and compares but never computes on.

use vstd::prelude::*;

verus! {

/// A point: the bit patterns of an `f32` pair.
pub type Point = [u32; 2];

/// One path segment, ending at its last point.
#[derive(Debug, Clone, Copy, PartialEq)]
pub enum Seg {
    /// Straight line to the point.
    Line(Point),
    /// Cubic Bézier: two control points then the endpoint.
    Cubic(Point, Point, Point),
}

/// How the interior of a path is decided.
#[derive(Debug, Clone, Copy, PartialEq, Eq, Structural)]
pub enum FillRule {
    NonZero,
    EvenOdd,
}

/// Boolean operation between two shapes' areas.
#[derive(Debug, Clone, Copy, PartialEq, Eq, Structural)]
pub enum BoolOp {
    Union,
    Intersect,
    Difference,
    Exclude,
}

/// End cap of a stroked open subpath.
#[derive(Debug, Clone, Copy, PartialEq, Eq, Structural)]
pub enum LineCap {
    Butt,
    Round,
    Square,
}

/// Corner style of a stroke.
#[derive(Debug, Clone, Copy, PartialEq, Eq, Structural)]
pub enum LineJoin {
    Miter,
    Round,
    Bevel,
}

/// Stroke style: color and width as `f32` bit patterns.
#[derive(Debug, Clone, Copy, PartialEq)]
pub struct Stroke {
    pub color: [u32; 4],
    pub width: u32,
    pub cap: LineCap,
    pub join: LineJoin,
}

/// A start point followed by segments, optionally closed.
#[derive(Debug, Clone, PartialEq)]
pub struct SubPath {
    pub start: Point,
    pub segs: Vec<Seg>,
    pub closed: bool,
}

/// Abstract subpath: start, segments, closed flag.
pub type SubPathView = (Point, Seq<Seg>, bool);

impl View for SubPath {
    type V = SubPathView;

    open spec fn view(&self) -> SubPathView {
        (self.start, self.segs@, self.closed)
    }
}

impl SubPath {
    /// A copy with equal view.
    pub fn duplicate(&self) -> (r: SubPath)
        ensures
            r@ == self@,
    {
        SubPath { start: self.start, segs: self.segs.clone(), closed: self.closed }
    }
}

/// A compound path: subpaths plus a fill rule.
#[derive(Debug, Clone, PartialEq)]
pub struct Path {
    pub subpaths: Vec<SubPath>,
    pub fill_rule: FillRule,
}

/// Abstract path: subpaths and fill rule.
pub type PathView = (Seq<SubPathView>, FillRule);

impl View for Path {
    type V = PathView;

    open spec fn view(&self) -> PathView {
        (self.subpaths@.map_values(|s: SubPath| s@), self.fill_rule)
    }
}

impl Path {
    /// A copy with equal view.
    pub fn duplicate(&self) -> (r: Path)
        ensures
            r@ == self@,
    {
        let mut subs: Vec<SubPath> = Vec::new();
        let mut i: usize = 0;
        while i < self.subpaths.len()
            invariant
                i <= self.subpaths.len(),
                subs@.len() == i,
                forall|j: int| 0 <= j < i ==> (#[trigger] subs@[j])@ == self.subpaths@[j]@,
            decreases self.subpaths.len() - i,
        {
            subs.push(self.subpaths[i].duplicate());
            i += 1;
        }
        let r = Path { subpaths: subs, fill_rule: self.fill_rule };
        assert(r@.0 =~= self@.0);
        r
    }

    /// Add `other`'s subpaths after this path's own; the fill rule stays.
    pub fn append(&mut self, other: &Path)
        ensures
            final(self)@ == (old(self)@.0 + other@.0, old(self)@.1),
    {
        let mut i: usize = 0;
        while i < other.subpaths.len()
            invariant
                i <= other.subpaths.len(),
                self@ == (old(self)@.0 + other@.0.take(i as int), old(self)@.1),
            decreases other.subpaths.len() - i,
        {
            let ghost before = self.subpaths@;
            let sp = other.subpaths[i].duplicate();
            self.subpaths.push(sp);
            proof {
                assert(self.subpaths@.map_values(|s: SubPath| s@) =~= before.map_values(|s: SubPath| s@).push(sp@));
                assert(other@.0.take(i + 1) =~= other@.0.take(i as int).push(other@.0[i as int]));
                assert(self@.0 =~= old(self)@.0 + other@.0.take(i + 1));
            }
            i += 1;
        }
        assert(other@.0.take(i as int) =~= other@.0);
    }

    /// One path per subpath, in order, each with this path's fill rule.
    pub fn split_subpaths(&self) -> (r: Vec<Path>)
        ensures
            r@.len() == self@.0.len(),
            forall|i: int| 0 <= i < r@.len() ==> (#[trigger] r@[i])@ == (seq![self@.0[i]], self@.1),
    {
        let mut out: Vec<Path> = Vec::new();
        let mut i: usize = 0;
        while i < self.subpaths.len()
            invariant
                i <= self.subpaths.len(),
                out@.len() == i,
                forall|j: int| 0 <= j < i ==> (#[trigger] out@[j])@ == (seq![self@.0[j]], self@.1),
            decreases self.subpaths.len() - i,
        {
            let mut subs: Vec<SubPath> = Vec::new();
            subs.push(self.subpaths[i].duplicate());
            let p = Path { subpaths: subs, fill_rule: self.fill_rule };
            assert(p@.0 =~= seq![self@.0[i as int]]);
            out.push(p);
            i += 1;
        }
        out
    }
}

/// A drawable shape: a path with an optional fill color and stroke.
#[derive(Debug, Clone, PartialEq)]
pub struct Shape {
    pub path: Path,
    pub fill: Option<[u32; 4]>,
    pub stroke: Option<Stroke>,
}

/// Abstract shape.
pub type ShapeView = (PathView, Option<[u32; 4]>, Option<Stroke>);

impl View for Shape {
    type V = ShapeView;

    open spec fn view(&self) -> ShapeView {
        (self.path@, self.fill, self.stroke)
    }
}

impl Shape {
    /// A copy with equal view.
    pub fn duplicate(&self) -> (r: Shape)
        ensures
            r@ == self@,
    {
        Shape { path: self.path.duplicate(), fill: self.fill, stroke: self.stroke }
    }
}

/// The view of each shape in order.
pub open spec fn shapes_view(s: Seq<Shape>) -> Seq<ShapeView> {
    s.map_values(|x: Shape| x@)
}

/// A copy of a shape list with equal views.
pub fn duplicate_shapes(s: &Vec<Shape>) -> (r: Vec<Shape>)
    ensures
        shapes_view(r@) == shapes_view(s@),
{
    let mut out: Vec<Shape> = Vec::new();
    let mut i: usize = 0;
    while i < s.len()
        invariant
            i <= s.len(),
            out@.len() == i,
            forall|j: int| 0 <= j < i ==> (#[trigger] out@[j])@ == s@[j]@,
        decreases s.len() - i,
    {
        out.push(s[i].duplicate());
        i += 1;
    }
    assert(shapes_view(out@) =~= shapes_view(s@));
    out
}

/// A vector layer's content: shapes, bottom first.
#[derive(Debug, Clone, PartialEq)]
pub struct VectorContent {
    pub shapes: Vec<Shape>,
}

impl View for VectorContent {
    type V = Seq<ShapeView>;

    open spec fn view(&self) -> Seq<ShapeView> {
        shapes_view(self.shapes@)
    }
}

impl VectorContent {
    /// A copy with equal view.
    pub fn duplicate(&self) -> (r: VectorContent)
        ensures
            r@ == self@,
    {
        VectorContent { shapes: duplicate_shapes(&self.shapes) }
    }
}

/// The endpoint of a segment.
pub open spec fn seg_end(s: Seg) -> Point {
    match s {
        Seg::Line(p) => p,
        Seg::Cubic(_, _, p) => p,
    }
}

/// `s` with its endpoint moved to `to`; a cubic keeps its control points.
pub open spec fn with_end(s: Seg, to: Point) -> Seg {
    match s {
        Seg::Line(_) => Seg::Line(to),
        Seg::Cubic(a, b, _) => Seg::Cubic(a, b, to),
    }
}

/// On-path anchors of one subpath: its start, then each segment's endpoint.
pub open spec fn sub_anchors(sp: SubPathView) -> Seq<Point> {
    seq![sp.0] + sp.1.map_values(|s: Seg| seg_end(s))
}

/// On-path anchors of subpaths, in traversal order. Control points are not
/// anchors.
pub open spec fn anchors_of(sps: Seq<SubPathView>) -> Seq<Point>
    decreases sps.len(),
{
    if sps.len() == 0 {
        Seq::empty()
    } else {
        sub_anchors(sps[0]) + anchors_of(sps.skip(1))
    }
}

/// Subpaths with anchor `index` (in `anchors_of` order) moved to `to`;
/// unchanged when out of range.
pub open spec fn anchor_moved(sps: Seq<SubPathView>, index: int, to: Point) -> Seq<SubPathView>
    decreases sps.len(),
{
    if sps.len() == 0 {
        sps
    } else {
        let sp = sps[0];
        let n = 1 + sp.1.len();
        if index < n {
            seq![
                if index == 0 {
                    (to, sp.1, sp.2)
                } else {
                    (sp.0, sp.1.update(index - 1, with_end(sp.1[index - 1], to)), sp.2)
                },
            ] + sps.skip(1)
        } else {
            seq![sp] + anchor_moved(sps.skip(1), index - n, to)
        }
    }
}

/// Subpaths with anchor `index` removed and the path reconnected across the
/// gap; `None` when out of range or when its subpath has only two anchors.
pub open spec fn anchor_removed(sps: Seq<SubPathView>, index: int) -> Option<Seq<SubPathView>>
    decreases sps.len(),
{
    if sps.len() == 0 {
        None
    } else {
        let sp = sps[0];
        let n = 1 + sp.1.len();
        if index < n {
            if n <= 2 {
                None
            } else if index == 0 {
                Some(seq![(seg_end(sp.1[0]), sp.1.skip(1), sp.2)] + sps.skip(1))
            } else {
                Some(seq![(sp.0, sp.1.remove(index - 1), sp.2)] + sps.skip(1))
            }
        } else {
            match anchor_removed(sps.skip(1), index - n) {
                Some(r) => Some(seq![sp] + r),
                None => None,
            }
        }
    }
}

/// Subpaths with a line anchor at `p` inserted just before anchor `index`;
/// `None` when out of range or when `index` is a subpath's start.
pub open spec fn anchor_inserted(sps: Seq<SubPathView>, index: int, p: Point) -> Option<Seq<SubPathView>>
    decreases sps.len(),
{
    if sps.len() == 0 {
        None
    } else {
        let sp = sps[0];
        let n = 1 + sp.1.len();
        if index < n {
            if index == 0 {
                None
            } else {
                Some(seq![(sp.0, sp.1.insert(index - 1, Seg::Line(p)), sp.2)] + sps.skip(1))
            }
        } else {
            match anchor_inserted(sps.skip(1), index - n, p) {
                Some(r) => Some(seq![sp] + r),
                None => None,
            }
        }
    }
}

/// The anchors of `[sp] + rest` are those of `sp` then those of `rest`.
proof fn lemma_anchors_cons(sp: SubPathView, rest: Seq<SubPathView>)
    ensures
        anchors_of(seq![sp] + rest) == sub_anchors(sp) + anchors_of(rest),
{
    assert((seq![sp] + rest).skip(1) =~= rest);
    assert((seq![sp] + rest)[0] == sp);
}

/// Moving an anchor replaces exactly that anchor.
pub proof fn lemma_anchor_moved(sps: Seq<SubPathView>, index: int, to: Point)
    requires
        0 <= index,
    ensures
        anchors_of(anchor_moved(sps, index, to)) == if index < anchors_of(sps).len() {
            anchors_of(sps).update(index, to)
        } else {
            anchors_of(sps)
        },
    decreases sps.len(),
{
    if sps.len() > 0 {
        let sp = sps[0];
        let n = 1 + sp.1.len();
        let rest = sps.skip(1);
        assert(sub_anchors(sp).len() == n);
        if index < n {
            let nsp = if index == 0 {
                (to, sp.1, sp.2)
            } else {
                (sp.0, sp.1.update(index - 1, with_end(sp.1[index - 1], to)), sp.2)
            };
            lemma_anchors_cons(nsp, rest);
            assert(sub_anchors(nsp) =~= sub_anchors(sp).update(index, to));
            assert(sub_anchors(nsp) + anchors_of(rest) =~= (sub_anchors(sp) + anchors_of(rest)).update(index, to));
        } else {
            lemma_anchor_moved(rest, index - n, to);
            lemma_anchors_cons(sp, anchor_moved(rest, index - n, to));
            assert(sub_anchors(sp) + anchors_of(anchor_moved(rest, index - n, to)) =~= if index < anchors_of(sps).len() {
                anchors_of(sps).update(index, to)
            } else {
                anchors_of(sps)
            });
        }
    }
}

/// Removing an anchor drops exactly that anchor.
pub proof fn lemma_anchor_removed(sps: Seq<SubPathView>, index: int)
    requires
        0 <= index,
    ensures
        anchor_removed(sps, index) matches Some(r) ==> index < anchors_of(sps).len() && anchors_of(r) == anchors_of(
            sps,
        ).remove(index),
    decreases sps.len(),
{
    if sps.len() > 0 {
        let sp = sps[0];
        let n = 1 + sp.1.len();
        let rest = sps.skip(1);
        assert(sub_anchors(sp).len() == n);
        if index < n {
            if n > 2 {
                let nsp = if index == 0 {
                    (seg_end(sp.1[0]), sp.1.skip(1), sp.2)
                } else {
                    (sp.0, sp.1.remove(index - 1), sp.2)
                };
                lemma_anchors_cons(nsp, rest);
                assert(sub_anchors(nsp) =~= sub_anchors(sp).remove(index));
                assert(sub_anchors(nsp) + anchors_of(rest) =~= (sub_anchors(sp) + anchors_of(rest)).remove(index));
            }
        } else {
            lemma_anchor_removed(rest, index - n);
            match anchor_removed(rest, index - n) {
                Some(r) => {
                    lemma_anchors_cons(sp, r);
                    assert(sub_anchors(sp) + anchors_of(r) =~= anchors_of(sps).remove(index));
                },
                None => {},
            }
        }
    }
}

/// Inserting an anchor adds exactly that anchor, at `index`.
pub proof fn lemma_anchor_inserted(sps: Seq<SubPathView>, index: int, p: Point)
    requires
        0 <= index,
    ensures
        anchor_inserted(sps, index, p) matches Some(r) ==> index < anchors_of(sps).len() && anchors_of(r)
            == anchors_of(sps).insert(index, p),
    decreases sps.len(),
{
    if sps.len() > 0 {
        let sp = sps[0];
        let n = 1 + sp.1.len();
        let rest = sps.skip(1);
        assert(sub_anchors(sp).len() == n);
        if index < n {
            if index > 0 {
                let nsp = (sp.0, sp.1.insert(index - 1, Seg::Line(p)), sp.2);
                lemma_anchors_cons(nsp, rest);
                assert(sub_anchors(nsp) =~= sub_anchors(sp).insert(index, p));
                assert(sub_anchors(nsp) + anchors_of(rest) =~= (sub_anchors(sp) + anchors_of(rest)).insert(index, p));
            }
        } else {
            lemma_anchor_inserted(rest, index - n, p);
            match anchor_inserted(rest, index - n, p) {
                Some(r) => {
                    lemma_anchors_cons(sp, r);
                    assert(sub_anchors(sp) + anchors_of(r) =~= anchors_of(sps).insert(index, p));
                },
                None => {},
            }
        }
    }
}

/// The endpoint of a segment.
fn end_of(s: &Seg) -> (r: Point)
    ensures
        r == seg_end(*s),
{
    match s {
        Seg::Line(p) => *p,
        Seg::Cubic(_, _, p) => *p,
    }
}

impl Path {
    /// On-path anchor points (subpath starts and segment endpoints), in
    /// traversal order; Bézier control handles are not anchors.
    pub fn anchors(&self) -> (r: Vec<Point>)
        ensures
            r@ == anchors_of(self@.0),
    {
        let ghost sps = self@.0;
        proof {
            assert(sps.skip(0) =~= sps);
            assert(Seq::<Point>::empty() + anchors_of(sps) =~= anchors_of(sps));
        }
        let mut out: Vec<Point> = Vec::new();
        let mut k: usize = 0;
        while k < self.subpaths.len()
            invariant
                sps == self@.0,
                k <= sps.len(),
                out@ + anchors_of(sps.skip(k as int)) == anchors_of(sps),
            decreases sps.len() - k,
        {
            let sp = &self.subpaths[k];
            let ghost spv = sps[k as int];
            let ghost base = out@;
            proof {
                assert(sps.skip(k as int)[0] == spv);
                assert(sps.skip(k as int).skip(1) =~= sps.skip(k + 1));
                assert(spv == sp@);
            }
            out.push(sp.start);
            let mut j: usize = 0;
            while j < sp.segs.len()
                invariant
                    j <= sp.segs@.len(),
                    spv == sp@,
                    out@ == base + sub_anchors(spv).take(j + 1),
                decreases sp.segs@.len() - j,
            {
                out.push(end_of(&sp.segs[j]));
                proof {
                    assert(sub_anchors(spv).take(j + 2) =~= sub_anchors(spv).take(j + 1).push(seg_end(sp.segs@[j as int])));
                }
                j += 1;
            }
            proof {
                assert(sub_anchors(spv).take(sp.segs@.len() + 1 as int) =~= sub_anchors(spv));
                assert(out@ + anchors_of(sps.skip(k + 1)) =~= base + anchors_of(sps.skip(k as int)));
            }
            k += 1;
        }
        proof {
            assert(sps.skip(sps.len() as int) =~= Seq::<SubPathView>::empty());
            assert(out@ + Seq::<Point>::empty() =~= out@);
        }
        out
    }

    /// Move the anchor at `index` (order matches `anchors`) to `to`; a
    /// cubic segment's handles stay put. Out of range: no change.
    pub fn move_anchor(&mut self, index: usize, to: Point)
        ensures
            final(self)@ == (anchor_moved(old(self)@.0, index as int, to), old(self)@.1),
            anchors_of(final(self)@.0) == if index < anchors_of(old(self)@.0).len() {
                anchors_of(old(self)@.0).update(index as int, to)
            } else {
                anchors_of(old(self)@.0)
            },
    {
        let ghost sps = self@.0;
        proof {
            assert(sps.skip(0) =~= sps);
            assert(sps.take(0) =~= Seq::<SubPathView>::empty());
        }
        let mut i: usize = 0;
        let mut k: usize = 0;
        while k < self.subpaths.len()
            invariant
                self@ == old(self)@,
                sps == self@.0,
                k <= sps.len(),
                i <= index,
                anchor_moved(sps, index as int, to) == sps.take(k as int) + anchor_moved(sps.skip(k as int), index - i, to),
            decreases sps.len() - k,
        {
            let ghost rest = sps.skip(k as int);
            proof {
                assert(rest[0] == sps[k as int]);
                assert(rest.skip(1) =~= sps.skip(k + 1));
            }
            let nsegs = self.subpaths[k].segs.len();
            if index - i <= nsegs {
                let local = index - i;
                let ghost spv = sps[k as int];
                let ghost before = self.subpaths@;
                let sp = &mut self.subpaths[k];
                if local == 0 {
                    sp.start = to;
                } else {
                    let ns = match &sp.segs[local - 1] {
                        Seg::Line(_) => Seg::Line(to),
                        Seg::Cubic(a, b, _) => Seg::Cubic(*a, *b, to),
                    };
                    sp.segs.set(local - 1, ns);
                }
                proof {
                    assert(self@.0 =~= sps.update(k as int, self.subpaths@[k as int]@));
                    assert(sps.update(k as int, self.subpaths@[k as int]@) =~= sps.take(k as int) + anchor_moved(
                        rest,
                        index - i,
                        to,
                    ));
                    lemma_anchor_moved(sps, index as int, to);
                }
                return;
            }
            i = i + 1 + nsegs;
            proof {
                assert(sps.take(k + 1) =~= sps.take(k as int) + seq![sps[k as int]]);
                assert(sps.take(k as int) + (seq![sps[k as int]] + anchor_moved(sps.skip(k + 1), index - i, to)) =~= sps.take(
                    k + 1,
                ) + anchor_moved(sps.skip(k + 1), index - i, to));
            }
            k += 1;
        }
        proof {
            assert(sps.skip(sps.len() as int) =~= Seq::<SubPathView>::empty());
            assert(sps.take(sps.len() as int) + Seq::<SubPathView>::empty() =~= sps);
            lemma_anchor_moved(sps, index as int, to);
        }
    }

    /// Remove the anchor at `index` (order matches `anchors`); the path
    /// reconnects across the gap. Refused (no change, `false`) when out of
    /// range or when it would leave a subpath with fewer than two anchors.
    pub fn remove_anchor(&mut self, index: usize) -> (r: bool)
        ensures
            match anchor_removed(old(self)@.0, index as int) {
                Some(sps) => r && final(self)@ == (sps, old(self)@.1),
                None => !r && final(self)@ == old(self)@,
            },
            r ==> anchors_of(final(self)@.0) == anchors_of(old(self)@.0).remove(index as int),
    {
        let ghost sps = self@.0;
        proof {
            assert(sps.skip(0) =~= sps);
            assert(sps.take(0) =~= Seq::<SubPathView>::empty());
        }
        let mut i: usize = 0;
        let mut k: usize = 0;
        while k < self.subpaths.len()
            invariant
                self@ == old(self)@,
                sps == self@.0,
                k <= sps.len(),
                i <= index,
                anchor_removed(sps, index as int) == match anchor_removed(sps.skip(k as int), index - i) {
                    Some(r) => Some(sps.take(k as int) + r),
                    None => None,
                },
            decreases sps.len() - k,
        {
            let ghost rest = sps.skip(k as int);
            proof {
                assert(rest[0] == sps[k as int]);
                assert(rest.skip(1) =~= sps.skip(k + 1));
            }
            let nsegs = self.subpaths[k].segs.len();
            if index - i <= nsegs {
                if nsegs <= 1 {
                    return false;
                }
                let local = index - i;
                let sp = &mut self.subpaths[k];
                let ghost spv = sp@;
                if local == 0 {
                    let first = sp.segs.remove(0);
                    sp.start = end_of(&first);
                    proof {
                        assert(sp.segs@ =~= spv.1.skip(1));
                    }
                } else {
                    sp.segs.remove(local - 1);
                }
                proof {
                    assert(self@.0 =~= sps.update(k as int, self.subpaths@[k as int]@));
                    match anchor_removed(rest, index - i) {
                        Some(r) => {
                            assert(sps.update(k as int, self.subpaths@[k as int]@) =~= sps.take(k as int) + r);
                        },
                        None => {},
                    }
                    lemma_anchor_removed(sps, index as int);
                }
                return true;
            }
            i = i + 1 + nsegs;
            proof {
                match anchor_removed(sps.skip(k + 1), index - i) {
                    Some(r) => {
                        assert(sps.take(k as int) + (seq![sps[k as int]] + r) =~= sps.take(k + 1) + r);
                    },
                    None => {},
                }
            }
            k += 1;
        }
        false
    }

    /// Insert a line anchor at `point` just before the anchor at `index`
    /// (between anchors `index - 1` and `index` of one subpath). Refused (no
    /// change, `false`) before a subpath's start or when out of range.
    pub fn insert_anchor(&mut self, index: usize, point: Point) -> (r: bool)
        ensures
            match anchor_inserted(old(self)@.0, index as int, point) {
                Some(sps) => r && final(self)@ == (sps, old(self)@.1),
                None => !r && final(self)@ == old(self)@,
            },
            r ==> anchors_of(final(self)@.0) == anchors_of(old(self)@.0).insert(index as int, point),
    {
        let ghost sps = self@.0;
        proof {
            assert(sps.skip(0) =~= sps);
            assert(sps.take(0) =~= Seq::<SubPathView>::empty());
        }
        let mut i: usize = 0;
        let mut k: usize = 0;
        while k < self.subpaths.len()
            invariant
                self@ == old(self)@,
                sps == self@.0,
                k <= sps.len(),
                i <= index,
                anchor_inserted(sps, index as int, point) == match anchor_inserted(sps.skip(k as int), index - i, point) {
                    Some(r) => Some(sps.take(k as int) + r),
                    None => None,
                },
            decreases sps.len() - k,
        {
            let ghost rest = sps.skip(k as int);
            proof {
                assert(rest[0] == sps[k as int]);
                assert(rest.skip(1) =~= sps.skip(k + 1));
            }
            let nsegs = self.subpaths[k].segs.len();
            if index - i <= nsegs {
                let local = index - i;
                if local == 0 {
                    return false;
                }
                let sp = &mut self.subpaths[k];
                sp.segs.insert(local - 1, Seg::Line(point));
                proof {
                    assert(self@.0 =~= sps.update(k as int, self.subpaths@[k as int]@));
                    match anchor_inserted(rest, index - i, point) {
                        Some(r) => {
                            assert(sps.update(k as int, self.subpaths@[k as int]@) =~= sps.take(k as int) + r);
                        },
                        None => {},
                    }
                    lemma_anchor_inserted(sps, index as int, point);
                }
                return true;
            }
            i = i + 1 + nsegs;
            proof {
                match anchor_inserted(sps.skip(k + 1), index - i, point) {
                    Some(r) => {
                        assert(sps.take(k as int) + (seq![sps[k as int]] + r) =~= sps.take(k + 1) + r);
                    },
                    None => {},
                }
            }
            k += 1;
        }
        false
    }
}

/// Abstract builder: finished subpaths, fill rule, and the open subpath.
pub type BuilderView = (Seq<SubPathView>, FillRule, Option<SubPathView>);

/// `b` with its open subpath, if any, finished (closed or not).
pub open spec fn flushed(b: BuilderView, closed: bool) -> BuilderView {
    match b.2 {
        Some(sp) => (b.0.push((sp.0, sp.1, closed)), b.1, None),
        None => b,
    }
}

/// `b` with segment `s` appended to its open subpath, opening one at the
/// origin when none is open.
pub open spec fn extended(b: BuilderView, s: Seg) -> BuilderView {
    (
        b.0,
        b.1,
        Some(
            match b.2 {
                Some(sp) => (sp.0, sp.1.push(s), sp.2),
                None => ([0u32, 0u32], seq![s], false),
            },
        ),
    )
}

/// Incremental path builder: `move_to` opens a subpath, `close` finishes it.
pub struct PathBuilder {
    path: Path,
    current: Option<SubPath>,
}

impl View for PathBuilder {
    type V = BuilderView;

    closed spec fn view(&self) -> BuilderView {
        (
            self.path@.0,
            self.path@.1,
            match self.current {
                Some(sp) => Some(sp@),
                None => None,
            },
        )
    }
}

impl PathBuilder {
    /// No subpaths, non-zero fill, nothing open.
    pub fn new() -> (r: PathBuilder)
        ensures
            r@ == (Seq::<SubPathView>::empty(), FillRule::NonZero, None::<SubPathView>),
    {
        let r = PathBuilder { path: Path { subpaths: Vec::new(), fill_rule: FillRule::NonZero }, current: None };
        assert(r@.0 =~= Seq::<SubPathView>::empty());
        r
    }

    /// Finish the open subpath, if any.
    fn flush(&mut self, closed: bool)
        ensures
            final(self)@ == flushed(old(self)@, closed),
    {
        let cur = self.current.take();
        match cur {
            Some(mut sp) => {
                sp.closed = closed;
                let ghost before = self.path@.0;
                self.path.subpaths.push(sp);
                assert(self.path@.0 =~= before.push(sp@));
            },
            None => {},
        }
    }

    /// Finish the open subpath and open a new one at `p`.
    pub fn move_to(&mut self, p: Point) -> (r: &mut PathBuilder)
        ensures
            (*r)@ == ({
                let f = flushed(old(self)@, false);
                (f.0, f.1, Some((p, Seq::<Seg>::empty(), false)))
            }),
            *final(self) == *final(r),
    {
        self.flush(false);
        let sp = SubPath { start: p, segs: Vec::new(), closed: false };
        assert(sp@.1 =~= Seq::<Seg>::empty());
        self.current = Some(sp);
        self
    }

    /// Append a segment to the open subpath, opening one at the origin when
    /// none is open.
    fn push_seg(&mut self, s: Seg)
        ensures
            final(self)@ == extended(old(self)@, s),
    {
        let cur = self.current.take();
        let sp = match cur {
            Some(mut sp) => {
                sp.segs.push(s);
                sp
            },
            None => {
                let mut segs: Vec<Seg> = Vec::new();
                segs.push(s);
                assert(segs@ =~= seq![s]);
                SubPath { start: [0u32, 0u32], segs, closed: false }
            },
        };
        self.current = Some(sp);
    }

    /// Straight line to `p`.
    pub fn line_to(&mut self, p: Point) -> (r: &mut PathBuilder)
        ensures
            (*r)@ == extended(old(self)@, Seg::Line(p)),
            *final(self) == *final(r),
    {
        self.push_seg(Seg::Line(p));
        self
    }

    /// Cubic Bézier through control points `c1`, `c2` to `p`.
    pub fn cubic_to(&mut self, c1: Point, c2: Point, p: Point) -> (r: &mut PathBuilder)
        ensures
            (*r)@ == extended(old(self)@, Seg::Cubic(c1, c2, p)),
            *final(self) == *final(r),
    {
        self.push_seg(Seg::Cubic(c1, c2, p));
        self
    }

    /// Finish the open subpath as closed.
    pub fn close(&mut self) -> (r: &mut PathBuilder)
        ensures
            (*r)@ == flushed(old(self)@, true),
            *final(self) == *final(r),
    {
        self.flush(true);
        self
    }

    /// Set the fill rule.
    pub fn fill_rule(&mut self, rule: FillRule) -> (r: &mut PathBuilder)
        ensures
            (*r)@ == (old(self)@.0, rule, old(self)@.2),
            *final(self) == *final(r),
    {
        self.path.fill_rule = rule;
        self
    }

    /// The path: the open subpath, if any, finished unclosed.
    pub fn build(self) -> (r: Path)
        ensures
            r@ == (flushed(self@, false).0, flushed(self@, false).1),
    {
        let mut b = self;
        b.flush(false);
        b.path
    }
}

/// The subpath of a polyline through `pts`.
pub open spec fn polyline_sub(pts: Seq<Point>, closed: bool) -> SubPathView {
    (pts[0], pts.skip(1).map_values(|p: Point| Seg::Line(p)), closed)
}

impl Path {
    /// Open or closed polyline through `points`; no subpath when there are
    /// no points.
    pub fn polyline(points: &[Point], closed: bool) -> (r: Path)
        ensures
            r@ == if points@.len() == 0 {
                (Seq::<SubPathView>::empty(), FillRule::NonZero)
            } else {
                (seq![polyline_sub(points@, closed)], FillRule::NonZero)
            },
    {
        let mut b = PathBuilder::new();
        if points.len() > 0 {
            b.move_to(points[0]);
            let mut i: usize = 1;
            while i < points.len()
                invariant
                    1 <= i <= points@.len(),
                    b@ == (Seq::<SubPathView>::empty(), FillRule::NonZero, Some(
                        (points@[0], points@.subrange(1, i as int).map_values(|p: Point| Seg::Line(p)), false),
                    )),
                decreases points@.len() - i,
            {
                b.line_to(points[i]);
                proof {
                    assert(points@.subrange(1, i + 1).map_values(|p: Point| Seg::Line(p)) =~= points@.subrange(
                        1,
                        i as int,
                    ).map_values(|p: Point| Seg::Line(p)).push(Seg::Line(points@[i as int])));
                }
                i += 1;
            }
            proof {
                assert(points@.subrange(1, points@.len() as int) =~= points@.skip(1));
            }
            if closed {
                b.close();
            }
        }
        let r = b.build();
        proof {
            if points@.len() > 0 {
                assert(r@.0 =~= seq![polyline_sub(points@, closed)]);
            }
        }
        r
    }
}

impl Shape {
    /// A filled shape without stroke.
    pub fn filled(path: Path, color: [u32; 4]) -> (r: Shape)
        ensures
            r.path == path,
            r.fill == Some(color),
            r.stroke is None,
    {
        Shape { path, fill: Some(color), stroke: None }
    }

    /// A stroked shape without fill.
    pub fn stroked(path: Path, stroke: Stroke) -> (r: Shape)
        ensures
            r.path == path,
            r.fill is None,
            r.stroke == Some(stroke),
    {
        Shape { path, fill: None, stroke: Some(stroke) }
    }
}

/// Bits of `1.0f32`.
pub const ONE_BITS: u32 = 0x3f80_0000;

impl Default for Stroke {
    /// Opaque black, one unit wide, butt caps, miter joins.
    fn default() -> (r: Stroke)
        ensures
            r == (Stroke { color: [0u32, 0, 0, ONE_BITS], width: ONE_BITS, cap: LineCap::Butt, join: LineJoin::Miter }),
    {
        Stroke { color: [0, 0, 0, ONE_BITS], width: ONE_BITS, cap: LineCap::Butt, join: LineJoin::Miter }
    }
}

impl Default for FillRule {
    /// Non-zero winding.
    fn default() -> (r: FillRule)
        ensures
            r == FillRule::NonZero,
    {
        FillRule::NonZero
    }
}

impl Default for LineCap {
    /// Butt caps.
    fn default() -> (r: LineCap)
        ensures
            r == LineCap::Butt,
    {
        LineCap::Butt
    }
}

impl Default for LineJoin {
    /// Miter joins.
    fn default() -> (r: LineJoin)
        ensures
            r == LineJoin::Miter,
    {
        LineJoin::Miter
    }
}

impl Default for Path {
    /// No subpaths, non-zero fill.
    fn default() -> (r: Path)
        ensures
            r@ == (Seq::<SubPathView>::empty(), FillRule::NonZero),
    {
        let r = Path { subpaths: Vec::new(), fill_rule: FillRule::NonZero };
        assert(r@.0 =~= Seq::<SubPathView>::empty());
        r
    }
}

impl Default for VectorContent {
    /// No shapes.
    fn default() -> (r: VectorContent)
        ensures
            r@ == Seq::<ShapeView>::empty(),
    {
        let r = VectorContent { shapes: Vec::new() };
        assert(r@ =~= Seq::<ShapeView>::empty());
        r
    }
}

} // verus!
