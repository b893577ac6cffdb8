//! Flat composite-op list built from the layer tree: the structural walk a
//! compositor executes, bottom layer first. Raster layers composite directly;
//! a group is isolated in its own buffer unless it passes through at full
//! opacity; hidden nodes and other kinds contribute nothing.

use vstd::prelude::*;
use crate::document::{descends, lemma_descends_parent, parent_chain, tree_links, tree_wf, DocView, Document};
use crate::node::{ids_view, BlendMode, KindView, NodeId, NodeKind, NodeView, PropsView};
use crate::tile::{TileCoord, TileMap};

verus! {

/// One step of compositing.
#[derive(Debug)]
pub enum CompositeOp<'a> {
    /// Composite a raster layer's tiles (drawn at `offset`) onto the top buffer.
    Layer { tiles: &'a TileMap, offset: [i32; 2], mode: BlendMode, opacity: u32 },
    /// Open an isolated transparent buffer.
    Push,
    /// Blend the top buffer onto the one below it and discard it.
    Pop { mode: BlendMode, opacity: u32 },
}

/// Abstract composite op; a layer by its tiles' contents.
pub enum OpView {
    Layer { tiles: Map<TileCoord, Seq<u8>>, offset: [i32; 2], mode: BlendMode, opacity: u32 },
    Push,
    Pop { mode: BlendMode, opacity: u32 },
}

impl<'a> View for CompositeOp<'a> {
    type V = OpView;

    open spec fn view(&self) -> OpView {
        match self {
            CompositeOp::Layer { tiles, offset, mode, opacity } => OpView::Layer {
                tiles: tiles@,
                offset: *offset,
                mode: *mode,
                opacity: *opacity,
            },
            CompositeOp::Push => OpView::Push,
            CompositeOp::Pop { mode, opacity } => OpView::Pop { mode: *mode, opacity: *opacity },
        }
    }
}

/// The ops' views.
pub open spec fn ops_view<'a>(s: Seq<CompositeOp<'a>>) -> Seq<OpView> {
    s.map_values(|o: CompositeOp<'a>| o@)
}

/// The `f32` with bits `b` is at least `1.0` (so neither negative nor NaN).
pub open spec fn at_least_one(b: u32) -> bool {
    0x3f80_0000 <= b && b <= 0x7f80_0000
}

/// A group with these properties composites in a buffer of its own.
pub open spec fn isolated(p: PropsView) -> bool {
    !(p.blend == BlendMode::PassThrough && at_least_one(p.opacity))
}

/// The ops of the subtrees `ids` (top-most first), bottom-most subtree
/// first, looking at most `fuel` levels down.
pub open spec fn ops_of(m: Map<u64, NodeView>, ids: Seq<u64>, fuel: nat) -> Seq<OpView>
    decreases fuel, ids.len(),
{
    if fuel == 0 || ids.len() == 0 {
        Seq::empty()
    } else {
        let below = ops_of(m, ids.subrange(1, ids.len() as int), fuel);
        let id = ids[0];
        if !m.contains_key(id) || !m[id].props.visible {
            below
        } else {
            let n = m[id];
            match n.kind {
                KindView::Raster { tiles, offset, .. } => below + seq![
                    OpView::Layer { tiles, offset, mode: n.props.blend, opacity: n.props.opacity },
                ],
                KindView::Group { .. } => if isolated(n.props) {
                    below + seq![OpView::Push] + ops_of(m, n.children, (fuel - 1) as nat) + seq![
                        OpView::Pop { mode: n.props.blend, opacity: n.props.opacity },
                    ]
                } else {
                    below + ops_of(m, n.children, (fuel - 1) as nat)
                },
                _ => below,
            }
        }
    }
}

/// Append the ops of `parent`'s children, bottom-most first.
fn walk<'a>(doc: &'a Document, parent: NodeId, fuel: usize, ops: &mut Vec<CompositeOp<'a>>)
    requires
        doc.wf(),
        doc@.nodes.contains_key(parent.0),
    ensures
        ops_view(final(ops)@) == ops_view(old(ops)@) + ops_of(doc@.nodes, doc@.nodes[parent.0].children, fuel as nat),
    decreases fuel,
{
    let ghost m = doc@.nodes;
    let ghost ch = m[parent.0].children;
    if fuel == 0 {
        assert(ops_view(ops@) =~= ops_view(old(ops)@) + ops_of(m, ch, 0));
        return;
    }
    let kids = doc.children(parent);
    let mut j: usize = kids.len();
    assert(ch.subrange(j as int, ch.len() as int) =~= Seq::<u64>::empty());
    assert(ops_view(ops@) =~= ops_view(old(ops)@) + ops_of(m, ch.subrange(j as int, ch.len() as int), fuel as nat));
    while j > 0
        invariant
            doc.wf(),
            m == doc@.nodes,
            0 < fuel,
            j <= kids@.len(),
            kids@.len() == ch.len(),
            forall|i: int| 0 <= i < ch.len() ==> #[trigger] ch[i] == kids@[i].0,
            ops_view(ops@) == ops_view(old(ops)@) + ops_of(m, ch.subrange(j as int, ch.len() as int), fuel as nat),
        decreases j,
    {
        j -= 1;
        let id = kids[j];
        let ghost tail = ch.subrange(j as int, ch.len() as int);
        let ghost pre = ops_view(ops@);
        proof {
            assert(tail.subrange(1, tail.len() as int) =~= ch.subrange(j + 1, ch.len() as int));
            assert(tail[0] == id.0);
        }
        match doc.node(id) {
            None => {},
            Some(n) => {
                if n.props.visible {
                    match &n.kind {
                        NodeKind::Raster(content) => {
                            ops.push(
                                CompositeOp::Layer {
                                    tiles: &content.tiles,
                                    offset: content.offset,
                                    mode: n.props.blend,
                                    opacity: n.props.opacity,
                                },
                            );
                            assert(ops_view(ops@) =~= pre + seq![ops@.last()@]);
                        },
                        NodeKind::Group { .. } => {
                            if n.props.blend == BlendMode::PassThrough && 0x3f80_0000 <= n.props.opacity
                                && n.props.opacity <= 0x7f80_0000 {
                                walk(doc, id, fuel - 1, ops);
                            } else {
                                ops.push(CompositeOp::Push);
                                assert(ops_view(ops@) =~= pre + seq![OpView::Push]);
                                walk(doc, id, fuel - 1, ops);
                                let ghost mid = ops_view(ops@);
                                ops.push(CompositeOp::Pop { mode: n.props.blend, opacity: n.props.opacity });
                                assert(ops_view(ops@) =~= mid + seq![ops@.last()@]);
                            }
                        },
                        _ => {},
                    }
                }
            },
        }
        assert(ops_view(ops@) =~= ops_view(old(ops)@) + ops_of(m, tail, fuel as nat));
    }
    assert(ch.subrange(0, ch.len() as int) =~= ch);
}

/// The composite ops of the whole document, bottom-most layer first: each
/// visible raster layer as one layer op; each visible group inline when it
/// passes through at full opacity, else wrapped in a push and a pop carrying
/// its blend mode and opacity.
pub fn build_op_list<'a>(doc: &'a Document) -> (r: Vec<CompositeOp<'a>>)
    requires
        doc.wf(),
    ensures
        ops_view(r@) == ops_of(doc@.nodes, doc@.nodes[doc@.root].children, doc@.nodes.dom().len()),
{
    let mut ops: Vec<CompositeOp<'a>> = Vec::new();
    let n = doc.node_count();
    assert(doc@.nodes.contains_key(doc@.root));
    walk(doc, doc.root(), n, &mut ops);
    assert(ops_view(ops@) =~= ops_of(doc@.nodes, doc@.nodes[doc@.root].children, n as nat));
    ops
}

/// Every node from `id` up to, but not including, the root is visible.
pub open spec fn chain_visible(m: Map<u64, NodeView>, root: u64, id: u64) -> bool {
    forall|a: u64| #[trigger] descends(m, id, a) && a != root ==> m[a].props.visible
}

/// Layer op `op` draws raster node `id`, a node below the root whose whole
/// ancestor chain up to the root is visible.
pub open spec fn drawn_from(m: Map<u64, NodeView>, root: u64, id: u64, op: OpView) -> bool {
    &&& m.contains_key(id)
    &&& id != root
    &&& chain_visible(m, root, id)
    &&& m[id].kind matches KindView::Raster { tiles, offset, .. } && op == (OpView::Layer {
        tiles,
        offset,
        mode: m[id].props.blend,
        opacity: m[id].props.opacity,
    })
}

/// The layer ops of the subtrees `ids`, children of `par`, come from raster
/// nodes with a visible chain, when `par`'s chain is visible.
proof fn lemma_ops_from_visible(m: Map<u64, NodeView>, root: u64, ids: Seq<u64>, fuel: nat, par: u64)
    requires
        tree_links(m, root),
        m.contains_key(par),
        chain_visible(m, root, par),
        forall|j: int| 0 <= j < ids.len() ==> m[par].children.contains(#[trigger] ids[j]),
    ensures
        forall|k: int|
            0 <= k < ops_of(m, ids, fuel).len() && (#[trigger] ops_of(m, ids, fuel)[k]) is Layer ==> exists|id: u64|
                drawn_from(m, root, id, ops_of(m, ids, fuel)[k]),
    decreases fuel, ids.len(),
{
    let r = ops_of(m, ids, fuel);
    if fuel == 0 || ids.len() == 0 {
    } else {
        let rest = ids.subrange(1, ids.len() as int);
        assert forall|j: int| 0 <= j < rest.len() implies m[par].children.contains(#[trigger] rest[j]) by {
            assert(rest[j] == ids[j + 1]);
        }
        lemma_ops_from_visible(m, root, rest, fuel, par);
        let below = ops_of(m, rest, fuel);
        let x = ids[0];
        if !m.contains_key(x) || !m[x].props.visible {
            assert(r == below);
        } else {
            assert(m[par].children.contains(ids[0]));
            assert(m[x].parent == Some(par));
            assert(x != root);
            assert(chain_visible(m, root, x)) by {
                assert forall|a: u64| #[trigger] descends(m, x, a) && a != root implies m[a].props.visible by {
                    if a != x {
                        lemma_descends_parent(m, x, a);
                    }
                }
            }
            let n = m[x];
            match n.kind {
                KindView::Raster { tiles, offset, .. } => {
                    let o = OpView::Layer { tiles, offset, mode: n.props.blend, opacity: n.props.opacity };
                    assert(r == below + seq![o]);
                    assert(drawn_from(m, root, x, o));
                    assert forall|k: int| 0 <= k < r.len() && (#[trigger] r[k]) is Layer implies exists|id: u64|
                        drawn_from(m, root, id, r[k]) by {
                        if k < below.len() {
                            assert(r[k] == below[k]);
                            let id = choose|id: u64| drawn_from(m, root, id, below[k]);
                            assert(drawn_from(m, root, id, r[k]));
                        } else {
                            assert(r[k] == o);
                            assert(drawn_from(m, root, x, r[k]));
                        }
                    }
                },
                KindView::Group { .. } => {
                    let ch = n.children;
                    assert forall|j: int| 0 <= j < ch.len() implies m[x].children.contains(#[trigger] ch[j]) by {
                    }
                    lemma_ops_from_visible(m, root, ch, (fuel - 1) as nat, x);
                    let inner = ops_of(m, ch, (fuel - 1) as nat);
                    if isolated(n.props) {
                        let pop = OpView::Pop { mode: n.props.blend, opacity: n.props.opacity };
                        assert(r == below + seq![OpView::Push] + inner + seq![pop]);
                        assert forall|k: int| 0 <= k < r.len() && (#[trigger] r[k]) is Layer implies exists|id: u64|
                            drawn_from(m, root, id, r[k]) by {
                            if k < below.len() {
                                assert(r[k] == below[k]);
                                let id = choose|id: u64| drawn_from(m, root, id, below[k]);
                                assert(drawn_from(m, root, id, r[k]));
                            } else if k == below.len() {
                                assert(r[k] == OpView::Push);
                            } else if k < below.len() + 1 + inner.len() {
                                let t = k - below.len() - 1;
                                assert(r[k] == inner[t]);
                                let id = choose|id: u64| drawn_from(m, root, id, inner[t]);
                                assert(drawn_from(m, root, id, r[k]));
                            } else {
                                assert(r[k] == pop);
                            }
                        }
                    } else {
                        assert(r == below + inner);
                        assert forall|k: int| 0 <= k < r.len() && (#[trigger] r[k]) is Layer implies exists|id: u64|
                            drawn_from(m, root, id, r[k]) by {
                            if k < below.len() {
                                assert(r[k] == below[k]);
                                let id = choose|id: u64| drawn_from(m, root, id, below[k]);
                                assert(drawn_from(m, root, id, r[k]));
                            } else {
                                let t = k - below.len();
                                assert(r[k] == inner[t]);
                                let id = choose|id: u64| drawn_from(m, root, id, inner[t]);
                                assert(drawn_from(m, root, id, r[k]));
                            }
                        }
                    }
                },
                _ => {
                    assert(r == below);
                },
            }
        }
    }
}

/// Hidden nodes contribute nothing, and neither does anything inside a
/// hidden group: every layer op of the document's op list draws a raster
/// node whose whole chain of ancestors below the root is visible, with that
/// node's tiles, offset, blend mode and opacity.
pub proof fn lemma_ops_skip_hidden(d: DocView)
    requires
        tree_wf(d.nodes, d.root, d.next_id),
    ensures
        ({
            let ops = ops_of(d.nodes, d.nodes[d.root].children, d.nodes.dom().len());
            forall|k: int| 0 <= k < ops.len() && (#[trigger] ops[k]) is Layer ==> exists|id: u64|
                drawn_from(d.nodes, d.root, id, ops[k])
        }),
{
    let m = d.nodes;
    let root = d.root;
    assert(chain_visible(m, root, root)) by {
        assert forall|a: u64| #[trigger] descends(m, root, a) && a != root implies m[a].props.visible by {
            let path = choose|path: Seq<u64>| #[trigger] parent_chain(m, path) && path[0] == root && path.last() == a;
            if path.len() > 1 {
                assert(m[path[0]].parent == Some(path[1]));
            }
        }
    }
    let ch = m[root].children;
    assert forall|j: int| 0 <= j < ch.len() implies m[root].children.contains(#[trigger] ch[j]) by {}
    lemma_ops_from_visible(m, root, ch, m.dom().len(), root);
}

/// How many buffers `ops` leaves open: pushes minus pops.
pub open spec fn open_buffers(ops: Seq<OpView>) -> int
    decreases ops.len(),
{
    if ops.len() == 0 {
        0
    } else {
        open_buffers(ops.drop_last()) + match ops.last() {
            OpView::Push => 1int,
            OpView::Pop { .. } => -1int,
            OpView::Layer { .. } => 0int,
        }
    }
}

/// Every pop closes a buffer pushed before it, and every push is closed.
pub open spec fn balanced(ops: Seq<OpView>) -> bool {
    &&& open_buffers(ops) == 0
    &&& forall|i: int| 0 <= i <= ops.len() ==> open_buffers(#[trigger] ops.take(i)) >= 0
}

proof fn lemma_open_concat(a: Seq<OpView>, b: Seq<OpView>)
    ensures
        open_buffers(a + b) == open_buffers(a) + open_buffers(b),
    decreases b.len(),
{
    if b.len() > 0 {
        assert((a + b).drop_last() =~= a + b.drop_last());
        lemma_open_concat(a, b.drop_last());
    } else {
        assert(a + b =~= a);
    }
}

proof fn lemma_balanced_concat(a: Seq<OpView>, b: Seq<OpView>)
    requires
        balanced(a),
        balanced(b),
    ensures
        balanced(a + b),
{
    lemma_open_concat(a, b);
    assert forall|i: int| 0 <= i <= (a + b).len() implies open_buffers(#[trigger] (a + b).take(i)) >= 0 by {
        if i <= a.len() {
            assert((a + b).take(i) =~= a.take(i));
        } else {
            assert((a + b).take(i) =~= a + b.take(i - a.len()));
            assert(b.take(i - a.len()) == b.take(i - a.len()));
            lemma_open_concat(a, b.take(i - a.len()));
        }
    }
}

proof fn lemma_single_balanced(o: OpView)
    requires
        o is Layer,
    ensures
        balanced(seq![o]),
{
    assert(seq![o].drop_last() =~= Seq::<OpView>::empty());
    assert(open_buffers(Seq::<OpView>::empty()) == 0);
    assert(open_buffers(seq![o]) == 0);
    assert forall|i: int| 0 <= i <= 1 implies open_buffers(#[trigger] seq![o].take(i)) >= 0 by {
        if i == 0 {
            assert(seq![o].take(0) =~= Seq::<OpView>::empty());
        } else {
            assert(seq![o].take(1) =~= seq![o]);
        }
    }
}

proof fn lemma_wrap_balanced(inner: Seq<OpView>, mode: BlendMode, opacity: u32)
    requires
        balanced(inner),
    ensures
        balanced(seq![OpView::Push] + inner + seq![OpView::Pop { mode, opacity }]),
{
    let open = seq![OpView::Push];
    let close = seq![OpView::Pop { mode, opacity }];
    let w = open + inner + close;
    assert(open.drop_last() =~= Seq::<OpView>::empty());
    assert(close.drop_last() =~= Seq::<OpView>::empty());
    assert(open_buffers(Seq::<OpView>::empty()) == 0);
    assert(open_buffers(open) == 1);
    assert(open_buffers(close) == -1);
    lemma_open_concat(open, inner);
    lemma_open_concat(open + inner, close);
    assert forall|i: int| 0 <= i <= w.len() implies open_buffers(#[trigger] w.take(i)) >= 0 by {
        if i == 0 {
            assert(w.take(0) =~= Seq::<OpView>::empty());
        } else if i <= inner.len() + 1 {
            assert(0 <= i - 1 <= inner.len());
            assert(w.take(i) =~= open + inner.take(i - 1));
            assert(inner.take(i - 1) == inner.take(i - 1));
            lemma_open_concat(open, inner.take(i - 1));
        } else {
            assert(w.take(i) =~= w);
        }
    }
}

/// The op list never pops a buffer it has not pushed and leaves none open:
/// every isolated group's push is matched by its pop.
pub proof fn lemma_ops_balanced(m: Map<u64, NodeView>, ids: Seq<u64>, fuel: nat)
    ensures
        balanced(ops_of(m, ids, fuel)),
    decreases fuel, ids.len(),
{
    if fuel == 0 || ids.len() == 0 {
        assert(Seq::<OpView>::empty().take(0) =~= Seq::<OpView>::empty());
    } else {
        let rest = ids.subrange(1, ids.len() as int);
        lemma_ops_balanced(m, rest, fuel);
        let below = ops_of(m, rest, fuel);
        let id = ids[0];
        if m.contains_key(id) && m[id].props.visible {
            let n = m[id];
            match n.kind {
                KindView::Raster { tiles, offset, .. } => {
                    let o = OpView::Layer { tiles, offset, mode: n.props.blend, opacity: n.props.opacity };
                    lemma_single_balanced(o);
                    lemma_balanced_concat(below, seq![o]);
                },
                KindView::Group { .. } => {
                    lemma_ops_balanced(m, n.children, (fuel - 1) as nat);
                    let inner = ops_of(m, n.children, (fuel - 1) as nat);
                    if isolated(n.props) {
                        lemma_wrap_balanced(inner, n.props.blend, n.props.opacity);
                        let w = seq![OpView::Push] + inner + seq![OpView::Pop { mode: n.props.blend, opacity: n.props.opacity }];
                        lemma_balanced_concat(below, w);
                        assert(below + seq![OpView::Push] + inner + seq![OpView::Pop { mode: n.props.blend, opacity: n.props.opacity }] =~= below + w);
                    } else {
                        lemma_balanced_concat(below, inner);
                    }
                },
                _ => {},
            }
        }
    }
}

/// One step of compositing a group's children: a layer on its own, or a
/// content layer with the run of clipping layers above it, which only show
/// where it has coverage.
#[derive(Debug)]
pub enum CompositeStep {
    Single(NodeId),
    Clipped(NodeId, Vec<NodeId>),
}

/// Abstract composite step.
pub enum StepView {
    Single(u64),
    Clipped(u64, Seq<u64>),
}

impl View for CompositeStep {
    type V = StepView;

    open spec fn view(&self) -> StepView {
        match self {
            CompositeStep::Single(id) => StepView::Single(id.0),
            CompositeStep::Clipped(id, clips) => StepView::Clipped(id.0, ids_view(clips@)),
        }
    }
}

/// The steps' views.
pub open spec fn steps_view(s: Seq<CompositeStep>) -> Seq<StepView> {
    s.map_values(|x: CompositeStep| x@)
}

/// Node `id` is present and visible.
pub open spec fn shown(m: Map<u64, NodeView>, id: u64) -> bool {
    m.contains_key(id) && m[id].props.visible
}

/// Node `id` has pixels of its own: a raster layer, a vector layer or a
/// smart object.
pub open spec fn has_content(m: Map<u64, NodeView>, id: u64) -> bool {
    m.contains_key(id) && (m[id].kind is Raster || m[id].kind is Vector || m[id].kind is Smart)
}

/// Node `id` is a clipping content layer.
pub open spec fn clips(m: Map<u64, NodeView>, id: u64) -> bool {
    has_content(m, id) && m[id].props.clip
}

/// The shown ids of `s`, in order.
pub open spec fn shown_ids(m: Map<u64, NodeView>, s: Seq<u64>) -> Seq<u64>
    decreases s.len(),
{
    if s.len() == 0 {
        Seq::empty()
    } else {
        shown_ids(m, s.drop_last()) + if shown(m, s.last()) {
            seq![s.last()]
        } else {
            Seq::empty()
        }
    }
}

/// Where the run of clipping layers starting at `j` ends: the first shown
/// layer from `j` on that does not clip, or the end.
pub open spec fn run_end(m: Map<u64, NodeView>, kids: Seq<u64>, j: int) -> int
    decreases kids.len() - j,
{
    if j >= kids.len() || j < 0 {
        kids.len() as int
    } else if !shown(m, kids[j]) || clips(m, kids[j]) {
        run_end(m, kids, j + 1)
    } else {
        j
    }
}

/// A clipping run ends no earlier than it starts and no later than the end.
pub proof fn lemma_run_end_bounds(m: Map<u64, NodeView>, kids: Seq<u64>, j: int)
    requires
        0 <= j <= kids.len(),
    ensures
        j <= run_end(m, kids, j) <= kids.len(),
    decreases kids.len() - j,
{
    if j < kids.len() && (!shown(m, kids[j]) || clips(m, kids[j])) {
        lemma_run_end_bounds(m, kids, j + 1);
    }
}

/// The steps for `kids` (bottom-most first) from position `i` on: hidden
/// layers are skipped; a shown content layer that does not clip takes the
/// shown clipping layers right above it, if any; every other shown layer is
/// a step of its own.
pub open spec fn plan_from(m: Map<u64, NodeView>, kids: Seq<u64>, i: int) -> Seq<StepView>
    decreases kids.len() - i,
{
    if i >= kids.len() || i < 0 {
        Seq::empty()
    } else {
        let id = kids[i];
        if !shown(m, id) {
            plan_from(m, kids, i + 1)
        } else if has_content(m, id) && !m[id].props.clip {
            let e = run_end(m, kids, i + 1);
            proof {
                lemma_run_end_bounds(m, kids, i + 1);
            }
            let cl = shown_ids(m, kids.subrange(i + 1, e));
            if cl.len() == 0 {
                seq![StepView::Single(id)] + plan_from(m, kids, i + 1)
            } else {
                seq![StepView::Clipped(id, cl)] + plan_from(m, kids, e)
            }
        } else {
            seq![StepView::Single(id)] + plan_from(m, kids, i + 1)
        }
    }
}

/// Step `s` is a clipped step on `base` whose clip layers include `c`.
pub open spec fn carries(s: StepView, base: u64, c: u64) -> bool {
    s matches StepView::Clipped(b, cl) && b == base && cl.contains(c)
}

/// A shown first entry is among the shown ids.
proof fn lemma_shown_ids_first(m: Map<u64, NodeView>, s: Seq<u64>)
    requires
        s.len() >= 1,
        shown(m, s[0]),
    ensures
        shown_ids(m, s).contains(s[0]),
    decreases s.len(),
{
    let r = shown_ids(m, s);
    let init = shown_ids(m, s.drop_last());
    let tail = if shown(m, s.last()) {
        seq![s.last()]
    } else {
        Seq::<u64>::empty()
    };
    assert(r == init + tail);
    if s.len() == 1 {
        assert(s.drop_last() =~= Seq::<u64>::empty());
        assert(init =~= Seq::<u64>::empty());
        assert(r[0] == s[0]);
    } else {
        assert(s.drop_last()[0] == s[0]);
        lemma_shown_ids_first(m, s.drop_last());
        let j = choose|j: int| 0 <= j < init.len() && init[j] == s[0];
        assert(r[j] == s[0]);
    }
}

/// A clipping run starting at or below a shown layer that does not clip ends
/// at it or earlier.
proof fn lemma_run_end_stops(m: Map<u64, NodeView>, kids: Seq<u64>, a: int, i: int)
    requires
        0 <= a <= i < kids.len(),
        shown(m, kids[i]),
        !clips(m, kids[i]),
    ensures
        run_end(m, kids, a) <= i,
    decreases i - a,
{
    if a < i && (!shown(m, kids[a]) || clips(m, kids[a])) {
        lemma_run_end_stops(m, kids, a + 1, i);
    }
}

/// Walking the plan from any step start at or below `i` reaches the clipped
/// step of base `kids[i]` that carries `kids[i + 1]`.
proof fn lemma_plan_reaches_clip(m: Map<u64, NodeView>, kids: Seq<u64>, j: int, i: int)
    requires
        0 <= j <= i,
        i + 1 < kids.len(),
        shown(m, kids[i]),
        m[kids[i]].kind is Raster || m[kids[i]].kind is Vector || m[kids[i]].kind is Smart,
        !m[kids[i]].props.clip,
        shown(m, kids[i + 1]),
        m[kids[i + 1]].kind is Raster || m[kids[i + 1]].kind is Vector || m[kids[i + 1]].kind is Smart,
        m[kids[i + 1]].props.clip,
    ensures
        exists|q: int|
            0 <= q < plan_from(m, kids, j).len() && #[trigger] carries(plan_from(m, kids, j)[q], kids[i], kids[i + 1]),
    decreases i - j,
{
    let p = plan_from(m, kids, j);
    let id = kids[j];
    if j == i {
        let e = run_end(m, kids, i + 1);
        lemma_run_end_bounds(m, kids, i + 2);
        assert(e == run_end(m, kids, i + 2));
        let sub = kids.subrange(i + 1, e);
        assert(sub[0] == kids[i + 1]);
        lemma_shown_ids_first(m, sub);
        let cl = shown_ids(m, sub);
        assert(cl.len() > 0);
        assert(p == seq![StepView::Clipped(id, cl)] + plan_from(m, kids, e));
        assert(carries(p[0], kids[i], kids[i + 1]));
    } else if !shown(m, id) {
        lemma_plan_reaches_clip(m, kids, j + 1, i);
    } else if has_content(m, id) && !m[id].props.clip {
        let e = run_end(m, kids, j + 1);
        lemma_run_end_bounds(m, kids, j + 1);
        lemma_run_end_stops(m, kids, j + 1, i);
        let cl = shown_ids(m, kids.subrange(j + 1, e));
        if cl.len() == 0 {
            lemma_plan_reaches_clip(m, kids, j + 1, i);
            let rest = plan_from(m, kids, j + 1);
            assert(p == seq![StepView::Single(id)] + rest);
            let q = choose|q: int| 0 <= q < rest.len() && #[trigger] carries(rest[q], kids[i], kids[i + 1]);
            assert(p[q + 1] == rest[q]);
        } else {
            lemma_plan_reaches_clip(m, kids, e, i);
            let rest = plan_from(m, kids, e);
            assert(p == seq![StepView::Clipped(id, cl)] + rest);
            let q = choose|q: int| 0 <= q < rest.len() && #[trigger] carries(rest[q], kids[i], kids[i + 1]);
            assert(p[q + 1] == rest[q]);
        }
    } else {
        lemma_plan_reaches_clip(m, kids, j + 1, i);
        let rest = plan_from(m, kids, j + 1);
        assert(p == seq![StepView::Single(id)] + rest);
        let q = choose|q: int| 0 <= q < rest.len() && #[trigger] carries(rest[q], kids[i], kids[i + 1]);
        assert(p[q + 1] == rest[q]);
    }
}

/// A clipping layer rides on the content layer right below it: when a shown
/// raster, vector or smart layer that does not clip has a shown clipping
/// raster, vector or smart layer directly above it among `p`'s children, the
/// plan of `p` has a clipped step on that base whose clip layers include it.
pub proof fn lemma_clip_layer_rides_on_base(d: DocView, p: u64, i: int)
    requires
        0 <= i,
        i + 1 < child_ids(d, p).len(),
        ({
            let kids = child_ids(d, p).reverse();
            let m = d.nodes;
            &&& m.contains_key(kids[i]) && m[kids[i]].props.visible && !m[kids[i]].props.clip
            &&& (m[kids[i]].kind is Raster || m[kids[i]].kind is Vector || m[kids[i]].kind is Smart)
            &&& m.contains_key(kids[i + 1]) && m[kids[i + 1]].props.visible && m[kids[i + 1]].props.clip
            &&& (m[kids[i + 1]].kind is Raster || m[kids[i + 1]].kind is Vector || m[kids[i + 1]].kind is Smart)
        }),
    ensures
        ({
            let kids = child_ids(d, p).reverse();
            let plan = plan_from(d.nodes, kids, 0);
            exists|q: int| 0 <= q < plan.len() && #[trigger] carries(plan[q], kids[i], kids[i + 1])
        }),
{
    let kids = child_ids(d, p).reverse();
    lemma_plan_reaches_clip(d.nodes, kids, 0, i);
}

/// Node `id` is present and a raster, vector or smart layer.
pub open spec fn content_kind(m: Map<u64, NodeView>, id: u64) -> bool {
    m.contains_key(id) && (m[id].kind is Raster || m[id].kind is Vector || m[id].kind is Smart)
}

/// A clipped step sits on a shown content layer that does not clip, and
/// carries only shown clipping content layers, at least one.
pub open spec fn clip_step_sound(m: Map<u64, NodeView>, s: StepView) -> bool {
    s matches StepView::Clipped(b, cl) ==> {
        &&& content_kind(m, b) && m[b].props.visible && !m[b].props.clip
        &&& cl.len() > 0
        &&& forall|c: u64| #[trigger] cl.contains(c) ==> content_kind(m, c) && m[c].props.visible && m[c].props.clip
    }
}

/// Inside a clipping run every layer is hidden or clips.
proof fn lemma_run_members(m: Map<u64, NodeView>, kids: Seq<u64>, a: int, t: int)
    requires
        0 <= a <= t < run_end(m, kids, a),
        t < kids.len(),
    ensures
        !shown(m, kids[t]) || clips(m, kids[t]),
    decreases t - a,
{
    if a < t {
        lemma_run_members(m, kids, a + 1, t);
    }
}

/// The shown ids of a list whose shown entries all clip are shown clipping
/// layers.
proof fn lemma_shown_ids_clip(m: Map<u64, NodeView>, s: Seq<u64>)
    requires
        forall|t: int| 0 <= t < s.len() && shown(m, #[trigger] s[t]) ==> clips(m, s[t]),
    ensures
        forall|c: u64| #[trigger] shown_ids(m, s).contains(c) ==> shown(m, c) && clips(m, c),
    decreases s.len(),
{
    if s.len() > 0 {
        let init = s.drop_last();
        assert forall|t: int| 0 <= t < init.len() && shown(m, #[trigger] init[t]) implies clips(m, init[t]) by {
            assert(init[t] == s[t]);
        }
        lemma_shown_ids_clip(m, init);
        let r = shown_ids(m, s);
        let a = shown_ids(m, init);
        let tail = if shown(m, s.last()) {
            seq![s.last()]
        } else {
            Seq::<u64>::empty()
        };
        assert(r == a + tail);
        assert forall|c: u64| #[trigger] r.contains(c) implies shown(m, c) && clips(m, c) by {
            let j = choose|j: int| 0 <= j < r.len() && r[j] == c;
            if j < a.len() {
                assert(a[j] == c);
                assert(a.contains(c));
            } else {
                assert(tail[j - a.len()] == c);
                assert(c == s[s.len() - 1]);
            }
        }
    }
}

/// Every step the plan makes from position `j` on is sound.
proof fn lemma_plan_sound_from(m: Map<u64, NodeView>, kids: Seq<u64>, j: int)
    ensures
        forall|q: int| 0 <= q < plan_from(m, kids, j).len() ==> clip_step_sound(m, #[trigger] plan_from(m, kids, j)[q]),
    decreases kids.len() - j,
{
    let p = plan_from(m, kids, j);
    if j >= kids.len() || j < 0 {
    } else {
        let id = kids[j];
        if !shown(m, id) {
            lemma_plan_sound_from(m, kids, j + 1);
            assert(p == plan_from(m, kids, j + 1));
        } else if has_content(m, id) && !m[id].props.clip {
            let e = run_end(m, kids, j + 1);
            lemma_run_end_bounds(m, kids, j + 1);
            let sub = kids.subrange(j + 1, e);
            let cl = shown_ids(m, sub);
            if cl.len() == 0 {
                lemma_plan_sound_from(m, kids, j + 1);
                let rest = plan_from(m, kids, j + 1);
                assert(p == seq![StepView::Single(id)] + rest);
                assert forall|q: int| 0 <= q < p.len() implies clip_step_sound(m, #[trigger] p[q]) by {
                    if q > 0 {
                        assert(p[q] == rest[q - 1]);
                    }
                }
            } else {
                lemma_plan_sound_from(m, kids, e);
                let rest = plan_from(m, kids, e);
                assert forall|t: int| 0 <= t < sub.len() && shown(m, #[trigger] sub[t]) implies clips(m, sub[t]) by {
                    lemma_run_members(m, kids, j + 1, j + 1 + t);
                }
                lemma_shown_ids_clip(m, sub);
                assert(clip_step_sound(m, StepView::Clipped(id, cl)));
                assert(p == seq![StepView::Clipped(id, cl)] + rest);
                assert forall|q: int| 0 <= q < p.len() implies clip_step_sound(m, #[trigger] p[q]) by {
                    if q > 0 {
                        assert(p[q] == rest[q - 1]);
                    }
                }
            }
        } else {
            lemma_plan_sound_from(m, kids, j + 1);
            let rest = plan_from(m, kids, j + 1);
            assert(p == seq![StepView::Single(id)] + rest);
            assert forall|q: int| 0 <= q < p.len() implies clip_step_sound(m, #[trigger] p[q]) by {
                if q > 0 {
                    assert(p[q] == rest[q - 1]);
                }
            }
        }
    }
}

/// Clip bases are exactly the content layers: every clipped step of a plan
/// sits on a shown raster, vector or smart layer that does not clip, and
/// carries only shown clipping raster, vector or smart layers.
pub proof fn lemma_plan_clips_only_content(d: DocView, p: u64)
    ensures
        ({
            let plan = plan_from(d.nodes, child_ids(d, p).reverse(), 0);
            forall|q: int| 0 <= q < plan.len() ==> clip_step_sound(d.nodes, #[trigger] plan[q])
        }),
{
    lemma_plan_sound_from(d.nodes, child_ids(d, p).reverse(), 0);
}

/// The children of `p` in `d`, top-most first; none when `p` is absent.
pub open spec fn child_ids(d: DocView, p: u64) -> Seq<u64> {
    if d.nodes.contains_key(p) {
        d.nodes[p].children
    } else {
        Seq::empty()
    }
}

/// How to composite `parent`'s children, bottom-most first: which layers
/// stand alone and which content layers carry a clipping run.
pub fn composite_plan(doc: &Document, parent: NodeId) -> (r: Vec<CompositeStep>)
    requires
        doc.wf(),
    ensures
        steps_view(r@) == plan_from(doc@.nodes, child_ids(doc@, parent.0).reverse(), 0),
{
    let ghost m = doc@.nodes;
    let top = doc.children(parent);
    let mut kids: Vec<NodeId> = Vec::new();
    let mut t: usize = top.len();
    while t > 0
        invariant
            t <= top@.len(),
            kids@.len() == top@.len() - t,
            forall|q: int| 0 <= q < kids@.len() ==> #[trigger] kids@[q] == top@[top@.len() - 1 - q],
        decreases t,
    {
        t -= 1;
        kids.push(top[t]);
    }
    let ghost ks = ids_view(kids@);
    assert(ks =~= ids_view(top@).reverse());
    let n = kids.len();
    let mut out: Vec<CompositeStep> = Vec::new();
    let mut i: usize = 0;
    while i < n
        invariant
            n == kids@.len(),
            ks == ids_view(kids@),
            m == doc@.nodes,
            i <= n,
            steps_view(out@) + plan_from(m, ks, i as int) == plan_from(m, ks, 0),
        decreases n - i,
    {
        let id = kids[i];
        let ghost pre = steps_view(out@);
        let node = doc.node(id);
        let (visible, content, clip) = match node {
            Some(nd) => (
                nd.props.visible,
                match &nd.kind {
                    NodeKind::Raster(_) => true,
                    NodeKind::Vector(_) => true,
                    NodeKind::Smart(_) => true,
                    _ => false,
                },
                nd.props.clip,
            ),
            None => (false, false, false),
        };
        if !visible {
            i += 1;
        } else if content && !clip {
            let mut cl: Vec<NodeId> = Vec::new();
            let mut j: usize = i + 1;
            proof {
                assert(ks.subrange(i + 1, j as int) =~= Seq::<u64>::empty());
            }
            let mut done = false;
            while j < n && !done
                invariant
                    n == kids@.len(),
                    ks == ids_view(kids@),
                    m == doc@.nodes,
                    i < j <= n,
                    !done ==> run_end(m, ks, i + 1) == run_end(m, ks, j as int),
                    done ==> run_end(m, ks, i + 1) == j && j < n,
                    ids_view(cl@) == shown_ids(m, ks.subrange(i + 1, j as int)),
                decreases (n - j) * 2 + if done { 0int } else { 1int },
            {
                let k = kids[j];
                let (kv, kclip) = match doc.node(k) {
                    Some(nd) => (
                        nd.props.visible,
                        nd.props.clip && match &nd.kind {
                            NodeKind::Raster(_) => true,
                            NodeKind::Vector(_) => true,
                            NodeKind::Smart(_) => true,
                            _ => false,
                        },
                    ),
                    None => (false, false),
                };
                if !kv {
                    proof {
                        let s1 = ks.subrange(i + 1, j + 1);
                        assert(s1.drop_last() =~= ks.subrange(i + 1, j as int));
                    }
                    j += 1;
                } else if kclip {
                    let ghost before = ids_view(cl@);
                    cl.push(k);
                    proof {
                        let s1 = ks.subrange(i + 1, j + 1);
                        assert(s1.drop_last() =~= ks.subrange(i + 1, j as int));
                        assert(ids_view(cl@) =~= before.push(k.0));
                    }
                    j += 1;
                } else {
                    done = true;
                }
            }
            proof {
                if !done {
                    assert(run_end(m, ks, j as int) == n);
                }
                lemma_run_end_bounds(m, ks, i + 1);
            }
            if cl.len() == 0 {
                out.push(CompositeStep::Single(id));
                proof {
                    assert(steps_view(out@) =~= pre.push(StepView::Single(id.0)));
                }
                i += 1;
            } else {
                let ghost clv = ids_view(cl@);
                out.push(CompositeStep::Clipped(id, cl));
                proof {
                    assert(steps_view(out@) =~= pre.push(StepView::Clipped(id.0, clv)));
                }
                i = j;
            }
        } else {
            out.push(CompositeStep::Single(id));
            proof {
                assert(steps_view(out@) =~= pre.push(StepView::Single(id.0)));
            }
            i += 1;
        }
    }
    assert(plan_from(m, ks, n as int) =~= Seq::<StepView>::empty());
    assert(steps_view(out@) =~= plan_from(m, ks, 0));
    out
}

} // verus!
