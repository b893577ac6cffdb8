//! Document: the layer tree plus metadata. Tree mutations here are the
//! primitives that commands use.

use std::collections::BTreeMap;
use vstd::prelude::*;
use vstd::std_specs::iter::IteratorSpec;
use crate::mask::Mask;
use crate::node::{
    copy_ids, mask_view, opt_id, ids_view, LayerProps, Node, NodeId, NodeKind, NodeView, KindView, BlendMode, RasterContent,
    SmartContent,
};
use crate::order::lemma_coord_order;
use crate::tile::TileCoord;

pub mod copy;
pub mod edit;
pub mod moves;
pub mod subtree;
pub mod walk;

verus! {

broadcast use vstd::std_specs::btree::group_btree_axioms;

/// Whether the document is raster- or vector-focused.
#[derive(Debug, Clone, Copy, PartialEq, Eq, Structural)]
pub enum ProjectFocus {
    Raster,
    Vector,
}

/// Errors of tree edits.
#[derive(Debug, PartialEq, Eq, Structural)]
pub enum TreeError {
    /// The node is not in the document.
    NotFound(NodeId),
    /// The target parent is not a group.
    NotAGroup(NodeId),
    /// Moving the node into its own subtree would create a cycle.
    Cycle(NodeId),
    /// The root group cannot be moved or removed.
    RootImmutable,
}

/// A removed subtree: nodes in removal order (subtree root first, links
/// intact) plus the original `(parent, index)`.
pub type ExtractedSubtree = (Vec<(NodeId, Node)>, NodeId, usize);

/// A document: canvas size, focus, color mode, selection and the layer tree.
#[derive(Debug, PartialEq)]
pub struct Document {
    /// Width, height in document pixels.
    pub size: [u32; 2],
    pub focus: ProjectFocus,
    /// Color mode tag.
    pub color_mode: String,
    /// Active selection (`None`: nothing selected, everything editable).
    pub selection: Option<Mask>,
    nodes: BTreeMap<u64, Node>,
    root: NodeId,
    next_id: u64,
}

/// Abstract document.
pub struct DocView {
    pub size: [u32; 2],
    pub focus: ProjectFocus,
    pub color_mode: Seq<char>,
    pub selection: Option<Map<TileCoord, Seq<u8>>>,
    pub nodes: Map<u64, NodeView>,
    pub root: u64,
    pub next_id: u64,
}

impl View for Document {
    type V = DocView;

    closed spec fn view(&self) -> DocView {
        DocView {
            size: self.size,
            focus: self.focus,
            color_mode: self.color_mode@,
            selection: mask_view(self.selection),
            nodes: self.nodes@.map_values(|n: Node| n@),
            root: self.root.0,
            next_id: self.next_id,
        }
    }
}

/// The view of `d`, spelled out so that it can recurse into embedded
/// smart-object documents (equal to `d@`, see `lemma_deep_doc`).
pub closed spec fn deep_doc(d: Document) -> DocView
    decreases d, 1nat,
{
    DocView {
        size: d.size,
        focus: d.focus,
        color_mode: d.color_mode@,
        selection: mask_view(d.selection),
        nodes: Map::new(|k: u64| d.nodes@.contains_key(k), |k: u64| deep_node_at(d, k)),
        root: d.root.0,
        next_id: d.next_id,
    }
}

/// The view of node `k` of `d`.
closed spec fn deep_node_at(d: Document, k: u64) -> NodeView
    decreases d, 0nat,
{
    if d.nodes@.contains_key(k) {
        proof {
            assert(decreases_to!(d.nodes => d.nodes@));
            assert(d.nodes@.dom().finite());
            assert(decreases_to!(d.nodes@ => d.nodes@[k]));
        }
        deep_node(d.nodes@[k])
    } else {
        arbitrary()
    }
}

/// The view of node `n`.
closed spec fn deep_node(n: Node) -> NodeView
    decreases n, 0nat,
{
    NodeView {
        props: n.props@,
        kind: match n.kind {
            NodeKind::Group { expanded } => KindView::Group { expanded },
            NodeKind::Raster(c) => KindView::Raster {
                art: c.art,
                offset: c.offset,
                tiles: c.tiles@,
                mask: mask_view(c.mask),
            },
            NodeKind::Vector(v) => KindView::Vector(v@),
            NodeKind::Adjustment(a) => KindView::Adjustment(a),
            NodeKind::Text => KindView::Text,
            NodeKind::Smart(c) => KindView::Smart {
                doc: deep_doc(*c.doc),
                offset: c.offset,
                scale: c.scale,
                rotation: c.rotation,
            },
            NodeKind::Fill => KindView::Fill,
        },
        parent: opt_id(n.parent),
        children: ids_view(n.children@),
    }
}

/// `deep_doc` is the document's view.
pub proof fn lemma_deep_doc(d: Document)
    ensures
        deep_doc(d) == d@,
{
    assert forall|k: u64| d.nodes@.contains_key(k) implies deep_node_at(d, k) == d.nodes@[k]@ by {
        let n = d.nodes@[k];
        assert(deep_node(n) == n@);
    }
    assert(deep_doc(d).nodes =~= d@.nodes);
}

/// A copy of an optional mask.
fn copy_mask(m: &Option<Mask>) -> (r: Option<Mask>)
    ensures
        mask_view(r) == mask_view(*m),
{
    match m {
        Some(x) => Some(x.duplicate()),
        None => None,
    }
}

impl NodeKind {
    /// An owned copy; an embedded document is copied too.
    pub fn duplicate(&self) -> (r: NodeKind)
        ensures
            r@ == self@,
        decreases *self, 0nat,
    {
        match self {
            NodeKind::Group { expanded } => NodeKind::Group { expanded: *expanded },
            NodeKind::Raster(c) => NodeKind::Raster(
                RasterContent { art: c.art, offset: c.offset, tiles: c.tiles.duplicate(), mask: copy_mask(&c.mask) },
            ),
            NodeKind::Vector(v) => NodeKind::Vector(v.duplicate()),
            NodeKind::Adjustment(a) => NodeKind::Adjustment(*a),
            NodeKind::Text => NodeKind::Text,
            NodeKind::Smart(c) => {
                let d = c.doc.duplicate();
                proof {
                    lemma_deep_doc(d);
                    lemma_deep_doc(*c.doc);
                }
                NodeKind::Smart(SmartContent { doc: Box::new(d), offset: c.offset, scale: c.scale, rotation: c.rotation })
            },
            NodeKind::Fill => NodeKind::Fill,
        }
    }
}

impl Node {
    /// An owned copy with the same properties, content and links.
    pub fn duplicate(&self) -> (r: Node)
        ensures
            r@ == self@,
        decreases *self, 1nat,
    {
        Node {
            props: self.props.duplicate(),
            kind: self.kind.duplicate(),
            parent: self.parent,
            children: copy_ids(self.children.as_slice()),
        }
    }
}

impl Document {
    /// An owned copy; embedded documents are copied too.
    pub fn duplicate(&self) -> (r: Document)
        ensures
            r@ == self@,
        decreases *self, 2nat,
    {
        let ks = self.node_ids();
        let ghost kv = ids_view(ks@);
        let mut nodes: BTreeMap<u64, Node> = BTreeMap::new();
        let mut i: usize = 0;
        while i < ks.len()
            invariant
                i <= ks@.len(),
                kv == ids_view(ks@),
                kv.to_set() == self@.nodes.dom(),
                forall|k: u64| #[trigger] nodes@.contains_key(k) == kv.take(i as int).contains(k),
                forall|k: u64| #[trigger] nodes@.contains_key(k) ==> nodes@[k]@ == self.nodes@[k]@,
            decreases ks@.len() - i,
        {
            proof {
                lemma_coord_order();
            }
            let k = ks[i].0;
            assert(kv[i as int] == k);
            assert(kv.to_set().contains(k));
            assert(self@.nodes.dom() =~= self.nodes@.dom());
            match self.nodes.get(&k) {
                Some(n) => {
                    proof {
                        assert(decreases_to!(self.nodes => self.nodes@));
                        assert(self.nodes@.dom().finite());
                        assert(decreases_to!(self.nodes@ => self.nodes@[k]));
                    }
                    let c = n.duplicate();
                    nodes.insert(k, c);
                },
                None => {
                    assert(false);
                },
            }
            proof {
                let t0 = kv.take(i as int);
                let t1 = kv.take(i + 1);
                assert forall|x: u64| #[trigger] t1.contains(x) == (t0.contains(x) || x == k) by {
                    if t1.contains(x) {
                        let j = choose|j: int| 0 <= j < t1.len() && t1[j] == x;
                        if j < i {
                            assert(t0[j] == x);
                        }
                    }
                    if t0.contains(x) {
                        let j = choose|j: int| 0 <= j < t0.len() && t0[j] == x;
                        assert(t1[j] == x);
                    }
                    if x == k {
                        assert(t1[i as int] == x);
                    }
                }
            }
            i += 1;
        }
        let r = Document {
            size: self.size,
            focus: self.focus,
            color_mode: self.color_mode.clone(),
            selection: copy_mask(&self.selection),
            nodes,
            root: self.root,
            next_id: self.next_id,
        };
        proof {
            assert(kv.take(kv.len() as int) =~= kv);
            assert forall|k: u64| #[trigger] r.nodes@.contains_key(k) == self.nodes@.contains_key(k) by {
                assert(kv.to_set().contains(k) == kv.contains(k));
                assert(self@.nodes.dom() =~= self.nodes@.dom());
            }
            assert(r@.nodes =~= self@.nodes);
        }
        r
    }
}

/// Parent/child links agree, the root is present and parentless, every other
/// node has a present parent listing it, and child lists have no repeats.
pub open spec fn tree_links(m: Map<u64, NodeView>, root: u64) -> bool {
    &&& m.contains_key(root)
    &&& m[root].parent is None
    &&& forall|id: u64|
        #[trigger] m.contains_key(id) && id != root ==> (m[id].parent matches Some(p) && m.contains_key(p)
            && m[p].children.contains(id))
    &&& forall|id: u64| #[trigger] m.contains_key(id) ==> m[id].children.no_duplicates()
    &&& forall|id: u64, c: u64|
        #[trigger] m.contains_key(id) && #[trigger] m[id].children.contains(c) ==> m.contains_key(c)
            && m[c].parent == Some(id)
}

/// `rank` strictly increases from every parent to its child (so parent links
/// have no cycle).
pub open spec fn ranked(m: Map<u64, NodeView>, rank: Map<u64, nat>) -> bool {
    forall|id: u64|
        #[trigger] m.contains_key(id) ==> rank.contains_key(id) && (m[id].parent matches Some(p)
            ==> rank.contains_key(p) && rank[p] < rank[id])
}

/// A well-formed layer tree whose ids are all below the next id to allocate.
pub open spec fn tree_wf(m: Map<u64, NodeView>, root: u64, next_id: u64) -> bool {
    &&& tree_links(m, root)
    &&& exists|rank: Map<u64, nat>| ranked(m, rank)
    &&& forall|id: u64| #[trigger] m.contains_key(id) ==> id < next_id
}

/// Ids handed out are never handed out again: the id `alloc_id` returns is
/// held by no node of a well-formed document, the document stays well formed,
/// and every id handed out after it is larger.
pub proof fn lemma_alloc_id_never_reused(d: DocView, e: DocView)
    requires
        tree_wf(d.nodes, d.root, d.next_id),
        d.next_id < u64::MAX,
        e == (DocView { next_id: (d.next_id + 1) as u64, ..d }),
    ensures
        !d.nodes.contains_key(d.next_id),
        tree_wf(e.nodes, e.root, e.next_id),
        d.next_id < e.next_id,
{
}

/// `path` follows parent links: each entry is a node whose parent is the next.
pub open spec fn parent_chain(m: Map<u64, NodeView>, path: Seq<u64>) -> bool {
    &&& path.len() >= 1
    &&& forall|i: int| 0 <= i < path.len() ==> m.contains_key(#[trigger] path[i])
    &&& forall|i: int| 0 <= i < path.len() - 1 ==> m[#[trigger] path[i]].parent == Some(path[i + 1])
}

/// `x` is `a` or lies below it.
pub open spec fn descends(m: Map<u64, NodeView>, x: u64, a: u64) -> bool {
    exists|path: Seq<u64>| #[trigger] parent_chain(m, path) && path[0] == x && path.last() == a
}

/// `a` is a proper ancestor of `x`.
pub open spec fn strict_ancestor(m: Map<u64, NodeView>, a: u64, x: u64) -> bool {
    exists|path: Seq<u64>|
        #[trigger] parent_chain(m, path) && path.len() >= 2 && path[0] == x && path.last() == a
}

/// Along a parent chain the rank drops by at least one per step.
pub proof fn lemma_chain_rank(m: Map<u64, NodeView>, rank: Map<u64, nat>, path: Seq<u64>)
    requires
        ranked(m, rank),
        parent_chain(m, path),
    ensures
        rank[path.last()] + path.len() - 1 <= rank[path[0]],
    decreases path.len(),
{
    if path.len() > 1 {
        let rest = path.subrange(1, path.len() as int);
        assert(parent_chain(m, rest)) by {
            assert forall|i: int| 0 <= i < rest.len() implies m.contains_key(#[trigger] rest[i]) by {
                assert(rest[i] == path[i + 1]);
            }
            assert forall|i: int| 0 <= i < rest.len() - 1 implies m[#[trigger] rest[i]].parent == Some(rest[i + 1]) by {
                assert(rest[i] == path[i + 1]);
                assert(m[path[i + 1]].parent == Some(path[i + 2]));
            }
        }
        lemma_chain_rank(m, rank, rest);
        assert(m.contains_key(path[0]));
        assert(m[path[0]].parent == Some(path[1]));
    }
}

/// Two parent chains from the same node agree where both are defined; one
/// that ends at a parentless node is the longest.
pub proof fn lemma_chain_prefix(m: Map<u64, NodeView>, path: Seq<u64>, walk: Seq<u64>)
    requires
        parent_chain(m, path),
        parent_chain(m, walk),
        path[0] == walk[0],
        m[walk.last()].parent is None,
    ensures
        path.len() <= walk.len(),
        forall|i: int| 0 <= i < path.len() ==> path[i] == walk[i],
{
    assert forall|i: int| 0 <= i < path.len() implies i < walk.len() && path[i] == walk[i] by {
        lemma_chain_prefix_at(m, path, walk, i);
    }
    if path.len() > walk.len() {
        lemma_chain_prefix_at(m, path, walk, walk.len() - 1);
        assert(m[path[walk.len() - 1]].parent == Some(path[walk.len() as int]));
    }
}

proof fn lemma_chain_prefix_at(m: Map<u64, NodeView>, path: Seq<u64>, walk: Seq<u64>, i: int)
    requires
        parent_chain(m, path),
        parent_chain(m, walk),
        path[0] == walk[0],
        m[walk.last()].parent is None,
        0 <= i < path.len(),
    ensures
        i < walk.len(),
        path[i] == walk[i],
    decreases i,
{
    if i > 0 {
        lemma_chain_prefix_at(m, path, walk, i - 1);
        assert(m[path[i - 1]].parent == Some(path[i]));
        if i - 1 == walk.len() - 1 {
            assert(walk.last() == walk[i - 1]);
        }
        assert(m[walk[i - 1]].parent == Some(walk[i]));
    }
}


/// The index an insert at `index` lands on among `len` children.
pub open spec fn clamp(index: int, len: int) -> int {
    if index < len {
        index
    } else {
        len
    }
}

/// `d` with `n` added as child `id` of `parent` at the clamped `index`.
pub open spec fn inserted_view(d: DocView, id: u64, n: NodeView, parent: u64, index: int) -> DocView {
    let p = d.nodes[parent];
    let pc = p.children.insert(clamp(index, p.children.len() as int), id);
    DocView {
        nodes: d.nodes.insert(parent, NodeView { children: pc, ..p }).insert(
            id,
            NodeView { parent: Some(parent), ..n },
        ),
        ..d
    }
}

/// Inserting a fresh childless node under a present group keeps the tree well formed.
pub proof fn lemma_inserted_wf(d: DocView, id: u64, n: NodeView, parent: u64, index: int)
    requires
        tree_wf(d.nodes, d.root, d.next_id),
        !d.nodes.contains_key(id),
        id < d.next_id,
        n.children.len() == 0,
        d.nodes.contains_key(parent),
        0 <= index,
    ensures
        tree_wf(inserted_view(d, id, n, parent, index).nodes, d.root, d.next_id),
{
    let m = d.nodes;
    let m2 = inserted_view(d, id, n, parent, index).nodes;
    let p = m[parent];
    let k = clamp(index, p.children.len() as int);
    let pc = p.children.insert(k, id);
    assert(!p.children.contains(id));
    assert forall|c: u64| #[trigger] pc.contains(c) == (p.children.contains(c) || c == id) by {
        if pc.contains(c) {
            let j = choose|j: int| 0 <= j < pc.len() && pc[j] == c;
            if j < k {
                assert(p.children[j] == c);
            } else if j > k {
                assert(p.children[j - 1] == c);
            }
        }
        if p.children.contains(c) {
            let j = choose|j: int| 0 <= j < p.children.len() && p.children[j] == c;
            if j < k {
                assert(pc[j] == c);
            } else {
                assert(pc[j + 1] == c);
            }
        }
        if c == id {
            assert(pc[k] == c);
        }
    }
    assert(pc.no_duplicates()) by {
        assert forall|i: int, j: int| 0 <= i < pc.len() && 0 <= j < pc.len() && i != j implies pc[i] != pc[j] by {
            let oi = if i < k { i } else { i - 1 };
            let oj = if j < k { j } else { j - 1 };
            if i != k && j != k {
                assert(pc[i] == p.children[oi]);
                assert(pc[j] == p.children[oj]);
            } else if i == k {
                assert(pc[j] == p.children[oj]);
            } else {
                assert(pc[i] == p.children[oi]);
            }
        }
    }
    let rank = choose|rank: Map<u64, nat>| ranked(m, rank);
    let rank2 = rank.insert(id, rank[parent] + 1);
    assert(ranked(m2, rank2));
    assert(tree_links(m2, d.root));
}


/// Ids of the subtree at `a`: `a` and every node below it.
pub open spec fn subtree(m: Map<u64, NodeView>, a: u64) -> Set<u64> {
    Set::new(|x: u64| m.contains_key(x) && descends(m, x, a))
}

/// The parent's child list with `id` taken out.
pub open spec fn unlinked_children(m: Map<u64, NodeView>, p: u64, id: u64) -> Seq<u64> {
    m[p].children.remove(m[p].children.index_of(id))
}

/// `d` with node `id` unlinked from its parent and its whole subtree dropped.
pub open spec fn removed_view(d: DocView, id: u64) -> DocView {
    let p = d.nodes[id].parent.unwrap();
    let pn = d.nodes[p];
    DocView {
        nodes: d.nodes.insert(p, NodeView { children: unlinked_children(d.nodes, p, id), ..pn }).remove_keys(
            subtree(d.nodes, id),
        ),
        ..d
    }
}

/// Abstract extracted entries: `(id, node)` pairs.
pub open spec fn entries_view(s: Seq<(NodeId, Node)>) -> Seq<(u64, NodeView)> {
    s.map_values(|e: (NodeId, Node)| (e.0.0, e.1@))
}

/// Ids of abstract entries.
pub open spec fn entry_ids(s: Seq<(u64, NodeView)>) -> Seq<u64> {
    s.map_values(|e: (u64, NodeView)| e.0)
}

/// `s` holds, once each, exactly the subtree at `id` of `m`, with the nodes as
/// they were in `m`, the subtree root first.
pub open spec fn subtree_entries(m: Map<u64, NodeView>, id: u64, s: Seq<(u64, NodeView)>) -> bool {
    &&& s.len() >= 1
    &&& s[0].0 == id
    &&& entry_ids(s).no_duplicates()
    &&& entry_ids(s).to_set() == subtree(m, id)
    &&& forall|i: int| 0 <= i < s.len() ==> m.contains_key(#[trigger] s[i].0) && s[i].1 == m[s[i].0]
}

/// A child's parent lists it (the non-root case of `tree_links`).
pub proof fn lemma_child_listed(m: Map<u64, NodeView>, root: u64, x: u64, q: u64)
    requires
        tree_links(m, root),
        m.contains_key(x),
        m[x].parent == Some(q),
    ensures
        m.contains_key(q),
        m[q].children.contains(x),
{
    assert(x != root);
}

/// A node whose parent lies in the subtree at `a` lies there too.
pub proof fn lemma_descends_child(m: Map<u64, NodeView>, c: u64, x: u64, a: u64)
    requires
        m.contains_key(c),
        m[c].parent == Some(x),
        descends(m, x, a),
    ensures
        descends(m, c, a),
{
    let path = choose|path: Seq<u64>| #[trigger] parent_chain(m, path) && path[0] == x && path.last() == a;
    let np = seq![c] + path;
    assert(np[0] == c);
    assert(np.last() == a);
    assert forall|i: int| 0 <= i < np.len() implies m.contains_key(#[trigger] np[i]) by {
        if i > 0 {
            assert(np[i] == path[i - 1]);
        }
    }
    assert forall|i: int| 0 <= i < np.len() - 1 implies m[#[trigger] np[i]].parent == Some(np[i + 1]) by {
        if i > 0 {
            assert(np[i] == path[i - 1]);
            assert(np[i + 1] == path[i]);
        }
    }
    assert(parent_chain(m, np));
}

/// Below `a`, a node other than `a` has its parent below `a` too.
pub proof fn lemma_descends_parent(m: Map<u64, NodeView>, x: u64, a: u64)
    requires
        descends(m, x, a),
        x != a,
    ensures
        m[x].parent matches Some(q) && descends(m, q, a),
{
    let path = choose|path: Seq<u64>| #[trigger] parent_chain(m, path) && path[0] == x && path.last() == a;
    assert(path.len() >= 2);
    let rest = path.subrange(1, path.len() as int);
    assert(m[path[0]].parent == Some(path[1]));
    assert forall|i: int| 0 <= i < rest.len() implies m.contains_key(#[trigger] rest[i]) by {
        assert(rest[i] == path[i + 1]);
    }
    assert forall|i: int| 0 <= i < rest.len() - 1 implies m[#[trigger] rest[i]].parent == Some(rest[i + 1]) by {
        assert(rest[i] == path[i + 1]);
        assert(m[path[i + 1]].parent == Some(path[i + 2]));
    }
    assert(parent_chain(m, rest));
    assert(rest[0] == path[1]);
    assert(rest.last() == a);
}

/// A node's parent never lies below it.
pub proof fn lemma_parent_not_below(m: Map<u64, NodeView>, root: u64, next_id: u64, id: u64, p: u64)
    requires
        tree_wf(m, root, next_id),
        m.contains_key(id),
        m[id].parent == Some(p),
    ensures
        !descends(m, p, id),
{
    if descends(m, p, id) {
        let rank = choose|rank: Map<u64, nat>| ranked(m, rank);
        let path = choose|path: Seq<u64>| #[trigger] parent_chain(m, path) && path[0] == p && path.last() == id;
        lemma_chain_rank(m, rank, path);
        assert(m.contains_key(id));
    }
}

/// The subtree of a present, childless node is the node alone.
pub proof fn lemma_childless_subtree(d: DocView, id: u64)
    requires
        tree_wf(d.nodes, d.root, d.next_id),
        d.nodes.contains_key(id),
        d.nodes[id].children.len() == 0,
    ensures
        subtree(d.nodes, id) == set![id],
{
    let m = d.nodes;
    assert forall|x: u64| subtree(m, id).contains(x) == (x == id) by {
        if x == id {
            assert(parent_chain(m, seq![id]));
        } else if subtree(m, id).contains(x) {
            let path = choose|path: Seq<u64>| #[trigger] parent_chain(m, path) && path[0] == x && path.last() == id;
            let y = path[path.len() - 2];
            assert(m.contains_key(y));
            assert(m[y].parent == Some(id));
            assert(y != d.root);
            assert(m[id].children.contains(y));
        }
    }
    assert(subtree(m, id) =~= set![id]);
}

/// Every child of a member of `r` is a member.
#[verifier::opaque]
pub open spec fn closed_under_children(m: Map<u64, NodeView>, r: Set<u64>) -> bool {
    forall|y: u64, c: u64| #[trigger] r.contains(y) && m.contains_key(y) && #[trigger] m[y].children.contains(c) ==> r.contains(c)
}

/// A set holding `a` and closed under children holds the whole subtree at `a`.
pub proof fn lemma_closed_holds_subtree(m: Map<u64, NodeView>, root: u64, r: Set<u64>, a: u64, x: u64)
    requires
        tree_links(m, root),
        r.contains(a),
        closed_under_children(m, r),
        descends(m, x, a),
    ensures
        r.contains(x),
{
    let path = choose|path: Seq<u64>| #[trigger] parent_chain(m, path) && path[0] == x && path.last() == a;
    lemma_closed_holds_chain(m, root, r, path, 0);
}

proof fn lemma_closed_holds_chain(m: Map<u64, NodeView>, root: u64, r: Set<u64>, path: Seq<u64>, i: int)
    requires
        tree_links(m, root),
        parent_chain(m, path),
        r.contains(path.last()),
        closed_under_children(m, r),
        0 <= i < path.len(),
    ensures
        r.contains(path[i]),
    decreases path.len() - i,
{
    if i < path.len() - 1 {
        reveal(closed_under_children);
        lemma_closed_holds_chain(m, root, r, path, i + 1);
        assert(m[path[i]].parent == Some(path[i + 1]));
        lemma_child_listed(m, root, path[i], path[i + 1]);
    }
}

/// Taking `id` out of a duplicate-free list keeps every other entry.
pub proof fn lemma_remove_elem(s: Seq<u64>, id: u64)
    requires
        s.no_duplicates(),
        s.contains(id),
    ensures
        0 <= s.index_of(id) < s.len(),
        s[s.index_of(id)] == id,
        s.remove(s.index_of(id)).no_duplicates(),
        forall|c: u64| #[trigger] s.remove(s.index_of(id)).contains(c) == (s.contains(c) && c != id),
        s.remove(s.index_of(id)).insert(s.index_of(id), id) == s,
{
    let k = s.index_of(id);
    let r = s.remove(k);
    s.remove_ensures(k);
    assert forall|c: u64| #[trigger] r.contains(c) == (s.contains(c) && c != id) by {
        if r.contains(c) {
            let j = choose|j: int| 0 <= j < r.len() && r[j] == c;
            if j < k {
                assert(s[j] == c);
            } else {
                assert(s[j + 1] == c);
            }
        }
        if s.contains(c) && c != id {
            let j = choose|j: int| 0 <= j < s.len() && s[j] == c;
            assert(j != k);
            if j < k {
                assert(r[j] == c);
            } else {
                assert(r[j - 1] == c);
            }
        }
    }
    assert forall|i: int, j: int| 0 <= i < r.len() && 0 <= j < r.len() && i != j implies r[i] != r[j] by {
        let oi = if i < k { i } else { i + 1 };
        let oj = if j < k { j } else { j + 1 };
        assert(r[i] == s[oi] && r[j] == s[oj]);
    }
    assert(r.insert(k, id) =~= s);
}

/// Dropping the subtree at a non-root node (after unlinking it) keeps the
/// tree well formed.
pub proof fn lemma_removed_wf(d: DocView, id: u64)
    requires
        tree_wf(d.nodes, d.root, d.next_id),
        d.nodes.contains_key(id),
        id != d.root,
    ensures
        tree_wf(removed_view(d, id).nodes, d.root, d.next_id),
        d.nodes[id].parent matches Some(p) && !subtree(d.nodes, id).contains(p),
        !subtree(d.nodes, id).contains(d.root),
{
    let m = d.nodes;
    let p = m[id].parent.unwrap();
    lemma_parent_not_below(m, d.root, d.next_id, id, p);
    lemma_remove_elem(m[p].children, id);
    let sub = subtree(m, id);
    let m2 = removed_view(d, id).nodes;
    if descends(m, d.root, id) {
        lemma_descends_parent(m, d.root, id);
    }
    assert forall|x: u64| #[trigger] m2.contains_key(x) && x != d.root implies (m2[x].parent matches Some(q) && m2.contains_key(q)
        && m2[q].children.contains(x)) by {
        let q = m[x].parent.unwrap();
        if descends(m, q, id) {
            lemma_descends_child(m, x, q, id);
        }
        if x == id {
            assert(descends(m, id, id)) by {
                assert(parent_chain(m, seq![id]));
            }
        }
    }
    assert forall|x: u64, c: u64| #[trigger] m2.contains_key(x) && #[trigger] m2[x].children.contains(c) implies m2.contains_key(c)
        && m2[c].parent == Some(x) by {
        assert(m[x].children.contains(c));
        if descends(m, c, id) {
            if c != id {
                lemma_descends_parent(m, c, id);
            }
        }
    }
    let rank = choose|rank: Map<u64, nat>| ranked(m, rank);
    assert(ranked(m2, rank));
}


/// Index of the first `id` in `v`, if any.
pub fn position(v: &[NodeId], id: NodeId) -> (r: Option<usize>)
    ensures
        match r {
            Some(i) => i < v@.len() && v@[i as int] == id && ids_view(v@)[i as int] == id.0,
            None => !ids_view(v@).contains(id.0),
        },
{
    let mut i: usize = 0;
    while i < v.len()
        invariant
            i <= v@.len(),
            forall|j: int| 0 <= j < i ==> v@[j].0 != id.0,
        decreases v.len() - i,
    {
        if v[i].0 == id.0 {
            return Some(i);
        }
        i += 1;
    }
    proof {
        if ids_view(v@).contains(id.0) {
            let j = choose|j: int| 0 <= j < ids_view(v@).len() && ids_view(v@)[j] == id.0;
            assert(v@[j].0 == id.0);
        }
    }
    None
}

impl Document {
    /// The layer tree is well formed.
    pub open spec fn wf(&self) -> bool {
        tree_wf(self@.nodes, self@.root, self@.next_id)
    }

    /// An empty document: one root group, named `__root__`.
    pub fn new(size: [u32; 2], focus: ProjectFocus) -> (r: Document)
        ensures
            r.wf(),
            r@.size == size,
            r@.focus == focus,
            r@.color_mode == "RGB8"@,
            r@.selection is None,
            r@.root == 0,
            r@.next_id == 1,
            r@.nodes.dom() == set![0u64],
            r@.nodes[0].kind == (KindView::Group { expanded: true }),
            r@.nodes[0].props.name == "__root__"@,
            r@.nodes[0].props.blend == BlendMode::PassThrough,
            r@.nodes[0].parent is None,
            r@.nodes[0].children.len() == 0,
    {
        proof {
            lemma_coord_order();
        }
        let mut props = LayerProps::named(String::from_str("__root__"));
        props.blend = BlendMode::PassThrough;
        let root = Node::new(props, NodeKind::Group { expanded: true });
        let mut nodes: BTreeMap<u64, Node> = BTreeMap::new();
        nodes.insert(0, root);
        let r = Document {
            size,
            focus,
            color_mode: String::from_str("RGB8"),
            selection: None,
            nodes,
            root: NodeId(0),
            next_id: 1,
        };
        proof {
            assert(r@.nodes.dom() =~= set![0u64]);
            let rank = Map::<u64, nat>::new(|k: u64| k == 0, |k: u64| 0nat);
            assert(ranked(r@.nodes, rank));
        }
        r
    }

    /// The canvas size.
    pub fn canvas_size(&self) -> (r: [u32; 2])
        ensures
            r == self@.size,
    {
        self.size
    }

    /// The active selection.
    pub fn current_selection(&self) -> (r: &Option<Mask>)
        ensures
            mask_view(*r) == self@.selection,
    {
        &self.selection
    }

    /// Replace the active selection.
    pub fn set_selection(&mut self, selection: Option<Mask>)
        ensures
            final(self)@ == (DocView { selection: mask_view(selection), ..old(self)@ }),
            old(self).wf() ==> final(self).wf(),
    {
        self.selection = selection;
    }

    /// Replace the canvas size.
    pub fn set_size(&mut self, size: [u32; 2])
        ensures
            final(self)@ == (DocView { size, ..old(self)@ }),
            old(self).wf() ==> final(self).wf(),
    {
        self.size = size;
    }

    /// Id of the root group.
    pub fn root(&self) -> (r: NodeId)
        ensures
            r.0 == self@.root,
    {
        self.root
    }

    /// The node with id `id`, if present.
    pub fn node(&self, id: NodeId) -> (r: Option<&Node>)
        ensures
            match r {
                Some(n) => self@.nodes.contains_key(id.0) && n@ == self@.nodes[id.0],
                None => !self@.nodes.contains_key(id.0),
            },
    {
        proof {
            lemma_coord_order();
        }
        self.nodes.get(&id.0)
    }

    /// Child ids of `id` (top-most first); empty when `id` is absent.
    pub fn children(&self, id: NodeId) -> (r: &[NodeId])
        ensures
            ids_view(r@) == if self@.nodes.contains_key(id.0) {
                self@.nodes[id.0].children
            } else {
                Seq::<u64>::empty()
            },
    {
        match self.node(id) {
            Some(n) => n.children.as_slice(),
            None => {
                let e: &[NodeId] = &[];
                assert(ids_view(e@) =~= Seq::<u64>::empty());
                e
            },
        }
    }

    /// Ids of all nodes, the root included, in increasing order.
    pub fn node_ids(&self) -> (r: Vec<NodeId>)
        ensures
            ids_view(r@).to_set() == self@.nodes.dom(),
            ids_view(r@).no_duplicates(),
            forall|i: int, j: int| 0 <= i < j < r@.len() ==> r@[i].0 < r@[j].0,
    {
        proof {
            lemma_coord_order();
        }
        let ghost ks = vstd::std_specs::btree::spec_keys_iter(&self.nodes).remaining();
        let mut out: Vec<NodeId> = Vec::new();
        for k in it: self.nodes.keys()
            invariant
                it.seq() == ks,
                out@.len() == it.index(),
                ids_view(out@) == ks.take(it.index()).unref(),
        {
            let ghost before = ids_view(out@);
            out.push(NodeId(*k));
            proof {
                assert(ids_view(out@) =~= before.push(*k));
                assert(ks.take(it.index() + 1).unref() =~= ks.take(it.index() as int).unref().push(*k));
            }
        }
        proof {
            assert(ks.take(ks.len() as int) =~= ks);
            crate::order::lemma_ids_sorted(ks);
            assert(self@.nodes.dom() =~= self.nodes@.dom());
            let u = ids_view(out@);
            assert forall|i: int, j: int| 0 <= i < j < out@.len() implies out@[i].0 < out@[j].0 by {
                assert(u[i] == out@[i].0 && u[j] == out@[j].0);
            }
        }
        out
    }

    /// Total nodes, the root group included.
    pub fn node_count(&self) -> (r: usize)
        ensures
            r == self@.nodes.dom().len(),
    {
        proof {
            lemma_coord_order();
            assert(self@.nodes.dom() =~= self.nodes@.dom());
        }
        self.nodes.len()
    }

    /// Allocate a fresh id; ids are never reused.
    pub fn alloc_id(&mut self) -> (r: NodeId)
        requires
            old(self)@.next_id < u64::MAX,
        ensures
            r.0 == old(self)@.next_id,
            final(self)@ == (DocView { next_id: (old(self)@.next_id + 1) as u64, ..old(self)@ }),
            old(self).wf() ==> final(self).wf(),
    {
        let id = NodeId(self.next_id);
        self.next_id = self.next_id + 1;
        id
    }

    /// The id the next `alloc_id` hands out.
    pub fn next_id(&self) -> (r: u64)
        ensures
            r == self@.next_id,
    {
        self.next_id
    }

    /// True when `maybe_ancestor` is a proper ancestor of `of`.
    #[verifier::rlimit(40)]
    #[verifier::spinoff_prover]
    pub fn is_ancestor(&self, maybe_ancestor: NodeId, of: NodeId) -> (r: bool)
        requires
            self.wf(),
        ensures
            r == strict_ancestor(self@.nodes, maybe_ancestor.0, of.0),
    {
        let ghost m = self@.nodes;
        let ghost a = maybe_ancestor.0;
        let ghost rank = choose|rank: Map<u64, nat>| ranked(m, rank);
        let mut cur: Option<NodeId> = match self.node(of) {
            Some(n) => n.parent,
            None => {
                proof {
                    if strict_ancestor(m, a, of.0) {
                        let path = choose|path: Seq<u64>|
                            #[trigger] parent_chain(m, path) && path.len() >= 2 && path[0] == of.0 && path.last() == a;
                        assert(m.contains_key(path[0]));
                    }
                }
                return false;
            },
        };
        let ghost mut walk: Seq<u64> = seq![of.0];
        loop
            invariant
                m == self@.nodes,
                self.wf(),
                ranked(m, rank),
                a == maybe_ancestor.0,
                parent_chain(m, walk),
                walk[0] == of.0,
                m[walk.last()].parent == opt_id(cur),
                forall|i: int| 1 <= i < walk.len() ==> walk[i] != a,
            decreases
                match cur {
                    Some(p) => rank[p.0] + 1,
                    None => 0,
                },
        {
            match cur {
                Some(p) => {
                    let ghost last = walk.last();
                    assert(m.contains_key(last));
                    assert(m[last].parent == Some(p.0));
                    assert(m.contains_key(p.0));
                    let ghost next = walk.push(p.0);
                    proof {
                        assert(parent_chain(m, next)) by {
                            assert forall|i: int| 0 <= i < next.len() - 1 implies m[#[trigger] next[i]].parent == Some(next[i + 1]) by {
                                if i < walk.len() - 1 {
                                    assert(next[i] == walk[i] && next[i + 1] == walk[i + 1]);
                                } else {
                                    assert(next[i] == last);
                                }
                            }
                        }
                    }
                    if p.0 == maybe_ancestor.0 {
                        assert(parent_chain(m, next) && next.len() >= 2 && next[0] == of.0 && next.last() == a);
                        return true;
                    }
                    cur = match self.node(p) {
                        Some(n) => n.parent,
                        None => None,
                    };
                    proof {
                        walk = next;
                    }
                },
                None => {
                    proof {
                        if strict_ancestor(m, a, of.0) {
                            let path = choose|path: Seq<u64>|
                                #[trigger] parent_chain(m, path) && path.len() >= 2 && path[0] == of.0 && path.last() == a;
                            lemma_chain_prefix(m, path, walk);
                            assert(path[path.len() - 1] == walk[path.len() - 1]);
                        }
                    }
                    return false;
                },
            }
        }
    }


    /// The node map is finite.
    pub proof fn lemma_dom_finite(&self)
        ensures
            self@.nodes.dom().finite(),
    {
        assert(self@.nodes.dom() =~= self.nodes@.dom());
    }

    /// Take node `id` out of the map.
    fn take_node(&mut self, id: u64) -> (r: Option<Node>)
        ensures
            final(self)@ == (DocView { nodes: old(self)@.nodes.remove(id), ..old(self)@ }),
            match r {
                Some(n) => old(self)@.nodes.contains_key(id) && n@ == old(self)@.nodes[id],
                None => !old(self)@.nodes.contains_key(id),
            },
    {
        proof {
            lemma_coord_order();
        }
        let r = self.nodes.remove(&id);
        assert(self@.nodes =~= old(self)@.nodes.remove(id));
        r
    }

    /// Store node `id` in the map.
    fn put_node(&mut self, id: u64, n: Node)
        ensures
            final(self)@ == (DocView { nodes: old(self)@.nodes.insert(id, n@), ..old(self)@ }),
    {
        proof {
            lemma_coord_order();
        }
        self.nodes.insert(id, n);
        assert(self@.nodes =~= old(self)@.nodes.insert(id, n@));
    }

    /// Insert `node` (with its pre-allocated, unused id and no children) under
    /// `parent` at `index`, clamped to the child count.
    pub fn insert_node(&mut self, id: NodeId, node: Node, parent: NodeId, index: usize) -> (r: Result<(), TreeError>)
        requires
            old(self).wf(),
            !old(self)@.nodes.contains_key(id.0),
            id.0 < old(self)@.next_id,
            node.children@.len() == 0,
        ensures
            final(self).wf(),
            !old(self)@.nodes.contains_key(parent.0) ==> r == Err::<(), TreeError>(TreeError::NotFound(parent))
                && final(self)@ == old(self)@,
            old(self)@.nodes.contains_key(parent.0) && !(old(self)@.nodes[parent.0].kind is Group) ==> r
                == Err::<(), TreeError>(TreeError::NotAGroup(parent)) && final(self)@ == old(self)@,
            old(self)@.nodes.contains_key(parent.0) && old(self)@.nodes[parent.0].kind is Group ==> {
                &&& r is Ok
                &&& final(self)@ == inserted_view(old(self)@, id.0, node@, parent.0, index as int)
            },
    {
        let ghost old_v = self@;
        let mut p = match self.take_node(parent.0) {
            None => {
                assert(self@.nodes =~= old_v.nodes);
                return Err(TreeError::NotFound(parent));
            },
            Some(p) => p,
        };
        if !p.kind.is_group() {
            self.put_node(parent.0, p);
            assert(self@.nodes =~= old_v.nodes);
            return Err(TreeError::NotAGroup(parent));
        }
        let len = p.children.len();
        let idx = if index < len {
            index
        } else {
            len
        };
        p.children.insert(idx, id);
        self.put_node(parent.0, p);
        let mut node = node;
        node.parent = Some(parent);
        self.put_node(id.0, node);
        proof {
            assert(ids_view(p.children@) =~= old_v.nodes[parent.0].children.insert(idx as int, id.0));
            assert(self@.nodes =~= inserted_view(old_v, id.0, node@, parent.0, index as int).nodes);
            lemma_inserted_wf(old_v, id.0, node@, parent.0, index as int);
        }
        Ok(())
    }


    /// Remove a node and its whole subtree; returns everything needed to undo:
    /// the nodes in removal order (subtree root first, links intact), the
    /// parent and the index the node had there.
    #[verifier::rlimit(40)]
    #[verifier::spinoff_prover]
    pub fn remove_subtree(&mut self, id: NodeId) -> (r: Result<ExtractedSubtree, TreeError>)
        requires
            old(self).wf(),
        ensures
            final(self).wf(),
            id.0 == old(self)@.root ==> (r matches Err(TreeError::RootImmutable) && final(self)@ == old(self)@),
            id.0 != old(self)@.root && !old(self)@.nodes.contains_key(id.0) ==> (r matches Err(
                TreeError::NotFound(e),
            ) && e == id && final(self)@ == old(self)@),
            id.0 != old(self)@.root && old(self)@.nodes.contains_key(id.0) ==> (r matches Ok(
                (removed, parent, index),
            ) && {
                &&& old(self)@.nodes[id.0].parent == Some(parent.0)
                &&& index == old(self)@.nodes[parent.0].children.index_of(id.0)
                &&& subtree_entries(old(self)@.nodes, id.0, entries_view(removed@))
                &&& final(self)@ == removed_view(old(self)@, id.0)
            }),
    {
        let ghost d = self@;
        let ghost m = self@.nodes;
        if id.0 == self.root.0 {
            return Err(TreeError::RootImmutable);
        }
        let parent = match self.node(id) {
            None => return Err(TreeError::NotFound(id)),
            Some(n) => match n.parent {
                None => return Err(TreeError::RootImmutable),
                Some(p) => p,
            },
        };
        proof {
            lemma_removed_wf(d, id.0);
            lemma_child_listed(m, d.root, id.0, parent.0);
            lemma_remove_elem(m[parent.0].children, id.0);
        }
        let index = match position(self.children(parent), id) {
            Some(i) => i,
            None => {
                assert(false);
                0
            },
        };
        assert(index == m[parent.0].children.index_of(id.0));
        let mut pn = match self.take_node(parent.0) {
            Some(n) => n,
            None => {
                assert(false);
                return Err(TreeError::NotFound(parent));
            },
        };
        pn.children.remove(index);
        self.put_node(parent.0, pn);
        let ghost m1 = self@.nodes;
        proof {
            assert(ids_view(pn.children@) =~= unlinked_children(m, parent.0, id.0));
        }
        let ghost sub = subtree(m, id.0);
        assert(parent_chain(m, seq![id.0]));
        assert(sub.contains(id.0));
        let mut removed: Vec<(NodeId, Node)> = Vec::new();
        let mut stack: Vec<NodeId> = Vec::new();
        stack.push(id);
        let ghost mut rset: Set<u64> = Set::empty();
        proof {
            assert(m1.remove_keys(rset) =~= m1);
            assert(ids_view(stack@) =~= seq![id.0]);
            assert(ids_view(stack@)[0] == id.0);
        }
        while stack.len() > 0
            invariant
                d == old(self)@,
                m == d.nodes,
                tree_wf(m, d.root, d.next_id),
                m.contains_key(id.0),
                id.0 != d.root,
                m[id.0].parent == Some(parent.0),
                !sub.contains(parent.0),
                sub == subtree(m, id.0),
                m1 == d.nodes.insert(parent.0, NodeView { children: unlinked_children(m, parent.0, id.0), ..m[parent.0] }),
                self@ == (DocView { nodes: m1.remove_keys(rset), ..d }),
                rset.subset_of(sub),
                ids_view(stack@).to_set().subset_of(sub),
                ids_view(stack@).to_set().disjoint(rset),
                ids_view(stack@).no_duplicates(),
                entry_ids(entries_view(removed@)).no_duplicates(),
                entry_ids(entries_view(removed@)).to_set() == rset,
                forall|i: int| 0 <= i < removed@.len() ==> m.contains_key(#[trigger] entries_view(removed@)[i].0)
                    && entries_view(removed@)[i].1 == m[entries_view(removed@)[i].0],
                removed@.len() == 0 ==> ids_view(stack@) == seq![id.0],
                removed@.len() > 0 ==> removed@[0].0 == id,
                rset.contains(id.0) || ids_view(stack@).contains(id.0),
                forall|x: u64| (rset.contains(x) || ids_view(stack@).contains(x)) && x != id.0 ==> (#[trigger] m[x].parent matches Some(q) && rset.contains(q)),
                forall|x: u64, c: u64| #[trigger] rset.contains(x) && #[trigger] m[x].children.contains(c) ==> rset.contains(c)
                    || ids_view(stack@).contains(c),
            decreases self@.nodes.dom().len(),
        {
            let ghost sbefore = stack@;
            let ghost dom_before = self@.nodes.dom();
            proof {
                self.lemma_dom_finite();
            }
            let cur = stack.pop().unwrap();
            let ghost s0 = ids_view(stack@);
            let ghost sfull = s0.push(cur.0);
            proof {
                assert(sbefore =~= stack@.push(cur));
                assert(ids_view(sbefore) =~= sfull);
                assert(sfull.contains(cur.0)) by {
                    assert(sfull[s0.len() as int] == cur.0);
                }
                assert(!s0.contains(cur.0)) by {
                    if s0.contains(cur.0) {
                        let j = choose|j: int| 0 <= j < s0.len() && s0[j] == cur.0;
                        assert(sfull[j] == sfull[s0.len() as int]);
                    }
                }
                assert forall|x: u64| #[trigger] sfull.contains(x) == (s0.contains(x) || x == cur.0) by {
                    if sfull.contains(x) && x != cur.0 {
                        let j = choose|j: int| 0 <= j < sfull.len() && sfull[j] == x;
                        assert(s0[j] == x);
                    }
                    if s0.contains(x) {
                        let j = choose|j: int| 0 <= j < s0.len() && s0[j] == x;
                        assert(sfull[j] == x);
                    }
                }
                assert(sfull.to_set().contains(cur.0));
                assert(sub.contains(cur.0));
                assert(!rset.contains(cur.0));
                assert(cur.0 != parent.0);
            }
            let node = match self.take_node(cur.0) {
                Some(n) => n,
                None => {
                    assert(false);
                    return Err(TreeError::NotFound(cur));
                },
            };
            let ghost kids = ids_view(node.children@);
            proof {
                assert(self@.nodes.dom() =~= dom_before.remove(cur.0));
                assert(node@ == m[cur.0]);
                assert(kids == m[cur.0].children);
                let rank = choose|rank: Map<u64, nat>| ranked(m, rank);
                assert(descends(m, cur.0, id.0));
                assert forall|c: u64| #[trigger] kids.contains(c) implies sub.contains(c) && !rset.contains(c) && !s0.contains(c) && c != cur.0
                    && m.contains_key(c) && m[c].parent == Some(cur.0) by {
                    lemma_descends_child(m, c, cur.0, id.0);
                    if c == cur.0 {
                        assert(rank[cur.0] < rank[cur.0]);
                    }
                    if rset.contains(c) || s0.contains(c) {
                        if c == id.0 {
                            assert(cur.0 == parent.0);
                        } else {
                            assert(sfull.contains(c));
                        }
                    }
                }
            }
            let mut j: usize = 0;
            while j < node.children.len()
                invariant
                    j <= node.children@.len(),
                    ids_view(stack@) == s0 + kids.take(j as int),
                    kids == ids_view(node.children@),
                decreases node.children@.len() - j,
            {
                let ghost sb = ids_view(stack@);
                stack.push(node.children[j]);
                proof {
                    assert(kids.take(j + 1) =~= kids.take(j as int).push(kids[j as int]));
                    assert(ids_view(stack@) =~= sb.push(kids[j as int]));
                }
                j += 1;
            }
            let ghost snew = ids_view(stack@);
            proof {
                assert(kids.take(kids.len() as int) =~= kids);
                assert(snew == s0 + kids);
                assert forall|x: u64| #[trigger] snew.contains(x) == (s0.contains(x) || kids.contains(x)) by {
                    if snew.contains(x) {
                        let j = choose|j: int| 0 <= j < snew.len() && snew[j] == x;
                        if j < s0.len() {
                            assert(s0[j] == x);
                        } else {
                            assert(kids[j - s0.len()] == x);
                        }
                    }
                    if s0.contains(x) {
                        let j = choose|j: int| 0 <= j < s0.len() && s0[j] == x;
                        assert(snew[j] == x);
                    }
                    if kids.contains(x) {
                        let j = choose|j: int| 0 <= j < kids.len() && kids[j] == x;
                        assert(snew[s0.len() + j] == x);
                    }
                }
                assert(snew.no_duplicates()) by {
                    assert(m[cur.0].children.no_duplicates());
                    assert forall|a: int, b: int| 0 <= a < snew.len() && 0 <= b < snew.len() && a != b implies snew[a] != snew[b] by {
                        if a < s0.len() && b < s0.len() {
                            assert(sfull[a] == snew[a] && sfull[b] == snew[b]);
                        } else if a >= s0.len() && b >= s0.len() {
                            assert(snew[a] == kids[a - s0.len()] && snew[b] == kids[b - s0.len()]);
                        } else if a < s0.len() {
                            assert(kids.contains(snew[b])) by {
                                assert(snew[b] == kids[b - s0.len()]);
                            }
                            assert(s0.contains(snew[a]));
                        } else {
                            assert(kids.contains(snew[a])) by {
                                assert(snew[a] == kids[a - s0.len()]);
                            }
                            assert(s0.contains(snew[b]));
                        }
                    }
                }
            }
            let ghost before = entries_view(removed@);
            removed.push((cur, node));
            proof {
                let after = entries_view(removed@);
                assert(after =~= before.push((cur.0, node@)));
                assert(entry_ids(after) =~= entry_ids(before).push(cur.0));
                assert(!entry_ids(before).contains(cur.0)) by {
                    if entry_ids(before).contains(cur.0) {
                        assert(entry_ids(before).to_set().contains(cur.0));
                    }
                }
                assert(entry_ids(after).no_duplicates()) by {
                    assert forall|a: int, b: int| 0 <= a < entry_ids(after).len() && 0 <= b < entry_ids(after).len() && a != b
                        implies entry_ids(after)[a] != entry_ids(after)[b] by {
                        if a == before.len() {
                            assert(entry_ids(before).contains(entry_ids(after)[b])) by {
                                assert(entry_ids(after)[b] == entry_ids(before)[b]);
                            }
                        } else if b == before.len() {
                            assert(entry_ids(before).contains(entry_ids(after)[a])) by {
                                assert(entry_ids(after)[a] == entry_ids(before)[a]);
                            }
                        } else {
                            assert(entry_ids(after)[a] == entry_ids(before)[a]);
                            assert(entry_ids(after)[b] == entry_ids(before)[b]);
                        }
                    }
                }
                let rnew = rset.insert(cur.0);
                assert(entry_ids(after).to_set() =~= rnew) by {
                    assert forall|x: u64| entry_ids(after).to_set().contains(x) == rnew.contains(x) by {
                        if entry_ids(after).contains(x) {
                            let k = choose|k: int| 0 <= k < entry_ids(after).len() && entry_ids(after)[k] == x;
                            if k < before.len() {
                                assert(entry_ids(before)[k] == x);
                                assert(entry_ids(before).to_set().contains(x));
                            }
                        }
                        if rset.contains(x) {
                            assert(entry_ids(before).to_set().contains(x));
                            let k = choose|k: int| 0 <= k < entry_ids(before).len() && entry_ids(before)[k] == x;
                            assert(entry_ids(after)[k] == x);
                        }
                        if x == cur.0 {
                            assert(entry_ids(after)[before.len() as int] == x);
                        }
                    }
                }
                assert forall|i: int| 0 <= i < after.len() implies m.contains_key(#[trigger] after[i].0) && after[i].1 == m[after[i].0] by {
                    if i < before.len() {
                        assert(after[i] == before[i]);
                    }
                }
                assert(self@.nodes =~= m1.remove_keys(rnew));
                assert forall|x: u64| (rnew.contains(x) || snew.contains(x)) && x != id.0 implies (#[trigger] m[x].parent matches Some(q) && rnew.contains(q)) by {
                    if rset.contains(x) || s0.contains(x) || x == cur.0 {
                        assert(rset.contains(x) || sfull.contains(x));
                    }
                }
                assert forall|x: u64, c: u64| #[trigger] rnew.contains(x) && #[trigger] m[x].children.contains(c) implies rnew.contains(c)
                    || snew.contains(c) by {
                    if rset.contains(x) {
                        if sfull.contains(c) {
                            assert(s0.contains(c) || c == cur.0);
                        }
                    }
                }
                if before.len() == 0 {
                    assert(sfull =~= seq![id.0]);
                    assert(cur.0 == id.0);
                }
                assert(snew.to_set().subset_of(sub));
                assert(snew.to_set().disjoint(rnew));
                rset = rnew;
            }
        }
        proof {
            assert(ids_view(stack@).len() == 0);
            assert(closed_under_children(m, rset)) by {
                reveal(closed_under_children);
                assert forall|y: u64, c: u64| #[trigger] rset.contains(y) && m.contains_key(y) && #[trigger] m[y].children.contains(c)
                    implies rset.contains(c) by {
                    assert(!ids_view(stack@).contains(c));
                }
            }
            assert(rset =~= sub) by {
                assert forall|x: u64| sub.contains(x) implies rset.contains(x) by {
                    lemma_closed_holds_subtree(m, d.root, rset, id.0, x);
                }
            }
            assert(self@.nodes =~= removed_view(d, id.0).nodes);
        }
        Ok((removed, parent, index))
    }

}

} // verus!
