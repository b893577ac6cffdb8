//! Node edits that keep the tree's shape: reordering a parent's children and
//! swapping a node's properties or content.

use vstd::prelude::*;
use crate::document::{tree_links, tree_wf, DocView, Document, TreeError};
use crate::node::{ids_view, KindView, LayerProps, NodeId, NodeKind, NodeView, PropsView};

verus! {

broadcast use {vstd::multiset::group_multiset_axioms, vstd::seq_lib::group_to_multiset_ensures};

/// `order` lists the same ids as `cur`, each as often.
pub open spec fn is_reordering(order: Seq<u64>, cur: Seq<u64>) -> bool {
    order.to_multiset() == cur.to_multiset()
}

/// `d` with node `id`'s children replaced by `order`.
pub open spec fn reordered_view(d: DocView, id: u64, order: Seq<u64>) -> DocView {
    DocView { nodes: d.nodes.insert(id, NodeView { children: order, ..d.nodes[id] }), ..d }
}

/// `d` with node `id`'s properties replaced by `p`.
pub open spec fn with_props(d: DocView, id: u64, p: PropsView) -> DocView {
    DocView { nodes: d.nodes.insert(id, NodeView { props: p, ..d.nodes[id] }), ..d }
}

/// `d` with node `id`'s content replaced by `k`.
pub open spec fn with_kind(d: DocView, id: u64, k: KindView) -> DocView {
    DocView { nodes: d.nodes.insert(id, NodeView { kind: k, ..d.nodes[id] }), ..d }
}

/// Setting a node's properties twice keeps the second; setting them to what
/// they are changes nothing.
pub proof fn lemma_with_props(d: DocView, id: u64, a: PropsView, b: PropsView)
    requires
        d.nodes.contains_key(id),
    ensures
        with_props(with_props(d, id, a), id, b) == with_props(d, id, b),
        with_props(d, id, d.nodes[id].props) == d,
{
    assert(with_props(with_props(d, id, a), id, b).nodes =~= with_props(d, id, b).nodes);
    assert(with_props(d, id, d.nodes[id].props).nodes =~= d.nodes);
}

/// Setting a node's content twice keeps the second; setting it to what it is
/// changes nothing.
pub proof fn lemma_with_kind(d: DocView, id: u64, a: KindView, b: KindView)
    requires
        d.nodes.contains_key(id),
    ensures
        with_kind(with_kind(d, id, a), id, b) == with_kind(d, id, b),
        with_kind(d, id, d.nodes[id].kind) == d,
{
    assert(with_kind(with_kind(d, id, a), id, b).nodes =~= with_kind(d, id, b).nodes);
    assert(with_kind(d, id, d.nodes[id].kind).nodes =~= d.nodes);
}

/// Whether `order` holds the same ids as `cur`, counted with repeats.
fn is_permutation(order: &[NodeId], cur: &[NodeId]) -> (r: bool)
    ensures
        r == is_reordering(ids_view(order@), ids_view(cur@)),
{
    let ghost o = ids_view(order@);
    let ghost c = ids_view(cur@);
    let mut rest: Vec<u64> = Vec::new();
    for k in 0..cur.len()
        invariant
            c == ids_view(cur@),
            rest@ == c.take(k as int),
    {
        rest.push(cur[k].0);
        proof {
            assert(c.take(k + 1) =~= c.take(k as int).push(c[k as int]));
        }
    }
    proof {
        assert(c.take(c.len() as int) =~= c);
        assert(o.take(0) =~= Seq::<u64>::empty());
    }
    let mut i: usize = 0;
    while i < order.len()
        invariant
            o == ids_view(order@),
            c == ids_view(cur@),
            i <= order@.len(),
            o.take(i as int).to_multiset().add(rest@.to_multiset()) == c.to_multiset(),
        decreases order@.len() - i,
    {
        let x = order[i].0;
        let mut j: usize = 0;
        let mut found = false;
        while j < rest.len()
            invariant_except_break
                !found,
            invariant
                j <= rest@.len(),
                forall|t: int| 0 <= t < j ==> rest@[t] != x,
            ensures
                found ==> j < rest@.len() && rest@[j as int] == x,
                !found ==> forall|t: int| 0 <= t < rest@.len() ==> rest@[t] != x,
            decreases rest@.len() - j,
        {
            if rest[j] == x {
                found = true;
                break;
            }
            j += 1;
        }
        proof {
            assert(o.take(i + 1) =~= o.take(i as int).push(x));
        }
        if !found {
            proof {
                assert(!rest@.contains(x));
                assert(o =~= o.take(i + 1) + o.skip(i + 1));
                vstd::seq_lib::lemma_multiset_commutative(o.take(i + 1), o.skip(i + 1));
                assert(o.to_multiset().count(x) >= o.take(i + 1).to_multiset().count(x));
                assert(o.to_multiset().count(x) > c.to_multiset().count(x));
            }
            return false;
        }
        let ghost before = rest@;
        rest.remove(j);
        proof {
            assert(before.remove(j as int).to_multiset() =~= before.to_multiset().remove(x));
        }
        i += 1;
    }
    proof {
        assert(o.take(o.len() as int) =~= o);
        let om = o.to_multiset();
        assert(om.add(rest@.to_multiset()) == c.to_multiset());
        if rest@.len() > 0 {
            assert(c.to_multiset().len() == om.len() + rest@.to_multiset().len());
            assert(om.len() < c.to_multiset().len());
            assert(om != c.to_multiset());
        } else {
            assert(rest@.to_multiset() =~= vstd::multiset::Multiset::empty());
            assert(om.add(rest@.to_multiset()) =~= om);
        }
    }
    rest.len() == 0
}

/// A reordering of a duplicate-free list is duplicate-free and has the same
/// members.
proof fn lemma_reordering(order: Seq<u64>, cur: Seq<u64>)
    requires
        is_reordering(order, cur),
        cur.no_duplicates(),
    ensures
        order.no_duplicates(),
        forall|x: u64| #[trigger] order.contains(x) == cur.contains(x),
{
    cur.lemma_multiset_has_no_duplicates();
    assert forall|x: u64| #[trigger] order.contains(x) == cur.contains(x) by {
        assert(order.contains(x) == (order.to_multiset().count(x) > 0));
        assert(cur.contains(x) == (cur.to_multiset().count(x) > 0));
    }
    order.lemma_multiset_has_no_duplicates_conv();
}

impl Document {
    /// Reorder `parent`'s children to `order`, which must list the same ids
    /// as the current children; child parent links are unchanged. An order
    /// that is not such a reordering is refused as `NotFound(parent)`.
    pub fn set_children_order(&mut self, parent: NodeId, order: Vec<NodeId>) -> (r: Result<(), TreeError>)
        requires
            old(self).wf(),
        ensures
            final(self).wf(),
            !old(self)@.nodes.contains_key(parent.0) ==> r == Err::<(), TreeError>(TreeError::NotFound(parent))
                && final(self)@ == old(self)@,
            old(self)@.nodes.contains_key(parent.0) && !is_reordering(ids_view(order@), old(self)@.nodes[parent.0].children)
                ==> r == Err::<(), TreeError>(TreeError::NotFound(parent)) && final(self)@ == old(self)@,
            old(self)@.nodes.contains_key(parent.0) && is_reordering(ids_view(order@), old(self)@.nodes[parent.0].children)
                ==> r is Ok && final(self)@ == reordered_view(old(self)@, parent.0, ids_view(order@)),
    {
        let ghost d = self@;
        let same = match self.node(parent) {
            None => return Err(TreeError::NotFound(parent)),
            Some(p) => is_permutation(order.as_slice(), p.children.as_slice()),
        };
        if !same {
            return Err(TreeError::NotFound(parent));
        }
        let mut p = match self.take_node(parent.0) {
            Some(p) => p,
            None => {
                assert(false);
                return Err(TreeError::NotFound(parent));
            },
        };
        p.children = order;
        self.put_node(parent.0, p);
        proof {
            let m = d.nodes;
            let m2 = self@.nodes;
            assert(m2 =~= reordered_view(d, parent.0, ids_view(order@)).nodes);
            lemma_reordering(ids_view(order@), m[parent.0].children);
            assert forall|x: u64| #[trigger] m2.contains_key(x) && x != d.root implies (m2[x].parent matches Some(q)
                && m2.contains_key(q) && m2[q].children.contains(x)) by {}
            assert forall|x: u64, c: u64| #[trigger] m2.contains_key(x) && #[trigger] m2[x].children.contains(c) implies m2.contains_key(c)
                && m2[c].parent == Some(x) by {
                if x == parent.0 {
                    assert(m[x].children.contains(c));
                }
            }
            assert(tree_links(m2, d.root));
            let rank = choose|rank: Map<u64, nat>| crate::document::ranked(m, rank);
            assert(crate::document::ranked(m2, rank));
        }
        Ok(())
    }

    /// Swap node `id`'s properties for `props`; returns the old ones, or
    /// `None` (and changes nothing) when `id` is absent.
    pub fn replace_props(&mut self, id: NodeId, mut props: LayerProps) -> (r: Option<LayerProps>)
        requires
            old(self).wf(),
        ensures
            final(self).wf(),
            old(self)@.nodes.contains_key(id.0) ==> (r matches Some(p) && p@ == old(self)@.nodes[id.0].props
                && final(self)@ == with_props(old(self)@, id.0, props@)),
            !old(self)@.nodes.contains_key(id.0) ==> r is None && final(self)@ == old(self)@,
    {
        let ghost d = self@;
        let mut n = match self.take_node(id.0) {
            Some(n) => n,
            None => {
                assert(self@.nodes =~= d.nodes);
                return None;
            },
        };
        let ghost new_props = props@;
        std::mem::swap(&mut n.props, &mut props);
        self.put_node(id.0, n);
        proof {
            assert(self@.nodes =~= with_props(d, id.0, new_props).nodes);
            lemma_shape_kept(d, self@, id.0);
        }
        Some(props)
    }

    /// Swap node `id`'s content for `kind`; returns the old content, or
    /// `None` (and changes nothing) when `id` is absent.
    pub fn replace_kind(&mut self, id: NodeId, mut kind: NodeKind) -> (r: Option<NodeKind>)
        requires
            old(self).wf(),
        ensures
            final(self).wf(),
            old(self)@.nodes.contains_key(id.0) ==> (r matches Some(k) && k@ == old(self)@.nodes[id.0].kind
                && final(self)@ == with_kind(old(self)@, id.0, kind@)),
            !old(self)@.nodes.contains_key(id.0) ==> r is None && final(self)@ == old(self)@,
    {
        let ghost d = self@;
        let mut n = match self.take_node(id.0) {
            Some(n) => n,
            None => {
                assert(self@.nodes =~= d.nodes);
                return None;
            },
        };
        let ghost new_kind = kind@;
        std::mem::swap(&mut n.kind, &mut kind);
        self.put_node(id.0, n);
        proof {
            assert(self@.nodes =~= with_kind(d, id.0, new_kind).nodes);
            lemma_shape_kept(d, self@, id.0);
        }
        Some(kind)
    }
}

/// Changing one present node's properties or content, and nothing else,
/// keeps the tree well formed.
proof fn lemma_shape_kept(d: DocView, e: DocView, id: u64)
    requires
        tree_wf(d.nodes, d.root, d.next_id),
        d.nodes.contains_key(id),
        e.root == d.root,
        e.next_id == d.next_id,
        e.nodes.dom() == d.nodes.dom(),
        forall|x: u64| #[trigger] e.nodes.contains_key(x) ==> e.nodes[x].parent == d.nodes[x].parent && e.nodes[x].children
            == d.nodes[x].children,
    ensures
        tree_wf(e.nodes, e.root, e.next_id),
{
    let rank = choose|rank: Map<u64, nat>| crate::document::ranked(d.nodes, rank);
    assert(crate::document::ranked(e.nodes, rank));
}

} // verus!
