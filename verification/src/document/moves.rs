//! Moving a node to another parent, and reordering a parent's children.

use vstd::prelude::*;
use crate::document::{
    clamp, descends, lemma_chain_rank, lemma_child_listed, lemma_descends_child, lemma_descends_parent,
    lemma_parent_not_below, lemma_remove_elem, parent_chain, position, ranked, strict_ancestor, subtree,
    tree_links, tree_wf, unlinked_children, DocView, Document, TreeError,
};
use crate::node::{ids_view, NodeId, NodeView};

verus! {

/// A move of `id` under `np` is accepted: `id` is a non-root node and `np` is a
/// group that is neither `id` nor below it.
pub open spec fn move_ok(d: DocView, id: u64, np: u64) -> bool {
    &&& id != d.root
    &&& id != np
    &&& !strict_ancestor(d.nodes, id, np)
    &&& d.nodes.contains_key(np)
    &&& d.nodes[np].kind is Group
    &&& d.nodes.contains_key(id)
}

/// `d` with `id` unlinked from its parent and linked into `np`'s children at
/// the clamped index `ni` (counted after the unlink).
pub open spec fn moved_view(d: DocView, id: u64, np: u64, ni: int) -> DocView {
    let m = d.nodes;
    let op = m[id].parent.unwrap();
    let m1 = m.insert(op, NodeView { children: unlinked_children(m, op, id), ..m[op] });
    let q = m1[np];
    let m2 = m1.insert(np, NodeView { children: q.children.insert(clamp(ni, q.children.len() as int), id), ..q });
    DocView { nodes: m2.insert(id, NodeView { parent: Some(np), ..m2[id] }), ..d }
}

/// Inserting an absent value into a duplicate-free list keeps it
/// duplicate-free and adds exactly that value.
pub proof fn lemma_insert_fresh(s: Seq<u64>, k: int, x: u64)
    requires
        s.no_duplicates(),
        !s.contains(x),
        0 <= k <= s.len(),
    ensures
        s.insert(k, x).no_duplicates(),
        forall|c: u64| #[trigger] s.insert(k, x).contains(c) == (s.contains(c) || c == x),
        s.insert(k, x)[k] == x,
        s.insert(k, x).index_of(x) == k,
        s.insert(k, x).remove(k) == s,
{
    let t = s.insert(k, x);
    s.insert_ensures(k, x);
    assert forall|c: u64| #[trigger] t.contains(c) == (s.contains(c) || c == x) by {
        if t.contains(c) {
            let j = choose|j: int| 0 <= j < t.len() && t[j] == c;
            if j < k {
                assert(s[j] == c);
            } else if j > k {
                assert(s[j - 1] == c);
            }
        }
        if s.contains(c) {
            let j = choose|j: int| 0 <= j < s.len() && s[j] == c;
            if j < k {
                assert(t[j] == c);
            } else {
                assert(t[j + 1] == c);
            }
        }
        if c == x {
            assert(t[k] == c);
        }
    }
    assert forall|i: int, j: int| 0 <= i < t.len() && 0 <= j < t.len() && i != j implies t[i] != t[j] by {
        let oi = if i < k { i } else { i - 1 };
        let oj = if j < k { j } else { j - 1 };
        if i != k && j != k {
            assert(t[i] == s[oi] && t[j] == s[oj]);
        } else if i == k {
            assert(t[j] == s[oj]);
        } else {
            assert(t[i] == s[oi]);
        }
    }
    assert(t.contains(x)) by {
        assert(t[k] == x);
    }
    let w = t.index_of(x);
    assert(t[w] == x);
    if w != k {
        assert(t[w] != t[k]);
    }
    assert(t.remove(k) =~= s);
}

/// A parent chain that starts outside a set closed upwards never enters it.
pub proof fn lemma_chain_stays_out(m: Map<u64, NodeView>, sub: Set<u64>, path: Seq<u64>, i: int)
    requires
        parent_chain(m, path),
        !sub.contains(path[0]),
        forall|x: u64| #[trigger] m.contains_key(x) && !sub.contains(x) ==> (m[x].parent matches Some(p) ==> !sub.contains(p)),
        0 <= i < path.len(),
    ensures
        !sub.contains(path[i]),
    decreases i,
{
    if i > 0 {
        lemma_chain_stays_out(m, sub, path, i - 1);
        assert(m.contains_key(path[i - 1]));
        assert(m[path[i - 1]].parent == Some(path[i]));
    }
}

/// The lowest rank a node of the subtree at `id` can have is `id`'s own.
proof fn lemma_subtree_rank(m: Map<u64, NodeView>, rank: Map<u64, nat>, id: u64, x: u64)
    requires
        ranked(m, rank),
        descends(m, x, id),
    ensures
        rank[id] <= rank[x],
{
    let path = choose|path: Seq<u64>| #[trigger] parent_chain(m, path) && path[0] == x && path.last() == id;
    lemma_chain_rank(m, rank, path);
}

/// An accepted move keeps the tree well formed; the moved node's old parent
/// and its index there are as the move reports them.
pub proof fn lemma_moved_wf(d: DocView, id: u64, np: u64, ni: int)
    requires
        tree_wf(d.nodes, d.root, d.next_id),
        move_ok(d, id, np),
        0 <= ni,
    ensures
        tree_wf(moved_view(d, id, np, ni).nodes, d.root, d.next_id),
        moved_view(d, id, np, ni).nodes.dom() == d.nodes.dom(),
        d.nodes[id].parent matches Some(op) && d.nodes.contains_key(op) && d.nodes[op].children.contains(id) && op != id,
{
    let m = d.nodes;
    let op = m[id].parent.unwrap();
    lemma_child_listed(m, d.root, id, op);
    lemma_remove_elem(m[op].children, id);
    let uc = unlinked_children(m, op, id);
    let m1 = m.insert(op, NodeView { children: uc, ..m[op] });
    let q = m1[np];
    assert(!q.children.contains(id)) by {
        if np != op && q.children.contains(id) {
            assert(m[np].children.contains(id));
        }
    }
    let j = clamp(ni, q.children.len() as int);
    lemma_insert_fresh(q.children, j, id);
    let d3 = moved_view(d, id, np, ni);
    let m3 = d3.nodes;
    let sub = subtree(m, id);
    assert(m3.dom() =~= m.dom());
    assert(op != id) by {
        let rank = choose|rank: Map<u64, nat>| ranked(m, rank);
    }
    assert forall|x: u64| #[trigger] m3.contains_key(x) && x != d.root implies (m3[x].parent matches Some(p) && m3.contains_key(p)
        && m3[p].children.contains(x)) by {
        if x != id {
            let p = m[x].parent.unwrap();
            lemma_child_listed(m, d.root, x, p);
        }
    }
    assert forall|x: u64, c: u64| #[trigger] m3.contains_key(x) && #[trigger] m3[x].children.contains(c) implies m3.contains_key(c)
        && m3[c].parent == Some(x) by {
        if x == np {
            if c != id {
                assert(q.children.contains(c));
                assert(m[x].children.contains(c) || (np == op && uc.contains(c)));
            }
        } else if x == op {
            assert(uc.contains(c));
        } else {
            assert(m[x].children.contains(c));
            if c == id {
                assert(m[id].parent == Some(x));
            }
        }
    }
    assert(tree_links(m3, d.root));
    let rank = choose|rank: Map<u64, nat>| ranked(m, rank);
    assert(!sub.contains(np)) by {
        if descends(m, np, id) {
            let path = choose|path: Seq<u64>| #[trigger] parent_chain(m, path) && path[0] == np && path.last() == id;
            assert(path.len() >= 2);
        }
    }
    assert(sub.contains(id)) by {
        assert(parent_chain(m, seq![id]));
    }
    let rank2 = Map::new(
        |x: u64| rank.contains_key(x),
        |x: u64| if sub.contains(x) { (rank[x] - rank[id] + rank[np] + 1) as nat } else { rank[x] },
    );
    assert forall|x: u64| #[trigger] m3.contains_key(x) implies rank2.contains_key(x) && (m3[x].parent matches Some(p)
        ==> rank2.contains_key(p) && rank2[p] < rank2[x]) by {
        if x == id {
        } else if sub.contains(x) {
            lemma_descends_parent(m, x, id);
            let p = m[x].parent.unwrap();
            lemma_subtree_rank(m, rank, id, x);
            lemma_subtree_rank(m, rank, id, p);
        } else if m3[x].parent is Some {
            let p = m[x].parent.unwrap();
            if sub.contains(p) {
                lemma_descends_child(m, x, p, id);
            }
        }
    }
    assert(ranked(m3, rank2));
}

/// Moving a node and then moving it back to the parent and index the first
/// move reported restores the document, when the old parent is a group: the
/// move back is accepted and reports the new parent and the clamped index the
/// first move put the node at (counted without the node itself).
pub proof fn lemma_move_back(d: DocView, id: u64, np: u64, ni: int)
    requires
        tree_wf(d.nodes, d.root, d.next_id),
        move_ok(d, id, np),
        0 <= ni,
        d.nodes[d.nodes[id].parent.unwrap()].kind is Group,
    ensures
        ({
            let op = d.nodes[id].parent.unwrap();
            let oi = d.nodes[op].children.index_of(id);
            let d2 = moved_view(d, id, np, ni);
            &&& move_ok(d2, id, op)
            &&& d2.nodes[id].parent == Some(np)
            &&& d2.nodes[np].children.index_of(id) == clamp(
                ni,
                d.nodes[np].children.len() - if np == op {
                    1int
                } else {
                    0int
                },
            )
            &&& moved_view(d2, id, op, oi) == d
        }),
{
    let m = d.nodes;
    let op = m[id].parent.unwrap();
    let oi = m[op].children.index_of(id);
    lemma_moved_wf(d, id, np, ni);
    lemma_remove_elem(m[op].children, id);
    let uc = unlinked_children(m, op, id);
    let m1 = m.insert(op, NodeView { children: uc, ..m[op] });
    let q = m1[np];
    assert(!q.children.contains(id)) by {
        if np != op && q.children.contains(id) {
            assert(m[np].children.contains(id));
        }
    }
    let j = clamp(ni, q.children.len() as int);
    lemma_insert_fresh(q.children, j, id);
    let d2 = moved_view(d, id, np, ni);
    let m2 = d2.nodes;
    let sub = subtree(m, id);
    lemma_parent_not_below(m, d.root, d.next_id, id, op);
    assert(!sub.contains(op));
    assert forall|x: u64| #[trigger] m2.contains_key(x) && !sub.contains(x) implies (m2[x].parent matches Some(p) ==> !sub.contains(p)) by {
        if x != id && m2[x].parent is Some {
            let p = m[x].parent.unwrap();
            if sub.contains(p) {
                lemma_descends_child(m, x, p, id);
            }
        }
        if x == id {
            assert(parent_chain(m, seq![id]));
        }
    }
    assert(!strict_ancestor(m2, id, op)) by {
        if strict_ancestor(m2, id, op) {
            let path = choose|path: Seq<u64>|
                #[trigger] parent_chain(m2, path) && path.len() >= 2 && path[0] == op && path.last() == id;
            lemma_chain_stays_out(m2, sub, path, path.len() - 1);
            assert(parent_chain(m, seq![id]));
        }
    }
    assert(move_ok(d2, id, op));
    assert(m2[np].children.index_of(id) == j);
    let d3 = moved_view(d2, id, op, oi);
    let m3 = d3.nodes;
    assert(m2[np].children == q.children.insert(j, id));
    assert(unlinked_children(m2, np, id) == q.children);
    assert(m3[op].children =~= m[op].children);
    assert(m3[np] == m[np]);
    assert(m3[id] == m[id]);
    assert(m3 =~= m);
}

impl Document {
    /// Move `id` under `new_parent` at `new_index` (clamped, counted after
    /// taking `id` out). Returns the old `(parent, index)`.
    pub fn move_node(&mut self, id: NodeId, new_parent: NodeId, new_index: usize) -> (r: Result<(NodeId, usize), TreeError>)
        requires
            old(self).wf(),
        ensures
            final(self).wf(),
            id.0 == old(self)@.root ==> r == Err::<(NodeId, usize), TreeError>(TreeError::RootImmutable)
                && final(self)@ == old(self)@,
            id.0 != old(self)@.root && (id.0 == new_parent.0 || strict_ancestor(old(self)@.nodes, id.0, new_parent.0)) ==> r
                == Err::<(NodeId, usize), TreeError>(TreeError::Cycle(id)) && final(self)@ == old(self)@,
            id.0 != old(self)@.root && id.0 != new_parent.0 && !strict_ancestor(old(self)@.nodes, id.0, new_parent.0)
                && !old(self)@.nodes.contains_key(new_parent.0) ==> r == Err::<(NodeId, usize), TreeError>(
                TreeError::NotFound(new_parent),
            ) && final(self)@ == old(self)@,
            id.0 != old(self)@.root && id.0 != new_parent.0 && !strict_ancestor(old(self)@.nodes, id.0, new_parent.0)
                && old(self)@.nodes.contains_key(new_parent.0) && !(old(self)@.nodes[new_parent.0].kind is Group) ==> r
                == Err::<(NodeId, usize), TreeError>(TreeError::NotAGroup(new_parent)) && final(self)@ == old(self)@,
            id.0 != old(self)@.root && id.0 != new_parent.0 && !strict_ancestor(old(self)@.nodes, id.0, new_parent.0)
                && old(self)@.nodes.contains_key(new_parent.0) && old(self)@.nodes[new_parent.0].kind is Group
                && !old(self)@.nodes.contains_key(id.0) ==> r == Err::<(NodeId, usize), TreeError>(TreeError::NotFound(id))
                && final(self)@ == old(self)@,
            move_ok(old(self)@, id.0, new_parent.0) ==> (r matches Ok((op, oi)) && {
                &&& old(self)@.nodes[id.0].parent == Some(op.0)
                &&& oi == old(self)@.nodes[op.0].children.index_of(id.0)
                &&& final(self)@ == moved_view(old(self)@, id.0, new_parent.0, new_index as int)
            }),
    {
        let ghost d = self@;
        let ghost m = d.nodes;
        if id.0 == self.root.0 {
            return Err(TreeError::RootImmutable);
        }
        if id.0 == new_parent.0 || self.is_ancestor(id, new_parent) {
            return Err(TreeError::Cycle(id));
        }
        match self.node(new_parent) {
            None => return Err(TreeError::NotFound(new_parent)),
            Some(n) => {
                if !n.kind.is_group() {
                    return Err(TreeError::NotAGroup(new_parent));
                }
            },
        }
        let old_parent = match self.node(id) {
            None => return Err(TreeError::NotFound(id)),
            Some(n) => match n.parent {
                Some(p) => p,
                None => {
                    assert(false);
                    return Err(TreeError::RootImmutable);
                },
            },
        };
        proof {
            lemma_moved_wf(d, id.0, new_parent.0, new_index as int);
            lemma_remove_elem(m[old_parent.0].children, id.0);
        }
        let old_index = match position(self.children(old_parent), id) {
            Some(i) => i,
            None => {
                assert(false);
                0
            },
        };
        assert(old_index == m[old_parent.0].children.index_of(id.0));
        let mut opn = match self.take_node(old_parent.0) {
            Some(n) => n,
            None => {
                assert(false);
                return Err(TreeError::NotFound(old_parent));
            },
        };
        opn.children.remove(old_index);
        proof {
            assert(ids_view(opn.children@) =~= unlinked_children(m, old_parent.0, id.0));
        }
        self.put_node(old_parent.0, opn);
        let mut npn = match self.take_node(new_parent.0) {
            Some(n) => n,
            None => {
                assert(false);
                return Err(TreeError::NotFound(new_parent));
            },
        };
        let len = npn.children.len();
        let at = if new_index < len {
            new_index
        } else {
            len
        };
        let ghost before = ids_view(npn.children@);
        npn.children.insert(at, id);
        proof {
            assert(ids_view(npn.children@) =~= before.insert(at as int, id.0));
        }
        self.put_node(new_parent.0, npn);
        let mut n = match self.take_node(id.0) {
            Some(n) => n,
            None => {
                assert(false);
                return Err(TreeError::NotFound(id));
            },
        };
        n.parent = Some(new_parent);
        self.put_node(id.0, n);
        proof {
            assert(self@.nodes =~= moved_view(d, id.0, new_parent.0, new_index as int).nodes);
        }
        Ok((old_parent, old_index))
    }
}

} // verus!
