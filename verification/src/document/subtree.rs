//! Reattaching removed subtrees, and the law that ties removal and
//! restoration together.

use vstd::prelude::*;
use crate::document::{
    clamp, descends, entries_view, entry_ids, inserted_view, lemma_descends_child, lemma_inserted_wf, lemma_remove_elem,
    lemma_removed_wf, parent_chain, ranked, removed_view, subtree, subtree_entries, tree_links, tree_wf,
    unlinked_children, DocView, Document, TreeError,
};
use crate::document::moves::{lemma_chain_stays_out, lemma_insert_fresh};
use crate::node::{ids_view, Node, NodeId, NodeView};

verus! {

/// `m` with the entries of `s` stored in order; a later entry for an id wins.
pub open spec fn stored(m: Map<u64, NodeView>, s: Seq<(u64, NodeView)>) -> Map<u64, NodeView>
    decreases s.len(),
{
    if s.len() == 0 {
        m
    } else {
        stored(m, s.drop_last()).insert(s.last().0, s.last().1)
    }
}

/// `d` with the entries of `s` stored and the first entry's id linked into
/// `parent`'s children at the clamped `index`.
pub open spec fn restored_view(d: DocView, s: Seq<(u64, NodeView)>, parent: u64, index: int) -> DocView {
    let m = stored(d.nodes, s);
    let p = m[parent];
    DocView {
        nodes: m.insert(
            parent,
            NodeView { children: p.children.insert(clamp(index, p.children.len() as int), s[0].0), ..p },
        ),
        ..d
    }
}

/// With duplicate-free ids, storing entries puts each entry's node at its id
/// and leaves every other id as it was.
pub proof fn lemma_stored(m: Map<u64, NodeView>, s: Seq<(u64, NodeView)>)
    requires
        entry_ids(s).no_duplicates(),
    ensures
        forall|k: u64| #[trigger] stored(m, s).contains_key(k) == (m.contains_key(k) || entry_ids(s).contains(k)),
        forall|k: u64| !entry_ids(s).contains(k) ==> #[trigger] stored(m, s)[k] == m[k],
        forall|i: int| 0 <= i < s.len() ==> #[trigger] stored(m, s)[s[i].0] == s[i].1,
    decreases s.len(),
{
    if s.len() > 0 {
        let t = s.drop_last();
        assert(entry_ids(t) =~= entry_ids(s).drop_last());
        assert(entry_ids(t).no_duplicates()) by {
            assert forall|a: int, b: int| 0 <= a < entry_ids(t).len() && 0 <= b < entry_ids(t).len() && a != b
                implies entry_ids(t)[a] != entry_ids(t)[b] by {
                assert(entry_ids(t)[a] == entry_ids(s)[a] && entry_ids(t)[b] == entry_ids(s)[b]);
            }
        }
        lemma_stored(m, t);
        let last = s.last();
        assert(stored(m, s) == stored(m, t).insert(last.0, last.1));
        assert forall|k: u64| #[trigger] entry_ids(s).contains(k) == (entry_ids(t).contains(k) || k == last.0) by {
            if entry_ids(s).contains(k) {
                let j = choose|j: int| 0 <= j < entry_ids(s).len() && entry_ids(s)[j] == k;
                if j < t.len() {
                    assert(entry_ids(t)[j] == k);
                }
            }
            if entry_ids(t).contains(k) {
                let j = choose|j: int| 0 <= j < entry_ids(t).len() && entry_ids(t)[j] == k;
                assert(entry_ids(s)[j] == k);
            }
            if k == last.0 {
                assert(entry_ids(s)[s.len() - 1] == k);
            }
        }
        assert forall|i: int| 0 <= i < s.len() implies #[trigger] stored(m, s)[s[i].0] == s[i].1 by {
            if i < t.len() {
                assert(t[i] == s[i]);
                assert(entry_ids(s)[i] == s[i].0 && entry_ids(s)[s.len() - 1] == last.0);
                assert(entry_ids(s)[i] != entry_ids(s)[s.len() - 1]);
                assert(stored(m, t)[t[i].0] == t[i].1);
            }
        }
        assert forall|k: u64| !entry_ids(s).contains(k) implies #[trigger] stored(m, s)[k] == m[k] by {
            assert(!entry_ids(t).contains(k));
            assert(k != last.0);
            assert(stored(m, t)[k] == m[k]);
        }
    }
}

/// Restoring what `remove_subtree` took out, at the parent and index it
/// reported, gives back the document as it was before the removal.
pub proof fn lemma_remove_then_restore(d: DocView, id: u64, s: Seq<(u64, NodeView)>, parent: u64, index: int)
    requires
        tree_wf(d.nodes, d.root, d.next_id),
        d.nodes.contains_key(id),
        id != d.root,
        d.nodes[id].parent == Some(parent),
        index == d.nodes[parent].children.index_of(id),
        subtree_entries(d.nodes, id, s),
    ensures
        stored(removed_view(d, id).nodes, s).contains_key(parent),
        restored_view(removed_view(d, id), s, parent, index) == d,
{
    let m = d.nodes;
    let sub = subtree(m, id);
    lemma_removed_wf(d, id);
    assert(m[parent].children.contains(id));
    lemma_remove_elem(m[parent].children, id);
    let r = removed_view(d, id);
    lemma_stored(r.nodes, s);
    let m2 = stored(r.nodes, s);
    assert(entry_ids(s).to_set() == sub);
    assert forall|k: u64| #[trigger] entry_ids(s).contains(k) == sub.contains(k) by {
        assert(entry_ids(s).to_set().contains(k) == entry_ids(s).contains(k));
    }
    assert forall|k: u64| #[trigger] m2.contains_key(k) == m.contains_key(k) by {
        if sub.contains(k) {
            assert(m.contains_key(k));
        }
    }
    assert forall|k: u64| m2.contains_key(k) && k != parent implies #[trigger] m2[k] == m[k] by {
        if entry_ids(s).contains(k) {
            let j = choose|j: int| 0 <= j < entry_ids(s).len() && entry_ids(s)[j] == k;
            assert(s[j].0 == k);
            assert(m2[s[j].0] == s[j].1);
        }
    }
    assert(!entry_ids(s).contains(parent));
    assert(s[0].0 == id);
    let uc = unlinked_children(m, parent, id);
    assert(m2[parent].children == uc);
    assert(clamp(index, uc.len() as int) == index);
    let back = restored_view(r, s, parent, index);
    assert(back.nodes[parent].children == m[parent].children);
    assert(back.nodes =~= m);
}

/// Removing a node just inserted (fresh and childless) gives back the
/// document as it was before the insert; its subtree is the node alone.
pub proof fn lemma_insert_then_remove(d: DocView, id: u64, n: NodeView, parent: u64, index: int)
    requires
        tree_wf(d.nodes, d.root, d.next_id),
        !d.nodes.contains_key(id),
        id < d.next_id,
        n.children.len() == 0,
        d.nodes.contains_key(parent),
        0 <= index,
    ensures
        subtree(inserted_view(d, id, n, parent, index).nodes, id) == set![id],
        removed_view(inserted_view(d, id, n, parent, index), id) == d,
{
    lemma_inserted_wf(d, id, n, parent, index);
    let d1 = inserted_view(d, id, n, parent, index);
    let m1 = d1.nodes;
    assert forall|x: u64| subtree(m1, id).contains(x) == (x == id) by {
        if x == id {
            assert(parent_chain(m1, seq![id]));
        } else if subtree(m1, id).contains(x) {
            let path = choose|path: Seq<u64>| #[trigger] parent_chain(m1, path) && path[0] == x && path.last() == id;
            let y = path[path.len() - 2];
            assert(m1.contains_key(y));
            assert(m1[y].parent == Some(id));
            assert(y != d.root);
            assert(m1[id].children.contains(y));
        }
    }
    assert(subtree(m1, id) =~= set![id]);
    let pc = d.nodes[parent].children;
    assert(!pc.contains(id)) by {
        if pc.contains(id) {
            assert(d.nodes.contains_key(id));
        }
    }
    lemma_insert_fresh(pc, clamp(index, pc.len() as int), id);
    assert(removed_view(d1, id).nodes =~= d.nodes);
}

/// `s` is a subtree ready to hang under `parent` of `d`: its ids are
/// distinct, unused and allocated; its first entry names `parent` as its
/// parent; every other entry's parent comes earlier; and parent and child
/// links among the entries agree.
pub open spec fn fresh_tree(d: DocView, s: Seq<(u64, NodeView)>, parent: u64) -> bool {
    let ids = entry_ids(s);
    &&& s.len() >= 1
    &&& ids.no_duplicates()
    &&& forall|i: int| 0 <= i < s.len() ==> !d.nodes.contains_key(#[trigger] ids[i]) && ids[i] < d.next_id
    &&& d.nodes.contains_key(parent)
    &&& s[0].1.parent == Some(parent)
    &&& forall|i: int|
        #![trigger s[i]]
        0 < i < s.len() ==> exists|j: int| 0 <= j < i && s[i].1.parent == Some(#[trigger] ids[j])
    &&& forall|i: int| 0 <= i < s.len() ==> (#[trigger] s[i]).1.children.no_duplicates()
    &&& forall|i: int, c: u64|
        0 <= i < s.len() && #[trigger] s[i].1.children.contains(c) ==> exists|k: int|
            0 < k < s.len() && #[trigger] ids[k] == c && s[k].1.parent == Some(ids[i])
    &&& forall|i: int, k: int|
        0 <= i < s.len() && 0 < k < s.len() && s[k].1.parent == Some(#[trigger] ids[i]) ==> s[i].1.children.contains(
            #[trigger] ids[k],
        )
}

/// Every entry of a fresh subtree lies below its first entry once restored.
proof fn lemma_fresh_descends(m2: Map<u64, NodeView>, s: Seq<(u64, NodeView)>, i: int)
    requires
        0 <= i < s.len(),
        forall|k: int| 0 <= k < s.len() ==> m2.contains_key(#[trigger] entry_ids(s)[k]) && m2[entry_ids(s)[k]] == s[k].1,
        forall|k: int|
            #![trigger s[k]]
            0 < k < s.len() ==> exists|j: int| 0 <= j < k && s[k].1.parent == Some(#[trigger] entry_ids(s)[j]),
    ensures
        descends(m2, entry_ids(s)[i], entry_ids(s)[0]),
    decreases i,
{
    let ids = entry_ids(s);
    if i == 0 {
        assert(m2.contains_key(ids[0]));
        assert(parent_chain(m2, seq![ids[0]]));
    } else {
        assert(s[i] == s[i]);
        let j = choose|j: int| 0 <= j < i && s[i].1.parent == Some(#[trigger] ids[j]);
        lemma_fresh_descends(m2, s, j);
        assert(m2.contains_key(ids[i]));
        lemma_descends_child(m2, ids[i], ids[j], ids[0]);
    }
}

/// Hanging a fresh subtree under a present node keeps the tree well formed,
/// and removing the subtree again gives the document back.
pub proof fn lemma_restore_fresh(d: DocView, s: Seq<(u64, NodeView)>, parent: u64, index: int)
    requires
        tree_wf(d.nodes, d.root, d.next_id),
        fresh_tree(d, s, parent),
        0 <= index,
    ensures
        stored(d.nodes, s).contains_key(parent),
        tree_wf(restored_view(d, s, parent, index).nodes, d.root, d.next_id),
        restored_view(d, s, parent, index).nodes.contains_key(s[0].0),
        s[0].0 != d.root,
        removed_view(restored_view(d, s, parent, index), s[0].0) == d,
{
    let m = d.nodes;
    let ids = entry_ids(s);
    lemma_stored(m, s);
    let m1 = stored(m, s);
    assert forall|k: int| 0 <= k < s.len() implies m1.contains_key(#[trigger] ids[k]) && m1[ids[k]] == s[k].1 by {
        assert(ids[k] == s[k].0);
        assert(ids.contains(ids[k]));
    }
    assert(!ids.contains(parent)) by {
        if ids.contains(parent) {
            let k = choose|k: int| 0 <= k < ids.len() && ids[k] == parent;
        }
    }
    assert(!ids.contains(d.root)) by {
        if ids.contains(d.root) {
            let k = choose|k: int| 0 <= k < ids.len() && ids[k] == d.root;
        }
    }
    assert forall|x: u64| #[trigger] ids.contains(x) implies !m.contains_key(x) by {
        let k = choose|k: int| 0 <= k < ids.len() && ids[k] == x;
    }
    let p = m1[parent];
    assert(p == m[parent]);
    let pc = p.children;
    let k0 = clamp(index, pc.len() as int);
    let r0 = ids[0];
    assert(r0 == s[0].0);
    assert(!pc.contains(r0)) by {
        if pc.contains(r0) {
            assert(m.contains_key(r0));
        }
    }
    lemma_insert_fresh(pc, k0, r0);
    let pc2 = pc.insert(k0, r0);
    let rv = restored_view(d, s, parent, index);
    let m2 = rv.nodes;
    assert(m2 == m1.insert(parent, NodeView { children: pc2, ..p }));
    assert forall|k: int| 0 <= k < s.len() implies m2.contains_key(#[trigger] ids[k]) && m2[ids[k]] == s[k].1 by {
        assert(m1.contains_key(ids[k]));
        assert(ids.contains(ids[k]));
    }
    // ids index of each entry
    assert forall|k: int| 0 <= k < ids.len() implies ids.index_of(#[trigger] ids[k]) == k by {
        assert(ids.contains(ids[k]));
        let w = ids.index_of(ids[k]);
        if w != k {
            assert(ids[w] == ids[k]);
        }
    }
    assert(tree_links(m2, d.root)) by {
        assert forall|x: u64| #[trigger] m2.contains_key(x) && x != d.root implies (m2[x].parent matches Some(q)
            && m2.contains_key(q) && m2[q].children.contains(x)) by {
            if ids.contains(x) {
                let i = choose|i: int| 0 <= i < ids.len() && ids[i] == x;
                if i == 0 {
                    assert(m2[x] == s[0].1);
                    assert(pc2[k0] == r0);
                } else {
                    assert(s[i] == s[i]);
                    let j = choose|j: int| 0 <= j < i && s[i].1.parent == Some(#[trigger] ids[j]);
                    assert(m2[ids[j]] == s[j].1);
                    assert(s[j].1.children.contains(ids[i]));
                }
            } else {
                assert(m.contains_key(x));
                let q = m[x].parent.unwrap();
                assert(m2[x].parent == m[x].parent);
                assert(m.contains_key(q) && m[q].children.contains(x));
                assert(!ids.contains(q));
                if q == parent {
                    assert(pc2.contains(x));
                } else {
                    assert(m2[q] == m[q]);
                }
            }
        }
        assert forall|x: u64| #[trigger] m2.contains_key(x) implies m2[x].children.no_duplicates() by {
            if ids.contains(x) {
                let i = choose|i: int| 0 <= i < ids.len() && ids[i] == x;
                assert(m2[x] == s[i].1);
                assert(s[i].1.children.no_duplicates());
            } else if x != parent {
                assert(m2[x] == m[x]);
            }
        }
        assert forall|x: u64, c: u64| #[trigger] m2.contains_key(x) && #[trigger] m2[x].children.contains(c) implies m2.contains_key(c)
            && m2[c].parent == Some(x) by {
            if ids.contains(x) {
                let i = choose|i: int| 0 <= i < ids.len() && ids[i] == x;
                assert(m2[x] == s[i].1);
                let k = choose|k: int| 0 < k < s.len() && #[trigger] ids[k] == c && s[k].1.parent == Some(ids[i]);
                assert(m2[ids[k]] == s[k].1);
            } else if x == parent {
                if c != r0 {
                    assert(pc.contains(c));
                    assert(m.contains_key(c) && m[c].parent == Some(parent));
                    assert(!ids.contains(c));
                    if c != parent {
                        assert(m2[c] == m[c]);
                    }
                } else {
                    assert(m2[r0] == s[0].1);
                }
            } else {
                assert(m2[x] == m[x]);
                assert(m.contains_key(c) && m[c].parent == Some(x));
                assert(!ids.contains(c));
                if c != parent {
                    assert(m2[c] == m[c]);
                }
            }
        }
    }
    let rank = choose|rank: Map<u64, nat>| ranked(m, rank);
    let rank2 = Map::new(
        |x: u64| m2.contains_key(x),
        |x: u64| if ids.contains(x) { (rank[parent] + 1 + ids.index_of(x)) as nat } else { rank[x] },
    );
    assert(ranked(m2, rank2)) by {
        assert forall|x: u64| #[trigger] m2.contains_key(x) implies rank2.contains_key(x) && (m2[x].parent matches Some(q)
            ==> rank2.contains_key(q) && rank2[q] < rank2[x]) by {
            if ids.contains(x) {
                let i = choose|i: int| 0 <= i < ids.len() && ids[i] == x;
                assert(ids.index_of(x) == i);
                if i == 0 {
                    assert(m2[x].parent == Some(parent));
                    assert(m.contains_key(parent));
                } else {
                    assert(s[i] == s[i]);
                    let j = choose|j: int| 0 <= j < i && s[i].1.parent == Some(#[trigger] ids[j]);
                    assert(m2[x] == s[i].1);
                    assert(ids.index_of(ids[j]) == j);
                    assert(ids.contains(ids[j]));
                }
            } else {
                assert(m.contains_key(x));
                if let Some(q) = m2[x].parent {
                    assert(m[x].parent == Some(q));
                    assert(m.contains_key(q));
                    assert(!ids.contains(q));
                }
            }
        }
    }
    assert forall|x: u64| #[trigger] m2.contains_key(x) implies x < d.next_id by {
        if ids.contains(x) {
            let i = choose|i: int| 0 <= i < ids.len() && ids[i] == x;
        }
    }
    assert(tree_wf(m2, d.root, d.next_id));
    // Removing the subtree again.
    assert(m2[r0].parent == Some(parent));
    assert(unlinked_children(m2, parent, r0) == pc);
    let idset = ids.to_set();
    assert forall|x: u64| #[trigger] subtree(m2, r0).contains(x) == idset.contains(x) by {
        if idset.contains(x) {
            let i = choose|i: int| 0 <= i < ids.len() && ids[i] == x;
            lemma_fresh_descends(m2, s, i);
        }
        if subtree(m2, r0).contains(x) && !idset.contains(x) {
            let path = choose|path: Seq<u64>| #[trigger] parent_chain(m2, path) && path[0] == x && path.last() == r0;
            assert forall|y: u64| #[trigger] m2.contains_key(y) && !idset.contains(y) implies (m2[y].parent matches Some(q)
                ==> !idset.contains(q)) by {
                assert(!ids.contains(y));
                assert(m.contains_key(y));
                if let Some(q) = m2[y].parent {
                    assert(m[y].parent == Some(q));
                    assert(m.contains_key(q));
                    assert(!ids.contains(q));
                }
            }
            lemma_chain_stays_out(m2, idset, path, path.len() - 1);
            assert(ids.contains(r0));
        }
    }
    let back = removed_view(rv, r0);
    assert(back.nodes =~= m) by {
        assert forall|x: u64| #[trigger] back.nodes.contains_key(x) == m.contains_key(x) by {
            if ids.contains(x) {
                assert(idset.contains(x));
            }
            if m.contains_key(x) {
                assert(!ids.contains(x));
                assert(!idset.contains(x));
            }
        }
        assert forall|x: u64| back.nodes.contains_key(x) implies back.nodes[x] == m[x] by {
            assert(!idset.contains(x));
            assert(!ids.contains(x));
        }
    }
}

impl Document {
    /// Reinsert a subtree removed by `remove_subtree` (ids and links as they
    /// were): store every entry, then link the first entry's id into
    /// `parent`'s children at `index`, clamped to the child count.
    pub fn restore_subtree(&mut self, removed: Vec<(NodeId, Node)>, parent: NodeId, index: usize) -> (r: Result<(), TreeError>)
        ensures
            removed@.len() == 0 ==> r == Err::<(), TreeError>(TreeError::RootImmutable) && final(self)@ == old(self)@,
            removed@.len() > 0 && !stored(old(self)@.nodes, entries_view(removed@)).contains_key(parent.0) ==> r
                == Err::<(), TreeError>(TreeError::NotFound(parent)) && final(self)@ == (DocView {
                nodes: stored(old(self)@.nodes, entries_view(removed@)),
                ..old(self)@
            }),
            removed@.len() > 0 && stored(old(self)@.nodes, entries_view(removed@)).contains_key(parent.0) ==> r is Ok
                && final(self)@ == restored_view(old(self)@, entries_view(removed@), parent.0, index as int),
    {
        if removed.len() == 0 {
            return Err(TreeError::RootImmutable);
        }
        let root_id = removed[0].0;
        let ghost ev = entries_view(removed@);
        let ghost d = self@;
        for e in it: removed.into_iter()
            invariant
                it.seq() == removed@,
                ev == entries_view(removed@),
                self@ == (DocView { nodes: stored(d.nodes, ev.take(it.index() as int)), ..d }),
        {
            let (id, node) = e;
            let ghost k = it.index() as int;
            proof {
                assert(ev.take(k + 1).drop_last() =~= ev.take(k));
                assert(ev[k] == (id.0, node@));
            }
            self.put_node(id.0, node);
        }
        proof {
            assert(ev.take(ev.len() as int) =~= ev);
        }
        let mut p = match self.take_node(parent.0) {
            Some(p) => p,
            None => {
                proof {
                    assert(self@.nodes =~= stored(d.nodes, ev));
                }
                return Err(TreeError::NotFound(parent));
            },
        };
        let len = p.children.len();
        let at = if index < len {
            index
        } else {
            len
        };
        let ghost before = ids_view(p.children@);
        p.children.insert(at, root_id);
        proof {
            assert(ids_view(p.children@) =~= before.insert(at as int, root_id.0));
        }
        self.put_node(parent.0, p);
        proof {
            assert(self@.nodes =~= restored_view(d, ev, parent.0, index as int).nodes);
        }
        Ok(())
    }
}

} // verus!
