//! Replacing top-level layers by one pre-built raster layer: flattening the
//! whole tree, or merging chosen top-level layers. The pixels of the new
//! layer are composited by the caller.

use vstd::prelude::*;
use crate::document::subtree::{lemma_insert_then_remove, lemma_remove_then_restore, restored_view, stored};
use crate::document::{
    entries_view, inserted_view, lemma_removed_wf, parent_chain, position, removed_view, subtree, subtree_entries, tree_links,
    tree_wf, DocView, Document, ExtractedSubtree,
};
use crate::node::{copy_ids, ids_view, Node, NodeId, NodeView};

verus! {

/// The entries of `c` that `t` lists, last first.
pub open spec fn picked_desc(c: Seq<u64>, t: Seq<u64>) -> Seq<u64>
    decreases c.len(),
{
    if c.len() == 0 {
        Seq::empty()
    } else {
        picked_desc(c.skip(1), t) + if t.contains(c[0]) {
            seq![c[0]]
        } else {
            Seq::empty()
        }
    }
}

/// The entries of `c` that `t` does not list, in order.
pub open spec fn kept(c: Seq<u64>, t: Seq<u64>) -> Seq<u64>
    decreases c.len(),
{
    if c.len() == 0 {
        Seq::empty()
    } else {
        (if t.contains(c[0]) {
            Seq::empty()
        } else {
            seq![c[0]]
        }) + kept(c.skip(1), t)
    }
}

/// `d` with the subtrees at `ids` removed, first listed first.
pub open spec fn removed_all(d: DocView, ids: Seq<u64>) -> DocView
    decreases ids.len(),
{
    if ids.len() == 0 {
        d
    } else {
        removed_view(removed_all(d, ids.drop_last()), ids.last())
    }
}

/// Views of captured removals: entries, parent, index.
pub open spec fn removals_view(rs: Seq<ExtractedSubtree>) -> Seq<(Seq<(u64, NodeView)>, u64, int)> {
    rs.map_values(|r: ExtractedSubtree| (entries_view(r.0@), r.1.0, r.2 as int))
}

/// `e` with captured removals restored, the last captured first.
pub open spec fn restored_all(e: DocView, rs: Seq<(Seq<(u64, NodeView)>, u64, int)>) -> DocView
    decreases rs.len(),
{
    if rs.len() == 0 {
        e
    } else {
        restored_all(restored_view(e, rs.last().0, rs.last().1, rs.last().2), rs.drop_last())
    }
}

/// `d` with the root's children that `t` lists removed, bottom-most first,
/// and the raster `n` added as child `id` on top of the root.
pub open spec fn replaced_view(d: DocView, t: Seq<u64>, id: u64, n: NodeView) -> DocView {
    inserted_view(removed_all(d, picked_desc(d.nodes[d.root].children, t)), id, n, d.root, 0)
}

/// Two children of the root lie outside each other's subtrees, and the root
/// lies outside both.
proof fn lemma_sibling_outside(m: Map<u64, NodeView>, root: u64, a: u64, b: u64)
    requires
        tree_links(m, root),
        m.contains_key(a),
        m.contains_key(b),
        m[a].parent == Some(root),
        m[b].parent == Some(root),
        a != b,
    ensures
        !subtree(m, b).contains(a),
        !subtree(m, b).contains(root),
{
    if subtree(m, b).contains(a) {
        let path = choose|path: Seq<u64>| #[trigger] parent_chain(m, path) && path[0] == a && path.last() == b;
        assert(path.len() >= 2);
        assert(m[path[0]].parent == Some(path[1]));
        if path.len() > 2 {
            assert(m[path[1]].parent == Some(path[2]));
        }
    }
    if subtree(m, b).contains(root) {
        let path = choose|path: Seq<u64>| #[trigger] parent_chain(m, path) && path[0] == root && path.last() == b;
        if path.len() >= 2 {
            assert(m[path[0]].parent == Some(path[1]));
        }
    }
}

/// Restoring the captured removals in reverse undoes removing them.
proof fn lemma_restored_all(d: DocView, ids: Seq<u64>, rv: Seq<(Seq<(u64, NodeView)>, u64, int)>, k: int)
    requires
        rv.len() == ids.len(),
        0 <= k <= ids.len(),
        forall|i: int|
            0 <= i < ids.len() ==> restored_view(
                #[trigger] removed_all(d, ids.take(i + 1)),
                rv[i].0,
                rv[i].1,
                rv[i].2,
            ) == removed_all(d, ids.take(i)),
    ensures
        restored_all(removed_all(d, ids.take(k)), rv.take(k)) == d,
    decreases k,
{
    if k == 0 {
        assert(ids.take(0) =~= Seq::<u64>::empty());
        assert(rv.take(0) =~= Seq::<(Seq<(u64, NodeView)>, u64, int)>::empty());
    } else {
        lemma_restored_all(d, ids, rv, k - 1);
        assert(rv.take(k).drop_last() =~= rv.take(k - 1));
        assert(rv.take(k).last() == rv[k - 1]);
        let i = k - 1;
        assert(restored_view(removed_all(d, ids.take(i + 1)), rv[i].0, rv[i].1, rv[i].2) == removed_all(d, ids.take(i)));
        assert(ids.take(i + 1) == ids.take(k));
    }
}

/// Remove, bottom-most first, the root's children that `targets` lists;
/// returns what each removal took out, in removal order.
#[verifier::rlimit(40)]
#[verifier::spinoff_prover]
fn remove_root_children(doc: &mut Document, targets: &[NodeId]) -> (r: Vec<ExtractedSubtree>)
    requires
        old(doc).wf(),
    ensures
        final(doc).wf(),
        ({
            let d = old(doc)@;
            let c = d.nodes[d.root].children;
            let t = ids_view(targets@);
            &&& final(doc)@ == removed_all(d, picked_desc(c, t))
            &&& final(doc)@ == (DocView { nodes: final(doc)@.nodes, ..d })
            &&& final(doc)@.nodes.contains_key(d.root)
            &&& final(doc)@.nodes[d.root] == (NodeView { children: kept(c, t), ..d.nodes[d.root] })
            &&& forall|x: u64| #[trigger] final(doc)@.nodes.contains_key(x) ==> d.nodes.contains_key(x)
            &&& forall|x: u64| #[trigger] final(doc)@.nodes.contains_key(x) && x != d.root ==> final(doc)@.nodes[x] == d.nodes[x]
            &&& forall|x: u64| #[trigger] kept(c, t).contains(x) ==> final(doc)@.nodes.contains_key(x)
            &&& restored_all(final(doc)@, removals_view(r@)) == d
            &&& forall|i: int| 0 <= i < r@.len() ==> (#[trigger] removals_view(r@)[i]).0.len() > 0 && removals_view(r@)[i].1 == d.root
        }),
{
    let ghost d = doc@;
    let ghost root = d.root;
    let ghost t = ids_view(targets@);
    let rootn = doc.root();
    let kids = copy_ids(doc.children(rootn));
    let ghost c = ids_view(kids@);
    proof {
        assert(c == d.nodes[root].children);
        assert(c.skip(c.len() as int) =~= Seq::<u64>::empty());
        assert(c.take(c.len() as int) + Seq::<u64>::empty() =~= c);
        assert(d.nodes[root] == (NodeView { children: c, ..d.nodes[root] }));
        assert forall|i: int| 0 <= i < c.len() implies d.nodes.contains_key(#[trigger] c[i]) by {
            assert(d.nodes[root].children.contains(c[i]));
        }
    }
    let mut out: Vec<ExtractedSubtree> = Vec::new();
    let mut j: usize = kids.len();
    while j > 0
        invariant
            j <= kids@.len(),
            c == ids_view(kids@),
            c == d.nodes[root].children,
            root == d.root,
            rootn.0 == root,
            t == ids_view(targets@),
            tree_wf(d.nodes, d.root, d.next_id),
            doc.wf(),
            doc@ == removed_all(d, picked_desc(c.skip(j as int), t)),
            doc@ == (DocView { nodes: doc@.nodes, ..d }),
            doc@.nodes.contains_key(root),
            doc@.nodes[root] == (NodeView { children: c.take(j as int) + kept(c.skip(j as int), t), ..d.nodes[root] }),
            forall|x: u64| #[trigger] doc@.nodes.contains_key(x) ==> d.nodes.contains_key(x),
            forall|x: u64| #[trigger] doc@.nodes.contains_key(x) && x != root ==> doc@.nodes[x] == d.nodes[x],
            forall|i: int| 0 <= i < j ==> doc@.nodes.contains_key(#[trigger] c[i]),
            forall|x: u64| #[trigger] kept(c.skip(j as int), t).contains(x) ==> doc@.nodes.contains_key(x),
            removals_view(out@).len() == picked_desc(c.skip(j as int), t).len(),
            forall|i: int| 0 <= i < out@.len() ==> (#[trigger] removals_view(out@)[i]).0.len() > 0 && removals_view(out@)[i].1
                == root,
            forall|i: int|
                0 <= i < out@.len() ==> restored_view(
                    #[trigger] removed_all(d, picked_desc(c.skip(j as int), t).take(i + 1)),
                    removals_view(out@)[i].0,
                    removals_view(out@)[i].1,
                    removals_view(out@)[i].2,
                ) == removed_all(d, picked_desc(c.skip(j as int), t).take(i)),
        decreases j,
    {
        let x = kids[j - 1];
        let ghost cur = doc@;
        let ghost pj = picked_desc(c.skip(j as int), t);
        let ghost s = c.skip(j - 1);
        proof {
            assert(s.skip(1) =~= c.skip(j as int));
            assert(s[0] == c[j - 1]);
            assert(x.0 == c[j - 1]);
            assert(c.take(j as int) =~= c.take(j - 1).push(x.0));
            assert(d.nodes[root].children.contains(x.0)) by {
                assert(c[j - 1] == x.0);
            }
        }
        if position(targets, x).is_some() {
            let ghost kids_now = cur.nodes[root].children;
            proof {
                assert(t.contains(x.0));
                assert(picked_desc(s, t) == pj + seq![x.0]);
                assert(kept(s, t) == kept(c.skip(j as int), t));
                assert(cur.nodes.contains_key(x.0));
                assert(cur.nodes[x.0] == d.nodes[x.0]);
                assert(d.nodes[x.0].parent == Some(root));
                assert(kids_now[j - 1] == x.0);
                let w = kids_now.index_of(x.0);
                assert(kids_now.contains(x.0));
                if w != j - 1 {
                    assert(kids_now[w] == kids_now[j - 1]);
                }
                assert(kids_now.remove(j - 1) =~= c.take(j - 1) + kept(s, t));
                lemma_removed_wf(cur, x.0);
            }
            match doc.remove_subtree(x) {
                Ok(e) => {
                    proof {
                        lemma_remove_then_restore(cur, x.0, entries_view(e.0@), root, e.2 as int);
                        let ps = pj + seq![x.0];
                        assert(ps.drop_last() =~= pj);
                        assert(ps.last() == x.0);
                        assert(ps.take(ps.len() as int) =~= ps);
                        assert(pj.take(pj.len() as int) =~= pj);
                        assert forall|i: int| 0 <= i <= pj.len() implies #[trigger] ps.take(i) == pj.take(i) by {
                            assert(ps.take(i) =~= pj.take(i));
                        }
                        assert forall|i: int| 0 <= i < j - 1 implies doc@.nodes.contains_key(#[trigger] c[i]) by {
                            assert(cur.nodes.contains_key(c[i]));
                            assert(d.nodes[root].children.contains(c[i]));
                            assert(d.nodes[c[i]].parent == Some(root));
                            assert(c[i] != x.0);
                            lemma_sibling_outside(cur.nodes, root, c[i], x.0);
                        }
                        assert forall|y: u64| #[trigger] kept(s, t).contains(y) implies doc@.nodes.contains_key(y) by {
                            assert(cur.nodes.contains_key(y));
                            let q = choose|q: int| 0 <= q < kept(s, t).len() && kept(s, t)[q] == y;
                            assert(kids_now[j + q] == y);
                            assert(kids_now.contains(y));
                            assert(kids_now.no_duplicates());
                            assert(kids_now[j + q] != kids_now[j - 1]);
                            assert(y != x.0);
                            lemma_sibling_outside(cur.nodes, root, y, x.0);
                        }
                    }
                    let ghost before = removals_view(out@);
                    let ghost ev = (entries_view(e.0@), e.1.0, e.2 as int);
                    out.push(e);
                    proof {
                        assert(removals_view(out@) =~= before.push(ev));
                    }
                },
                Err(_) => {
                    assert(false);
                },
            }
        } else {
            proof {
                assert(!t.contains(x.0));
                assert(picked_desc(s, t) == pj);
                assert(kept(s, t) == seq![x.0] + kept(c.skip(j as int), t));
                assert(c.take(j as int) + kept(c.skip(j as int), t) =~= c.take(j - 1) + kept(s, t));
                assert forall|y: u64| #[trigger] kept(s, t).contains(y) implies doc@.nodes.contains_key(y) by {
                    if y != x.0 {
                        let q = choose|q: int| 0 <= q < kept(s, t).len() && kept(s, t)[q] == y;
                        assert(kept(c.skip(j as int), t)[q - 1] == y);
                        assert(kept(c.skip(j as int), t).contains(y));
                    } else {
                        assert(c[j - 1] == y);
                    }
                }
            }
        }
        j -= 1;
    }
    proof {
        let ids = picked_desc(c, t);
        assert(c.skip(0) =~= c);
        assert(c.take(0) + kept(c, t) =~= kept(c, t));
        lemma_restored_all(d, ids, removals_view(out@), ids.len() as int);
        assert(ids.take(ids.len() as int) =~= ids);
        assert(removals_view(out@).take(ids.len() as int) =~= removals_view(out@));
    }
    out
}


/// Storing entries keeps every key already present.
proof fn lemma_stored_keeps(m: Map<u64, NodeView>, s: Seq<(u64, NodeView)>, k: u64)
    requires
        m.contains_key(k),
    ensures
        stored(m, s).contains_key(k),
    decreases s.len(),
{
    if s.len() > 0 {
        lemma_stored_keeps(m, s.drop_last(), k);
    }
}

/// Restoring keeps everything but the nodes.
proof fn lemma_restored_all_fields(e: DocView, rs: Seq<(Seq<(u64, NodeView)>, u64, int)>)
    ensures
        restored_all(e, rs) == (DocView { nodes: restored_all(e, rs).nodes, ..e }),
    decreases rs.len(),
{
    if rs.len() > 0 {
        lemma_restored_all_fields(restored_view(e, rs.last().0, rs.last().1, rs.last().2), rs.drop_last());
    }
}

/// Restore captured removals, the last captured first.
fn restore_removals(doc: &mut Document, rs: Vec<ExtractedSubtree>)
    requires
        old(doc)@.nodes.contains_key(old(doc)@.root),
        forall|i: int| 0 <= i < rs@.len() ==> (#[trigger] removals_view(rs@)[i]).0.len() > 0 && removals_view(rs@)[i].1
            == old(doc)@.root,
    ensures
        final(doc)@ == restored_all(old(doc)@, removals_view(rs@)),
{
    let ghost want = restored_all(doc@, removals_view(rs@));
    let ghost root = doc@.root;
    let mut rs = rs;
    while rs.len() > 0
        invariant
            restored_all(doc@, removals_view(rs@)) == want,
            doc@.root == root,
            doc@.nodes.contains_key(root),
            forall|i: int| 0 <= i < rs@.len() ==> (#[trigger] removals_view(rs@)[i]).0.len() > 0 && removals_view(rs@)[i].1
                == root,
        decreases rs@.len(),
    {
        let ghost before = removals_view(rs@);
        let ghost cur = doc@;
        match rs.pop() {
            Some(e) => {
                let ghost ev = (entries_view(e.0@), e.1.0, e.2 as int);
                proof {
                    assert(before.last() == ev);
                    assert(removals_view(rs@) =~= before.drop_last());
                    lemma_stored_keeps(cur.nodes, ev.0, root);
                }
                let (nodes, parent, index) = e;
                let _ = doc.restore_subtree(nodes, parent, index);
                proof {
                    assert forall|i: int| 0 <= i < rs@.len() implies (#[trigger] removals_view(rs@)[i]).0.len() > 0
                        && removals_view(rs@)[i].1 == root by {
                        assert(removals_view(rs@)[i] == before[i]);
                    }
                }
            },
            None => {
                assert(false);
            },
        }
    }
}

/// The raster can go on top of the root: the root is a group, the id is
/// allocated and unused, and the raster has no children.
pub open spec fn raster_fits(d: DocView, id: u64, n: NodeView) -> bool {
    &&& d.nodes[d.root].kind is Group
    &&& !d.nodes.contains_key(id)
    &&& id < d.next_id
    &&& n.children.len() == 0
}

/// Undoing after a replace puts back exactly what it took out.
pub open spec fn undo_fits(e: DocView, id: u64, rs: Seq<(Seq<(u64, NodeView)>, u64, int)>) -> bool {
    &&& e.nodes.contains_key(id)
    &&& id != e.root
    &&& forall|i: int| 0 <= i < rs.len() ==> (#[trigger] rs[i]).0.len() > 0 && rs[i].1 == e.root
    &&& tree_wf(restored_all(removed_view(e, id), rs).nodes, e.root, e.next_id)
}

/// Remove the root's children that `targets` lists and put `raster` on top
/// of the root; returns what the removals took out.
fn replace_top(doc: &mut Document, targets: &[NodeId], id: NodeId, raster: &Node) -> (r: Vec<ExtractedSubtree>)
    requires
        old(doc).wf(),
        raster_fits(old(doc)@, id.0, raster@),
    ensures
        final(doc).wf(),
        final(doc)@ == replaced_view(old(doc)@, ids_view(targets@), id.0, raster@),
        undo_fits(final(doc)@, id.0, removals_view(r@)),
        restored_all(removed_view(final(doc)@, id.0), removals_view(r@)) == old(doc)@,
{
    let ghost d = doc@;
    let out = remove_root_children(doc, targets);
    let ghost cleared = doc@;
    let root = doc.root();
    let _ = doc.insert_node(id, raster.duplicate(), root, 0);
    proof {
        lemma_insert_then_remove(cleared, id.0, raster@, root.0, 0);
    }
    out
}

/// Take the raster off the root and restore the captured removals.
fn undo_replace(doc: &mut Document, id: NodeId, rs: Vec<ExtractedSubtree>)
    requires
        old(doc).wf(),
        undo_fits(old(doc)@, id.0, removals_view(rs@)),
    ensures
        final(doc).wf(),
        final(doc)@ == restored_all(removed_view(old(doc)@, id.0), removals_view(rs@)),
{
    let ghost e = doc@;
    proof {
        lemma_removed_wf(e, id.0);
    }
    let _ = doc.remove_subtree(id);
    restore_removals(doc, rs);
    proof {
        lemma_restored_all_fields(removed_view(e, id.0), removals_view(rs@));
    }
}

/// Replace the whole layer tree with one pre-built raster layer (Flatten
/// Image). The flattened pixels are composited by the caller.
#[derive(Debug)]
pub struct FlattenDocument {
    pub raster_id: NodeId,
    pub raster: Node,
    /// Captured on apply: the root's children, bottom-most first.
    pub removed: Vec<ExtractedSubtree>,
    pub label: String,
}

impl FlattenDocument {
    /// Allocate the raster's id and build the command.
    pub fn new(doc: &mut Document, raster: Node) -> (r: FlattenDocument)
        requires
            old(doc).wf(),
            old(doc)@.next_id < u64::MAX,
        ensures
            final(doc).wf(),
            final(doc)@ == (DocView { next_id: (old(doc)@.next_id + 1) as u64, ..old(doc)@ }),
            r.raster_id.0 == old(doc)@.next_id,
            r.raster == raster,
            r.removed@.len() == 0,
    {
        let raster_id = doc.alloc_id();
        FlattenDocument { raster_id, raster, removed: Vec::new(), label: String::from_str("Flatten Image") }
    }

    /// "Flatten Image".
    pub fn label(&self) -> (r: String)
        ensures
            r@ == self.label@,
    {
        self.label.clone()
    }

    /// The raster can go on top of the root.
    pub open spec fn can_apply(&self, d: DocView) -> bool {
        raster_fits(d, self.raster_id.0, self.raster@)
    }

    /// The document after apply: every child of the root removed with its
    /// subtree, and the raster the root's only child.
    pub open spec fn apply_view(&self, d: DocView) -> DocView {
        replaced_view(d, d.nodes[d.root].children, self.raster_id.0, self.raster@)
    }

    /// Undo always restores the document exactly.
    pub open spec fn undoable(&self, d: DocView) -> bool {
        true
    }

    /// The document after revert: the raster removed and the captured
    /// subtrees restored at their places.
    pub open spec fn revert_view(&self, e: DocView) -> DocView {
        restored_all(removed_view(e, self.raster_id.0), removals_view(self.removed@))
    }

    /// Reverting is accepted, and flattening again would give `e` back.
    pub open spec fn can_revert(&self, e: DocView) -> bool {
        &&& undo_fits(e, self.raster_id.0, removals_view(self.removed@))
        &&& self.can_apply(self.revert_view(e))
        &&& self.apply_view(self.revert_view(e)) == e
    }

    /// Flatten. Undoing right after restores the document exactly.
    pub fn apply(&mut self, doc: &mut Document)
        requires
            old(doc).wf(),
            old(self).can_apply(old(doc)@),
        ensures
            final(self).label == old(self).label,
            final(doc).wf(),
            final(doc)@ == old(self).apply_view(old(doc)@),
            final(self).raster_id == old(self).raster_id && final(self).raster == old(self).raster
                && final(self).label == old(self).label,
            old(self).undoable(old(doc)@) ==> final(self).can_revert(final(doc)@) && final(self).revert_view(final(doc)@)
                == old(doc)@,
    {
        let root = doc.root();
        let kids = copy_ids(doc.children(root));
        self.removed = replace_top(doc, kids.as_slice(), self.raster_id, &self.raster);
    }

    /// Put the tree back. Redoing right after restores the document exactly.
    pub fn revert(&mut self, doc: &mut Document)
        requires
            old(doc).wf(),
            old(self).can_revert(old(doc)@),
        ensures
            final(self).label == old(self).label,
            final(doc).wf(),
            final(doc)@ == old(self).revert_view(old(doc)@),
            final(self).raster_id == old(self).raster_id && final(self).raster == old(self).raster
                && final(self).label == old(self).label,
            final(self).removed@.len() == 0,
            final(self).can_apply(final(doc)@),
            final(self).undoable(final(doc)@),
            final(self).apply_view(final(doc)@) == old(doc)@,
    {
        let mut rs: Vec<ExtractedSubtree> = Vec::new();
        std::mem::swap(&mut rs, &mut self.removed);
        undo_replace(doc, self.raster_id, rs);
    }
}

/// Merge chosen top-level layers into one pre-built raster put on top of the
/// root, leaving the other layers in place. The merged pixels are
/// composited by the caller.
#[derive(Debug)]
pub struct MergeVisible {
    pub raster_id: NodeId,
    pub raster: Node,
    /// Layers to merge; those that are not children of the root are ignored.
    pub targets: Vec<NodeId>,
    /// Captured on apply: the merged layers, bottom-most first.
    pub removed: Vec<ExtractedSubtree>,
    pub label: String,
}

impl MergeVisible {
    /// Allocate the raster's id and build the command.
    pub fn new(doc: &mut Document, raster: Node, targets: Vec<NodeId>) -> (r: MergeVisible)
        requires
            old(doc).wf(),
            old(doc)@.next_id < u64::MAX,
        ensures
            final(doc).wf(),
            final(doc)@ == (DocView { next_id: (old(doc)@.next_id + 1) as u64, ..old(doc)@ }),
            r.raster_id.0 == old(doc)@.next_id,
            r.raster == raster,
            r.targets == targets,
            r.removed@.len() == 0,
    {
        let raster_id = doc.alloc_id();
        MergeVisible { raster_id, raster, targets, removed: Vec::new(), label: String::from_str("Merge Visible") }
    }

    /// "Merge Visible".
    pub fn label(&self) -> (r: String)
        ensures
            r@ == self.label@,
    {
        self.label.clone()
    }

    /// The raster can go on top of the root.
    pub open spec fn can_apply(&self, d: DocView) -> bool {
        raster_fits(d, self.raster_id.0, self.raster@)
    }

    /// The document after apply: the root's children that are targets
    /// removed with their subtrees, and the raster on top of the root.
    pub open spec fn apply_view(&self, d: DocView) -> DocView {
        replaced_view(d, ids_view(self.targets@), self.raster_id.0, self.raster@)
    }

    /// Undo always restores the document exactly.
    pub open spec fn undoable(&self, d: DocView) -> bool {
        true
    }

    /// The document after revert: the raster removed and the captured
    /// subtrees restored at their places.
    pub open spec fn revert_view(&self, e: DocView) -> DocView {
        restored_all(removed_view(e, self.raster_id.0), removals_view(self.removed@))
    }

    /// Reverting is accepted, and merging again would give `e` back.
    pub open spec fn can_revert(&self, e: DocView) -> bool {
        &&& undo_fits(e, self.raster_id.0, removals_view(self.removed@))
        &&& self.can_apply(self.revert_view(e))
        &&& self.apply_view(self.revert_view(e)) == e
    }

    /// Merge. Undoing right after restores the document exactly.
    pub fn apply(&mut self, doc: &mut Document)
        requires
            old(doc).wf(),
            old(self).can_apply(old(doc)@),
        ensures
            final(self).label == old(self).label,
            final(doc).wf(),
            final(doc)@ == old(self).apply_view(old(doc)@),
            final(self).raster_id == old(self).raster_id && final(self).raster == old(self).raster
                && final(self).targets == old(self).targets && final(self).label == old(self).label,
            old(self).undoable(old(doc)@) ==> final(self).can_revert(final(doc)@) && final(self).revert_view(final(doc)@)
                == old(doc)@,
    {
        self.removed = replace_top(doc, self.targets.as_slice(), self.raster_id, &self.raster);
    }

    /// Put the merged layers back. Redoing right after restores the
    /// document exactly.
    pub fn revert(&mut self, doc: &mut Document)
        requires
            old(doc).wf(),
            old(self).can_revert(old(doc)@),
        ensures
            final(self).label == old(self).label,
            final(doc).wf(),
            final(doc)@ == old(self).revert_view(old(doc)@),
            final(self).raster_id == old(self).raster_id && final(self).raster == old(self).raster
                && final(self).targets == old(self).targets && final(self).label == old(self).label,
            final(self).removed@.len() == 0,
            final(self).can_apply(final(doc)@),
            final(self).undoable(final(doc)@),
            final(self).apply_view(final(doc)@) == old(doc)@,
    {
        let mut rs: Vec<ExtractedSubtree> = Vec::new();
        std::mem::swap(&mut rs, &mut self.removed);
        undo_replace(doc, self.raster_id, rs);
    }
}

} // verus!
