//! Inserting a pre-built subtree: a duplicated or pasted layer.

use vstd::prelude::*;
use crate::document::subtree::{fresh_tree, lemma_restore_fresh, restored_view};
use crate::document::{entries_view, lemma_removed_wf, removed_view, tree_wf, DocView, Document};
use crate::node::{Node, NodeId};

verus! {

/// A copy of subtree entries, nodes copied too.
fn copy_entries(v: &Vec<(NodeId, Node)>) -> (r: Vec<(NodeId, Node)>)
    ensures
        entries_view(r@) == entries_view(v@),
{
    let mut out: Vec<(NodeId, Node)> = Vec::new();
    let mut i: usize = 0;
    while i < v.len()
        invariant
            i <= v@.len(),
            entries_view(out@) == entries_view(v@).take(i as int),
        decreases v@.len() - i,
    {
        let ghost before = entries_view(out@);
        let e = &v[i];
        out.push((e.0, e.1.duplicate()));
        proof {
            assert(entries_view(out@) =~= before.push((e.0.0, e.1@)));
            assert(entries_view(v@).take(i + 1) =~= entries_view(v@).take(i as int).push(entries_view(v@)[i as int]));
        }
        i += 1;
    }
    proof {
        assert(entries_view(v@).take(v@.len() as int) =~= entries_view(v@));
    }
    out
}

/// Insert a pre-built subtree (as `clone_subtree` or `import_subtree` hand
/// it out): apply hangs a copy of it under `parent` at `index`, revert
/// removes it by its root.
#[derive(Debug)]
pub struct InsertSubtree {
    pub root: NodeId,
    pub nodes: Vec<(NodeId, Node)>,
    pub parent: NodeId,
    pub index: usize,
    pub label: String,
}

impl InsertSubtree {
    /// Build the command.
    pub fn new(root: NodeId, nodes: Vec<(NodeId, Node)>, parent: NodeId, index: usize, label: String) -> (r: InsertSubtree)
        ensures
            r.root == root,
            r.nodes == nodes,
            r.parent == parent,
            r.index == index,
            r.label == label,
    {
        InsertSubtree { root, nodes, parent, index, label }
    }

    /// The label given at construction.
    pub fn label(&self) -> (r: String)
        ensures
            r@ == self.label@,
    {
        self.label.clone()
    }

    /// The entries form a fresh subtree for `parent`, rooted at `root`.
    pub open spec fn can_apply(&self, d: DocView) -> bool {
        &&& fresh_tree(d, entries_view(self.nodes@), self.parent.0)
        &&& entries_view(self.nodes@)[0].0 == self.root.0
    }

    /// The document after apply: the subtree stored and its root linked
    /// into `parent`'s children at the clamped `index`.
    pub open spec fn apply_view(&self, d: DocView) -> DocView {
        restored_view(d, entries_view(self.nodes@), self.parent.0, self.index as int)
    }

    /// Undo always restores the document exactly.
    pub open spec fn undoable(&self, d: DocView) -> bool {
        true
    }

    /// The document after revert: the subtree at `root` removed.
    pub open spec fn revert_view(&self, e: DocView) -> DocView {
        removed_view(e, self.root.0)
    }

    /// The subtree is present and removing it gives a document on which
    /// inserting it again gives `e` back.
    pub open spec fn can_revert(&self, e: DocView) -> bool {
        &&& e.nodes.contains_key(self.root.0)
        &&& self.root.0 != e.root
        &&& self.can_apply(self.revert_view(e))
        &&& self.apply_view(self.revert_view(e)) == e
    }

    /// Hang a copy of the subtree. Undoing right after restores the
    /// document exactly.
    pub fn apply(&mut self, doc: &mut Document)
        requires
            old(doc).wf(),
            old(self).can_apply(old(doc)@),
        ensures
            final(doc).wf(),
            *final(self) == *old(self),
            final(doc)@ == old(self).apply_view(old(doc)@),
            old(self).undoable(old(doc)@) ==> final(self).can_revert(final(doc)@) && final(self).revert_view(final(doc)@)
                == old(doc)@,
    {
        let ghost d = doc@;
        proof {
            lemma_restore_fresh(d, entries_view(self.nodes@), self.parent.0, self.index as int);
        }
        let copy = copy_entries(&self.nodes);
        let _ = doc.restore_subtree(copy, self.parent, self.index);
    }

    /// Remove the subtree. Redoing right after restores the document
    /// exactly.
    pub fn revert(&mut self, doc: &mut Document)
        requires
            old(doc).wf(),
            old(self).can_revert(old(doc)@),
        ensures
            final(doc).wf(),
            *final(self) == *old(self),
            final(doc)@ == old(self).revert_view(old(doc)@),
            final(self).can_apply(final(doc)@),
            final(self).undoable(final(doc)@),
            final(self).apply_view(final(doc)@) == old(doc)@,
    {
        proof {
            lemma_removed_wf(doc@, self.root.0);
        }
        let _ = doc.remove_subtree(self.root);
    }
}

} // verus!
