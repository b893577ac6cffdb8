//! Commands that change the shape of the layer tree: add, remove, move.

use vstd::prelude::*;
use crate::command::{concat, quoted};
use crate::document::{
    entries_view, inserted_view, removed_view, subtree_entries, tree_wf, DocView, Document, ExtractedSubtree,
};
use crate::document::moves::{lemma_move_back, lemma_moved_wf, move_ok, moved_view};
use crate::document::subtree::{lemma_insert_then_remove, lemma_remove_then_restore, restored_view, stored};
use crate::node::{Node, NodeId, NodeView};

verus! {

/// Insert a node (with a pre-allocated id) under `parent` at `index`.
#[derive(Debug)]
pub struct AddNode {
    pub id: NodeId,
    pub parent: NodeId,
    pub index: usize,
    /// Holds the node while it is not in the document (before apply and
    /// after revert).
    pub node: Option<Node>,
    pub label: String,
}

/// Node `id`'s name, empty when it is absent.
pub open spec fn node_name(d: DocView, id: u64) -> Seq<char> {
    if d.nodes.contains_key(id) {
        d.nodes[id].props.name
    } else {
        Seq::empty()
    }
}

impl AddNode {
    /// Allocate the node's id and build the command; the node must have no
    /// children.
    pub fn new(doc: &mut Document, node: Node, parent: NodeId, index: usize) -> (r: AddNode)
        requires
            old(doc).wf(),
            old(doc)@.next_id < u64::MAX,
            node.children@.len() == 0,
        ensures
            final(doc).wf(),
            final(doc)@ == (DocView { next_id: (old(doc)@.next_id + 1) as u64, ..old(doc)@ }),
            r.id.0 == old(doc)@.next_id,
            r.parent == parent,
            r.index == index,
            r.node == Some(node),
            r.can_apply(final(doc)@) <==> (final(doc)@.nodes.contains_key(parent.0)
                && final(doc)@.nodes[parent.0].kind is Group),
            r.label@ == "Add "@ + node.kind.kind_name_spec(),
    {
        let label = concat("Add ", node.kind.kind_name());
        let id = doc.alloc_id();
        AddNode { id, parent, index, node: Some(node), label }
    }

    /// "Add " and the node kind's name.
    pub fn label(&self) -> (r: String)
        ensures
            r@ == self.label@,
    {
        self.label.clone()
    }

    /// The insert is accepted: a childless node in hand, its id unused and
    /// allocated, the parent a present group.
    pub open spec fn can_apply(&self, d: DocView) -> bool {
        &&& self.node matches Some(n) && n.children@.len() == 0
        &&& !d.nodes.contains_key(self.id.0)
        &&& self.id.0 < d.next_id
        &&& d.nodes.contains_key(self.parent.0)
        &&& d.nodes[self.parent.0].kind is Group
    }

    /// The document after apply.
    pub open spec fn apply_view(&self, d: DocView) -> DocView {
        inserted_view(d, self.id.0, self.node.unwrap()@, self.parent.0, self.index as int)
    }

    /// Apply can always be undone exactly.
    pub open spec fn undoable(&self, d: DocView) -> bool {
        true
    }

    /// Revert is accepted and re-applying it would give `d` back.
    pub open spec fn can_revert(&self, d: DocView) -> bool {
        &&& self.node is None
        &&& tree_wf(d.nodes, d.root, d.next_id)
        &&& d.nodes.contains_key(self.id.0)
        &&& self.id.0 != d.root
        &&& d.nodes[self.id.0].children.len() == 0
        &&& d.nodes[self.id.0].parent == Some(self.parent.0)
        &&& d.nodes[self.parent.0].kind is Group
        &&& inserted_view(removed_view(d, self.id.0), self.id.0, d.nodes[self.id.0], self.parent.0, self.index as int) == d
    }

    /// The document after revert.
    pub open spec fn revert_view(&self, d: DocView) -> DocView {
        removed_view(d, self.id.0)
    }

    /// Insert the node. Undoing right after restores the document exactly.
    pub fn apply(&mut self, doc: &mut Document)
        requires
            old(doc).wf(),
            old(self).can_apply(old(doc)@),
        ensures
            final(self).label == old(self).label,
            final(doc).wf(),
            final(doc)@ == old(self).apply_view(old(doc)@),
            final(self).id == old(self).id && final(self).parent == old(self).parent && final(self).index == old(self).index,
            final(self).can_revert(final(doc)@),
            final(self).revert_view(final(doc)@) == old(doc)@,
    {
        let ghost d = doc@;
        let node = match self.node.take() {
            Some(n) => n,
            None => {
                assert(false);
                return;
            },
        };
        let ghost nv = node@;
        let _ = doc.insert_node(self.id, node, self.parent, self.index);
        proof {
            lemma_insert_then_remove(d, self.id.0, nv, self.parent.0, self.index as int);
            let d1 = doc@;
            assert(d1.nodes[self.id.0] == (NodeView { parent: Some(self.parent.0), ..nv }));
            assert(inserted_view(d, self.id.0, d1.nodes[self.id.0], self.parent.0, self.index as int) == d1);
        }
    }

    /// Take the node back out. Redoing right after restores the document
    /// exactly.
    pub fn revert(&mut self, doc: &mut Document)
        requires
            old(doc).wf(),
            old(self).can_revert(old(doc)@),
        ensures
            final(self).label == old(self).label,
            final(doc).wf(),
            final(doc)@ == old(self).revert_view(old(doc)@),
            final(self).id == old(self).id && final(self).parent == old(self).parent && final(self).index == old(self).index,
            final(self).can_apply(final(doc)@),
            final(self).undoable(final(doc)@),
            final(self).apply_view(final(doc)@) == old(doc)@,
    {
        let ghost d = doc@;
        match doc.remove_subtree(self.id) {
            Ok((mut removed, _, _)) => {
                proof {
                    let ev = entries_view(removed@);
                    assert(subtree_entries(d.nodes, self.id.0, ev));
                    assert(ev.len() >= 1);
                    crate::document::lemma_childless_subtree(d, self.id.0);
                    if ev.len() > 1 {
                        let ids = crate::document::entry_ids(ev);
                        assert(ids[0] == ev[0].0);
                        assert(ids[1] != ids[0]);
                        assert(ids.to_set().contains(ids[1]));
                        assert(false);
                    }
                }
                match removed.pop() {
                    Some((_, n)) => {
                        proof {
                            assert(n@ == d.nodes[self.id.0]);
                        }
                        self.node = Some(n);
                    },
                    None => {
                        assert(false);
                    },
                }
            },
            Err(_) => {
                assert(false);
            },
        }
    }
}

/// Remove a node and its subtree.
#[derive(Debug)]
pub struct RemoveNode {
    pub id: NodeId,
    /// What the removal took out, captured on apply.
    pub state: Option<ExtractedSubtree>,
    pub label: String,
}

impl RemoveNode {
    /// Build the command; its label quotes the node's name (empty when the
    /// node is absent).
    pub fn new(doc: &Document, id: NodeId) -> (r: RemoveNode)
        ensures
            r.id == id,
            r.state() is None,
            r.label@ == "Delete "@ + "\""@ + node_name(doc@, id.0) + "\""@,
    {
        let name = match doc.node(id) {
            Some(n) => n.props.name.clone(),
            None => String::new(),
        };
        RemoveNode { id, state: None, label: quoted("Delete ", name.as_str()) }
    }

    /// `Delete "<name>"`.
    pub fn label(&self) -> (r: String)
        ensures
            r@ == self.label@,
    {
        self.label.clone()
    }

    /// What apply captured, as abstract entries with the parent and index.
    pub open spec fn state(&self) -> Option<(Seq<(u64, NodeView)>, u64, int)> {
        match self.state {
            Some((s, p, k)) => Some((entries_view(s@), p.0, k as int)),
            None => None,
        }
    }

    /// The node is present and not the root.
    pub open spec fn can_apply(&self, d: DocView) -> bool {
        &&& self.state() is None
        &&& d.nodes.contains_key(self.id.0)
        &&& self.id.0 != d.root
    }

    /// The document after apply.
    pub open spec fn apply_view(&self, d: DocView) -> DocView {
        removed_view(d, self.id.0)
    }

    /// Apply can always be undone exactly.
    pub open spec fn undoable(&self, d: DocView) -> bool {
        true
    }

    /// Revert is accepted, gives a well-formed tree holding the node, and
    /// removing the node again would give `d` back.
    pub open spec fn can_revert(&self, d: DocView) -> bool {
        &&& self.state() matches Some((s, p, k)) && {
            &&& s.len() > 0
            &&& stored(d.nodes, s).contains_key(p)
            &&& tree_wf(restored_view(d, s, p, k).nodes, d.root, d.next_id)
            &&& restored_view(d, s, p, k).nodes.contains_key(self.id.0)
            &&& self.id.0 != d.root
            &&& removed_view(restored_view(d, s, p, k), self.id.0) == d
        }
    }

    /// The document after revert.
    pub open spec fn revert_view(&self, d: DocView) -> DocView {
        let (s, p, k) = self.state().unwrap();
        restored_view(d, s, p, k)
    }

    /// Remove the subtree. Undoing right after restores the document exactly.
    pub fn apply(&mut self, doc: &mut Document)
        requires
            old(doc).wf(),
            old(self).can_apply(old(doc)@),
        ensures
            final(self).label == old(self).label,
            final(doc).wf(),
            final(doc)@ == old(self).apply_view(old(doc)@),
            final(self).id == old(self).id,
            final(self).can_revert(final(doc)@),
            final(self).revert_view(final(doc)@) == old(doc)@,
    {
        let ghost d = doc@;
        match doc.remove_subtree(self.id) {
            Ok(st) => {
                proof {
                    let (s, p, k) = st;
                    lemma_remove_then_restore(d, self.id.0, entries_view(s@), p.0, k as int);
                }
                self.state = Some(st);
            },
            Err(_) => {
                assert(false);
            },
        }
    }

    /// Put the subtree back. Redoing right after restores the document
    /// exactly.
    pub fn revert(&mut self, doc: &mut Document)
        requires
            old(doc).wf(),
            old(self).can_revert(old(doc)@),
        ensures
            final(self).label == old(self).label,
            final(doc).wf(),
            final(doc)@ == old(self).revert_view(old(doc)@),
            final(self).id == old(self).id,
            final(self).can_apply(final(doc)@),
            final(self).undoable(final(doc)@),
            final(self).apply_view(final(doc)@) == old(doc)@,
    {
        match self.state.take() {
            Some((nodes, parent, index)) => {
                let _ = doc.restore_subtree(nodes, parent, index);
            },
            None => {
                assert(false);
            },
        }
    }
}

/// Move a node to a new parent and index.
#[derive(Debug)]
pub struct MoveNode {
    pub id: NodeId,
    pub to_parent: NodeId,
    pub to_index: usize,
    /// The old `(parent, index)`, captured on apply.
    pub from: Option<(NodeId, usize)>,
    pub label: String,
}

impl MoveNode {
    /// Build the command; its label quotes the node's name (empty when the
    /// node is absent).
    pub fn new(doc: &Document, id: NodeId, to_parent: NodeId, to_index: usize) -> (r: MoveNode)
        ensures
            r.id == id,
            r.to_parent == to_parent,
            r.to_index == to_index,
            r.from() is None,
            r.label@ == "Move "@ + "\""@ + node_name(doc@, id.0) + "\""@,
    {
        let name = match doc.node(id) {
            Some(n) => n.props.name.clone(),
            None => String::new(),
        };
        MoveNode { id, to_parent, to_index, from: None, label: quoted("Move ", name.as_str()) }
    }

    /// `Move "<name>"`.
    pub fn label(&self) -> (r: String)
        ensures
            r@ == self.label@,
    {
        self.label.clone()
    }

    /// The old parent and index captured by apply.
    pub open spec fn from(&self) -> Option<(u64, int)> {
        match self.from {
            Some((p, k)) => Some((p.0, k as int)),
            None => None,
        }
    }

    /// The move is accepted.
    pub open spec fn can_apply(&self, d: DocView) -> bool {
        &&& self.from() is None
        &&& move_ok(d, self.id.0, self.to_parent.0)
    }

    /// The document after apply.
    pub open spec fn apply_view(&self, d: DocView) -> DocView {
        moved_view(d, self.id.0, self.to_parent.0, self.to_index as int)
    }

    /// Moving back is accepted when the node's current parent is a group.
    pub open spec fn undoable(&self, d: DocView) -> bool {
        d.nodes[d.nodes[self.id.0].parent.unwrap()].kind is Group
    }

    /// Moving back is accepted, and moving forward again from there would
    /// give `d` back.
    pub open spec fn can_revert(&self, d: DocView) -> bool {
        &&& self.from() matches Some((op, oi)) && {
            let r = moved_view(d, self.id.0, op, oi);
            &&& tree_wf(d.nodes, d.root, d.next_id)
            &&& move_ok(d, self.id.0, op)
            &&& oi >= 0
            &&& tree_wf(r.nodes, r.root, r.next_id)
            &&& move_ok(r, self.id.0, self.to_parent.0)
            &&& r.nodes[r.nodes[self.id.0].parent.unwrap()].kind is Group
            &&& moved_view(r, self.id.0, self.to_parent.0, self.to_index as int) == d
        }
    }

    /// The document after revert.
    pub open spec fn revert_view(&self, d: DocView) -> DocView {
        let (op, oi) = self.from().unwrap();
        moved_view(d, self.id.0, op, oi)
    }

    /// Move the node. Undoing right after restores the document exactly when
    /// the node's old parent is a group.
    pub fn apply(&mut self, doc: &mut Document)
        requires
            old(doc).wf(),
            old(self).can_apply(old(doc)@),
        ensures
            final(self).label == old(self).label,
            final(doc).wf(),
            final(doc)@ == old(self).apply_view(old(doc)@),
            final(self).id == old(self).id && final(self).to_parent == old(self).to_parent
                && final(self).to_index == old(self).to_index,
            old(self).undoable(old(doc)@) ==> final(self).can_revert(final(doc)@) && final(self).revert_view(final(doc)@)
                == old(doc)@,
    {
        let ghost d = doc@;
        match doc.move_node(self.id, self.to_parent, self.to_index) {
            Ok(from) => {
                proof {
                    lemma_moved_wf(d, self.id.0, self.to_parent.0, self.to_index as int);
                    if self.undoable(d) {
                        lemma_move_back(d, self.id.0, self.to_parent.0, self.to_index as int);
                    }
                }
                self.from = Some(from);
            },
            Err(_) => {
                assert(false);
            },
        }
    }

    /// Move the node back. Redoing right after restores the document exactly.
    pub fn revert(&mut self, doc: &mut Document)
        requires
            old(doc).wf(),
            old(self).can_revert(old(doc)@),
        ensures
            final(self).label == old(self).label,
            final(doc).wf(),
            final(doc)@ == old(self).revert_view(old(doc)@),
            final(self).id == old(self).id && final(self).to_parent == old(self).to_parent
                && final(self).to_index == old(self).to_index,
            final(self).can_apply(final(doc)@),
            final(self).undoable(final(doc)@),
            final(self).apply_view(final(doc)@) == old(doc)@,
    {
        match self.from.take() {
            Some((parent, index)) => {
                let _ = doc.move_node(self.id, parent, index);
            },
            None => {
                assert(false);
            },
        }
    }
}

} // verus!
