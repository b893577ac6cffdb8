//! Layer property edits, one command per property.

use vstd::prelude::*;
use crate::document::{DocView, Document};
use crate::document::edit::{lemma_with_props, with_props};
use crate::node::{BlendMode, NodeId, PropsView};

verus! {

/// Rename a layer.
#[derive(Debug)]
pub struct SetName {
    pub id: NodeId,
    pub old: String,
    pub new: String,
}

impl SetName {
    /// Build the command, capturing the node's current value; the node must
    /// be present.
    pub fn new(doc: &Document, id: NodeId, new: String) -> (r: SetName)
        requires
            doc@.nodes.contains_key(id.0),
        ensures
            r.id == id,
            r.old@ == doc@.nodes[id.0].props.name,
            r.new@ == new@,
            r.undoable(doc@),
    {
        let old = match doc.node(id) {
            Some(n) => n.props.name.clone(),
            None => {
                assert(false);
                return SetName { id, old: new.clone(), new };
            },
        };
        SetName { id, old, new }
    }

    /// "Rename Layer".
    pub fn label(&self) -> (r: String)
        ensures
            r@ == "Rename Layer"@,
    {
        String::from_str("Rename Layer")
    }

    /// The node is present.
    pub open spec fn can_apply(&self, d: DocView) -> bool {
        d.nodes.contains_key(self.id.0)
    }

    /// The document after apply.
    pub open spec fn apply_view(&self, d: DocView) -> DocView {
        with_props(d, self.id.0, PropsView { name: self.new@, ..d.nodes[self.id.0].props })
    }

    /// Undo restores the document exactly when the node still holds the
    /// captured old value.
    pub open spec fn undoable(&self, d: DocView) -> bool {
        d.nodes[self.id.0].props.name == self.old@
    }

    /// The node is present and holds the new value.
    pub open spec fn can_revert(&self, d: DocView) -> bool {
        d.nodes.contains_key(self.id.0) && d.nodes[self.id.0].props.name == self.new@
    }

    /// The document after revert.
    pub open spec fn revert_view(&self, d: DocView) -> DocView {
        with_props(d, self.id.0, PropsView { name: self.old@, ..d.nodes[self.id.0].props })
    }

    /// Set the new value. Undoing right after restores the document exactly
    /// when the node held the old value.
    pub fn apply(&mut self, doc: &mut Document)
        requires
            old(doc).wf(),
            old(self).can_apply(old(doc)@),
        ensures
            final(doc).wf(),
            *final(self) == *old(self),
            final(doc)@ == old(self).apply_view(old(doc)@),
            old(self).undoable(old(doc)@) ==> final(self).can_revert(final(doc)@) && final(self).revert_view(final(doc)@)
                == old(doc)@,
    {
        let ghost d = doc@;
        let mut p = match doc.node(self.id) {
            Some(n) => n.props.duplicate(),
            None => {
                assert(false);
                return;
            },
        };
        p.name = self.new.clone();
        let _ = doc.replace_props(self.id, p);
        proof {
            let pv = PropsView { name: self.new@, ..d.nodes[self.id.0].props };
            lemma_with_props(d, self.id.0, pv, PropsView { name: self.old@, ..pv });
            if self.undoable(d) {
                assert(PropsView { name: self.old@, ..pv } == d.nodes[self.id.0].props);
            }
        }
    }

    /// Set the old value back. Redoing right after restores the document
    /// exactly.
    pub fn revert(&mut self, doc: &mut Document)
        requires
            old(doc).wf(),
            old(self).can_revert(old(doc)@),
        ensures
            final(doc).wf(),
            *final(self) == *old(self),
            final(doc)@ == old(self).revert_view(old(doc)@),
            final(self).can_apply(final(doc)@),
            final(self).undoable(final(doc)@),
            final(self).apply_view(final(doc)@) == old(doc)@,
    {
        let ghost d = doc@;
        let mut p = match doc.node(self.id) {
            Some(n) => n.props.duplicate(),
            None => {
                assert(false);
                return;
            },
        };
        p.name = self.old.clone();
        let _ = doc.replace_props(self.id, p);
        proof {
            let pv = PropsView { name: self.old@, ..d.nodes[self.id.0].props };
            lemma_with_props(d, self.id.0, pv, PropsView { name: self.new@, ..pv });
            assert(PropsView { name: self.new@, ..pv } == d.nodes[self.id.0].props);
        }
    }
}

/// Show or hide a layer.
#[derive(Debug)]
pub struct SetVisible {
    pub id: NodeId,
    pub old: bool,
    pub new: bool,
}

impl SetVisible {
    /// Build the command, capturing the node's current value; the node must
    /// be present.
    pub fn new(doc: &Document, id: NodeId, new: bool) -> (r: SetVisible)
        requires
            doc@.nodes.contains_key(id.0),
        ensures
            r.id == id,
            r.old == doc@.nodes[id.0].props.visible,
            r.new == new,
            r.undoable(doc@),
    {
        let old = match doc.node(id) {
            Some(n) => n.props.visible,
            None => {
                assert(false);
                return SetVisible { id, old: new.clone(), new };
            },
        };
        SetVisible { id, old, new }
    }

    /// "Toggle Visibility".
    pub fn label(&self) -> (r: String)
        ensures
            r@ == "Toggle Visibility"@,
    {
        String::from_str("Toggle Visibility")
    }

    /// The node is present.
    pub open spec fn can_apply(&self, d: DocView) -> bool {
        d.nodes.contains_key(self.id.0)
    }

    /// The document after apply.
    pub open spec fn apply_view(&self, d: DocView) -> DocView {
        with_props(d, self.id.0, PropsView { visible: self.new, ..d.nodes[self.id.0].props })
    }

    /// Undo restores the document exactly when the node still holds the
    /// captured old value.
    pub open spec fn undoable(&self, d: DocView) -> bool {
        d.nodes[self.id.0].props.visible == self.old
    }

    /// The node is present and holds the new value.
    pub open spec fn can_revert(&self, d: DocView) -> bool {
        d.nodes.contains_key(self.id.0) && d.nodes[self.id.0].props.visible == self.new
    }

    /// The document after revert.
    pub open spec fn revert_view(&self, d: DocView) -> DocView {
        with_props(d, self.id.0, PropsView { visible: self.old, ..d.nodes[self.id.0].props })
    }

    /// Set the new value. Undoing right after restores the document exactly
    /// when the node held the old value.
    pub fn apply(&mut self, doc: &mut Document)
        requires
            old(doc).wf(),
            old(self).can_apply(old(doc)@),
        ensures
            final(doc).wf(),
            *final(self) == *old(self),
            final(doc)@ == old(self).apply_view(old(doc)@),
            old(self).undoable(old(doc)@) ==> final(self).can_revert(final(doc)@) && final(self).revert_view(final(doc)@)
                == old(doc)@,
    {
        let ghost d = doc@;
        let mut p = match doc.node(self.id) {
            Some(n) => n.props.duplicate(),
            None => {
                assert(false);
                return;
            },
        };
        p.visible = self.new;
        let _ = doc.replace_props(self.id, p);
        proof {
            let pv = PropsView { visible: self.new, ..d.nodes[self.id.0].props };
            lemma_with_props(d, self.id.0, pv, PropsView { visible: self.old, ..pv });
            if self.undoable(d) {
                assert(PropsView { visible: self.old, ..pv } == d.nodes[self.id.0].props);
            }
        }
    }

    /// Set the old value back. Redoing right after restores the document
    /// exactly.
    pub fn revert(&mut self, doc: &mut Document)
        requires
            old(doc).wf(),
            old(self).can_revert(old(doc)@),
        ensures
            final(doc).wf(),
            *final(self) == *old(self),
            final(doc)@ == old(self).revert_view(old(doc)@),
            final(self).can_apply(final(doc)@),
            final(self).undoable(final(doc)@),
            final(self).apply_view(final(doc)@) == old(doc)@,
    {
        let ghost d = doc@;
        let mut p = match doc.node(self.id) {
            Some(n) => n.props.duplicate(),
            None => {
                assert(false);
                return;
            },
        };
        p.visible = self.old;
        let _ = doc.replace_props(self.id, p);
        proof {
            let pv = PropsView { visible: self.old, ..d.nodes[self.id.0].props };
            lemma_with_props(d, self.id.0, pv, PropsView { visible: self.new, ..pv });
            assert(PropsView { visible: self.new, ..pv } == d.nodes[self.id.0].props);
        }
    }
}

/// Change a layer's opacity (`f32` bits); successive edits of one layer merge into one history entry.
#[derive(Debug)]
pub struct SetOpacity {
    pub id: NodeId,
    pub old: u32,
    pub new: u32,
}

impl SetOpacity {
    /// Build the command, capturing the node's current value; the node must
    /// be present.
    pub fn new(doc: &Document, id: NodeId, new: u32) -> (r: SetOpacity)
        requires
            doc@.nodes.contains_key(id.0),
        ensures
            r.id == id,
            r.old == doc@.nodes[id.0].props.opacity,
            r.new == new,
            r.undoable(doc@),
    {
        let old = match doc.node(id) {
            Some(n) => n.props.opacity,
            None => {
                assert(false);
                return SetOpacity { id, old: new.clone(), new };
            },
        };
        SetOpacity { id, old, new }
    }

    /// "Layer Opacity".
    pub fn label(&self) -> (r: String)
        ensures
            r@ == "Layer Opacity"@,
    {
        String::from_str("Layer Opacity")
    }

    /// The node is present.
    pub open spec fn can_apply(&self, d: DocView) -> bool {
        d.nodes.contains_key(self.id.0)
    }

    /// The document after apply.
    pub open spec fn apply_view(&self, d: DocView) -> DocView {
        with_props(d, self.id.0, PropsView { opacity: self.new, ..d.nodes[self.id.0].props })
    }

    /// Undo restores the document exactly when the node still holds the
    /// captured old value.
    pub open spec fn undoable(&self, d: DocView) -> bool {
        d.nodes[self.id.0].props.opacity == self.old
    }

    /// The node is present and holds the new value.
    pub open spec fn can_revert(&self, d: DocView) -> bool {
        d.nodes.contains_key(self.id.0) && d.nodes[self.id.0].props.opacity == self.new
    }

    /// The document after revert.
    pub open spec fn revert_view(&self, d: DocView) -> DocView {
        with_props(d, self.id.0, PropsView { opacity: self.old, ..d.nodes[self.id.0].props })
    }

    /// Set the new value. Undoing right after restores the document exactly
    /// when the node held the old value.
    pub fn apply(&mut self, doc: &mut Document)
        requires
            old(doc).wf(),
            old(self).can_apply(old(doc)@),
        ensures
            final(doc).wf(),
            *final(self) == *old(self),
            final(doc)@ == old(self).apply_view(old(doc)@),
            old(self).undoable(old(doc)@) ==> final(self).can_revert(final(doc)@) && final(self).revert_view(final(doc)@)
                == old(doc)@,
    {
        let ghost d = doc@;
        let mut p = match doc.node(self.id) {
            Some(n) => n.props.duplicate(),
            None => {
                assert(false);
                return;
            },
        };
        p.opacity = self.new;
        let _ = doc.replace_props(self.id, p);
        proof {
            let pv = PropsView { opacity: self.new, ..d.nodes[self.id.0].props };
            lemma_with_props(d, self.id.0, pv, PropsView { opacity: self.old, ..pv });
            if self.undoable(d) {
                assert(PropsView { opacity: self.old, ..pv } == d.nodes[self.id.0].props);
            }
        }
    }

    /// Set the old value back. Redoing right after restores the document
    /// exactly.
    pub fn revert(&mut self, doc: &mut Document)
        requires
            old(doc).wf(),
            old(self).can_revert(old(doc)@),
        ensures
            final(doc).wf(),
            *final(self) == *old(self),
            final(doc)@ == old(self).revert_view(old(doc)@),
            final(self).can_apply(final(doc)@),
            final(self).undoable(final(doc)@),
            final(self).apply_view(final(doc)@) == old(doc)@,
    {
        let ghost d = doc@;
        let mut p = match doc.node(self.id) {
            Some(n) => n.props.duplicate(),
            None => {
                assert(false);
                return;
            },
        };
        p.opacity = self.old;
        let _ = doc.replace_props(self.id, p);
        proof {
            let pv = PropsView { opacity: self.old, ..d.nodes[self.id.0].props };
            lemma_with_props(d, self.id.0, pv, PropsView { opacity: self.new, ..pv });
            assert(PropsView { opacity: self.new, ..pv } == d.nodes[self.id.0].props);
        }
    }

    /// Absorb `next` when it edits the same node: keep the old value, take
    /// `next`'s new one.
    pub fn try_merge(&mut self, next: &SetOpacity) -> (r: bool)
        ensures
            r == (next.id == old(self).id),
            r ==> *final(self) == (SetOpacity { new: next.new, ..*old(self) }),
            !r ==> *final(self) == *old(self),
            r ==> forall|d: DocView| old(self).can_revert(d) && next.can_apply(d) ==> final(self).can_revert(next.apply_view(d))
                && final(self).revert_view(next.apply_view(d)) == old(self).revert_view(d),
    {
        if next.id == self.id {
            self.new = next.new;
            proof {
                assert forall|d: DocView| old(self).can_revert(d) && next.can_apply(d) implies self.can_revert(next.apply_view(d))
                    && self.revert_view(next.apply_view(d)) == old(self).revert_view(d) by {
                    let p = d.nodes[self.id.0].props;
                    let pn = PropsView { opacity: next.new, ..p };
                    lemma_with_props(d, self.id.0, pn, PropsView { opacity: self.old, ..pn });
                }
            }
            true
        } else {
            false
        }
    }
}

/// Change a layer's blend mode.
#[derive(Debug)]
pub struct SetBlend {
    pub id: NodeId,
    pub old: BlendMode,
    pub new: BlendMode,
}

impl SetBlend {
    /// Build the command, capturing the node's current value; the node must
    /// be present.
    pub fn new(doc: &Document, id: NodeId, new: BlendMode) -> (r: SetBlend)
        requires
            doc@.nodes.contains_key(id.0),
        ensures
            r.id == id,
            r.old == doc@.nodes[id.0].props.blend,
            r.new == new,
            r.undoable(doc@),
    {
        let old = match doc.node(id) {
            Some(n) => n.props.blend,
            None => {
                assert(false);
                return SetBlend { id, old: new.clone(), new };
            },
        };
        SetBlend { id, old, new }
    }

    /// "Blend Mode".
    pub fn label(&self) -> (r: String)
        ensures
            r@ == "Blend Mode"@,
    {
        String::from_str("Blend Mode")
    }

    /// The node is present.
    pub open spec fn can_apply(&self, d: DocView) -> bool {
        d.nodes.contains_key(self.id.0)
    }

    /// The document after apply.
    pub open spec fn apply_view(&self, d: DocView) -> DocView {
        with_props(d, self.id.0, PropsView { blend: self.new, ..d.nodes[self.id.0].props })
    }

    /// Undo restores the document exactly when the node still holds the
    /// captured old value.
    pub open spec fn undoable(&self, d: DocView) -> bool {
        d.nodes[self.id.0].props.blend == self.old
    }

    /// The node is present and holds the new value.
    pub open spec fn can_revert(&self, d: DocView) -> bool {
        d.nodes.contains_key(self.id.0) && d.nodes[self.id.0].props.blend == self.new
    }

    /// The document after revert.
    pub open spec fn revert_view(&self, d: DocView) -> DocView {
        with_props(d, self.id.0, PropsView { blend: self.old, ..d.nodes[self.id.0].props })
    }

    /// Set the new value. Undoing right after restores the document exactly
    /// when the node held the old value.
    pub fn apply(&mut self, doc: &mut Document)
        requires
            old(doc).wf(),
            old(self).can_apply(old(doc)@),
        ensures
            final(doc).wf(),
            *final(self) == *old(self),
            final(doc)@ == old(self).apply_view(old(doc)@),
            old(self).undoable(old(doc)@) ==> final(self).can_revert(final(doc)@) && final(self).revert_view(final(doc)@)
                == old(doc)@,
    {
        let ghost d = doc@;
        let mut p = match doc.node(self.id) {
            Some(n) => n.props.duplicate(),
            None => {
                assert(false);
                return;
            },
        };
        p.blend = self.new;
        let _ = doc.replace_props(self.id, p);
        proof {
            let pv = PropsView { blend: self.new, ..d.nodes[self.id.0].props };
            lemma_with_props(d, self.id.0, pv, PropsView { blend: self.old, ..pv });
            if self.undoable(d) {
                assert(PropsView { blend: self.old, ..pv } == d.nodes[self.id.0].props);
            }
        }
    }

    /// Set the old value back. Redoing right after restores the document
    /// exactly.
    pub fn revert(&mut self, doc: &mut Document)
        requires
            old(doc).wf(),
            old(self).can_revert(old(doc)@),
        ensures
            final(doc).wf(),
            *final(self) == *old(self),
            final(doc)@ == old(self).revert_view(old(doc)@),
            final(self).can_apply(final(doc)@),
            final(self).undoable(final(doc)@),
            final(self).apply_view(final(doc)@) == old(doc)@,
    {
        let ghost d = doc@;
        let mut p = match doc.node(self.id) {
            Some(n) => n.props.duplicate(),
            None => {
                assert(false);
                return;
            },
        };
        p.blend = self.old;
        let _ = doc.replace_props(self.id, p);
        proof {
            let pv = PropsView { blend: self.old, ..d.nodes[self.id.0].props };
            lemma_with_props(d, self.id.0, pv, PropsView { blend: self.new, ..pv });
            assert(PropsView { blend: self.new, ..pv } == d.nodes[self.id.0].props);
        }
    }
}

/// Turn a layer's clipping mask on or off.
#[derive(Debug)]
pub struct SetClip {
    pub id: NodeId,
    pub old: bool,
    pub new: bool,
}

impl SetClip {
    /// Build the command, capturing the node's current value; the node must
    /// be present.
    pub fn new(doc: &Document, id: NodeId, new: bool) -> (r: SetClip)
        requires
            doc@.nodes.contains_key(id.0),
        ensures
            r.id == id,
            r.old == doc@.nodes[id.0].props.clip,
            r.new == new,
            r.undoable(doc@),
    {
        let old = match doc.node(id) {
            Some(n) => n.props.clip,
            None => {
                assert(false);
                return SetClip { id, old: new.clone(), new };
            },
        };
        SetClip { id, old, new }
    }

    /// "Clipping Mask".
    pub fn label(&self) -> (r: String)
        ensures
            r@ == "Clipping Mask"@,
    {
        String::from_str("Clipping Mask")
    }

    /// The node is present.
    pub open spec fn can_apply(&self, d: DocView) -> bool {
        d.nodes.contains_key(self.id.0)
    }

    /// The document after apply.
    pub open spec fn apply_view(&self, d: DocView) -> DocView {
        with_props(d, self.id.0, PropsView { clip: self.new, ..d.nodes[self.id.0].props })
    }

    /// Undo restores the document exactly when the node still holds the
    /// captured old value.
    pub open spec fn undoable(&self, d: DocView) -> bool {
        d.nodes[self.id.0].props.clip == self.old
    }

    /// The node is present and holds the new value.
    pub open spec fn can_revert(&self, d: DocView) -> bool {
        d.nodes.contains_key(self.id.0) && d.nodes[self.id.0].props.clip == self.new
    }

    /// The document after revert.
    pub open spec fn revert_view(&self, d: DocView) -> DocView {
        with_props(d, self.id.0, PropsView { clip: self.old, ..d.nodes[self.id.0].props })
    }

    /// Set the new value. Undoing right after restores the document exactly
    /// when the node held the old value.
    pub fn apply(&mut self, doc: &mut Document)
        requires
            old(doc).wf(),
            old(self).can_apply(old(doc)@),
        ensures
            final(doc).wf(),
            *final(self) == *old(self),
            final(doc)@ == old(self).apply_view(old(doc)@),
            old(self).undoable(old(doc)@) ==> final(self).can_revert(final(doc)@) && final(self).revert_view(final(doc)@)
                == old(doc)@,
    {
        let ghost d = doc@;
        let mut p = match doc.node(self.id) {
            Some(n) => n.props.duplicate(),
            None => {
                assert(false);
                return;
            },
        };
        p.clip = self.new;
        let _ = doc.replace_props(self.id, p);
        proof {
            let pv = PropsView { clip: self.new, ..d.nodes[self.id.0].props };
            lemma_with_props(d, self.id.0, pv, PropsView { clip: self.old, ..pv });
            if self.undoable(d) {
                assert(PropsView { clip: self.old, ..pv } == d.nodes[self.id.0].props);
            }
        }
    }

    /// Set the old value back. Redoing right after restores the document
    /// exactly.
    pub fn revert(&mut self, doc: &mut Document)
        requires
            old(doc).wf(),
            old(self).can_revert(old(doc)@),
        ensures
            final(doc).wf(),
            *final(self) == *old(self),
            final(doc)@ == old(self).revert_view(old(doc)@),
            final(self).can_apply(final(doc)@),
            final(self).undoable(final(doc)@),
            final(self).apply_view(final(doc)@) == old(doc)@,
    {
        let ghost d = doc@;
        let mut p = match doc.node(self.id) {
            Some(n) => n.props.duplicate(),
            None => {
                assert(false);
                return;
            },
        };
        p.clip = self.old;
        let _ = doc.replace_props(self.id, p);
        proof {
            let pv = PropsView { clip: self.old, ..d.nodes[self.id.0].props };
            lemma_with_props(d, self.id.0, pv, PropsView { clip: self.new, ..pv });
            assert(PropsView { clip: self.new, ..pv } == d.nodes[self.id.0].props);
        }
    }
}

} // verus!
