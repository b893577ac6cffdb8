//! Several commands applied and undone as one history entry.

use vstd::prelude::*;
use crate::command::kinds::Command;
use crate::document::{DocView, Document};

verus! {

/// Every command of `cs` is accepted in turn, each on the document the
/// previous ones left.
pub open spec fn chain_ok(cs: Seq<Command>, d: DocView) -> bool
    decreases cs,
{
    if cs.len() == 0 {
        true
    } else {
        &&& cs[0].can_apply(d)
        &&& chain_ok(cs.skip(1), cs[0].apply_view(d))
    }
}

/// The document after applying `cs` in order.
pub open spec fn chain_view(cs: Seq<Command>, d: DocView) -> DocView
    decreases cs,
{
    if cs.len() == 0 {
        d
    } else {
        chain_view(cs.skip(1), cs[0].apply_view(d))
    }
}

/// Every command of `cs` can be undone exactly, each on the document the
/// previous ones left.
pub open spec fn chain_undoable(cs: Seq<Command>, d: DocView) -> bool
    decreases cs,
{
    if cs.len() == 0 {
        true
    } else {
        &&& cs[0].undoable(d)
        &&& chain_undoable(cs.skip(1), cs[0].apply_view(d))
    }
}

/// Every command of `cs`, last first, is accepted for revert in turn.
pub open spec fn unchain_ok(cs: Seq<Command>, e: DocView) -> bool
    decreases cs,
{
    if cs.len() == 0 {
        true
    } else {
        &&& cs.last().can_revert(e)
        &&& unchain_ok(cs.drop_last(), cs.last().revert_view(e))
    }
}

/// The document after reverting `cs`, last first.
pub open spec fn unchain_view(cs: Seq<Command>, e: DocView) -> DocView
    decreases cs,
{
    if cs.len() == 0 {
        e
    } else {
        unchain_view(cs.drop_last(), cs.last().revert_view(e))
    }
}

/// Several commands applied in order and reverted in reverse, as one
/// history entry.
#[derive(Debug)]
pub struct Batch {
    pub cmds: Vec<Command>,
    pub label: String,
}

impl Batch {
    /// Build the batch.
    pub fn new(cmds: Vec<Command>, label: String) -> (r: Batch)
        ensures
            r.cmds == cmds,
            r.label == label,
    {
        Batch { cmds, label }
    }

    /// Whether the batch holds no command.
    pub fn is_empty(&self) -> (r: bool)
        ensures
            r == (self.cmds@.len() == 0),
    {
        self.cmds.len() == 0
    }

    /// The batch's label.
    pub fn label(&self) -> (r: String)
        ensures
            r@ == self.label@,
    {
        self.label.clone()
    }

    /// Every command is accepted in turn.
    pub open spec fn can_apply(&self, d: DocView) -> bool
        decreases self,
    {
        chain_ok(self.cmds@, d)
    }

    /// The document after every command, in order.
    pub open spec fn apply_view(&self, d: DocView) -> DocView
        decreases self,
    {
        chain_view(self.cmds@, d)
    }

    /// Every command can be undone exactly.
    pub open spec fn undoable(&self, d: DocView) -> bool
        decreases self,
    {
        chain_undoable(self.cmds@, d)
    }

    /// Every command, last first, is accepted for revert.
    pub open spec fn can_revert(&self, e: DocView) -> bool
        decreases self,
    {
        unchain_ok(self.cmds@, e)
    }

    /// The document after reverting every command, last first.
    pub open spec fn revert_view(&self, e: DocView) -> DocView
        decreases self,
    {
        unchain_view(self.cmds@, e)
    }
}

impl Batch {
    /// Apply every command in order. Undoing right after restores the
    /// document exactly when every command is undoable in turn.
    pub fn apply(&mut self, doc: &mut Document)
        requires
            old(doc).wf(),
            old(self).can_apply(old(doc)@),
        ensures
            final(self).label == old(self).label,
            final(doc).wf(),
            final(doc)@ == old(self).apply_view(old(doc)@),
            final(self).label == old(self).label,
            old(self).undoable(old(doc)@) ==> final(self).can_revert(final(doc)@) && final(self).revert_view(final(doc)@)
                == old(doc)@,
        decreases *old(self),
    {
        let ghost d = doc@;
        let ghost oc = self.cmds@;
        let ghost undo_all = chain_undoable(oc, d);
        proof {
            assert(oc.skip(0) =~= oc);
            assert(self.cmds@.take(0) =~= Seq::<Command>::empty());
        }
        let n = self.cmds.len();
        let mut i: usize = 0;
        while i < n
            invariant
                i <= n,
                n == oc.len(),
                self.cmds@.len() == n,
                self.label == old(self).label,
                oc == old(self).cmds@,
                doc.wf(),
                forall|j: int| i <= j < n ==> self.cmds@[j] == oc[j],
                chain_ok(oc.skip(i as int), doc@),
                chain_view(oc.skip(i as int), doc@) == chain_view(oc, d),
                undo_all == chain_undoable(oc, d),
                undo_all ==> chain_undoable(oc.skip(i as int), doc@),
                undo_all ==> unchain_ok(self.cmds@.take(i as int), doc@) && unchain_view(self.cmds@.take(i as int), doc@)
                    == d,
            decreases n - i,
        {
            let ghost cur = doc@;
            let ghost pre = self.cmds@.take(i as int);
            proof {
                assert(oc.skip(i as int)[0] == oc[i as int]);
                assert(oc.skip(i as int).skip(1) =~= oc.skip(i + 1));
                assert(decreases_to!(old(self).cmds => old(self).cmds@));
                assert(decreases_to!(old(self).cmds@ => old(self).cmds@[i as int]));
            }
            let c = &mut self.cmds[i];
            c.apply(doc);
            proof {
                assert(self.cmds@.take(i + 1) =~= pre.push(self.cmds@[i as int]));
                assert(self.cmds@.take(i + 1).drop_last() =~= pre);
                assert(pre =~= self.cmds@.take(i as int));
            }
            i += 1;
        }
        proof {
            assert(oc.skip(n as int) =~= Seq::<Command>::empty());
            assert(self.cmds@.take(n as int) =~= self.cmds@);
        }
    }

    /// Revert every command, last first. Redoing right after restores the
    /// document exactly.
    pub fn revert(&mut self, doc: &mut Document)
        requires
            old(doc).wf(),
            old(self).can_revert(old(doc)@),
        ensures
            final(self).label == old(self).label,
            final(doc).wf(),
            final(doc)@ == old(self).revert_view(old(doc)@),
            final(self).label == old(self).label,
            final(self).can_apply(final(doc)@),
            final(self).undoable(final(doc)@),
            final(self).apply_view(final(doc)@) == old(doc)@,
        decreases *old(self),
    {
        let ghost e = doc@;
        let ghost oc = self.cmds@;
        let n = self.cmds.len();
        proof {
            assert(oc.take(n as int) =~= oc);
            assert(self.cmds@.skip(n as int) =~= Seq::<Command>::empty());
        }
        let mut i: usize = n;
        while i > 0
            invariant
                i <= n,
                n == oc.len(),
                self.cmds@.len() == n,
                self.label == old(self).label,
                oc == old(self).cmds@,
                doc.wf(),
                forall|j: int| 0 <= j < i ==> self.cmds@[j] == oc[j],
                unchain_ok(oc.take(i as int), doc@),
                unchain_view(oc.take(i as int), doc@) == unchain_view(oc, e),
                chain_ok(self.cmds@.skip(i as int), doc@),
                chain_undoable(self.cmds@.skip(i as int), doc@),
                chain_view(self.cmds@.skip(i as int), doc@) == e,
            decreases i,
        {
            let ghost cur = doc@;
            let ghost suf = self.cmds@.skip(i as int);
            proof {
                assert(oc.take(i as int).last() == oc[i - 1]);
                assert(oc.take(i as int).drop_last() =~= oc.take(i - 1));
                assert(decreases_to!(old(self).cmds => old(self).cmds@));
                assert(decreases_to!(old(self).cmds@ => old(self).cmds@[i - 1]));
            }
            let c = &mut self.cmds[i - 1];
            c.revert(doc);
            proof {
                let s2 = self.cmds@.skip(i - 1);
                assert(s2[0] == self.cmds@[i - 1]);
                assert(s2.skip(1) =~= suf);
                assert forall|j: int| 0 <= j < i - 1 implies self.cmds@[j] == oc[j] by {}
            }
            i -= 1;
        }
        proof {
            assert(oc.take(0) =~= Seq::<Command>::empty());
            assert(self.cmds@.skip(0) =~= self.cmds@);
        }
    }
}

/// One step of reverting a chain: its last command, then the rest.
pub proof fn lemma_unchain_step(cs: Seq<Command>, e: DocView)
    requires
        cs.len() > 0,
    ensures
        unchain_ok(cs, e) == (cs.last().can_revert(e) && unchain_ok(cs.drop_last(), cs.last().revert_view(e))),
        unchain_view(cs, e) == unchain_view(cs.drop_last(), cs.last().revert_view(e)),
{
}

/// One step of applying a chain: its first command, then the rest.
pub proof fn lemma_chain_step(cs: Seq<Command>, d: DocView)
    requires
        cs.len() > 0,
    ensures
        chain_ok(cs, d) == (cs[0].can_apply(d) && chain_ok(cs.skip(1), cs[0].apply_view(d))),
        chain_view(cs, d) == chain_view(cs.skip(1), cs[0].apply_view(d)),
        chain_undoable(cs, d) == (cs[0].undoable(d) && chain_undoable(cs.skip(1), cs[0].apply_view(d))),
{
}

} // verus!
