//! Undo/redo history, and the editor that pairs a document with one.
//!
//! A history remembers the documents its commands lead through: `states()`
//! lists them, oldest first, with the current one at index `applied()`.
//! Undo walks one step back and redo one step forward along that list,
//! landing on exactly the remembered documents.

use vstd::prelude::*;
use crate::command::id_space::{lemma_next_id_free, with_next};
use crate::command::kinds::{lemma_merge_keeps_state, Command};
use crate::document::{DocView, Document, ProjectFocus};
use crate::node::NodeId;

verus! {

/// `past` extended by `d`, dropping the oldest state when more than `limit`
/// steps would be remembered.
pub open spec fn pushed(past: Seq<DocView>, d: DocView, limit: nat) -> Seq<DocView> {
    let s = past.push(d);
    if s.len() > limit + 1 {
        s.skip(1)
    } else {
        s
    }
}

/// `labels` extended by `l`, dropping the oldest when more than `limit`
/// would be kept.
pub open spec fn labels_pushed(labels: Seq<Seq<char>>, l: Seq<char>, limit: nat) -> Seq<Seq<char>> {
    let s = labels.push(l);
    if s.len() > limit {
        s.skip(1)
    } else {
        s
    }
}

/// How many commands are applied after recording one more on top of
/// `applied`: one more, up to `limit`.
pub open spec fn applied_after_push(applied: nat, limit: nat) -> nat {
    if applied + 1 > limit {
        limit
    } else {
        applied + 1
    }
}

/// `h1` is `h0` with one more command, labelled `label`, recorded on top of
/// document `before`: one more applied (the oldest dropped past the limit),
/// the label on top, nothing to redo, the revision bumped, the settings kept.
pub open spec fn pushed_on(h0: History, h1: History, label: Seq<char>, before: DocView) -> bool {
    &&& h1.undone() == 0
    &&& h1.limit() == h0.limit()
    &&& h1.is_merging() == h0.is_merging()
    &&& h1.revision_count() == h0.revision_count() + 1
    &&& h1.applied() == applied_after_push(h0.applied(), h0.limit())
    &&& h1.applied_labels() == labels_pushed(h0.applied_labels(), label, h0.limit())
    &&& h1.states()[h1.applied() - 1] == before
}

/// `h1` is `h0` after a command merged into the one on top: as many applied,
/// the same labels, nothing to redo, the revision bumped, the settings kept.
pub open spec fn merged_into(h0: History, h1: History) -> bool {
    &&& h1.undone() == 0
    &&& h1.limit() == h0.limit()
    &&& h1.is_merging() == h0.is_merging()
    &&& h1.revision_count() == h0.revision_count() + 1
    &&& h1.applied() == h0.applied()
    &&& h1.applied_labels() == h0.applied_labels()
}

/// Where `jump_to(target)` lands: `target` applied commands, as far as the
/// remembered steps allow.
pub open spec fn jump_target(applied: nat, undone: nat, target: nat) -> nat {
    if target <= applied {
        target
    } else if target <= applied + undone {
        target
    } else {
        applied + undone
    }
}

/// Undo and redo stacks of commands.
pub struct History {
    undo: Vec<Command>,
    redo: Vec<Command>,
    limit: usize,
    /// While true, the next mergeable command coalesces with the top of the
    /// undo stack (one entry per slider drag).
    merging: bool,
    /// Bumped on every document change through the history.
    revision: u64,
    /// The documents the commands lead through.
    states: Ghost<Seq<DocView>>,
}

impl History {
    /// The stacks agree with the remembered documents: each undo entry
    /// reverts its step exactly, and each redo entry re-applies its step
    /// exactly.
    pub closed spec fn inv(&self) -> bool {
        let s = self.states@;
        let u = self.undo@.len();
        let r = self.redo@.len();
        &&& s.len() == u + r + 1
        &&& 1 <= self.limit
        &&& u + r <= self.limit
        &&& forall|i: int| #![trigger self.undo@[i]] 0 <= i < u ==> self.undo@[i].can_revert(s[i + 1]) && self.undo@[i].revert_view(s[i + 1]) == s[i]
        &&& forall|j: int| #![trigger self.redo@[j]]
            0 <= j < r ==> self.redo@[j].can_apply(s[u + r - 1 - j]) && self.redo@[j].undoable(s[u + r - 1 - j])
                && self.redo@[j].apply_view(s[u + r - 1 - j]) == s[u + r - j]
    }

    /// The remembered documents, oldest first.
    pub closed spec fn states(&self) -> Seq<DocView> {
        self.states@
    }

    /// Number of commands that can be undone.
    pub closed spec fn applied(&self) -> nat {
        self.undo@.len()
    }

    /// Number of commands that can be redone.
    pub closed spec fn undone(&self) -> nat {
        self.redo@.len()
    }

    /// The most steps remembered.
    pub closed spec fn limit(&self) -> nat {
        self.limit as nat
    }

    /// The revision counter.
    pub closed spec fn revision_count(&self) -> u64 {
        self.revision
    }

    /// Whether merging is on.
    pub closed spec fn is_merging(&self) -> bool {
        self.merging
    }

    /// The command on top of the undo stack.
    pub closed spec fn top(&self) -> Command {
        self.undo@.last()
    }

    /// Labels of the applied commands, oldest first.
    pub closed spec fn applied_labels(&self) -> Seq<Seq<char>> {
        self.undo@.map_values(|c: Command| c.label_spec())
    }

    /// Labels of the undone commands, next redo first.
    pub closed spec fn undone_labels(&self) -> Seq<Seq<char>> {
        self.redo@.reverse().map_values(|c: Command| c.label_spec())
    }

    /// The document the history is at.
    pub open spec fn current(&self) -> DocView {
        self.states()[self.applied() as int]
    }

    /// The history can act on `d`: it is empty, or `d` is its current document.
    pub open spec fn tracks(&self, d: DocView) -> bool {
        (self.applied() == 0 && self.undone() == 0) || self.current() == d
    }

    /// The remembered past before a push from `d`: just `d` when the history is
    /// empty, else the states up to the current one.
    pub open spec fn past_from(&self, d: DocView) -> Seq<DocView> {
        if self.applied() == 0 && self.undone() == 0 {
            seq![d]
        } else {
            self.states().take(self.applied() + 1 as int)
        }
    }

    /// An empty history remembering at most `limit` steps (at least one).
    pub fn new(limit: usize) -> (r: History)
        ensures
            r.inv(),
            r.applied() == 0,
            r.undone() == 0,
            r.limit() == if limit < 1 { 1 } else { limit as nat },
            r.revision_count() == 0,
            !r.is_merging(),
    {
        let ghost initial: Seq<DocView> = Seq::empty().push(arbitrary());
        let states: Ghost<Seq<DocView>> = Ghost(initial);
        History {
            undo: Vec::new(),
            redo: Vec::new(),
            limit: if limit < 1 {
                1
            } else {
                limit
            },
            merging: false,
            revision: 0,
            states,
        }
    }

    /// The revision counter, bumped on every document change through the
    /// history.
    pub fn revision(&self) -> (r: u64)
        ensures
            r == self.revision_count(),
    {
        self.revision
    }

    /// Apply `cmd` to `doc` and record it; the redo stack is cleared. While
    /// merging, a command that continues the top entry is absorbed into it.
    pub fn push_apply(&mut self, doc: &mut Document, cmd: Command)
        requires
            old(self).inv(),
            old(doc).wf(),
            old(self).tracks(old(doc)@),
            cmd.can_apply(old(doc)@),
            cmd.undoable(old(doc)@),
            old(self).revision_count() < u64::MAX,
        ensures
            final(self).inv(),
            final(doc).wf(),
            final(doc)@ == cmd.apply_view(old(doc)@),
            final(self).current() == final(doc)@,
            final(self).undone() == 0,
            final(self).limit() == old(self).limit(),
            final(self).is_merging() == old(self).is_merging(),
            final(self).revision_count() == old(self).revision_count() + 1,
            ({
                let merged = old(self).is_merging() && old(self).applied() > 0 && old(self).top().merges_with(&cmd);
                &&& merged ==> final(self).states() == old(self).states().take(old(self).applied() as int).push(final(doc)@)
                &&& merged ==> final(self).applied() == old(self).applied()
                &&& merged ==> final(self).applied_labels() == old(self).applied_labels()
                &&& !merged ==> final(self).states() == pushed(old(self).past_from(old(doc)@), final(doc)@, old(self).limit())
                &&& !merged ==> final(self).applied() == applied_after_push(old(self).applied(), old(self).limit())
                &&& !merged ==> final(self).applied_labels() == labels_pushed(old(self).applied_labels(), cmd.label_spec(), old(self).limit())
                &&& !merged ==> final(self).applied() >= 1 && final(self).states()[final(self).applied() - 1] == old(doc)@
            }),
    {
        let ghost d = doc@;
        let ghost base = self.past_from(d);
        let ghost merged = self.merging && self.undo@.len() > 0 && self.undo@.last().merges_with(&cmd);
        let mut cmd = cmd;
        let ghost c0 = cmd;
        cmd.apply(doc);
        self.revision = self.revision + 1;
        self.redo.clear();
        if self.merging && self.undo.len() > 0 {
            let mut top = match self.undo.pop() {
                Some(t) => t,
                None => {
                    assert(false);
                    return;
                },
            };
            let ghost t0 = top;
            let m = top.try_merge(&cmd);
            self.undo.push(top);
            proof {
                if t0.merges_with(&c0) {
                    lemma_merge_keeps_state(t0, c0);
                }
                if t0.merges_with(&cmd) {
                    lemma_merge_keeps_state(t0, cmd);
                }
            }
            if m {
                proof {
                    let u = self.undo@.len() as int;
                    let s0 = self.states@;
                    assert(c0.keeps_state());
                    assert(t0.can_revert(s0[u]) && cmd.can_apply(s0[u]));
                    let s1 = s0.take(u).push(doc@);
                    self.states = Ghost(s1);
                    assert forall|i: int| #![trigger self.undo@[i]] 0 <= i < u implies self.undo@[i].can_revert(s1[i + 1]) && self.undo@[i].revert_view(s1[i + 1]) == s1[i] by {
                        if i < u - 1 {
                            assert(s1[i + 1] == s0[i + 1] && s1[i] == s0[i]);
                        }
                    }
                }
                return;
            }
        }
        proof {
            let s1 = base.push(doc@);
            let u = self.undo@.len() as int;
            assert(s1.len() == u + 2);
            self.states = Ghost(s1);
        }
        self.undo.push(cmd);
        proof {
            let s1 = self.states@;
            let u = self.undo@.len() as int;
            assert forall|i: int| #![trigger self.undo@[i]] 0 <= i < u implies self.undo@[i].can_revert(s1[i + 1]) && self.undo@[i].revert_view(s1[i + 1]) == s1[i] by {
                if i < u - 1 {
                    assert(self.undo@[i] == old(self).undo@[i]);
                }
            }
        }
        if self.undo.len() > self.limit {
            let ghost s1 = self.states@;
            let ghost u1 = self.undo@;
            self.undo.remove(0);
            proof {
                let s2 = s1.skip(1);
                self.states = Ghost(s2);
                assert forall|i: int| #![trigger self.undo@[i]] 0 <= i < self.undo@.len() implies self.undo@[i].can_revert(s2[i + 1]) && self.undo@[i].revert_view(s2[i + 1]) == s2[i] by {
                    assert(self.undo@[i] == u1[i + 1]);
                    assert(u1[i + 1].can_revert(s1[i + 2]));
                }
            }
        }
    }

    /// Record a command whose effect is already in the document (a finished
    /// live edit): nothing is applied, but redo would re-apply it. Its revert
    /// must lead back to the current document.
    pub fn push_committed(&mut self, doc: &Document, cmd: Command)
        requires
            old(self).inv(),
            cmd.can_revert(doc@),
            old(self).tracks(cmd.revert_view(doc@)),
            old(self).revision_count() < u64::MAX,
        ensures
            final(self).inv(),
            final(self).current() == doc@,
            final(self).undone() == 0,
            final(self).limit() == old(self).limit(),
            final(self).is_merging() == old(self).is_merging(),
            final(self).revision_count() == old(self).revision_count() + 1,
            final(self).states() == pushed(old(self).past_from(cmd.revert_view(doc@)), doc@, old(self).limit()),
            final(self).applied() == applied_after_push(old(self).applied(), old(self).limit()),
            final(self).applied_labels() == labels_pushed(old(self).applied_labels(), cmd.label_spec(), old(self).limit()),
            final(self).applied() >= 1 && final(self).states()[final(self).applied() - 1] == cmd.revert_view(doc@),
    {
        let ghost base = self.past_from(cmd.revert_view(doc@));
        self.revision = self.revision + 1;
        self.redo.clear();
        proof {
            self.states = Ghost(base.push(doc@));
        }
        self.undo.push(cmd);
        proof {
            let s1 = self.states@;
            let u = self.undo@.len() as int;
            assert forall|i: int| #![trigger self.undo@[i]] 0 <= i < u implies self.undo@[i].can_revert(s1[i + 1]) && self.undo@[i].revert_view(s1[i + 1]) == s1[i] by {
                if i < u - 1 {
                    assert(self.undo@[i] == old(self).undo@[i]);
                }
            }
        }
        if self.undo.len() > self.limit {
            let ghost s1 = self.states@;
            let ghost u1 = self.undo@;
            self.undo.remove(0);
            proof {
                let s2 = s1.skip(1);
                self.states = Ghost(s2);
                assert forall|i: int| #![trigger self.undo@[i]] 0 <= i < self.undo@.len() implies self.undo@[i].can_revert(s2[i + 1]) && self.undo@[i].revert_view(s2[i + 1]) == s2[i] by {
                    assert(self.undo@[i] == u1[i + 1]);
                    assert(u1[i + 1].can_revert(s1[i + 2]));
                }
            }
        }
    }

    /// The remembered documents are one more than the commands on both
    /// stacks, which never exceed the limit.
    pub proof fn lemma_shape(&self)
        requires
            self.inv(),
        ensures
            self.states().len() == self.applied() + self.undone() + 1,
            self.applied() + self.undone() <= self.limit(),
            self.limit() >= 1,
            self.applied_labels().len() == self.applied(),
            self.undone_labels().len() == self.undone(),
    {
    }

    /// What one recorded edit leaves to undo and redo: right after a command
    /// labelled `label` is recorded on top of document `before`, bringing the
    /// document to `after`, there is a command to undo; undo reports `label`
    /// and gives `before` back, and the redo that follows gives `after` again.
    pub proof fn lemma_undo_restores_push(h0: History, h1: History, label: Seq<char>, before: DocView, after: DocView)
        requires
            h0.inv(),
            h1.inv(),
            pushed_on(h0, h1, label, before),
            h1.tracks(after),
        ensures
            h1.applied() > 0,
            h1.applied_labels().last() == label,
            h1.states()[h1.applied() - 1] == before,
            h1.states()[h1.applied() as int] == after,
    {
        h0.lemma_shape();
        h1.lemma_shape();
        let s = h0.applied_labels().push(label);
        assert(s.last() == label);
        if s.len() > h0.limit() {
            assert(s.skip(1).last() == s.last());
        }
    }

    /// The documents before the current one share its next id to allocate.
    proof fn lemma_undo_side_next_id(&self, i: int)
        requires
            self.inv(),
            0 <= i <= self.applied(),
        ensures
            self.states()[i].next_id == self.current().next_id,
        decreases self.applied() - i,
    {
        let s = self.states@;
        if i < self.undo@.len() {
            self.lemma_undo_side_next_id(i + 1);
            assert(self.undo@[i].can_revert(s[i + 1]));
            lemma_next_id_free(self.undo@[i], s[i + 1], s[i + 1].next_id);
        }
    }

    /// The documents after the current one share its next id to allocate.
    proof fn lemma_redo_side_next_id(&self, i: int)
        requires
            self.inv(),
            self.applied() <= i <= self.applied() + self.undone(),
        ensures
            self.states()[i].next_id == self.current().next_id,
        decreases i - self.applied(),
    {
        let s = self.states@;
        let u = self.undo@.len() as int;
        let r = self.redo@.len() as int;
        if i > u {
            self.lemma_redo_side_next_id(i - 1);
            let j = u + r - i;
            assert(self.redo@[j].can_apply(s[u + r - 1 - j]));
            lemma_next_id_free(self.redo@[j], s[i - 1], s[i - 1].next_id);
        }
    }

    /// Every remembered document has the current one's next id to allocate.
    proof fn lemma_same_next_id(&self)
        requires
            self.inv(),
        ensures
            forall|i: int| 0 <= i < self.states().len() ==> #[trigger] self.states()[i].next_id == self.current().next_id,
    {
        assert forall|i: int| 0 <= i < self.states().len() implies #[trigger] self.states()[i].next_id == self.current().next_id by {
            if i <= self.applied() {
                self.lemma_undo_side_next_id(i);
            } else {
                self.lemma_redo_side_next_id(i);
            }
        }
    }

    /// Ids were handed out outside any command (for one being built): the
    /// document now differs from the current one only by a larger next id to
    /// allocate. Every remembered document takes that next id, so undo and
    /// redo never give an id out twice.
    pub fn follow_next_id(&mut self, doc: &Document)
        requires
            old(self).inv(),
            (old(self).applied() == 0 && old(self).undone() == 0) || (old(self).current().next_id <= doc@.next_id
                && doc@ == with_next(old(self).current(), doc@.next_id)),
        ensures
            final(self).inv(),
            final(self).tracks(doc@),
            final(self).applied() == old(self).applied(),
            final(self).undone() == old(self).undone(),
            final(self).limit() == old(self).limit(),
            final(self).is_merging() == old(self).is_merging(),
            final(self).revision_count() == old(self).revision_count(),
            final(self).applied_labels() == old(self).applied_labels(),
            final(self).undone_labels() == old(self).undone_labels(),
            !(old(self).applied() == 0 && old(self).undone() == 0) ==> final(self).states() == old(self).states().map_values(
                |x: DocView| with_next(x, doc@.next_id),
            ),
    {
        let ghost n = doc@.next_id;
        let ghost s = self.states@;
        let ghost u = self.undo@.len() as int;
        let ghost r = self.redo@.len() as int;
        if self.undo.len() == 0 && self.redo.len() == 0 {
            proof {
                self.states = Ghost(seq![doc@]);
            }
            return;
        }
        proof {
            self.lemma_same_next_id();
            let s2 = s.map_values(|x: DocView| with_next(x, n));
            assert forall|i: int| #![trigger self.undo@[i]] 0 <= i < u implies self.undo@[i].can_revert(s2[i + 1])
                && self.undo@[i].revert_view(s2[i + 1]) == s2[i] by {
                assert(self.undo@[i].can_revert(s[i + 1]));
                assert(s[i + 1].next_id == s[u].next_id);
                lemma_next_id_free(self.undo@[i], s[i + 1], n);
            }
            assert forall|j: int| #![trigger self.redo@[j]] 0 <= j < r implies self.redo@[j].can_apply(s2[u + r - 1 - j])
                && self.redo@[j].undoable(s2[u + r - 1 - j]) && self.redo@[j].apply_view(s2[u + r - 1 - j]) == s2[u + r - j] by {
                let k = u + r - 1 - j;
                assert(self.redo@[j].can_apply(s[k]) && self.redo@[j].undoable(s[k]));
                assert(s[k].next_id == s[u].next_id);
                lemma_next_id_free(self.redo@[j], s[k], n);
            }
            self.states = Ghost(s2);
            assert(s2[u] == with_next(s[u], n));
        }
    }

    /// Bump the revision without a command (a live preview tick).
    pub fn touch(&mut self)
        requires
            old(self).revision_count() < u64::MAX,
        ensures
            final(self).revision_count() == old(self).revision_count() + 1,
            final(self).inv() == old(self).inv(),
            final(self).states() == old(self).states(),
            final(self).applied() == old(self).applied(),
            final(self).undone() == old(self).undone(),
            final(self).limit() == old(self).limit(),
            final(self).is_merging() == old(self).is_merging(),
    {
        self.revision = self.revision + 1;
    }

    /// Begin or end a merging run (slider drag start and stop).
    pub fn set_merging(&mut self, merging: bool)
        ensures
            final(self).is_merging() == merging,
            final(self).inv() == old(self).inv(),
            final(self).states() == old(self).states(),
            final(self).applied() == old(self).applied(),
            final(self).undone() == old(self).undone(),
            final(self).limit() == old(self).limit(),
            final(self).revision_count() == old(self).revision_count(),
    {
        self.merging = merging;
    }

    /// Revert the last applied command, returning its label; `None` when
    /// there is nothing to undo. The document lands on the state before
    /// that command.
    pub fn undo(&mut self, doc: &mut Document) -> (r: Option<String>)
        requires
            old(self).inv(),
            old(doc).wf(),
            old(self).tracks(old(doc)@),
            old(self).revision_count() < u64::MAX,
        ensures
            final(self).inv(),
            final(doc).wf(),
            final(self).states() == old(self).states(),
            final(self).limit() == old(self).limit(),
            final(self).is_merging() == old(self).is_merging(),
            old(self).applied() == 0 ==> r is None && final(doc)@ == old(doc)@ && final(self).applied() == 0
                && final(self).undone() == old(self).undone() && final(self).revision_count() == old(self).revision_count(),
            old(self).applied() > 0 ==> r is Some && final(self).applied() == old(self).applied() - 1 && final(self).undone()
                == old(self).undone() + 1 && final(doc)@ == old(self).states()[old(self).applied() - 1]
                && final(self).revision_count() == old(self).revision_count() + 1,
            old(self).applied() > 0 ==> r.unwrap()@ == old(self).applied_labels().last()
                && final(self).undone_labels() == seq![r.unwrap()@] + old(self).undone_labels()
                && final(self).applied_labels() == old(self).applied_labels().drop_last(),
            final(self).tracks(final(doc)@),
    {
        let mut cmd = match self.undo.pop() {
            Some(c) => c,
            None => return None,
        };
        let ghost s = self.states@;
        let ghost u = self.undo@.len() as int;
        let label = cmd.label();
        cmd.revert(doc);
        self.revision = self.revision + 1;
        let ghost r0 = self.redo@;
        self.redo.push(cmd);
        proof {
            let r = self.redo@.len() as int;
            assert forall|j: int| #![trigger self.redo@[j]] 0 <= j < r implies self.redo@[j].can_apply(s[u + r - 1 - j]) && self.redo@[j].undoable(s[u + r - 1 - j])
                && self.redo@[j].apply_view(s[u + r - 1 - j]) == s[u + r - j] by {
                if j < r - 1 {
                    assert(self.redo@[j] == r0[j]);
                }
            }
        }
        Some(label)
    }

    /// Re-apply the last undone command, returning its label; `None` when
    /// there is nothing to redo. The document lands on the state after that
    /// command.
    pub fn redo(&mut self, doc: &mut Document) -> (r: Option<String>)
        requires
            old(self).inv(),
            old(doc).wf(),
            old(self).tracks(old(doc)@),
            old(self).revision_count() < u64::MAX,
        ensures
            final(self).inv(),
            final(doc).wf(),
            final(self).states() == old(self).states(),
            final(self).limit() == old(self).limit(),
            final(self).is_merging() == old(self).is_merging(),
            old(self).undone() == 0 ==> r is None && final(doc)@ == old(doc)@ && final(self).undone() == 0
                && final(self).applied() == old(self).applied() && final(self).revision_count() == old(self).revision_count(),
            old(self).undone() > 0 ==> r is Some && final(self).applied() == old(self).applied() + 1 && final(self).undone()
                == old(self).undone() - 1 && final(doc)@ == old(self).states()[old(self).applied() + 1 as int]
                && final(self).revision_count() == old(self).revision_count() + 1,
            old(self).undone() > 0 ==> r.unwrap()@ == old(self).undone_labels()[0]
                && final(self).applied_labels() == old(self).applied_labels().push(r.unwrap()@)
                && final(self).undone_labels() == old(self).undone_labels().drop_first(),
            final(self).tracks(final(doc)@),
    {
        let mut cmd = match self.redo.pop() {
            Some(c) => c,
            None => return None,
        };
        let ghost s = self.states@;
        let ghost u = self.undo@.len() as int;
        proof {
            let r = self.redo@.len() as int;
            assert(old(self).redo@[r].can_apply(s[u]));
        }
        let label = cmd.label();
        cmd.apply(doc);
        self.revision = self.revision + 1;
        let ghost u0 = self.undo@;
        self.undo.push(cmd);
        proof {
            let u1 = self.undo@.len() as int;
            assert forall|i: int| #![trigger self.undo@[i]] 0 <= i < u1 implies self.undo@[i].can_revert(s[i + 1]) && self.undo@[i].revert_view(s[i + 1]) == s[i] by {
                if i < u1 - 1 {
                    assert(self.undo@[i] == u0[i]);
                }
            }
            let r = self.redo@.len() as int;
            assert forall|j: int| #![trigger self.redo@[j]] 0 <= j < r implies self.redo@[j].can_apply(s[u1 + r - 1 - j]) && self.redo@[j].undoable(s[u1 + r - 1 - j])
                && self.redo@[j].apply_view(s[u1 + r - 1 - j]) == s[u1 + r - j] by {
                assert(self.redo@[j] == old(self).redo@[j]);
            }
        }
        Some(label)
    }

    /// Something can be undone.
    pub fn can_undo(&self) -> (r: bool)
        ensures
            r == (self.applied() > 0),
    {
        self.undo.len() > 0
    }

    /// Something can be redone.
    pub fn can_redo(&self) -> (r: bool)
        ensures
            r == (self.undone() > 0),
    {
        self.redo.len() > 0
    }

    /// Labels of applied commands, oldest first.
    pub fn undo_labels(&self) -> (r: Vec<String>)
        ensures
            r@.len() == self.applied(),
            forall|i: int| 0 <= i < r@.len() ==> (#[trigger] r@[i])@ == self.applied_labels()[i],
    {
        let mut out: Vec<String> = Vec::new();
        for i in 0..self.undo.len()
            invariant
                out@.len() == i,
                forall|j: int| 0 <= j < i ==> (#[trigger] out@[j])@ == self.undo@[j].label_spec(),
        {
            out.push(self.undo[i].label());
        }
        out
    }

    /// Labels of undone commands, next redo first.
    pub fn redo_labels(&self) -> (r: Vec<String>)
        ensures
            r@.len() == self.undone(),
            forall|i: int| 0 <= i < r@.len() ==> (#[trigger] r@[i])@ == self.undone_labels()[i],
    {
        let mut out: Vec<String> = Vec::new();
        let mut i = self.redo.len();
        while i > 0
            invariant
                i <= self.redo@.len(),
                out@.len() == self.redo@.len() - i,
                forall|j: int| 0 <= j < out@.len() ==> (#[trigger] out@[j])@ == self.redo@[self.redo@.len() - 1 - j].label_spec(),
            decreases i,
        {
            i = i - 1;
            out.push(self.redo[i].label());
        }
        out
    }

    /// Undo or redo until exactly `target` commands are applied, as far as
    /// the stacks allow.
    pub fn jump_to(&mut self, doc: &mut Document, target: usize)
        requires
            old(self).inv(),
            old(doc).wf(),
            old(self).tracks(old(doc)@),
            old(self).revision_count() + old(self).applied() + old(self).undone() < u64::MAX,
        ensures
            final(self).inv(),
            final(doc).wf(),
            final(self).states() == old(self).states(),
            final(self).applied() == jump_target(old(self).applied(), old(self).undone(), target as nat),
            final(self).applied() + final(self).undone() == old(self).applied() + old(self).undone(),
            final(self).tracks(final(doc)@),
            (old(self).applied() > 0 || old(self).undone() > 0) ==> final(doc)@ == final(self).current(),
            (old(self).applied() == 0 && old(self).undone() == 0) ==> final(doc)@ == old(doc)@,
            final(self).limit() == old(self).limit(),
            final(self).is_merging() == old(self).is_merging(),
    {
        let ghost total = self.applied() + self.undone();
        let ghost rev0 = self.revision_count();
        let ghost steps: int = 0;
        while self.undo.len() > target && self.can_undo()
            invariant
                self.inv(),
                doc.wf(),
                self.tracks(doc@),
                self.states() == old(self).states(),
                self.applied() + self.undone() == total,
                total == old(self).applied() + old(self).undone(),
                self.applied() <= old(self).applied(),
                self.applied() >= target || self.applied() == old(self).applied(),
                self.revision_count() == rev0 + (old(self).applied() - self.applied()),
                rev0 == old(self).revision_count(),
                rev0 + total < u64::MAX,
                total > 0 ==> doc@ == self.current(),
                total == 0 ==> doc@ == old(doc)@,
                self.limit() == old(self).limit(),
                self.is_merging() == old(self).is_merging(),
            decreases self.applied(),
        {
            self.undo(doc);
        }
        let ghost mid = self.applied();
        while self.undo.len() < target && self.can_redo()
            invariant
                self.inv(),
                doc.wf(),
                self.tracks(doc@),
                self.states() == old(self).states(),
                self.applied() + self.undone() == total,
                total == old(self).applied() + old(self).undone(),
                mid <= self.applied(),
                mid == jump_target(old(self).applied(), old(self).undone(), target as nat) || mid < target,
                self.applied() <= target || self.applied() == mid,
                mid <= old(self).applied(),
                target <= old(self).applied() ==> mid == target,
                target > old(self).applied() ==> mid == old(self).applied(),
                self.revision_count() == rev0 + (old(self).applied() - mid) + (self.applied() - mid),
                rev0 + total < u64::MAX,
                total > 0 ==> doc@ == self.current(),
                total == 0 ==> doc@ == old(doc)@,
                self.limit() == old(self).limit(),
                self.is_merging() == old(self).is_merging(),
            decreases self.undone(),
        {
            self.redo(doc);
        }
    }

    /// Number of applied commands.
    pub fn applied_len(&self) -> (r: usize)
        ensures
            r == self.applied(),
    {
        self.undo.len()
    }
}

impl Default for History {
    /// An empty history remembering up to 200 steps.
    fn default() -> (r: History)
        ensures
            r.inv(),
            r.applied() == 0,
            r.undone() == 0,
            r.limit() == 200,
            r.revision_count() == 0,
            !r.is_merging(),
    {
        History::new(200)
    }
}

/// One open document with its editing state.
pub struct Editor {
    pub doc: Document,
    pub history: History,
    /// The selected layer, if any.
    pub selection: Option<NodeId>,
    /// History length at the last save; `None` when never saved.
    pub saved_at: Option<usize>,
}

impl Editor {
    /// The document is well formed and the history acts on it.
    pub open spec fn inv(&self) -> bool {
        self.doc.wf() && self.history.inv() && self.history.tracks(self.doc@)
    }

    /// A new editor on an empty document.
    pub fn new(size: [u32; 2], focus: ProjectFocus) -> (r: Editor)
        ensures
            r.inv(),
            !r.is_dirty_spec(),
            r.history.applied() == 0 && r.history.undone() == 0,
            r.doc@.size == size && r.doc@.focus == focus,
    {
        Editor::from_document(Document::new(size, focus))
    }

    /// A new editor on `doc`, with an empty history, counted as saved.
    pub fn from_document(doc: Document) -> (r: Editor)
        requires
            doc.wf(),
        ensures
            r.inv(),
            r.doc@ == doc@,
            r.history.applied() == 0 && r.history.undone() == 0,
            r.history.limit() == 200,
            r.selection is None,
            r.saved_at == Some(0usize),
    {
        Editor { doc, history: History::default(), selection: None, saved_at: Some(0) }
    }

    /// Apply `cmd` through the history.
    pub fn apply(&mut self, cmd: Command)
        requires
            old(self).inv(),
            cmd.can_apply(old(self).doc@),
            cmd.undoable(old(self).doc@),
            old(self).history.revision_count() < u64::MAX,
        ensures
            final(self).inv(),
            final(self).doc@ == cmd.apply_view(old(self).doc@),
            final(self).history.undone() == 0,
            final(self).saved_at == old(self).saved_at,
            final(self).selection == old(self).selection,
            final(self).history.limit() == old(self).history.limit(),
            final(self).history.is_merging() == old(self).history.is_merging(),
            final(self).history.revision_count() == old(self).history.revision_count() + 1,
            ({
                let h = old(self).history;
                let merged = h.is_merging() && h.applied() > 0 && h.top().merges_with(&cmd);
                &&& merged ==> merged_into(h, final(self).history)
                &&& !merged ==> pushed_on(h, final(self).history, cmd.label_spec(), old(self).doc@)
            }),
    {
        self.history.push_apply(&mut self.doc, cmd);
    }

    /// The document differs from the last save.
    pub open spec fn is_dirty_spec(&self) -> bool {
        self.saved_at != Some(self.history.applied() as usize)
    }

    /// The saved-state marker follows the history position: an editor clean
    /// at its current position turns dirty once an edit is recorded (while
    /// the history is below its limit), and the position one undo back is the
    /// saved one again.
    pub proof fn lemma_edit_marks_dirty(e0: Editor, e1: Editor, label: Seq<char>, before: DocView)
        requires
            e0.history.inv(),
            e1.history.inv(),
            !e0.is_dirty_spec(),
            pushed_on(e0.history, e1.history, label, before),
            e1.saved_at == e0.saved_at,
            e0.history.applied() < e0.history.limit(),
        ensures
            e1.is_dirty_spec(),
            e1.history.applied() > 0,
            e1.saved_at == Some((e1.history.applied() - 1) as usize),
    {
        e0.history.lemma_shape();
        e1.history.lemma_shape();
    }

    /// The document differs from the last save: the number of applied
    /// commands is not the one recorded at save time.
    pub fn is_dirty(&self) -> (r: bool)
        ensures
            r == self.is_dirty_spec(),
    {
        match self.saved_at {
            Some(n) => n != self.history.applied_len(),
            None => true,
        }
    }

    /// Record the current history position as saved.
    pub fn mark_saved(&mut self)
        ensures
            final(self).saved_at == Some(old(self).history.applied() as usize),
            final(self).doc == old(self).doc,
            final(self).history == old(self).history,
            final(self).selection == old(self).selection,
            !final(self).is_dirty_spec(),
    {
        self.saved_at = Some(self.history.applied_len());
    }
}

} // verus!
