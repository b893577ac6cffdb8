//! Grouping sibling layers under a new group.

use vstd::prelude::*;
use crate::document::{
    clamp, descends, entries_view, lemma_chain_rank, lemma_child_listed, lemma_childless_subtree, lemma_parent_not_below,
    lemma_remove_elem, parent_chain, position, ranked, removed_view, strict_ancestor, tree_links, tree_wf,
    unlinked_children, DocView, Document, TreeError,
};
use crate::document::edit::{is_reordering, reordered_view};
use crate::document::moves::{lemma_insert_fresh, move_ok, moved_view};
use crate::node::{copy_ids, ids_view, BlendMode, KindView, Node, NodeId, NodeView, PropsView, OPACITY_OPAQUE};

verus! {

broadcast use {vstd::multiset::group_multiset_axioms, vstd::seq_lib::group_to_multiset_ensures};

/// The entries of `c` that `ids` lists, in `c`'s order.
pub open spec fn members_of(c: Seq<u64>, ids: Seq<u64>) -> Seq<u64>
    decreases c.len(),
{
    if c.len() == 0 {
        c
    } else if ids.contains(c.last()) {
        members_of(c.drop_last(), ids).push(c.last())
    } else {
        members_of(c.drop_last(), ids)
    }
}

/// Index of the first entry of `c` that `ids` lists, or `c`'s length.
pub open spec fn first_member(c: Seq<u64>, ids: Seq<u64>) -> int
    decreases c.len(),
{
    if c.len() == 0 {
        0
    } else if ids.contains(c[0]) {
        0
    } else {
        1 + first_member(c.skip(1), ids)
    }
}

/// `s` with each entry of `xs` taken out, in `xs`'s order.
pub open spec fn without(s: Seq<u64>, xs: Seq<u64>) -> Seq<u64>
    decreases xs.len(),
{
    if xs.len() == 0 {
        s
    } else {
        let t = without(s, xs.drop_last());
        t.remove(t.index_of(xs.last()))
    }
}

/// The new group node: named `name`, pass-through, under `p`, holding `ms`.
pub open spec fn group_view(name: Seq<char>, p: u64, ms: Seq<u64>) -> NodeView {
    NodeView {
        props: PropsView {
            name,
            visible: true,
            locked: false,
            opacity: OPACITY_OPAQUE,
            blend: BlendMode::PassThrough,
            clip: false,
        },
        kind: KindView::Group { expanded: true },
        parent: Some(p),
        children: ms,
    }
}

/// `d` with the children of `p` that `ids` lists moved, in order, into a new
/// group `g` that takes the place of the topmost of them.
pub open spec fn grouped_view(d: DocView, ids: Seq<u64>, g: u64, name: Seq<char>, p: u64) -> DocView {
    let c = d.nodes[p].children;
    let ms = members_of(c, ids);
    let pc = without(c.insert(first_member(c, ids), g), ms);
    DocView {
        nodes: Map::new(
            |x: u64| d.nodes.contains_key(x) || x == g,
            |x: u64|
                if x == g {
                    group_view(name, p, ms)
                } else if x == p {
                    NodeView { children: pc, ..d.nodes[p] }
                } else if ms.contains(x) {
                    NodeView { parent: Some(g), ..d.nodes[x] }
                } else {
                    d.nodes[x]
                },
        ),
        ..d
    }
}

/// `d` with group `g` dropped, every listed node back under `p`, and `p`'s
/// children set to `orig`.
pub open spec fn ungrouped_view(d: DocView, ids: Seq<u64>, g: u64, p: u64, orig: Seq<u64>) -> DocView {
    DocView {
        nodes: Map::new(
            |x: u64| d.nodes.contains_key(x) && x != g,
            |x: u64|
                if x == p {
                    NodeView { children: orig, ..d.nodes[p] }
                } else if ids.contains(x) {
                    NodeView { parent: Some(p), ..d.nodes[x] }
                } else {
                    d.nodes[x]
                },
        ),
        ..d
    }
}

/// Membership and order facts of `members_of`.
proof fn lemma_members(c: Seq<u64>, ids: Seq<u64>)
    requires
        c.no_duplicates(),
    ensures
        members_of(c, ids).no_duplicates(),
        forall|x: u64| #[trigger] members_of(c, ids).contains(x) == (c.contains(x) && ids.contains(x)),
    decreases c.len(),
{
    if c.len() > 0 {
        let t = c.drop_last();
        assert(t.no_duplicates()) by {
            assert forall|a: int, b: int| 0 <= a < t.len() && 0 <= b < t.len() && a != b implies t[a] != t[b] by {
                assert(t[a] == c[a] && t[b] == c[b]);
            }
        }
        lemma_members(t, ids);
        let m = members_of(t, ids);
        assert forall|x: u64| #[trigger] c.contains(x) == (t.contains(x) || x == c.last()) by {
            if c.contains(x) && x != c.last() {
                let j = choose|j: int| 0 <= j < c.len() && c[j] == x;
                assert(t[j] == x);
            }
            if t.contains(x) {
                let j = choose|j: int| 0 <= j < t.len() && t[j] == x;
                assert(c[j] == x);
            }
            if x == c.last() {
                assert(c[c.len() - 1] == x);
            }
        }
        assert(!t.contains(c.last())) by {
            if t.contains(c.last()) {
                let j = choose|j: int| 0 <= j < t.len() && t[j] == c.last();
                assert(c[j] == c[c.len() - 1]);
            }
        }
        if ids.contains(c.last()) {
            let r = m.push(c.last());
            assert forall|x: u64| #[trigger] r.contains(x) == (m.contains(x) || x == c.last()) by {
                if r.contains(x) && x != c.last() {
                    let j = choose|j: int| 0 <= j < r.len() && r[j] == x;
                    assert(m[j] == x);
                }
                if m.contains(x) {
                    let j = choose|j: int| 0 <= j < m.len() && m[j] == x;
                    assert(r[j] == x);
                }
                if x == c.last() {
                    assert(r[m.len() as int] == x);
                }
            }
            assert forall|a: int, b: int| 0 <= a < r.len() && 0 <= b < r.len() && a != b implies r[a] != r[b] by {
                if a < m.len() && b < m.len() {
                    assert(r[a] == m[a] && r[b] == m[b]);
                } else if a < m.len() {
                    assert(r[a] == m[a]);
                    assert(m.contains(m[a]));
                } else if b < m.len() {
                    assert(r[b] == m[b]);
                    assert(m.contains(m[b]));
                }
            }
        }
    }
}

/// `first_member` is the index of the first listed entry.
proof fn lemma_first_member(c: Seq<u64>, ids: Seq<u64>)
    ensures
        0 <= first_member(c, ids) <= c.len(),
        forall|j: int| 0 <= j < first_member(c, ids) ==> !ids.contains(#[trigger] c[j]),
        first_member(c, ids) < c.len() ==> ids.contains(c[first_member(c, ids)]),
        (exists|j: int| 0 <= j < c.len() && ids.contains(#[trigger] c[j])) ==> first_member(c, ids) < c.len(),
    decreases c.len(),
{
    if c.len() > 0 && !ids.contains(c[0]) {
        let t = c.skip(1);
        lemma_first_member(t, ids);
        assert forall|j: int| 0 <= j < first_member(c, ids) implies !ids.contains(#[trigger] c[j]) by {
            if j > 0 {
                assert(c[j] == t[j - 1]);
            }
        }
        if first_member(c, ids) < c.len() {
            assert(c[first_member(c, ids)] == t[first_member(t, ids)]);
        }
        if exists|j: int| 0 <= j < c.len() && ids.contains(#[trigger] c[j]) {
            let j = choose|j: int| 0 <= j < c.len() && ids.contains(#[trigger] c[j]);
            assert(j > 0);
            assert(t[j - 1] == c[j]);
        }
    }
}

/// Taking distinct present entries out of a duplicate-free list leaves it
/// duplicate-free, without them.
proof fn lemma_without(s: Seq<u64>, xs: Seq<u64>)
    requires
        s.no_duplicates(),
        xs.no_duplicates(),
        forall|x: u64| #[trigger] xs.contains(x) ==> s.contains(x),
    ensures
        without(s, xs).no_duplicates(),
        forall|y: u64| #[trigger] without(s, xs).contains(y) == (s.contains(y) && !xs.contains(y)),
    decreases xs.len(),
{
    if xs.len() > 0 {
        let ys = xs.drop_last();
        let last = xs.last();
        assert forall|x: u64| #[trigger] xs.contains(x) == (ys.contains(x) || x == last) by {
            if xs.contains(x) && x != last {
                let j = choose|j: int| 0 <= j < xs.len() && xs[j] == x;
                assert(ys[j] == x);
            }
            if ys.contains(x) {
                let j = choose|j: int| 0 <= j < ys.len() && ys[j] == x;
                assert(xs[j] == x);
            }
            if x == last {
                assert(xs[xs.len() - 1] == x);
            }
        }
        assert(ys.no_duplicates()) by {
            assert forall|a: int, b: int| 0 <= a < ys.len() && 0 <= b < ys.len() && a != b implies ys[a] != ys[b] by {
                assert(ys[a] == xs[a] && ys[b] == xs[b]);
            }
        }
        assert(!ys.contains(last)) by {
            if ys.contains(last) {
                let j = choose|j: int| 0 <= j < ys.len() && ys[j] == last;
                assert(xs[j] == xs[xs.len() - 1]);
            }
        }
        assert forall|x: u64| #[trigger] ys.contains(x) implies s.contains(x) by {
            assert(xs.contains(x));
        }
        lemma_without(s, ys);
        let t = without(s, ys);
        assert(xs.contains(last));
        assert(s.contains(last));
        assert(t.contains(last));
        lemma_remove_elem(t, last);
    }
}

/// Two duplicate-free lists with the same members list the same ids, each
/// once.
proof fn lemma_same_members(a: Seq<u64>, b: Seq<u64>)
    requires
        a.no_duplicates(),
        b.no_duplicates(),
        forall|x: u64| #[trigger] a.contains(x) == b.contains(x),
    ensures
        is_reordering(a, b),
{
    a.lemma_multiset_has_no_duplicates();
    b.lemma_multiset_has_no_duplicates();
    assert forall|x: u64| a.to_multiset().count(x) == b.to_multiset().count(x) by {
        assert(a.contains(x) == (a.to_multiset().count(x) > 0));
        assert(b.contains(x) == (b.to_multiset().count(x) > 0));
    }
    assert(a.to_multiset() =~= b.to_multiset());
}

/// `k` is the index of the first listed entry of `c` (or its length).
proof fn lemma_first_member_at(c: Seq<u64>, ids: Seq<u64>, k: int)
    requires
        0 <= k <= c.len(),
        forall|j: int| 0 <= j < k ==> !ids.contains(#[trigger] c[j]),
        k == c.len() || ids.contains(c[k]),
    ensures
        first_member(c, ids) == k,
    decreases k,
{
    if k > 0 {
        let t = c.skip(1);
        assert forall|j: int| 0 <= j < k - 1 implies !ids.contains(#[trigger] t[j]) by {
            assert(t[j] == c[j + 1]);
        }
        if k < c.len() {
            assert(t[k - 1] == c[k]);
        }
        assert(!ids.contains(c[0]));
        lemma_first_member_at(t, ids, k - 1);
    }
}

/// The listed nodes share a parent: the list is not empty, the first entry
/// is present with a parent, and every entry is present with that parent.
pub open spec fn siblings_ok(d: DocView, ids: Seq<u64>) -> bool {
    &&& ids.len() > 0
    &&& d.nodes.contains_key(ids[0])
    &&& d.nodes[ids[0]].parent is Some
    &&& forall|i: int| 0 <= i < ids.len() ==> d.nodes.contains_key(#[trigger] ids[i]) && d.nodes[ids[i]].parent
        == d.nodes[ids[0]].parent
}

/// `grouped_view` after only the first `j` members moved into the group.
pub open spec fn grouping_step(d: DocView, ids: Seq<u64>, g: u64, name: Seq<char>, p: u64, j: int) -> DocView {
    let c = d.nodes[p].children;
    let ms = members_of(c, ids);
    let done = ms.take(j);
    DocView {
        nodes: Map::new(
            |x: u64| d.nodes.contains_key(x) || x == g,
            |x: u64|
                if x == g {
                    group_view(name, p, done)
                } else if x == p {
                    NodeView { children: without(c.insert(first_member(c, ids), g), done), ..d.nodes[p] }
                } else if done.contains(x) {
                    NodeView { parent: Some(g), ..d.nodes[x] }
                } else {
                    d.nodes[x]
                },
        ),
        ..d
    }
}

/// Whether `ids` lists `x`.
fn lists(ids: &[NodeId], x: NodeId) -> (r: bool)
    ensures
        r == ids_view(ids@).contains(x.0),
{
    position(ids, x).is_some()
}

/// Group sibling nodes under a new group. The group takes the place of the
/// topmost member; members keep their relative order inside it.
#[derive(Debug)]
pub struct GroupNodes {
    pub ids: Vec<NodeId>,
    pub group_id: NodeId,
    pub name: String,
    /// The members' parent, captured on apply.
    pub parent: Option<NodeId>,
    /// The parent's children before apply, captured on apply.
    pub original_children: Vec<NodeId>,
    pub label: String,
}

impl GroupNodes {
    /// The listed ids.
    pub open spec fn id_list(&self) -> Seq<u64> {
        ids_view(self.ids@)
    }

    /// The parent shared by the listed nodes in `d`.
    pub open spec fn parent_in(&self, d: DocView) -> u64 {
        d.nodes[self.id_list()[0]].parent.unwrap()
    }

    /// Build the command, allocating the group's id; `None` (and no
    /// allocation) when `ids` is empty or its nodes do not share a parent.
    pub fn new(doc: &mut Document, ids: &[NodeId], name: String) -> (r: Option<GroupNodes>)
        requires
            old(doc).wf(),
            old(doc)@.next_id < u64::MAX,
        ensures
            final(doc).wf(),
            r is None <==> !siblings_ok(old(doc)@, ids_view(ids@)),
            r is None ==> final(doc)@ == old(doc)@,
            r matches Some(c) ==> {
                &&& c.group_id.0 == old(doc)@.next_id
                &&& final(doc)@ == (DocView { next_id: (old(doc)@.next_id + 1) as u64, ..old(doc)@ })
                &&& c.ids@ == ids@
                &&& c.name == name
                &&& c.parent is None
                &&& c.label@ == "Group Layers"@
            },
    {
        if ids.len() == 0 {
            return None;
        }
        let first = ids[0];
        let parent = match doc.node(first) {
            None => return None,
            Some(n) => match n.parent {
                None => return None,
                Some(p) => p,
            },
        };
        let ghost iv = ids_view(ids@);
        let mut i: usize = 0;
        while i < ids.len()
            invariant
                doc@ == old(doc)@,
                doc.wf(),
                iv == ids_view(ids@),
                i <= ids@.len(),
                doc@.nodes.contains_key(iv[0]) && doc@.nodes[iv[0]].parent == Some(parent.0),
                forall|j: int| 0 <= j < i ==> doc@.nodes.contains_key(#[trigger] iv[j]) && doc@.nodes[iv[j]].parent
                    == Some(parent.0),
            decreases ids@.len() - i,
        {
            let same = match doc.node(ids[i]) {
                Some(n) => match n.parent {
                    Some(p) => p.0 == parent.0,
                    None => false,
                },
                None => false,
            };
            if !same {
                proof {
                    assert(iv[i as int] == ids@[i as int].0);
                }
                return None;
            }
            i += 1;
        }
        let group_id = doc.alloc_id();
        Some(GroupNodes {
            ids: copy_ids(ids),
            group_id,
            name,
            parent: None,
            original_children: Vec::new(),
            label: String::from_str("Group Layers"),
        })
    }

    /// The new group's id.
    pub fn group_id(&self) -> (r: NodeId)
        ensures
            r == self.group_id,
    {
        self.group_id
    }

    /// "Group Layers".
    pub fn label(&self) -> (r: String)
        ensures
            r@ == self.label@,
    {
        self.label.clone()
    }

    /// The listed nodes share a parent that is a present group, and the
    /// group's id is allocated and unused.
    pub open spec fn can_apply(&self, d: DocView) -> bool {
        &&& siblings_ok(d, self.id_list())
        &&& d.nodes.contains_key(self.parent_in(d))
        &&& d.nodes[self.parent_in(d)].kind is Group
        &&& !d.nodes.contains_key(self.group_id.0)
        &&& self.group_id.0 < d.next_id
    }

    /// The document after apply.
    pub open spec fn apply_view(&self, d: DocView) -> DocView {
        grouped_view(d, self.id_list(), self.group_id.0, self.name@, self.parent_in(d))
    }

    /// Apply can always be undone exactly.
    pub open spec fn undoable(&self, d: DocView) -> bool {
        true
    }

    /// The document after revert.
    pub open spec fn revert_view(&self, d: DocView) -> DocView {
        ungrouped_view(d, self.id_list(), self.group_id.0, self.parent.unwrap().0, ids_view(self.original_children@))
    }

    /// Moving the listed nodes back, dropping the group and restoring the
    /// parent's order is accepted, and grouping again would give `d` back.
    pub open spec fn can_revert(&self, d: DocView) -> bool {
        let p = self.parent.unwrap().0;
        let g = self.group_id.0;
        let ids = self.id_list();
        let orig = ids_view(self.original_children@);
        &&& self.parent is Some
        &&& tree_wf(d.nodes, d.root, d.next_id)
        &&& d.nodes.contains_key(p)
        &&& d.nodes[p].kind is Group
        &&& d.nodes.contains_key(g)
        &&& g != d.root
        &&& g != p
        &&& d.nodes[g].parent == Some(p)
        &&& !ids.contains(g)
        &&& !ids.contains(p)
        &&& forall|x: u64|
            #[trigger] ids.contains(x) ==> d.nodes.contains_key(x) && x != d.root && (d.nodes[x].parent == Some(g)
                || d.nodes[x].parent == Some(p))
        &&& forall|x: u64| #[trigger] d.nodes[g].children.contains(x) ==> ids.contains(x)
        &&& orig.no_duplicates()
        &&& forall|x: u64|
            #[trigger] orig.contains(x) == ((d.nodes[p].children.contains(x) && x != g) || d.nodes[g].children.contains(x))
        &&& tree_wf(self.revert_view(d).nodes, d.root, d.next_id)
        &&& self.can_apply(self.revert_view(d))
        &&& self.apply_view(self.revert_view(d)) == d
    }
}

impl GroupNodes {
    /// One member moved into the group: the next grouping step.
    proof fn lemma_step(d: DocView, ids: Seq<u64>, g: u64, name: Seq<char>, p: u64, j: int)
        requires
            tree_wf(d.nodes, d.root, d.next_id),
            d.nodes.contains_key(p),
            !d.nodes.contains_key(g),
            0 <= j < members_of(d.nodes[p].children, ids).len(),
            j < usize::MAX,
        ensures
            ({
                let cur = grouping_step(d, ids, g, name, p, j);
                let m = members_of(d.nodes[p].children, ids)[j];
                &&& cur.nodes[m].parent == Some(p)
                &&& moved_view(cur, m, g, usize::MAX as int) == grouping_step(d, ids, g, name, p, j + 1)
            }),
    {
        let c = d.nodes[p].children;
        assert(c.no_duplicates());
        lemma_members(c, ids);
        let ms = members_of(c, ids);
        let m = ms[j];
        let done = ms.take(j);
        let done1 = ms.take(j + 1);
        assert(done1 =~= done.push(m));
        assert(done1.drop_last() =~= done);
        assert(!done.contains(m)) by {
            if done.contains(m) {
                let t = choose|t: int| 0 <= t < done.len() && done[t] == m;
                assert(ms[t] == ms[j]);
            }
        }
        assert(ms.contains(m));
        assert(c.contains(m));
        assert(m != g);
        assert(m != p) by {
            lemma_child_listed_back(d, p, m);
        }
        assert forall|x: u64| #[trigger] done1.contains(x) == (done.contains(x) || x == m) by {
            if done1.contains(x) && x != m {
                let t = choose|t: int| 0 <= t < done1.len() && done1[t] == x;
                assert(done[t] == x);
            }
            if done.contains(x) {
                let t = choose|t: int| 0 <= t < done.len() && done[t] == x;
                assert(done1[t] == x);
            }
            if x == m {
                assert(done1[j] == x);
            }
        }
        let cur = grouping_step(d, ids, g, name, p, j);
        let nxt = grouping_step(d, ids, g, name, p, j + 1);
        lemma_child_listed_back(d, p, m);
        assert(cur.nodes[m].parent == Some(p));
        let mv = moved_view(cur, m, g, usize::MAX as int);
        assert(done.insert(j, m) =~= done1);
        assert(clamp(usize::MAX as int, done.len() as int) == j);
        assert(mv.nodes =~= nxt.nodes);
    }
}

/// A child listed by a parent has that parent.
proof fn lemma_child_listed_back(d: DocView, p: u64, c: u64)
    requires
        tree_wf(d.nodes, d.root, d.next_id),
        d.nodes.contains_key(p),
        d.nodes[p].children.contains(c),
    ensures
        d.nodes.contains_key(c),
        d.nodes[c].parent == Some(p),
        c != d.root,
        c != p,
{
    let rank = choose|rank: Map<u64, nat>| ranked(d.nodes, rank);
}

/// Grouping then ungrouping gives the document back, and the grouped
/// document has the shape ungrouping expects.
proof fn lemma_group_round_trip(d: DocView, ids: Seq<u64>, g: u64, name: Seq<char>, p: u64)
    requires
        tree_wf(d.nodes, d.root, d.next_id),
        siblings_ok(d, ids),
        p == d.nodes[ids[0]].parent.unwrap(),
        d.nodes.contains_key(p),
        !d.nodes.contains_key(g),
    ensures
        ({
            let d1 = grouped_view(d, ids, g, name, p);
            let c = d.nodes[p].children;
            &&& ungrouped_view(d1, ids, g, p, c) == d
            &&& d1.nodes.contains_key(p)
            &&& d1.nodes[p].kind == d.nodes[p].kind
            &&& d1.nodes.contains_key(g)
            &&& g != d1.root
            &&& g != p
            &&& d1.nodes[g].parent == Some(p)
            &&& !ids.contains(g)
            &&& !ids.contains(p)
            &&& forall|x: u64|
                #[trigger] ids.contains(x) ==> d1.nodes.contains_key(x) && x != d1.root && (d1.nodes[x].parent == Some(g)
                    || d1.nodes[x].parent == Some(p))
            &&& forall|x: u64| #[trigger] d1.nodes[g].children.contains(x) ==> ids.contains(x)
            &&& c.no_duplicates()
            &&& forall|x: u64|
                #[trigger] c.contains(x) == ((d1.nodes[p].children.contains(x) && x != g) || d1.nodes[g].children.contains(x))
        }),
{
    let c = d.nodes[p].children;
    let ms = members_of(c, ids);
    let k = first_member(c, ids);
    let d1 = grouped_view(d, ids, g, name, p);
    assert(c.no_duplicates());
    lemma_members(c, ids);
    lemma_first_member(c, ids);
    assert forall|x: u64| #[trigger] ids.contains(x) implies d.nodes.contains_key(x) && d.nodes[x].parent == Some(p)
        && c.contains(x) && ms.contains(x) && x != d.root && x != p by {
        let i = choose|i: int| 0 <= i < ids.len() && ids[i] == x;
        assert(d.nodes.contains_key(ids[i]));
        lemma_child_listed(d.nodes, d.root, x, p);
        lemma_child_listed_back(d, p, x);
    }
    assert(ids.contains(ids[0]));
    assert(!ids.contains(g));
    assert(!ids.contains(p));
    assert(!c.contains(g)) by {
        if c.contains(g) {
            lemma_child_listed_back(d, p, g);
        }
    }
    assert(k <= c.len());
    lemma_insert_fresh(c, k, g);
    let c1 = c.insert(k, g);
    assert forall|x: u64| #[trigger] ms.contains(x) implies c1.contains(x) by {}
    lemma_without(c1, ms);
    let d2 = ungrouped_view(d1, ids, g, p, c);
    assert forall|x: u64| d2.nodes.contains_key(x) implies d2.nodes[x] == d.nodes[x] by {
        if x != p && ids.contains(x) {
            assert(ms.contains(x));
        } else if x != p && ms.contains(x) {
            assert(ids.contains(x));
        }
    }
    assert(d2.nodes =~= d.nodes);
    assert(g != d1.root) by {
        assert(tree_links(d.nodes, d.root));
    }
    assert forall|x: u64| #[trigger] c.contains(x) == ((d1.nodes[p].children.contains(x) && x != g) || d1.nodes[g].children.contains(x)) by {
        if c.contains(x) && !ids.contains(x) {
            assert(!ms.contains(x));
        }
    }
}

impl GroupNodes {
    /// Group the listed nodes. Undoing right after restores the document
    /// exactly.
    pub fn apply(&mut self, doc: &mut Document)
        requires
            old(doc).wf(),
            old(self).can_apply(old(doc)@),
        ensures
            final(self).label == old(self).label,
            final(doc).wf(),
            final(doc)@ == old(self).apply_view(old(doc)@),
            final(self).ids == old(self).ids && final(self).group_id == old(self).group_id && final(self).name
                == old(self).name && final(self).label == old(self).label,
            final(self).can_revert(final(doc)@),
            final(self).revert_view(final(doc)@) == old(doc)@,
    {
        let ghost d = doc@;
        let ghost ids = self.id_list();
        let ghost g = self.group_id.0;
        let ghost name = self.name@;
        proof {
            assert(ids[0] == self.ids@[0].0);
        }
        let parent = match doc.node(self.ids[0]) {
            Some(n) => match n.parent {
                Some(p) => p,
                None => {
                    assert(false);
                    return;
                },
            },
            None => {
                assert(false);
                return;
            },
        };
        let ghost p = parent.0;
        let siblings = copy_ids(doc.children(parent));
        let ghost c = ids_view(siblings@);
        assert(c == d.nodes[p].children);
        let mut members: Vec<NodeId> = Vec::new();
        for i in 0..siblings.len()
            invariant
                c == ids_view(siblings@),
                ids == ids_view(self.ids@),
                ids_view(members@) == members_of(c.take(i as int), ids),
        {
            let x = siblings[i];
            proof {
                assert(c.take(i + 1).drop_last() =~= c.take(i as int));
                assert(c.take(i + 1).last() == c[i as int]);
            }
            if lists(&self.ids, x) {
                let ghost before = ids_view(members@);
                members.push(x);
                proof {
                    assert(ids_view(members@) =~= before.push(x.0));
                }
            }
        }
        proof {
            assert(c.take(c.len() as int) =~= c);
        }
        let mut k: usize = 0;
        while k < siblings.len() && !lists(&self.ids, siblings[k])
            invariant
                c == ids_view(siblings@),
                ids == ids_view(self.ids@),
                k <= siblings@.len(),
                forall|j: int| 0 <= j < k ==> !ids.contains(#[trigger] c[j]),
            decreases siblings@.len() - k,
        {
            k += 1;
        }
        proof {
            lemma_first_member_at(c, ids, k as int);
            lemma_group_round_trip(d, ids, g, name, p);
        }
        self.parent = Some(parent);
        self.original_children = siblings;
        let group = Node::group(self.name.clone());
        proof {
            assert(ids_view(group.children@) =~= Seq::<u64>::empty());
            assert(group@.kind == (KindView::Group { expanded: true }));
            assert((NodeView { parent: Some(p), ..group@ }) == group_view(name, p, Seq::empty()));
            assert(members_of(c, ids).take(0) =~= Seq::<u64>::empty());
            assert(clamp(k as int, c.len() as int) == k);
        }
        let _ = doc.insert_node(self.group_id, group, parent, k);
        proof {
            assert(doc@.nodes =~= grouping_step(d, ids, g, name, p, 0).nodes);
        }
        let ghost ms = members_of(c, ids);
        for j in 0..members.len()
            invariant
                doc.wf(),
                doc@ == grouping_step(d, ids, g, name, p, j as int),
                ids_view(members@) == ms,
                ms == members_of(d.nodes[p].children, ids),
                tree_wf(d.nodes, d.root, d.next_id),
                d.nodes.contains_key(p),
                !d.nodes.contains_key(g),
                g == self.group_id.0,
                c == d.nodes[p].children,
        {
            let m = members[j];
            proof {
                assert(m.0 == ms[j as int]);
                GroupNodes::lemma_step(d, ids, g, name, p, j as int);
                let cur = doc@;
                lemma_members(c, ids);
                assert(ms.contains(m.0));
                lemma_child_listed_back(d, p, m.0);
                if strict_ancestor(cur.nodes, m.0, g) {
                    let path = choose|path: Seq<u64>|
                        #[trigger] parent_chain(cur.nodes, path) && path.len() >= 2 && path[0] == g && path.last() == m.0;
                    assert(descends(cur.nodes, g, m.0));
                    crate::document::lemma_descends_parent(cur.nodes, g, m.0);
                    lemma_parent_not_below(cur.nodes, cur.root, cur.next_id, m.0, p);
                }
                assert(move_ok(cur, m.0, g));
            }
            let _ = doc.move_node(m, self.group_id, usize::MAX);
        }
        proof {
            assert(ms.take(ms.len() as int) =~= ms);
            assert(doc@.nodes =~= grouped_view(d, ids, g, name, p).nodes);
        }
    }
}

/// Progress of ungrouping from `d`: the first `i` listed nodes are back
/// under `p`, the group holds the rest of its members, and nothing else
/// changed.
pub open spec fn ungroup_progress(d: DocView, cur: DocView, ids: Seq<u64>, g: u64, p: u64, i: int) -> bool {
    let moved = ids.take(i);
    &&& cur == (DocView { nodes: cur.nodes, ..d })
    &&& cur.nodes.dom() == d.nodes.dom()
    &&& forall|x: u64|
        #[trigger] cur.nodes.contains_key(x) && x != p && x != g && !ids.contains(x) ==> cur.nodes[x] == d.nodes[x]
    &&& forall|x: u64|
        #[trigger] ids.contains(x) ==> cur.nodes[x] == (NodeView {
            parent: if moved.contains(x) { Some(p) } else { d.nodes[x].parent },
            ..d.nodes[x]
        })
    &&& cur.nodes[g] == (NodeView { children: cur.nodes[g].children, ..d.nodes[g] })
    &&& forall|y: u64| #[trigger] cur.nodes[g].children.contains(y) == (d.nodes[g].children.contains(y) && !moved.contains(y))
    &&& cur.nodes[p] == (NodeView { children: cur.nodes[p].children, ..d.nodes[p] })
    &&& forall|y: u64| #[trigger] cur.nodes[p].children.contains(y) == (d.nodes[p].children.contains(y) || moved.contains(y))
}

/// The shape ungrouping starts from (the structural part of `can_revert`).
pub open spec fn ungroup_ready(d: DocView, ids: Seq<u64>, g: u64, p: u64) -> bool {
    &&& tree_wf(d.nodes, d.root, d.next_id)
    &&& d.nodes.contains_key(p)
    &&& d.nodes[p].kind is Group
    &&& d.nodes.contains_key(g)
    &&& g != d.root
    &&& g != p
    &&& d.nodes[g].parent == Some(p)
    &&& !ids.contains(g)
    &&& !ids.contains(p)
    &&& forall|x: u64|
        #[trigger] ids.contains(x) ==> d.nodes.contains_key(x) && x != d.root && (d.nodes[x].parent == Some(g)
            || d.nodes[x].parent == Some(p))
    &&& forall|x: u64| #[trigger] d.nodes[g].children.contains(x) ==> ids.contains(x)
}

/// One listed node moved back under `p`: the move is accepted and the
/// progress advances.
proof fn lemma_ungroup_step(d: DocView, cur: DocView, ids: Seq<u64>, g: u64, p: u64, i: int)
    requires
        ungroup_ready(d, ids, g, p),
        tree_wf(cur.nodes, cur.root, cur.next_id),
        ungroup_progress(d, cur, ids, g, p, i),
        0 <= i < ids.len(),
    ensures
        move_ok(cur, ids[i], p),
        ungroup_progress(d, moved_view(cur, ids[i], p, 0), ids, g, p, i + 1),
{
    let x = ids[i];
    let moved = ids.take(i);
    let moved1 = ids.take(i + 1);
    assert(ids.contains(x));
    assert forall|y: u64| #[trigger] moved1.contains(y) == (moved.contains(y) || y == x) by {
        if moved1.contains(y) && y != x {
            let t = choose|t: int| 0 <= t < moved1.len() && moved1[t] == y;
            assert(moved[t] == y);
        }
        if moved.contains(y) {
            let t = choose|t: int| 0 <= t < moved.len() && moved[t] == y;
            assert(moved1[t] == y);
        }
        if y == x {
            assert(moved1[i] == y);
        }
    }
    let op = cur.nodes[x].parent.unwrap();
    assert(op == g || op == p);
    assert(cur.nodes[g].parent == Some(p));
    let rank = choose|rank: Map<u64, nat>| ranked(cur.nodes, rank);
    assert(!strict_ancestor(cur.nodes, x, p)) by {
        if strict_ancestor(cur.nodes, x, p) {
            let path = choose|path: Seq<u64>|
                #[trigger] parent_chain(cur.nodes, path) && path.len() >= 2 && path[0] == p && path.last() == x;
            lemma_chain_rank(cur.nodes, rank, path);
            assert(cur.nodes.contains_key(x));
            assert(cur.nodes.contains_key(g));
        }
    }
    assert(x != cur.root);
    assert(move_ok(cur, x, p));
    lemma_child_listed(cur.nodes, cur.root, x, op);
    lemma_remove_elem(cur.nodes[op].children, x);
    let uc = unlinked_children(cur.nodes, op, x);
    let mv = moved_view(cur, x, p, 0);
    if op == g {
        assert(!cur.nodes[p].children.contains(x)) by {
            if cur.nodes[p].children.contains(x) {
                lemma_child_listed_back(cur, p, x);
            }
        }
        lemma_insert_fresh(cur.nodes[p].children, 0, x);
        assert(!moved.contains(x));
        assert forall|y: u64| #[trigger] mv.nodes[g].children.contains(y) == (d.nodes[g].children.contains(y) && !moved1.contains(y)) by {}
        assert forall|y: u64| #[trigger] mv.nodes[p].children.contains(y) == (d.nodes[p].children.contains(y) || moved1.contains(y)) by {}
    } else {
        let q = uc;
        assert(q.insert(0, x).contains(x)) by {
            assert(q.insert(0, x)[0] == x);
        }
        assert(!q.contains(x));
        lemma_insert_fresh(q, 0, x);
        assert(cur.nodes[p].children.contains(x));
        assert(d.nodes[p].children.contains(x) || moved.contains(x)) by {
            if !moved.contains(x) {
                assert(d.nodes[x].parent == Some(p));
                lemma_child_listed(d.nodes, d.root, x, p);
            }
        }
        assert(!d.nodes[g].children.contains(x) || moved.contains(x)) by {
            if d.nodes[g].children.contains(x) && !moved.contains(x) {
                lemma_child_listed_back(d, g, x);
            }
        }
        assert forall|y: u64| #[trigger] mv.nodes[g].children.contains(y) == (d.nodes[g].children.contains(y) && !moved1.contains(y)) by {}
        assert forall|y: u64| #[trigger] mv.nodes[p].children.contains(y) == (d.nodes[p].children.contains(y) || moved1.contains(y)) by {}
    }
    assert(mv.nodes.dom() =~= d.nodes.dom());
    assert forall|z: u64| #[trigger] ids.contains(z) implies mv.nodes[z] == (NodeView {
        parent: if moved1.contains(z) { Some(p) } else { d.nodes[z].parent },
        ..d.nodes[z]
    }) by {
        assert(z != g && z != p);
    }
    assert forall|z: u64| #[trigger] mv.nodes.contains_key(z) && z != p && z != g && !ids.contains(z) implies mv.nodes[z] == d.nodes[z] by {
        assert(z != x);
    }
    assert(mv == (DocView { nodes: mv.nodes, ..d }));
}

impl GroupNodes {
    /// Move the listed nodes back, drop the group and restore the parent's
    /// order. Redoing right after restores the document exactly.
    pub fn revert(&mut self, doc: &mut Document)
        requires
            old(doc).wf(),
            old(self).can_revert(old(doc)@),
        ensures
            final(doc).wf(),
            *final(self) == *old(self),
            final(doc)@ == old(self).revert_view(old(doc)@),
            final(self).can_apply(final(doc)@),
            final(self).undoable(final(doc)@),
            final(self).apply_view(final(doc)@) == old(doc)@,
    {
        let ghost d = doc@;
        let ghost ids = self.id_list();
        let ghost g = self.group_id.0;
        let parent = match self.parent {
            Some(p) => p,
            None => {
                assert(false);
                return;
            },
        };
        let ghost p = parent.0;
        let ghost orig = ids_view(self.original_children@);
        assert(ungroup_ready(d, ids, g, p));
        proof {
            assert(ids.take(0) =~= Seq::<u64>::empty());
            assert(d == (DocView { nodes: d.nodes, ..d }));
        }
        let mut i: usize = 0;
        while i < self.ids.len()
            invariant
                i <= self.ids@.len(),
                ids == ids_view(self.ids@),
                g == self.group_id.0,
                p == parent.0,
                doc.wf(),
                ungroup_ready(d, ids, g, p),
                ungroup_progress(d, doc@, ids, g, p, i as int),
            decreases self.ids@.len() - i,
        {
            let x = self.ids[i];
            proof {
                assert(x.0 == ids[i as int]);
                lemma_ungroup_step(d, doc@, ids, g, p, i as int);
            }
            let _ = doc.move_node(x, parent, 0);
            i += 1;
        }
        let ghost cur = doc@;
        proof {
            assert(ids.take(ids.len() as int) =~= ids);
            let gc = cur.nodes[g].children;
            if gc.len() > 0 {
                assert(gc.contains(gc[0]));
            }
            lemma_childless_subtree(cur, g);
        }
        let _ = doc.remove_subtree(self.group_id);
        let ghost cur2 = doc@;
        proof {
            assert(cur2 == removed_view(cur, g));
            lemma_child_listed(cur.nodes, cur.root, g, p);
            lemma_remove_elem(cur.nodes[p].children, g);
            assert(cur2.nodes[p].children == unlinked_children(cur.nodes, p, g));
            assert forall|y: u64| #[trigger] orig.contains(y) == cur2.nodes[p].children.contains(y) by {
                if ids.contains(y) {
                    if d.nodes[y].parent == Some(g) {
                        lemma_child_listed(d.nodes, d.root, y, g);
                    } else {
                        lemma_child_listed(d.nodes, d.root, y, p);
                    }
                }
                if d.nodes[g].children.contains(y) {
                    lemma_child_listed_back(d, g, y);
                }
            }
            lemma_same_members(orig, cur2.nodes[p].children);
        }
        let order = copy_ids(&self.original_children);
        let _ = doc.set_children_order(parent, order);
        proof {
            let fin = doc@;
            assert(fin == reordered_view(cur2, p, orig));
            let want = self.revert_view(d);
            assert forall|x: u64| #[trigger] fin.nodes.contains_key(x) == want.nodes.contains_key(x) by {}
            assert forall|x: u64| fin.nodes.contains_key(x) implies fin.nodes[x] == want.nodes[x] by {
                if x != p && ids.contains(x) {
                    assert(x != g);
                }
            }
            assert(fin.nodes =~= want.nodes);
        }
    }
}

/// `d` with group `g` dissolved: its children take its place in its parent,
/// in order, and `g` is dropped.
pub open spec fn dissolved_view(d: DocView, g: u64) -> DocView {
    let p = d.nodes[g].parent.unwrap();
    let c = d.nodes[p].children;
    let gi = c.index_of(g);
    let gc = d.nodes[g].children;
    DocView {
        nodes: Map::new(
            |x: u64| d.nodes.contains_key(x) && x != g,
            |x: u64|
                if x == p {
                    NodeView { children: c.take(gi) + gc + c.skip(gi + 1), ..d.nodes[p] }
                } else if gc.contains(x) {
                    NodeView { parent: Some(p), ..d.nodes[x] }
                } else {
                    d.nodes[x]
                },
        ),
        ..d
    }
}

/// `d` with node `g` (as `tmpl`, under `p`) inserted at the clamped index
/// `gi` of `p`'s children and the nodes `cs` moved, in order, into it.
pub open spec fn regrouped_view(d: DocView, g: u64, p: u64, gi: int, tmpl: NodeView, cs: Seq<u64>) -> DocView {
    let c = d.nodes[p].children;
    DocView {
        nodes: Map::new(
            |x: u64| d.nodes.contains_key(x) || x == g,
            |x: u64|
                if x == g {
                    NodeView { parent: Some(p), children: cs, ..tmpl }
                } else if x == p {
                    NodeView { children: without(c.insert(clamp(gi, c.len() as int), g), cs), ..d.nodes[p] }
                } else if cs.contains(x) {
                    NodeView { parent: Some(g), ..d.nodes[x] }
                } else {
                    d.nodes[x]
                },
        ),
        ..d
    }
}

/// Taking out, in order, the entries of `xs` that sit between `a + [g]` and
/// `b` leaves `a + [g] + b`.
proof fn lemma_without_middle(a: Seq<u64>, g: u64, xs: Seq<u64>, b: Seq<u64>, k: int)
    requires
        (a + seq![g] + xs + b).no_duplicates(),
        0 <= k <= xs.len(),
    ensures
        without(a + seq![g] + xs + b, xs.take(k)) == a + seq![g] + xs.skip(k) + b,
    decreases k,
{
    let s = a + seq![g] + xs + b;
    if k == 0 {
        assert(xs.skip(0) =~= xs);
        assert(xs.take(0) =~= Seq::<u64>::empty());
    } else {
        lemma_without_middle(a, g, xs, b, k - 1);
        let t = a + seq![g] + xs.skip(k - 1) + b;
        assert(xs.take(k).drop_last() =~= xs.take(k - 1));
        assert(xs.take(k).last() == xs[k - 1]);
        let at = (a.len() + 1) as int;
        assert(t[at] == xs[k - 1]);
        assert(t.no_duplicates()) by {
            assert forall|i: int, j: int| 0 <= i < t.len() && 0 <= j < t.len() && i != j implies t[i] != t[j] by {
                let oi = if i < at { i } else { i + k - 1 };
                let oj = if j < at { j } else { j + k - 1 };
                assert(t[i] == s[oi] && t[j] == s[oj]);
            }
        }
        assert(t.contains(xs[k - 1]));
        let w = t.index_of(xs[k - 1]);
        if w != at {
            assert(t[w] == t[at]);
        }
        assert(t.remove(at) =~= a + seq![g] + xs.skip(k) + b);
    }
}

/// Dissolve a group: its children take its place in its parent, in order,
/// and the emptied group is removed.
#[derive(Debug)]
pub struct UngroupNode {
    pub group_id: NodeId,
    /// Captured on apply: parent, index in it, the emptied group node, and
    /// its former children.
    pub restore: Option<(NodeId, usize, Node, Vec<NodeId>)>,
    pub label: String,
}

impl UngroupNode {
    /// Build the command.
    pub fn new(group_id: NodeId) -> (r: UngroupNode)
        ensures
            r.group_id == group_id,
            r.restore is None,
            r.label@ == "Ungroup"@,
    {
        UngroupNode { group_id, restore: None, label: String::from_str("Ungroup") }
    }

    /// "Ungroup".
    pub fn label(&self) -> (r: String)
        ensures
            r@ == self.label@,
    {
        self.label.clone()
    }

    /// The node is present and not the root, its parent is a group when it
    /// has children to take in, and the new child positions fit in `usize`.
    pub open spec fn can_apply(&self, d: DocView) -> bool {
        let g = self.group_id.0;
        &&& d.nodes.contains_key(g)
        &&& g != d.root
        &&& d.nodes[g].children.len() > 0 ==> d.nodes[d.nodes[g].parent.unwrap()].kind is Group
        &&& d.nodes[d.nodes[g].parent.unwrap()].children.len() + d.nodes[g].children.len() < usize::MAX
    }

    /// The document after apply.
    pub open spec fn apply_view(&self, d: DocView) -> DocView {
        dissolved_view(d, self.group_id.0)
    }

    /// Undo can put the node back and its children into it: the parent is a
    /// group, and the node is a group or has no children.
    pub open spec fn undoable(&self, d: DocView) -> bool {
        let g = self.group_id.0;
        &&& d.nodes[d.nodes[g].parent.unwrap()].kind is Group
        &&& d.nodes[g].kind is Group || d.nodes[g].children.len() == 0
    }

    /// The captured state as views: parent, index, node, children.
    pub open spec fn restore_view(&self) -> (u64, int, NodeView, Seq<u64>) {
        let (p, gi, n, cs) = self.restore.unwrap();
        (p.0, gi as int, n@, ids_view(cs@))
    }

    /// The document after revert.
    pub open spec fn revert_view(&self, d: DocView) -> DocView {
        let (p, gi, n, cs) = self.restore_view();
        regrouped_view(d, self.group_id.0, p, gi, n, cs)
    }

    /// Reinserting the group and moving its children back is accepted, and
    /// dissolving it again would give `d` back.
    pub open spec fn can_revert(&self, d: DocView) -> bool {
        let (p, gi, n, cs) = self.restore_view();
        let g = self.group_id.0;
        &&& self.restore is Some
        &&& tree_wf(d.nodes, d.root, d.next_id)
        &&& !d.nodes.contains_key(g)
        &&& g < d.next_id
        &&& n.children.len() == 0
        &&& n.kind is Group || cs.len() == 0
        &&& d.nodes.contains_key(p)
        &&& d.nodes[p].kind is Group
        &&& gi >= 0
        &&& cs.no_duplicates()
        &&& forall|x: u64| #[trigger] cs.contains(x) ==> d.nodes.contains_key(x) && d.nodes[x].parent == Some(p)
        &&& cs.len() < usize::MAX
        &&& tree_wf(self.revert_view(d).nodes, d.root, d.next_id)
        &&& self.can_apply(self.revert_view(d))
        &&& self.undoable(self.revert_view(d))
        &&& self.apply_view(self.revert_view(d)) == d
    }
}

/// `dissolved_view` part way: the first `k` children of `g` moved out, in
/// order, to just before `g` in its parent.
pub open spec fn dissolving_step(d: DocView, g: u64, k: int) -> DocView {
    let p = d.nodes[g].parent.unwrap();
    let c = d.nodes[p].children;
    let gi = c.index_of(g);
    let gc = d.nodes[g].children;
    let done = gc.take(k);
    DocView {
        nodes: Map::new(
            |x: u64| d.nodes.contains_key(x),
            |x: u64|
                if x == p {
                    NodeView { children: c.take(gi) + done + seq![g] + c.skip(gi + 1), ..d.nodes[p] }
                } else if x == g {
                    NodeView { children: gc.skip(k), ..d.nodes[g] }
                } else if done.contains(x) {
                    NodeView { parent: Some(p), ..d.nodes[x] }
                } else {
                    d.nodes[x]
                },
        ),
        ..d
    }
}

/// Where `g` sits among its parent's children, and what its children are.
proof fn lemma_group_slot(d: DocView, g: u64)
    requires
        tree_wf(d.nodes, d.root, d.next_id),
        d.nodes.contains_key(g),
        g != d.root,
    ensures
        ({
            let p = d.nodes[g].parent.unwrap();
            let c = d.nodes[p].children;
            let gi = c.index_of(g);
            &&& d.nodes[g].parent is Some
            &&& d.nodes.contains_key(p)
            &&& p != g
            &&& 0 <= gi < c.len()
            &&& c[gi] == g
            &&& c.no_duplicates()
            &&& d.nodes[g].children.no_duplicates()
            &&& forall|x: u64| #[trigger] d.nodes[g].children.contains(x) ==> d.nodes.contains_key(x)
                && d.nodes[x].parent == Some(g) && x != p && x != g && x != d.root
        }),
{
    let p = d.nodes[g].parent.unwrap();
    lemma_child_listed(d.nodes, d.root, g, p);
    let c = d.nodes[p].children;
    let gi = c.index_of(g);
    assert(c[gi] == g);
    let rank = choose|rank: Map<u64, nat>| ranked(d.nodes, rank);
    assert forall|x: u64| #[trigger] d.nodes[g].children.contains(x) implies d.nodes.contains_key(x)
        && d.nodes[x].parent == Some(g) && x != p && x != g && x != d.root by {
        lemma_child_listed_back(d, g, x);
    }
}

/// One more child of `g` moved out: the move is accepted and lands on the
/// next dissolving step.
proof fn lemma_dissolve_step(d: DocView, g: u64, k: int)
    requires
        tree_wf(d.nodes, d.root, d.next_id),
        tree_wf(dissolving_step(d, g, k).nodes, d.root, d.next_id),
        d.nodes.contains_key(g),
        g != d.root,
        d.nodes[d.nodes[g].parent.unwrap()].kind is Group,
        0 <= k < d.nodes[g].children.len(),
    ensures
        ({
            let cur = dissolving_step(d, g, k);
            let p = d.nodes[g].parent.unwrap();
            let x = d.nodes[g].children[k];
            &&& move_ok(cur, x, p)
            &&& moved_view(cur, x, p, d.nodes[p].children.index_of(g) + k) == dissolving_step(d, g, k + 1)
        }),
{
    lemma_group_slot(d, g);
    let p = d.nodes[g].parent.unwrap();
    let c = d.nodes[p].children;
    let gi = c.index_of(g);
    let gc = d.nodes[g].children;
    let x = gc[k];
    let done = gc.take(k);
    let done1 = gc.take(k + 1);
    assert(gc.contains(x));
    assert(!done.contains(x)) by {
        if done.contains(x) {
            let t = choose|t: int| 0 <= t < done.len() && done[t] == x;
            assert(gc[t] == gc[k]);
        }
    }
    assert forall|y: u64| #[trigger] done1.contains(y) == (done.contains(y) || y == x) by {
        if done1.contains(y) && y != x {
            let t = choose|t: int| 0 <= t < done1.len() && done1[t] == y;
            assert(done[t] == y);
        }
        if done.contains(y) {
            let t = choose|t: int| 0 <= t < done.len() && done[t] == y;
            assert(done1[t] == y);
        }
        if y == x {
            assert(done1[k] == y);
        }
    }
    let cur = dissolving_step(d, g, k);
    let nxt = dissolving_step(d, g, k + 1);
    assert(cur.nodes[x] == d.nodes[x]);
    assert(cur.nodes[g].parent == Some(p));
    let rank = choose|rank: Map<u64, nat>| ranked(cur.nodes, rank);
    assert(!strict_ancestor(cur.nodes, x, p)) by {
        if strict_ancestor(cur.nodes, x, p) {
            let path = choose|path: Seq<u64>|
                #[trigger] parent_chain(cur.nodes, path) && path.len() >= 2 && path[0] == p && path.last() == x;
            lemma_chain_rank(cur.nodes, rank, path);
            assert(cur.nodes.contains_key(x));
            assert(cur.nodes.contains_key(g));
        }
    }
    assert(move_ok(cur, x, p));
    let rest = gc.skip(k);
    assert(rest[0] == x);
    let w = rest.index_of(x);
    assert(rest.contains(x));
    assert(rest[w] == x);
    assert(w == 0) by {
        if w != 0 {
            assert(gc[k + w] == gc[k]);
        }
    }
    assert(rest.remove(0) =~= gc.skip(k + 1));
    assert(unlinked_children(cur.nodes, g, x) == gc.skip(k + 1));
    let pc = c.take(gi) + done + seq![g] + c.skip(gi + 1);
    assert(pc.len() == c.len() + k);
    assert(clamp(gi + k, pc.len() as int) == gi + k);
    assert(pc.insert(gi + k, x) =~= c.take(gi) + done1 + seq![g] + c.skip(gi + 1));
    let mv = moved_view(cur, x, p, gi + k);
    assert(mv.nodes =~= nxt.nodes);
}

/// Dissolving the group then putting it back gives the document back, and
/// the dissolved document has the shape putting it back expects.
proof fn lemma_dissolve_round_trip(d: DocView, g: u64)
    requires
        tree_wf(d.nodes, d.root, d.next_id),
        d.nodes.contains_key(g),
        g != d.root,
    ensures
        ({
            let p = d.nodes[g].parent.unwrap();
            let gi = d.nodes[p].children.index_of(g);
            let gc = d.nodes[g].children;
            let d1 = dissolved_view(d, g);
            &&& regrouped_view(d1, g, p, gi, NodeView { children: Seq::empty(), ..d.nodes[g] }, gc) == d
            &&& d1.nodes.contains_key(p)
            &&& d1.nodes[p] == (NodeView { children: d1.nodes[p].children, ..d.nodes[p] })
            &&& !d1.nodes.contains_key(g)
            &&& forall|x: u64| #[trigger] gc.contains(x) ==> d1.nodes.contains_key(x) && d1.nodes[x].parent == Some(p)
        }),
{
    lemma_group_slot(d, g);
    let p = d.nodes[g].parent.unwrap();
    let c = d.nodes[p].children;
    let gi = c.index_of(g);
    let gc = d.nodes[g].children;
    let d1 = dissolved_view(d, g);
    let c1 = c.take(gi) + gc + c.skip(gi + 1);
    assert(d1.nodes[p].children == c1);
    assert(clamp(gi, c1.len() as int) == gi);
    let a = c.take(gi);
    let b = c.skip(gi + 1);
    assert(c1.insert(gi, g) =~= a + seq![g] + gc + b);
    assert(c =~= a + seq![g] + b);
    assert((a + seq![g] + gc + b).no_duplicates()) by {
        let s = a + seq![g] + gc + b;
        assert forall|i: int, j: int| 0 <= i < s.len() && 0 <= j < s.len() && i != j implies s[i] != s[j] by {
            let gl = gc.len() as int;
            if gi < i <= gi + gl && gi < j <= gi + gl {
                assert(s[i] == gc[i - gi - 1] && s[j] == gc[j - gi - 1]);
            } else if gi < i <= gi + gl {
                assert(gc.contains(s[i])) by {
                    assert(gc[i - gi - 1] == s[i]);
                }
                let oj = if j <= gi { j } else { j - gl };
                assert(s[j] == c[oj]);
                if s[i] == s[j] {
                    assert(c.contains(s[i]));
                    lemma_child_listed_back(d, p, s[i]);
                }
            } else if gi < j <= gi + gl {
                assert(gc.contains(s[j])) by {
                    assert(gc[j - gi - 1] == s[j]);
                }
                let oi = if i <= gi { i } else { i - gl };
                assert(s[i] == c[oi]);
                if s[i] == s[j] {
                    assert(c.contains(s[j]));
                    lemma_child_listed_back(d, p, s[j]);
                }
            } else {
                let oi = if i <= gi { i } else { i - gl };
                let oj = if j <= gi { j } else { j - gl };
                assert(s[i] == c[oi] && s[j] == c[oj]);
            }
        }
    }
    lemma_without_middle(a, g, gc, b, gc.len() as int);
    assert(gc.take(gc.len() as int) =~= gc);
    assert(gc.skip(gc.len() as int) =~= Seq::<u64>::empty());
    assert(a + seq![g] + Seq::<u64>::empty() + b =~= c);
    let back = regrouped_view(d1, g, p, gi, NodeView { children: Seq::empty(), ..d.nodes[g] }, gc);
    assert forall|x: u64| #[trigger] gc.contains(x) implies d1.nodes.contains_key(x) && d1.nodes[x].parent == Some(p) by {}
    assert(back.nodes =~= d.nodes);
}


/// One more listed node moved into the reinserted group: the move is
/// accepted and lands on the next step.
proof fn lemma_regroup_step(d: DocView, g: u64, p: u64, gi: int, n: NodeView, cs: Seq<u64>, k: int)
    requires
        tree_wf(d.nodes, d.root, d.next_id),
        tree_wf(regrouped_view(d, g, p, gi, n, cs.take(k)).nodes, d.root, d.next_id),
        !d.nodes.contains_key(g),
        d.nodes.contains_key(p),
        n.kind is Group,
        cs.no_duplicates(),
        forall|x: u64| #[trigger] cs.contains(x) ==> d.nodes.contains_key(x) && d.nodes[x].parent == Some(p),
        0 <= k < cs.len(),
    ensures
        ({
            let cur = regrouped_view(d, g, p, gi, n, cs.take(k));
            &&& move_ok(cur, cs[k], g)
            &&& moved_view(cur, cs[k], g, k) == regrouped_view(d, g, p, gi, n, cs.take(k + 1))
        }),
{
    let x = cs[k];
    let done = cs.take(k);
    let done1 = cs.take(k + 1);
    assert(cs.contains(x));
    lemma_child_listed(d.nodes, d.root, x, p);
    lemma_child_listed_back(d, p, x);
    assert(!done.contains(x)) by {
        if done.contains(x) {
            let t = choose|t: int| 0 <= t < done.len() && done[t] == x;
            assert(cs[t] == cs[k]);
        }
    }
    assert forall|y: u64| #[trigger] done1.contains(y) == (done.contains(y) || y == x) by {
        if done1.contains(y) && y != x {
            let t = choose|t: int| 0 <= t < done1.len() && done1[t] == y;
            assert(done[t] == y);
        }
        if done.contains(y) {
            let t = choose|t: int| 0 <= t < done.len() && done[t] == y;
            assert(done1[t] == y);
        }
        if y == x {
            assert(done1[k] == y);
        }
    }
    let cur = regrouped_view(d, g, p, gi, n, done);
    let nxt = regrouped_view(d, g, p, gi, n, done1);
    assert(cur.nodes[x] == d.nodes[x]);
    assert(cur.nodes[g].parent == Some(p));
    let rank = choose|rank: Map<u64, nat>| ranked(cur.nodes, rank);
    assert(!strict_ancestor(cur.nodes, x, g)) by {
        if strict_ancestor(cur.nodes, x, g) {
            let path = choose|path: Seq<u64>|
                #[trigger] parent_chain(cur.nodes, path) && path.len() >= 2 && path[0] == g && path.last() == x;
            assert(cur.nodes[path[0]].parent == Some(path[1]));
            assert(path[1] == p);
            let rest = path.subrange(1, path.len() as int);
            assert(parent_chain(cur.nodes, rest)) by {
                assert forall|i: int| 0 <= i < rest.len() implies cur.nodes.contains_key(#[trigger] rest[i]) by {
                    assert(rest[i] == path[i + 1]);
                }
                assert forall|i: int| 0 <= i < rest.len() - 1 implies cur.nodes[#[trigger] rest[i]].parent == Some(
                    rest[i + 1],
                ) by {
                    assert(rest[i] == path[i + 1]);
                    assert(cur.nodes[path[i + 1]].parent == Some(path[i + 2]));
                }
            }
            lemma_chain_rank(cur.nodes, rank, rest);
            assert(cur.nodes.contains_key(x));
        }
    }
    assert(move_ok(cur, x, g));
    assert(done1.drop_last() =~= done);
    assert(done1.last() == x);
    assert(done.insert(k, x) =~= done1);
    let mv = moved_view(cur, x, g, k);
    assert(mv.nodes =~= nxt.nodes);
}

impl UngroupNode {
    /// Move the children out into the group's slot, in order, and remove the
    /// emptied group. Undoing right after restores the document exactly.
    pub fn apply(&mut self, doc: &mut Document)
        requires
            old(doc).wf(),
            old(self).can_apply(old(doc)@),
        ensures
            final(self).label == old(self).label,
            final(doc).wf(),
            final(doc)@ == old(self).apply_view(old(doc)@),
            final(self).group_id == old(self).group_id && final(self).label == old(self).label,
            old(self).undoable(old(doc)@) ==> final(self).can_revert(final(doc)@) && final(self).revert_view(
                final(doc)@,
            ) == old(doc)@,
    {
        let ghost d = doc@;
        let ghost g = self.group_id.0;
        proof {
            lemma_group_slot(d, g);
        }
        let parent = match doc.node(self.group_id) {
            Some(n) => match n.parent {
                Some(p) => p,
                None => {
                    assert(false);
                    return;
                },
            },
            None => {
                assert(false);
                return;
            },
        };
        let ghost p = parent.0;
        let ghost c = d.nodes[p].children;
        let children = copy_ids(doc.children(self.group_id));
        let ghost gc = ids_view(children@);
        let gi = match position(doc.children(parent), self.group_id) {
            Some(i) => i,
            None => {
                assert(c.contains(g)) by {
                    assert(c[c.index_of(g)] == g);
                }
                return;
            },
        };
        proof {
            let w = c.index_of(g);
            if w != gi {
                assert(c[w] == c[gi as int]);
            }
            assert(c.take(gi as int) + Seq::<u64>::empty() + seq![g] + c.skip(gi + 1) =~= c);
            assert(gc.take(0) =~= Seq::<u64>::empty());
            assert(gc.skip(0) =~= gc);
            assert(dissolving_step(d, g, 0).nodes =~= d.nodes);
            assert(dissolving_step(d, g, 0) == d);
        }
        let mut k: usize = 0;
        while k < children.len()
            invariant
                k <= children@.len(),
                gc == ids_view(children@),
                gc == d.nodes[g].children,
                doc.wf(),
                doc@ == dissolving_step(d, g, k as int),
                tree_wf(d.nodes, d.root, d.next_id),
                d.nodes.contains_key(g),
                g != d.root,
                p == parent.0,
                p == d.nodes[g].parent.unwrap(),
                gi == d.nodes[p].children.index_of(g),
                gi < d.nodes[p].children.len(),
                gc.len() > 0 ==> d.nodes[p].kind is Group,
                d.nodes[p].children.len() + gc.len() < usize::MAX,
            decreases children@.len() - k,
        {
            proof {
                lemma_dissolve_step(d, g, k as int);
                assert(children@[k as int].0 == gc[k as int]);
            }
            let _ = doc.move_node(children[k], parent, gi + k);
            k += 1;
        }
        let ghost cur = doc@;
        proof {
            assert(gc.skip(gc.len() as int) =~= Seq::<u64>::empty());
            lemma_childless_subtree(cur, g);
        }
        let template = match doc.remove_subtree(self.group_id) {
            Ok((mut entries, _, _)) => {
                proof {
                    assert(entries_view(entries@)[0] == (entries@[0].0.0, entries@[0].1@));
                }
                let (_, n) = entries.remove(0);
                n
            },
            Err(_) => {
                assert(false);
                return;
            },
        };
        proof {
            let pc = cur.nodes[p].children;
            let a = c.take(gi as int);
            let b = c.skip(gi + 1);
            assert(gc.take(gc.len() as int) =~= gc);
            assert(pc == a + gc + seq![g] + b);
            let at = gi + gc.len();
            assert(pc[at] == g);
            let w = pc.index_of(g);
            assert(pc.contains(g));
            if w != at {
                assert(pc[w] == pc[at]);
            }
            assert(pc.remove(at) =~= a + gc + b);
            assert(doc@.nodes =~= dissolved_view(d, g).nodes);
            lemma_dissolve_round_trip(d, g);
        }
        self.restore = Some((parent, gi, template, children));
    }

    /// Put the group back in its slot and move its children into it, in
    /// order. Redoing right after restores the document exactly.
    pub fn revert(&mut self, doc: &mut Document)
        requires
            old(doc).wf(),
            old(self).can_revert(old(doc)@),
        ensures
            final(self).label == old(self).label,
            final(doc).wf(),
            final(doc)@ == old(self).revert_view(old(doc)@),
            final(self).group_id == old(self).group_id && final(self).label == old(self).label,
            final(self).restore is None,
            final(self).can_apply(final(doc)@),
            final(self).undoable(final(doc)@),
            final(self).apply_view(final(doc)@) == old(doc)@,
    {
        let ghost d = doc@;
        let ghost g = self.group_id.0;
        let ghost (p, gi, n, cs) = self.restore_view();
        let ghost want = self.revert_view(d);
        let (parent, index, template, children) = match self.restore.take() {
            Some(r) => r,
            None => {
                assert(false);
                return;
            },
        };
        proof {
            assert(template.children@.len() == n.children.len());
            assert(n.children =~= Seq::<u64>::empty());
        }
        let _ = doc.insert_node(self.group_id, template, parent, index);
        proof {
            assert(cs.take(0) =~= Seq::<u64>::empty());
            assert(doc@.nodes =~= regrouped_view(d, g, p, gi, n, cs.take(0)).nodes);
        }
        let mut k: usize = 0;
        while k < children.len()
            invariant
                k <= children@.len(),
                cs == ids_view(children@),
                g == self.group_id.0,
                p == parent.0,
                doc.wf(),
                doc@ == regrouped_view(d, g, p, gi, n, cs.take(k as int)),
                tree_wf(d.nodes, d.root, d.next_id),
                !d.nodes.contains_key(g),
                d.nodes.contains_key(p),
                n.kind is Group || cs.len() == 0,
                cs.no_duplicates(),
                forall|x: u64| #[trigger] cs.contains(x) ==> d.nodes.contains_key(x) && d.nodes[x].parent == Some(p),
            decreases children@.len() - k,
        {
            proof {
                lemma_regroup_step(d, g, p, gi, n, cs, k as int);
                assert(children@[k as int].0 == cs[k as int]);
            }
            let _ = doc.move_node(children[k], self.group_id, k);
            k += 1;
        }
        proof {
            assert(cs.take(cs.len() as int) =~= cs);
        }
    }
}

} // verus!
