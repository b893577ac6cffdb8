//! Copies of subtrees: snapshots for the clipboard and duplicates with fresh
//! ids.

use vstd::prelude::*;
use std::collections::BTreeMap;
use crate::document::{
    closed_under_children, descends, entries_view, entry_ids, lemma_child_listed, lemma_closed_holds_subtree,
    lemma_descends_child, lemma_descends_parent, lemma_parent_not_below,
    parent_chain, ranked, subtree, subtree_entries, tree_wf, DocView, Document,
};
use crate::document::subtree::fresh_tree;
use crate::node::{ids_view, Node, NodeId, NodeView};
use crate::order::{ids_ordered, lemma_coord_order};

verus! {

/// Every entry but the first has its parent among the earlier entries.
pub open spec fn parents_first(m: Map<u64, NodeView>, s: Seq<u64>) -> bool {
    forall|i: int| #![trigger s[i]] 0 < i < s.len() ==> exists|j: int| 0 <= j < i && m[s[i]].parent == Some(#[trigger] s[j])
}

impl Document {
    /// Ids of the subtree at `id`, `id` first, each node after its parent.
    pub fn subtree_ids(&self, id: NodeId) -> (r: Vec<NodeId>)
        requires
            self.wf(),
            self@.nodes.contains_key(id.0),
        ensures
            r@.len() >= 1,
            ids_view(r@)[0] == id.0,
            ids_view(r@).no_duplicates(),
            ids_view(r@).to_set() == subtree(self@.nodes, id.0),
            parents_first(self@.nodes, ids_view(r@)),
    {
        let ghost m = self@.nodes;
        let ghost sub = subtree(m, id.0);
        proof {
            assert(parent_chain(m, seq![id.0]));
            assert(sub.contains(id.0));
        }
        let mut out: Vec<NodeId> = Vec::new();
        let mut stack: Vec<NodeId> = Vec::new();
        stack.push(id);
        proof {
            assert(ids_view(stack@) =~= seq![id.0]);
            assert(ids_view(out@) =~= Seq::<u64>::empty());
            assert(ids_view(stack@)[0] == id.0);
            assert(ids_view(stack@).contains(id.0));
        }
        while stack.len() > 0
            invariant
                m == self@.nodes,
                self.wf(),
                m.contains_key(id.0),
                sub == subtree(m, id.0),
                ids_view(out@).to_set().subset_of(sub),
                ids_view(stack@).to_set().subset_of(sub),
                ids_view(stack@).to_set().disjoint(ids_view(out@).to_set()),
                ids_view(stack@).no_duplicates(),
                ids_view(out@).no_duplicates(),
                out@.len() == 0 ==> ids_view(stack@) == seq![id.0],
                out@.len() > 0 ==> ids_view(out@)[0] == id.0,
                ids_view(out@).contains(id.0) || ids_view(stack@).contains(id.0),
                forall|x: u64|
                    (ids_view(out@).contains(x) || ids_view(stack@).contains(x)) && x != id.0 ==> (#[trigger] m[x].parent matches Some(q)
                        && ids_view(out@).contains(q)),
                forall|x: u64, c: u64|
                    #[trigger] ids_view(out@).contains(x) && #[trigger] m[x].children.contains(c) ==> ids_view(out@).contains(c)
                        || ids_view(stack@).contains(c),
                parents_first(m, ids_view(out@)),
            decreases m.dom().len() - out@.len(),
        {
            let ghost ov = ids_view(out@);
            let ghost sbefore = stack@;
            let cur = stack.pop().unwrap();
            let ghost s0 = ids_view(stack@);
            let ghost sfull = s0.push(cur.0);
            proof {
                assert(sbefore =~= stack@.push(cur));
                assert(ids_view(sbefore) =~= sfull);
                assert(sfull.contains(cur.0)) by {
                    assert(sfull[s0.len() as int] == cur.0);
                }
                assert(!s0.contains(cur.0)) by {
                    if s0.contains(cur.0) {
                        let j = choose|j: int| 0 <= j < s0.len() && s0[j] == cur.0;
                        assert(sfull[j] == sfull[s0.len() as int]);
                    }
                }
                assert forall|x: u64| #[trigger] sfull.contains(x) == (s0.contains(x) || x == cur.0) by {
                    if sfull.contains(x) && x != cur.0 {
                        let j = choose|j: int| 0 <= j < sfull.len() && sfull[j] == x;
                        assert(s0[j] == x);
                    }
                    if s0.contains(x) {
                        let j = choose|j: int| 0 <= j < s0.len() && s0[j] == x;
                        assert(sfull[j] == x);
                    }
                }
                assert(sfull.to_set().contains(cur.0));
                assert(sub.contains(cur.0));
                assert(!ov.contains(cur.0)) by {
                    if ov.contains(cur.0) {
                        assert(ov.to_set().contains(cur.0));
                    }
                }
            }
            let kids_ref = self.children(cur);
            let ghost kids = ids_view(kids_ref@);
            proof {
                assert(m.contains_key(cur.0));
                assert(kids == m[cur.0].children);
                let rank = choose|rank: Map<u64, nat>| ranked(m, rank);
                assert(descends(m, cur.0, id.0));
                assert forall|c: u64| #[trigger] kids.contains(c) implies sub.contains(c) && !ov.contains(c) && !s0.contains(
                    c,
                ) && c != cur.0 && m.contains_key(c) && m[c].parent == Some(cur.0) by {
                    lemma_descends_child(m, c, cur.0, id.0);
                    if c == cur.0 {
                        assert(rank[cur.0] < rank[cur.0]);
                    }
                    if ov.contains(c) || s0.contains(c) {
                        if c == id.0 {
                            assert(descends(m, cur.0, id.0));
                            let path = choose|path: Seq<u64>|
                                #[trigger] parent_chain(m, path) && path[0] == cur.0 && path.last() == id.0;
                            crate::document::lemma_chain_rank(m, rank, path);
                        } else {
                            assert(sfull.contains(c) || ov.contains(c));
                        }
                    }
                }
            }
            let mut j: usize = 0;
            while j < kids_ref.len()
                invariant
                    j <= kids_ref@.len(),
                    ids_view(stack@) == s0 + kids.take(j as int),
                    kids == ids_view(kids_ref@),
                decreases kids_ref@.len() - j,
            {
                let ghost sb = ids_view(stack@);
                stack.push(kids_ref[j]);
                proof {
                    assert(kids.take(j + 1) =~= kids.take(j as int).push(kids[j as int]));
                    assert(ids_view(stack@) =~= sb.push(kids[j as int]));
                }
                j += 1;
            }
            let ghost snew = ids_view(stack@);
            proof {
                assert(kids.take(kids.len() as int) =~= kids);
                assert(snew == s0 + kids);
                assert forall|x: u64| #[trigger] snew.contains(x) == (s0.contains(x) || kids.contains(x)) by {
                    if snew.contains(x) {
                        let j = choose|j: int| 0 <= j < snew.len() && snew[j] == x;
                        if j < s0.len() {
                            assert(s0[j] == x);
                        } else {
                            assert(kids[j - s0.len()] == x);
                        }
                    }
                    if s0.contains(x) {
                        let j = choose|j: int| 0 <= j < s0.len() && s0[j] == x;
                        assert(snew[j] == x);
                    }
                    if kids.contains(x) {
                        let j = choose|j: int| 0 <= j < kids.len() && kids[j] == x;
                        assert(snew[s0.len() + j] == x);
                    }
                }
                assert(snew.no_duplicates()) by {
                    assert(m[cur.0].children.no_duplicates());
                    assert forall|a: int, b: int| 0 <= a < snew.len() && 0 <= b < snew.len() && a != b implies snew[a]
                        != snew[b] by {
                        if a < s0.len() && b < s0.len() {
                            assert(sfull[a] == snew[a] && sfull[b] == snew[b]);
                        } else if a >= s0.len() && b >= s0.len() {
                            assert(snew[a] == kids[a - s0.len()] && snew[b] == kids[b - s0.len()]);
                        } else if a < s0.len() {
                            assert(kids.contains(snew[b])) by {
                                assert(snew[b] == kids[b - s0.len()]);
                            }
                            assert(s0.contains(snew[a]));
                        } else {
                            assert(kids.contains(snew[a])) by {
                                assert(snew[a] == kids[a - s0.len()]);
                            }
                            assert(s0.contains(snew[b]));
                        }
                    }
                }
            }
            out.push(cur);
            proof {
                let nv = ids_view(out@);
                assert(nv =~= ov.push(cur.0));
                assert forall|x: u64| #[trigger] nv.contains(x) == (ov.contains(x) || x == cur.0) by {
                    if nv.contains(x) && x != cur.0 {
                        let k = choose|k: int| 0 <= k < nv.len() && nv[k] == x;
                        assert(ov[k] == x);
                    }
                    if ov.contains(x) {
                        let k = choose|k: int| 0 <= k < ov.len() && ov[k] == x;
                        assert(nv[k] == x);
                    }
                    if x == cur.0 {
                        assert(nv[ov.len() as int] == x);
                    }
                }
                assert(nv.no_duplicates()) by {
                    assert forall|a: int, b: int| 0 <= a < nv.len() && 0 <= b < nv.len() && a != b implies nv[a] != nv[b] by {
                        if a == ov.len() {
                            assert(ov.contains(nv[b])) by {
                                assert(nv[b] == ov[b]);
                            }
                        } else if b == ov.len() {
                            assert(ov.contains(nv[a])) by {
                                assert(nv[a] == ov[a]);
                            }
                        } else {
                            assert(nv[a] == ov[a] && nv[b] == ov[b]);
                        }
                    }
                }
                assert forall|x: u64| nv.to_set().contains(x) implies sub.contains(x) by {
                    if ov.contains(x) {
                        assert(ov.to_set().contains(x));
                    }
                }
                assert forall|x: u64| snew.to_set().contains(x) implies sub.contains(x) && !nv.to_set().contains(x) by {
                    if s0.contains(x) {
                        assert(sfull.contains(x));
                        assert(sfull.to_set().contains(x));
                        if ov.contains(x) {
                            assert(ov.to_set().contains(x));
                        }
                    }
                }
                assert forall|x: u64| snew.to_set().contains(x) implies !nv.to_set().contains(x) by {
                    assert(snew.contains(x));
                    if s0.contains(x) {
                        assert(sfull.contains(x));
                        assert(ids_view(sbefore).to_set().contains(x));
                        assert(!ov.to_set().contains(x));
                    }
                    assert(!ov.contains(x));
                    assert(x != cur.0);
                }
                assert(snew.to_set().disjoint(nv.to_set()));
                assert forall|x: u64| (nv.contains(x) || snew.contains(x)) && x != id.0 implies (#[trigger] m[x].parent matches Some(q)
                    && nv.contains(q)) by {
                    if ov.contains(x) || s0.contains(x) || x == cur.0 {
                        assert(ov.contains(x) || sfull.contains(x));
                    }
                }
                assert forall|x: u64, c: u64| #[trigger] nv.contains(x) && #[trigger] m[x].children.contains(c) implies nv.contains(
                    c,
                ) || snew.contains(c) by {
                    if ov.contains(x) {
                        if sfull.contains(c) {
                            assert(s0.contains(c) || c == cur.0);
                        }
                    }
                }
                assert forall|i: int| #![trigger nv[i]] 0 < i < nv.len() implies exists|j: int| 0 <= j < i && m[nv[i]].parent == Some(
                    #[trigger] nv[j],
                ) by {
                    if i < ov.len() {
                        assert(nv[i] == ov[i]);
                        let j = choose|j: int| 0 <= j < i && m[ov[i]].parent == Some(#[trigger] ov[j]);
                        assert(nv[j] == ov[j]);
                    } else {
                        assert(nv[i] == cur.0);
                        if ov.len() == 0 {
                            assert(false);
                        }
                        if cur.0 == id.0 {
                            assert(ov[0] == id.0);
                            assert(ov.contains(id.0));
                        }
                        let q = m[cur.0].parent.unwrap();
                        assert(ov.contains(q));
                        let j = choose|j: int| 0 <= j < ov.len() && ov[j] == q;
                        assert(nv[j] == q);
                    }
                }
                if ov.len() == 0 {
                    assert(sfull =~= seq![id.0]);
                    assert(cur.0 == id.0);
                }
                nv.unique_seq_to_set();
                assert(nv.to_set().subset_of(m.dom())) by {
                    assert forall|x: u64| nv.to_set().contains(x) implies m.dom().contains(x) by {
                        assert(sub.contains(x));
                    }
                }
                self.lemma_dom_finite();
                vstd::set_lib::lemma_len_subset(nv.to_set(), m.dom());
            }
        }
        let ghost ov = ids_view(out@);
        proof {
            assert(ids_view(stack@).len() == 0);
            assert(closed_under_children(m, ov.to_set())) by {
                reveal(closed_under_children);
                assert forall|y: u64, c: u64|
                    #[trigger] ov.to_set().contains(y) && m.contains_key(y) && #[trigger] m[y].children.contains(c) implies ov.to_set().contains(
                    c,
                ) by {
                    assert(ov.contains(y));
                    assert(!ids_view(stack@).contains(c));
                    assert(ov.contains(c));
                }
            }
            assert(ov.contains(id.0));
            assert(ov.to_set() =~= sub) by {
                assert forall|x: u64| sub.contains(x) implies ov.to_set().contains(x) by {
                    lemma_closed_holds_subtree(m, self@.root, ov.to_set(), id.0, x);
                }
            }
            assert(out@.len() > 0);
        }
        out
    }
}

/// Index of the last `x` in `s`; -1 when `s` does not list it.
pub open spec fn last_index(s: Seq<u64>, x: u64) -> int
    decreases s.len(),
{
    if s.len() == 0 {
        -1
    } else if s.last() == x {
        s.len() - 1
    } else {
        last_index(s.drop_last(), x)
    }
}

/// The id an import gives old id `x`: one id is allocated from `base` per
/// entry, in order, and a repeated old id takes its last one.
pub open spec fn fresh_id(ids: Seq<u64>, base: u64, x: u64) -> u64 {
    (base + last_index(ids, x)) as u64
}

/// Entry `i` of an import: links renamed to fresh ids, and an entry with the
/// first entry's id hung under `np`.
pub open spec fn imported_node(ids: Seq<u64>, base: u64, np: u64, i: int, n: NodeView) -> NodeView {
    NodeView {
        parent: if ids[i] == ids[0] {
            Some(np)
        } else {
            match n.parent {
                Some(p) => Some(fresh_id(ids, base, p)),
                None => None,
            }
        },
        children: n.children.map_values(|c: u64| fresh_id(ids, base, c)),
        ..n
    }
}

/// Every link an import renames stays among the entries: the parent of
/// every entry not sharing the first one's id, and every child.
pub open spec fn links_inside(s: Seq<(u64, NodeView)>) -> bool {
    let ids = entry_ids(s);
    forall|i: int|
        0 <= i < s.len() ==> (ids[i] != ids[0] ==> ((#[trigger] s[i]).1.parent matches Some(p) ==> ids.contains(p)))
            && forall|c: u64| s[i].1.children.contains(c) ==> ids.contains(c)
}

/// A listed id's last index is where it is listed last.
proof fn lemma_last_index(s: Seq<u64>, x: u64)
    ensures
        s.contains(x) ==> 0 <= last_index(s, x) < s.len() && s[last_index(s, x)] == x,
        !s.contains(x) ==> last_index(s, x) == -1,
    decreases s.len(),
{
    if s.len() > 0 {
        lemma_last_index(s.drop_last(), x);
        if s.last() != x {
            if s.contains(x) {
                let k = choose|k: int| 0 <= k < s.len() && s[k] == x;
                assert(s.drop_last()[k] == x);
            }
            if s.drop_last().contains(x) {
                let k = choose|k: int| 0 <= k < s.drop_last().len() && s.drop_last()[k] == x;
                assert(s[k] == x);
            }
        } else {
            assert(s[s.len() - 1] == x);
        }
    }
}

impl Document {
    /// Owned copy of the subtree at `id`, ids and links as they are, `id`
    /// first and each node after its parent; `None` when `id` is absent.
    pub fn snapshot_subtree(&self, id: NodeId) -> (r: Option<Vec<(NodeId, Node)>>)
        requires
            self.wf(),
        ensures
            !self@.nodes.contains_key(id.0) ==> r is None,
            self@.nodes.contains_key(id.0) ==> (r matches Some(v) && subtree_entries(self@.nodes, id.0, entries_view(v@))
                && parents_first(self@.nodes, entry_ids(entries_view(v@)))),
    {
        if self.node(id).is_none() {
            return None;
        }
        let ids = self.subtree_ids(id);
        let ghost iv = ids_view(ids@);
        let ghost m = self@.nodes;
        let mut out: Vec<(NodeId, Node)> = Vec::new();
        let mut i: usize = 0;
        while i < ids.len()
            invariant
                i <= ids@.len(),
                iv == ids_view(ids@),
                m == self@.nodes,
                iv.to_set() == subtree(m, id.0),
                entries_view(out@).len() == i,
                forall|k: int| 0 <= k < i ==> (#[trigger] entries_view(out@)[k]) == (iv[k], m[iv[k]]),
            decreases ids@.len() - i,
        {
            let x = ids[i];
            proof {
                assert(iv[i as int] == x.0);
                assert(iv.to_set().contains(x.0));
            }
            let n = match self.node(x) {
                Some(n) => n.duplicate(),
                None => {
                    assert(false);
                    return None;
                },
            };
            let ghost before = entries_view(out@);
            out.push((x, n));
            proof {
                assert(entries_view(out@) =~= before.push((x.0, n@)));
            }
            i += 1;
        }
        proof {
            let ev = entries_view(out@);
            assert(entry_ids(ev) =~= iv);
            assert forall|k: int| 0 <= k < ev.len() implies m.contains_key(#[trigger] ev[k].0) && ev[k].1 == m[ev[k].0] by {
                assert(ev[k] == (iv[k], m[iv[k]]));
                assert(iv.to_set().contains(iv[k]));
            }
        }
        Some(out)
    }

    /// Give a foreign subtree (as `snapshot_subtree` hands it out, possibly
    /// from another document) fresh local ids: one id is allocated per entry,
    /// every link is renamed, and the first entry is hung under
    /// `new_parent`. Nothing is inserted. `None` when `nodes` is empty.
    pub fn import_subtree(&mut self, nodes: &[(NodeId, Node)], new_parent: NodeId) -> (r: Option<(NodeId, Vec<(NodeId, Node)>)>)
        requires
            old(self)@.next_id + nodes@.len() <= u64::MAX,
            links_inside(entries_view(nodes@)),
        ensures
            old(self).wf() ==> final(self).wf(),
            nodes@.len() == 0 ==> r is None && final(self)@ == old(self)@,
            nodes@.len() > 0 ==> (r matches Some((root, out)) && {
                let s = entries_view(nodes@);
                let ids = entry_ids(s);
                let base = old(self)@.next_id;
                &&& final(self)@ == (DocView { next_id: (base + s.len()) as u64, ..old(self)@ })
                &&& root.0 == fresh_id(ids, base, ids[0])
                &&& entries_view(out@).len() == s.len()
                &&& forall|i: int|
                    0 <= i < s.len() ==> #[trigger] entries_view(out@)[i] == (
                        fresh_id(ids, base, ids[i]),
                        imported_node(ids, base, new_parent.0, i, s[i].1),
                    )
            }),
    {
        if nodes.len() == 0 {
            return None;
        }
        let ghost s = entries_view(nodes@);
        let ghost ids = entry_ids(s);
        let ghost base = self@.next_id;
        let ghost d = self@;
        let root_old = nodes[0].0;
        proof {
            lemma_coord_order();
            assert(ids[0] == root_old.0);
        }
        let mut map: BTreeMap<u64, u64> = BTreeMap::new();
        let mut i: usize = 0;
        while i < nodes.len()
            invariant
                i <= nodes@.len(),
                s == entries_view(nodes@),
                ids == entry_ids(s),
                base == d.next_id,
                base + nodes@.len() <= u64::MAX,
                self@ == (DocView { next_id: (base + i) as u64, ..d }),
                d.nodes == old(self)@.nodes,
                old(self).wf() ==> self.wf(),
                ids_ordered(),
                forall|x: u64| #[trigger] map@.contains_key(x) == ids.take(i as int).contains(x),
                forall|x: u64| #[trigger] map@.contains_key(x) ==> map@[x] == base + last_index(ids.take(i as int), x),
            decreases nodes@.len() - i,
        {
            let old_id = nodes[i].0;
            let fresh = self.alloc_id();
            map.insert(old_id.0, fresh.0);
            proof {
                let t0 = ids.take(i as int);
                let t1 = ids.take(i + 1);
                assert(ids[i as int] == old_id.0);
                assert(t1.drop_last() =~= t0);
                assert(t1.last() == old_id.0);
                assert forall|x: u64| #[trigger] t1.contains(x) == (t0.contains(x) || x == old_id.0) by {
                    if t1.contains(x) && x != old_id.0 {
                        let k = choose|k: int| 0 <= k < t1.len() && t1[k] == x;
                        assert(t0[k] == x);
                    }
                    if t0.contains(x) {
                        let k = choose|k: int| 0 <= k < t0.len() && t0[k] == x;
                        assert(t1[k] == x);
                    }
                    if x == old_id.0 {
                        assert(t1[i as int] == x);
                    }
                }
            }
            i += 1;
        }
        proof {
            assert(ids.take(ids.len() as int) =~= ids);
        }
        let ghost n_all = nodes@.len();
        let mut out: Vec<(NodeId, Node)> = Vec::new();
        let mut k: usize = 0;
        while k < nodes.len()
            invariant
                k <= nodes@.len(),
                n_all == nodes@.len(),
                s == entries_view(nodes@),
                ids == entry_ids(s),
                ids[0] == root_old.0,
                links_inside(s),
                ids_ordered(),
                forall|x: u64| #[trigger] map@.contains_key(x) == ids.contains(x),
                forall|x: u64| #[trigger] map@.contains_key(x) ==> map@[x] == fresh_id(ids, base, x),
                entries_view(out@).len() == k,
                forall|j: int|
                    0 <= j < k ==> #[trigger] entries_view(out@)[j] == (
                        fresh_id(ids, base, ids[j]),
                        imported_node(ids, base, new_parent.0, j, s[j].1),
                    ),
            decreases nodes@.len() - k,
        {
            let entry = &nodes[k];
            let ghost nv = s[k as int].1;
            proof {
                assert(s[k as int] == (entry.0.0, entry.1@));
                assert(ids[k as int] == entry.0.0);
                assert(ids.contains(entry.0.0));
            }
            let mut n = entry.1.duplicate();
            let new_id = match map.get(&entry.0.0) {
                Some(v) => NodeId(*v),
                None => {
                    assert(false);
                    return None;
                },
            };
            if entry.0.0 == root_old.0 {
                n.parent = Some(new_parent);
            } else {
                n.parent = match n.parent {
                    Some(p) => {
                        proof {
                            assert(ids.contains(p.0));
                        }
                        match map.get(&p.0) {
                            Some(v) => Some(NodeId(*v)),
                            None => {
                                assert(false);
                                return None;
                            },
                        }
                    },
                    None => None,
                };
            }
            let ghost old_kids = ids_view(n.children@);
            let mut kids: Vec<NodeId> = Vec::new();
            let mut c: usize = 0;
            while c < n.children.len()
                invariant
                    c <= n.children@.len(),
                    old_kids == ids_view(n.children@),
                    old_kids == nv.children,
                    ids_ordered(),
                    forall|x: u64| #[trigger] map@.contains_key(x) == ids.contains(x),
                    forall|x: u64| #[trigger] map@.contains_key(x) ==> map@[x] == fresh_id(ids, base, x),
                    forall|x: u64| nv.children.contains(x) ==> ids.contains(x),
                    ids_view(kids@) == old_kids.take(c as int).map_values(|q: u64| fresh_id(ids, base, q)),
                decreases n.children@.len() - c,
            {
                let q = n.children[c];
                proof {
                    assert(old_kids[c as int] == q.0);
                    assert(nv.children.contains(q.0));
                }
                let v = match map.get(&q.0) {
                    Some(v) => *v,
                    None => {
                        assert(false);
                        0
                    },
                };
                let ghost before = ids_view(kids@);
                kids.push(NodeId(v));
                proof {
                    assert(ids_view(kids@) =~= before.push(v));
                    assert(old_kids.take(c + 1).map_values(|q: u64| fresh_id(ids, base, q)) =~= old_kids.take(
                        c as int,
                    ).map_values(|q: u64| fresh_id(ids, base, q)).push(fresh_id(ids, base, q.0)));
                }
                c += 1;
            }
            proof {
                assert(old_kids.take(old_kids.len() as int) =~= old_kids);
            }
            n.children = kids;
            let ghost before = entries_view(out@);
            out.push((new_id, n));
            proof {
                assert(entries_view(out@) =~= before.push((new_id.0, n@)));
                assert(n@ == imported_node(ids, base, new_parent.0, k as int, nv));
            }
            k += 1;
        }
        let root = match map.get(&root_old.0) {
            Some(v) => NodeId(*v),
            None => {
                assert(false);
                return None;
            },
        };
        proof {
            assert(ids.contains(ids[0]));
        }
        Some((root, out))
    }
}

/// A subtree snapshot keeps its links among its entries.
proof fn lemma_snapshot_links(m: Map<u64, NodeView>, root: u64, next_id: u64, id: u64, s: Seq<(u64, NodeView)>)
    requires
        tree_wf(m, root, next_id),
        subtree_entries(m, id, s),
    ensures
        links_inside(s),
{
    let ids = entry_ids(s);
    assert forall|x: u64| #[trigger] ids.contains(x) == subtree(m, id).contains(x) by {
        assert(ids.to_set().contains(x) == ids.contains(x));
    }
    assert forall|i: int| 0 <= i < s.len() implies (ids[i] != ids[0] ==> ((#[trigger] s[i]).1.parent matches Some(p)
        ==> ids.contains(p))) && forall|c: u64| s[i].1.children.contains(c) ==> ids.contains(c) by {
        let x = s[i].0;
        assert(ids[i] == x);
        assert(ids.contains(x));
        assert(subtree(m, id).contains(x));
        if x != id {
            lemma_descends_parent(m, x, id);
        }
        assert forall|c: u64| s[i].1.children.contains(c) implies ids.contains(c) by {
            assert(m[x].children.contains(c));
            lemma_descends_child(m, c, x, id);
        }
    }
}

/// `e` and `(root, out)` are what cloning the subtree at `id` of `d` under
/// `np` gives when the snapshot is `s`: the ids allocated, nothing inserted.
pub open spec fn cloned_as(
    d: DocView,
    id: u64,
    np: u64,
    s: Seq<(u64, NodeView)>,
    root: u64,
    out: Seq<(u64, NodeView)>,
    e: DocView,
) -> bool {
    let ids = entry_ids(s);
    let base = d.next_id;
    &&& subtree_entries(d.nodes, id, s)
    &&& parents_first(d.nodes, ids)
    &&& e == (DocView { next_id: (base + s.len()) as u64, ..d })
    &&& root == fresh_id(ids, base, ids[0])
    &&& out.len() == s.len()
    &&& forall|i: int| 0 <= i < s.len() ==> #[trigger] out[i] == (fresh_id(ids, base, ids[i]), imported_node(ids, base, np, i, s[i].1))
}

impl Document {
    /// Copy the subtree at `id` with fresh ids, hung under `new_parent`:
    /// `import_subtree` of `snapshot_subtree`. Nothing is inserted. `None`
    /// when `id` is absent.
    pub fn clone_subtree(&mut self, id: NodeId, new_parent: NodeId) -> (r: Option<(NodeId, Vec<(NodeId, Node)>)>)
        requires
            old(self).wf(),
            old(self)@.next_id + old(self)@.nodes.dom().len() <= u64::MAX,
        ensures
            final(self).wf(),
            !old(self)@.nodes.contains_key(id.0) ==> r is None && final(self)@ == old(self)@,
            old(self)@.nodes.contains_key(id.0) ==> (r matches Some((root, out)) && exists|s: Seq<(u64, NodeView)>|
                #[trigger] cloned_as(old(self)@, id.0, new_parent.0, s, root.0, entries_view(out@), final(self)@)),
    {
        let snap = match self.snapshot_subtree(id) {
            Some(v) => v,
            None => return None,
        };
        let ghost d = self@;
        proof {
            let s = entries_view(snap@);
            lemma_snapshot_links(d.nodes, d.root, d.next_id, id.0, s);
            let ids = entry_ids(s);
            ids.unique_seq_to_set();
            self.lemma_dom_finite();
            assert(ids.to_set().subset_of(d.nodes.dom())) by {
                assert forall|x: u64| ids.to_set().contains(x) implies d.nodes.dom().contains(x) by {
                    assert(subtree(d.nodes, id.0).contains(x));
                }
            }
            vstd::set_lib::lemma_len_subset(ids.to_set(), d.nodes.dom());
        }
        let r = self.import_subtree(snap.as_slice(), new_parent);
        proof {
            let s = entries_view(snap@);
            assert(snap@.len() > 0);
            if r is Some {
                let (root, out) = r->0;
                assert(cloned_as(d, id.0, new_parent.0, s, root.0, entries_view(out@), self@));
            }
        }
        r
    }
}

/// With no id listed twice, each listed id's last index is its index.
proof fn lemma_last_index_unique(s: Seq<u64>, i: int)
    requires
        s.no_duplicates(),
        0 <= i < s.len(),
    ensures
        last_index(s, s[i]) == i,
    decreases s.len(),
{
    if i < s.len() - 1 {
        assert(s.last() != s[i]);
        assert(s.drop_last()[i] == s[i]);
        lemma_last_index_unique(s.drop_last(), i);
    }
}

/// Fresh ids of a list without repeats: entry `i` gets `base + i`.
proof fn lemma_fresh_ids(ids: Seq<u64>, base: u64)
    requires
        ids.no_duplicates(),
        base + ids.len() <= u64::MAX,
    ensures
        forall|i: int| 0 <= i < ids.len() ==> fresh_id(ids, base, #[trigger] ids[i]) == base + i,
{
    assert forall|i: int| 0 <= i < ids.len() implies fresh_id(ids, base, #[trigger] ids[i]) == base + i by {
        lemma_last_index_unique(ids, i);
    }
}

/// The facts about a clone that its links rest on.
pub open spec fn clone_facts(m: Map<u64, NodeView>, id: u64, np: u64, s: Seq<(u64, NodeView)>, out: Seq<(u64, NodeView)>, base: u64) -> bool {
    let ids = entry_ids(s);
    &&& s.len() >= 1
    &&& ids[0] == id
    &&& ids.no_duplicates()
    &&& base + s.len() <= u64::MAX
    &&& out.len() == s.len()
    &&& forall|i: int| 0 <= i < s.len() ==> m.contains_key(#[trigger] s[i].0) && s[i].1 == m[s[i].0]
    &&& forall|i: int| 0 <= i < s.len() ==> #[trigger] out[i] == (fresh_id(ids, base, ids[i]), imported_node(ids, base, np, i, s[i].1))
    &&& forall|i: int| 0 <= i < ids.len() ==> fresh_id(ids, base, #[trigger] ids[i]) == base + i
    &&& links_inside(s)
    &&& forall|i: int| 0 <= i < ids.len() ==> #[trigger] subtree(m, id).contains(ids[i])
}

proof fn lemma_clone_child_entries(
    m: Map<u64, NodeView>,
    root: u64,
    next: u64,
    id: u64,
    np: u64,
    s: Seq<(u64, NodeView)>,
    out: Seq<(u64, NodeView)>,
    base: u64,
    i: int,
    c: u64,
)
    requires
        tree_wf(m, root, next),
        clone_facts(m, id, np, s, out, base),
        0 <= i < out.len(),
        out[i].1.children.contains(c),
    ensures
        exists|k: int| 0 < k < out.len() && #[trigger] entry_ids(out)[k] == c && out[k].1.parent == Some(entry_ids(out)[i]),
{
    let ids = entry_ids(s);
    let oids = entry_ids(out);
    let ch = s[i].1.children;
    assert(out[i] == (fresh_id(ids, base, ids[i]), imported_node(ids, base, np, i, s[i].1)));
    let a = choose|a: int| 0 <= a < out[i].1.children.len() && out[i].1.children[a] == c;
    let c0 = ch[a];
    assert(out[i].1.children[a] == fresh_id(ids, base, c0));
    assert(ch.contains(c0));
    assert(ids[i] == s[i].0);
    assert(ids.contains(c0));
    let k = choose|k: int| 0 <= k < ids.len() && ids[k] == c0;
    assert(fresh_id(ids, base, ids[k]) == base + k);
    assert(out[k] == (fresh_id(ids, base, ids[k]), imported_node(ids, base, np, k, s[k].1)));
    assert(oids[k] == c);
    assert(m.contains_key(ids[i]) && m[ids[i]].children.contains(c0));
    assert(m[c0].parent == Some(ids[i]));
    if k == 0 {
        assert(subtree(m, id).contains(ids[i]));
        lemma_parent_not_below(m, root, next, id, ids[i]);
    }
    assert(ids[k] != ids[0]);
    assert(s[k].0 == c0);
    assert(s[k].1 == m[c0]);
    assert(fresh_id(ids, base, ids[i]) == base + i);
    assert(out[i].0 == oids[i]);
    assert(out[k].1.parent == Some(oids[i]));
}

proof fn lemma_clone_parent_lists(
    m: Map<u64, NodeView>,
    root: u64,
    next: u64,
    id: u64,
    np: u64,
    s: Seq<(u64, NodeView)>,
    out: Seq<(u64, NodeView)>,
    base: u64,
    i: int,
    k: int,
)
    requires
        tree_wf(m, root, next),
        clone_facts(m, id, np, s, out, base),
        0 <= i < out.len(),
        0 < k < out.len(),
        out[k].1.parent == Some(entry_ids(out)[i]),
    ensures
        out[i].1.children.contains(entry_ids(out)[k]),
{
    let ids = entry_ids(s);
    let oids = entry_ids(out);
    assert(out[k] == (fresh_id(ids, base, ids[k]), imported_node(ids, base, np, k, s[k].1)));
    assert(out[i] == (fresh_id(ids, base, ids[i]), imported_node(ids, base, np, i, s[i].1)));
    assert(ids[k] != ids[0]);
    assert(s[k].0 == ids[k]);
    assert(s[k].1 == m[ids[k]]);
    assert(s[k].1.parent is Some);
    let p = m[ids[k]].parent.unwrap();
    assert(ids.contains(p));
    let j = choose|j: int| 0 <= j < ids.len() && ids[j] == p;
    assert(fresh_id(ids, base, ids[j]) == base + j);
    assert(fresh_id(ids, base, ids[i]) == base + i);
    assert(j == i);
    assert(m.contains_key(ids[k]));
    lemma_child_listed(m, root, ids[k], ids[i]);
    assert(s[i].0 == ids[i]);
    let ch = m[ids[i]].children;
    assert(ch.contains(ids[k]));
    let a = choose|a: int| 0 <= a < ch.len() && ch[a] == ids[k];
    assert(out[i].1.children[a] == fresh_id(ids, base, ids[k]));
    assert(fresh_id(ids, base, ids[k]) == base + k);
}

proof fn lemma_clone_children_distinct(
    m: Map<u64, NodeView>,
    root: u64,
    next: u64,
    id: u64,
    np: u64,
    s: Seq<(u64, NodeView)>,
    out: Seq<(u64, NodeView)>,
    base: u64,
    i: int,
)
    requires
        tree_wf(m, root, next),
        clone_facts(m, id, np, s, out, base),
        0 <= i < out.len(),
    ensures
        out[i].1.children.no_duplicates(),
{
    let ids = entry_ids(s);
    let ch = s[i].1.children;
    assert(s[i].0 == ids[i]);
    assert(ch == m[ids[i]].children);
    assert(ch.no_duplicates());
    assert(out[i] == (fresh_id(ids, base, ids[i]), imported_node(ids, base, np, i, s[i].1)));
    let och = out[i].1.children;
    assert forall|a: int, b: int| 0 <= a < och.len() && 0 <= b < och.len() && a != b implies och[a] != och[b] by {
        assert(ch.contains(ch[a]) && ch.contains(ch[b]));
        assert(ids.contains(ch[a]) && ids.contains(ch[b]));
        let ka = choose|k: int| 0 <= k < ids.len() && ids[k] == ch[a];
        let kb = choose|k: int| 0 <= k < ids.len() && ids[k] == ch[b];
        assert(fresh_id(ids, base, ids[ka]) == base + ka);
        assert(fresh_id(ids, base, ids[kb]) == base + kb);
        assert(och[a] == fresh_id(ids, base, ch[a]));
        assert(och[b] == fresh_id(ids, base, ch[b]));
    }
}

/// What `clone_subtree` hands back can be hung in the document it leaves:
/// the copy's ids are fresh and below the next id, its root hangs under the
/// new parent, and its links are those of a tree listed parents first.
#[verifier::rlimit(40)]
pub proof fn lemma_clone_is_fresh(
    d: DocView,
    id: u64,
    np: u64,
    s: Seq<(u64, NodeView)>,
    root: u64,
    out: Seq<(u64, NodeView)>,
    e: DocView,
)
    requires
        tree_wf(d.nodes, d.root, d.next_id),
        d.nodes.dom().finite(),
        d.next_id + d.nodes.dom().len() <= u64::MAX,
        cloned_as(d, id, np, s, root, out, e),
        d.nodes.contains_key(np),
    ensures
        fresh_tree(e, out, np),
        out[0].0 == root,
        e.next_id == d.next_id + s.len(),
{
    let m = d.nodes;
    let ids = entry_ids(s);
    let oids = entry_ids(out);
    let base = d.next_id;
    lemma_snapshot_links(m, d.root, d.next_id, id, s);
    ids.unique_seq_to_set();
    assert(ids.to_set().subset_of(m.dom())) by {
        assert forall|x: u64| ids.to_set().contains(x) implies m.dom().contains(x) by {
            assert(subtree(m, id).contains(x));
        }
    }
    vstd::set_lib::lemma_len_subset(ids.to_set(), m.dom());
    lemma_fresh_ids(ids, base);
    assert forall|i: int| 0 <= i < ids.len() implies #[trigger] subtree(m, id).contains(ids[i]) by {
        assert(ids.to_set().contains(ids[i]));
    }
    assert(clone_facts(m, id, np, s, out, base));
    assert forall|i: int| 0 <= i < s.len() implies #[trigger] oids[i] == base + i by {
        assert(out[i].0 == fresh_id(ids, base, ids[i]));
    }
    assert(oids.no_duplicates()) by {
        assert forall|a: int, b: int| 0 <= a < oids.len() && 0 <= b < oids.len() && a != b implies oids[a] != oids[b] by {
            assert(oids[a] == base + a && oids[b] == base + b);
        }
    }
    assert forall|i: int| 0 <= i < out.len() implies !e.nodes.contains_key(#[trigger] oids[i]) && oids[i] < e.next_id by {
        assert(oids[i] == base + i);
        if e.nodes.contains_key(oids[i]) {
            assert(m.contains_key(oids[i]));
        }
    }
    assert(out[0].1.parent == Some(np));
    assert forall|i: int| #![trigger out[i]] 0 < i < out.len() implies exists|j: int| 0 <= j < i && out[i].1.parent == Some(#[trigger] oids[j]) by {
        assert(ids[i] != ids[0]);
        let j = choose|j: int| 0 <= j < i && m[ids[i]].parent == Some(#[trigger] ids[j]);
        assert(s[i].1 == m[s[i].0]);
        assert(fresh_id(ids, base, ids[j]) == base + j);
        assert(oids[j] == base + j);
        assert(out[i].1.parent == Some(oids[j]));
    }
    assert forall|i: int| 0 <= i < out.len() implies (#[trigger] out[i]).1.children.no_duplicates() by {
        lemma_clone_children_distinct(m, d.root, d.next_id, id, np, s, out, base, i);
    }
    assert forall|i: int, c: u64| 0 <= i < out.len() && #[trigger] out[i].1.children.contains(c) implies exists|k: int|
        0 < k < out.len() && #[trigger] oids[k] == c && out[k].1.parent == Some(oids[i]) by {
        lemma_clone_child_entries(m, d.root, d.next_id, id, np, s, out, base, i, c);
    }
    assert forall|i: int, k: int| 0 <= i < out.len() && 0 < k < out.len() && out[k].1.parent == Some(#[trigger] oids[i])
        implies out[i].1.children.contains(#[trigger] oids[k]) by {
        lemma_clone_parent_lists(m, d.root, d.next_id, id, np, s, out, base, i, k);
    }
    assert(out.len() >= 1);
    assert(e.nodes == m);
    assert(e.next_id == base + s.len());
    assert(e.nodes.contains_key(np));
    assert(forall|i: int| 0 <= i < out.len() ==> !e.nodes.contains_key(#[trigger] oids[i]) && oids[i] < e.next_id);
    assert(root == oids[0]);
}

} // verus!
