//! The layer tree flattened in panel order.

use vstd::prelude::*;
use crate::document::{lemma_chain_rank, parent_chain, ranked, tree_wf, DocView, Document};
use crate::node::{ids_view, NodeId, NodeView};

verus! {

/// Depth-first, top-first listing of the trees at `ids` with their depths,
/// starting at `depth` and cut off at depth `n`.
pub open spec fn forest_walk(m: Map<u64, NodeView>, ids: Seq<u64>, depth: nat, n: nat) -> Seq<(u64, nat)>
    decreases n - depth, ids.len(),
{
    if ids.len() == 0 || depth >= n {
        Seq::empty()
    } else {
        seq![(ids[0], depth)] + forest_walk(m, m[ids[0]].children, depth + 1, n) + forest_walk(m, ids.skip(1), depth, n)
    }
}

/// What a stack of pending `(id, depth)` entries lists, top (last) first.
pub open spec fn stack_walk(m: Map<u64, NodeView>, st: Seq<(u64, nat)>, n: nat) -> Seq<(u64, nat)>
    decreases st.len(),
{
    if st.len() == 0 {
        Seq::empty()
    } else {
        forest_walk(m, seq![st.last().0], st.last().1, n) + stack_walk(m, st.drop_last(), n)
    }
}

/// `ids` at `depth`, in the order that pops them first to last.
pub open spec fn pushed(ids: Seq<u64>, depth: nat) -> Seq<(u64, nat)>
    decreases ids.len(),
{
    if ids.len() == 0 {
        Seq::empty()
    } else {
        pushed(ids.skip(1), depth).push((ids[0], depth))
    }
}

/// Pushing `ids` at `depth` onto a stack lists their trees before the rest.
proof fn lemma_pushed(m: Map<u64, NodeView>, st: Seq<(u64, nat)>, ids: Seq<u64>, depth: nat, n: nat)
    requires
        depth < n,
    ensures
        stack_walk(m, st + pushed(ids, depth), n) == forest_walk(m, ids, depth, n) + stack_walk(m, st, n),
    decreases ids.len(),
{
    if ids.len() == 0 {
        assert(st + pushed(ids, depth) =~= st);
    } else {
        let rest = st + pushed(ids.skip(1), depth);
        lemma_pushed(m, st, ids.skip(1), depth, n);
        assert(st + pushed(ids, depth) =~= rest.push((ids[0], depth)));
        assert((rest.push((ids[0], depth))).drop_last() =~= rest);
        lemma_walk_one(m, ids[0], depth, n);
    }
}

/// The walk of one tree: its root, then the trees of its children.
proof fn lemma_walk_one(m: Map<u64, NodeView>, x: u64, depth: nat, n: nat)
    requires
        depth < n,
    ensures
        forest_walk(m, seq![x], depth, n) == seq![(x, depth)] + forest_walk(m, m[x].children, depth + 1, n),
{
    let one = seq![x];
    assert(one.skip(1) =~= Seq::<u64>::empty());
    assert(forest_walk(m, Seq::<u64>::empty(), depth, n) =~= Seq::<(u64, nat)>::empty());
    assert(seq![(x, depth)] + forest_walk(m, m[x].children, depth + 1, n) + Seq::<(u64, nat)>::empty() =~= seq![
        (x, depth),
    ] + forest_walk(m, m[x].children, depth + 1, n));
}

/// A parent chain never repeats a node, so it is no longer than the tree.
proof fn lemma_chain_len(d: DocView, path: Seq<u64>)
    requires
        tree_wf(d.nodes, d.root, d.next_id),
        d.nodes.dom().finite(),
        parent_chain(d.nodes, path),
    ensures
        path.len() <= d.nodes.dom().len(),
{
    let m = d.nodes;
    let rank = choose|rank: Map<u64, nat>| ranked(m, rank);
    assert(path.no_duplicates()) by {
        assert forall|i: int, j: int| 0 <= i < j < path.len() implies path[i] != path[j] by {
            let sub = path.subrange(i, j + 1);
            assert(parent_chain(m, sub)) by {
                assert forall|k: int| 0 <= k < sub.len() implies m.contains_key(#[trigger] sub[k]) by {
                    assert(sub[k] == path[i + k]);
                }
                assert forall|k: int| 0 <= k < sub.len() - 1 implies m[#[trigger] sub[k]].parent == Some(sub[k + 1]) by {
                    assert(sub[k] == path[i + k]);
                    assert(sub[k + 1] == path[i + k + 1]);
                }
            }
            lemma_chain_rank(m, rank, sub);
        }
    }
    path.unique_seq_to_set();
    assert(path.to_set().subset_of(m.dom())) by {
        assert forall|x: u64| path.to_set().contains(x) implies m.dom().contains(x) by {
            let k = choose|k: int| 0 <= k < path.len() && path[k] == x;
        }
    }
    vstd::set_lib::lemma_len_subset(path.to_set(), m.dom());
}

/// Stack entries as ids and depths.
pub open spec fn walk_view(st: Seq<(NodeId, usize)>) -> Seq<(u64, nat)> {
    st.map_values(|e: (NodeId, usize)| (e.0.0, e.1 as nat))
}

/// `x` hangs `depth + 1` levels below the root.
#[verifier::opaque]
pub open spec fn at_depth(m: Map<u64, NodeView>, root: u64, x: u64, depth: nat) -> bool {
    exists|path: Seq<u64>|
        #[trigger] parent_chain(m, path) && path.len() == depth + 2 && path[0] == x && path.last() == root
}

/// A pending entry: its node hangs at its depth, which is below `n`.
pub open spec fn entry_ok(m: Map<u64, NodeView>, root: u64, e: (NodeId, usize), n: nat) -> bool {
    e.1 < n && at_depth(m, root, e.0.0, e.1 as nat)
}

/// A node at `depth` has `depth + 2` distinct nodes on its way to the root.
proof fn lemma_depth_bound(d: DocView, x: u64, depth: nat)
    requires
        tree_wf(d.nodes, d.root, d.next_id),
        d.nodes.dom().finite(),
        at_depth(d.nodes, d.root, x, depth),
    ensures
        depth + 2 <= d.nodes.dom().len(),
        d.nodes.contains_key(x),
{
    reveal(at_depth);
    let path = choose|path: Seq<u64>|
        #[trigger] parent_chain(d.nodes, path) && path.len() == depth + 2 && path[0] == x && path.last() == d.root;
    lemma_chain_len(d, path);
}

/// A child of a node at `depth` hangs at `depth + 1`.
proof fn lemma_child_depth(d: DocView, x: u64, depth: nat, c: u64)
    requires
        tree_wf(d.nodes, d.root, d.next_id),
        at_depth(d.nodes, d.root, x, depth),
        d.nodes.contains_key(x),
        d.nodes[x].children.contains(c),
    ensures
        at_depth(d.nodes, d.root, c, depth + 1),
{
    reveal(at_depth);
    let m = d.nodes;
    let path = choose|path: Seq<u64>|
        #[trigger] parent_chain(m, path) && path.len() == depth + 2 && path[0] == x && path.last() == d.root;
    assert(m.contains_key(c) && m[c].parent == Some(x));
    let cpath = seq![c] + path;
    assert(parent_chain(m, cpath)) by {
        assert forall|i: int| 0 <= i < cpath.len() implies m.contains_key(#[trigger] cpath[i]) by {
            if i > 0 {
                assert(cpath[i] == path[i - 1]);
            }
        }
        assert forall|i: int| 0 <= i < cpath.len() - 1 implies m[#[trigger] cpath[i]].parent == Some(cpath[i + 1]) by {
            if i > 0 {
                assert(cpath[i] == path[i - 1]);
                assert(cpath[i + 1] == path[i]);
            }
        }
    }
    assert(cpath.last() == d.root);
}

impl Document {
    /// The tree below the root in panel order: depth first, top-most child
    /// first, each node with its depth (the root's children at 0).
    pub fn iter_tree(&self) -> (r: Vec<(NodeId, usize)>)
        requires
            self.wf(),
        ensures
            walk_view(r@) == forest_walk(self@.nodes, self@.nodes[self@.root].children, 0, self@.nodes.dom().len()),
    {
        let ghost m = self@.nodes;
        let ghost root = self@.root;
        let ghost d = self@;
        proof {
            self.lemma_dom_finite();
            assert(m.contains_key(root));
            assert(parent_chain(m, seq![root]));
        }
        let n = self.node_count();
        let ghost nn = n as nat;
        let ghost total = forest_walk(m, m[root].children, 0, nn);
        let rootn = self.root();
        let top = self.children(rootn);
        let mut stack: Vec<(NodeId, usize)> = Vec::new();
        let mut j: usize = top.len();
        proof {
            assert(ids_view(top@).skip(top@.len() as int) =~= Seq::<u64>::empty());
            assert(walk_view(stack@) =~= Seq::<(u64, nat)>::empty());
        }
        while j > 0
            invariant
                j <= top@.len(),
                ids_view(top@) == m[root].children,
                m == self@.nodes,
                d == self@,
                root == self@.root,
                self.wf(),
                m.dom().finite(),
                nn == n,
                nn == m.dom().len(),
                walk_view(stack@) == pushed(ids_view(top@).skip(j as int), 0),
                forall|k: int| 0 <= k < stack@.len() ==> entry_ok(m, root, #[trigger] stack@[k], nn),
            decreases j,
        {
            let c = top[j - 1];
            proof {
                assert(ids_view(top@)[j - 1] == c.0);
                assert(m[root].children.contains(c.0));
                assert(m.contains_key(c.0) && m[c.0].parent == Some(root));
                let path = seq![c.0, root];
                assert(parent_chain(m, path));
                assert(at_depth(m, root, c.0, 0)) by {
                    reveal(at_depth);
                }
                lemma_depth_bound(d, c.0, 0);
                let s1 = ids_view(top@).skip(j - 1);
                assert(s1.skip(1) =~= ids_view(top@).skip(j as int));
                assert(s1[0] == c.0);
            }
            let ghost before = stack@;
            stack.push((c, 0));
            proof {
                assert(walk_view(stack@) =~= walk_view(before).push((c.0, 0nat)));
                assert forall|k: int| 0 <= k < stack@.len() implies entry_ok(m, root, #[trigger] stack@[k], nn) by {
                    if k < before.len() {
                        assert(stack@[k] == before[k]);
                    }
                }
            }
            j -= 1;
        }
        proof {
            assert(ids_view(top@).skip(0) =~= m[root].children);
            if m[root].children.len() > 0 {
                let c = m[root].children[0];
                assert(m[root].children.contains(c));
                assert(m.contains_key(c) && m[c].parent == Some(root));
                assert(parent_chain(m, seq![c, root]));
                assert(at_depth(m, root, c, 0)) by {
                    reveal(at_depth);
                }
                lemma_depth_bound(d, c, 0);
                lemma_pushed(m, Seq::empty(), m[root].children, 0, nn);
                assert(Seq::<(u64, nat)>::empty() + pushed(m[root].children, 0) =~= pushed(m[root].children, 0));
                assert(forest_walk(m, m[root].children, 0, nn) + Seq::<(u64, nat)>::empty() =~= total);
            } else {
                assert(total =~= Seq::<(u64, nat)>::empty());
                assert(pushed(m[root].children, 0) =~= Seq::<(u64, nat)>::empty());
            }
            assert(Seq::<(u64, nat)>::empty() + stack_walk(m, walk_view(stack@), nn) =~= total);
        }
        let mut out: Vec<(NodeId, usize)> = Vec::new();
        proof {
            assert(walk_view(out@) =~= Seq::<(u64, nat)>::empty());
        }
        while stack.len() > 0
            invariant
                m == self@.nodes,
                d == self@,
                root == self@.root,
                self.wf(),
                m.dom().finite(),
                nn == m.dom().len(),
                nn <= usize::MAX,
                walk_view(out@) + stack_walk(m, walk_view(stack@), nn) == total,
                forall|k: int| 0 <= k < stack@.len() ==> entry_ok(m, root, #[trigger] stack@[k], nn),
            decreases total.len() - out@.len(),
        {
            let ghost st = walk_view(stack@);
            let ghost sbefore = stack@;
            let ghost before_out = walk_view(out@);
            let (x, dep) = stack.pop().unwrap();
            let ghost rest = walk_view(stack@);
            proof {
                assert(sbefore[sbefore.len() - 1] == (x, dep));
                assert(entry_ok(m, root, sbefore[sbefore.len() - 1], nn));
                assert(st.last() == (x.0, dep as nat));
                assert(st.drop_last() =~= rest);
                lemma_walk_one(m, x.0, dep as nat, nn);
                lemma_depth_bound(d, x.0, dep as nat);
                assert forall|k: int| 0 <= k < stack@.len() implies entry_ok(m, root, #[trigger] stack@[k], nn) by {
                    assert(stack@[k] == sbefore[k]);
                }
            }
            out.push((x, dep));
            let kids = self.children(x);
            let ghost kv = ids_view(kids@);
            proof {
                assert(kv == m[x.0].children);
                if kv.len() > 0 {
                    assert(m[x.0].children.contains(kv[0]));
                    lemma_child_depth(d, x.0, dep as nat, kv[0]);
                    lemma_depth_bound(d, kv[0], dep as nat + 1);
                }
                assert(kv.skip(kv.len() as int) =~= Seq::<u64>::empty());
                assert(rest + pushed(Seq::<u64>::empty(), dep as nat + 1) =~= rest);
            }
            let mut k: usize = kids.len();
            while k > 0
                invariant
                    k <= kids@.len(),
                    kv == ids_view(kids@),
                    kv == m[x.0].children,
                    m == self@.nodes,
                    d == self@,
                    root == self@.root,
                    self.wf(),
                    m.dom().finite(),
                    nn == m.dom().len(),
                    m.contains_key(x.0),
                    at_depth(m, root, x.0, dep as nat),
                    kv.len() > 0 ==> dep + 1 < nn,
                    nn <= usize::MAX,
                    walk_view(stack@) == rest + pushed(kv.skip(k as int), dep as nat + 1),
                    forall|q: int| 0 <= q < stack@.len() ==> entry_ok(m, root, #[trigger] stack@[q], nn),
                decreases k,
            {
                let c = kids[k - 1];
                proof {
                    assert(kv[k - 1] == c.0);
                    assert(m[x.0].children.contains(c.0));
                    lemma_child_depth(d, x.0, dep as nat, c.0);
                    let s1 = kv.skip(k - 1);
                    assert(s1.skip(1) =~= kv.skip(k as int));
                    assert(s1[0] == c.0);
                }
                let ghost sb = stack@;
                stack.push((c, dep + 1));
                proof {
                    assert(walk_view(stack@) =~= walk_view(sb).push((c.0, dep as nat + 1)));
                    assert(rest + pushed(kv.skip(k - 1), dep as nat + 1) =~= (rest + pushed(kv.skip(k as int), dep as nat
                        + 1)).push((c.0, dep as nat + 1)));
                    assert forall|q: int| 0 <= q < stack@.len() implies entry_ok(m, root, #[trigger] stack@[q], nn) by {
                        if q < sb.len() {
                            assert(stack@[q] == sb[q]);
                        }
                    }
                }
                k -= 1;
            }
            proof {
                assert(kv.skip(0) =~= kv);
                if kv.len() > 0 {
                    lemma_pushed(m, rest, kv, dep as nat + 1, nn);
                } else {
                    assert(kv =~= Seq::<u64>::empty());
                    assert(forest_walk(m, kv, dep as nat + 1, nn) =~= Seq::<(u64, nat)>::empty());
                    assert(rest + pushed(kv, dep as nat + 1) =~= rest);
                }
                assert(walk_view(out@) =~= before_out.push((x.0, dep as nat)));
                assert(walk_view(out@) + stack_walk(m, walk_view(stack@), nn) =~= before_out + stack_walk(m, st, nn));
            }
        }
        proof {
            assert(walk_view(stack@) =~= Seq::<(u64, nat)>::empty());
            assert(walk_view(out@) + Seq::<(u64, nat)>::empty() =~= walk_view(out@));
        }
        out
    }
}

} // verus!
