//! What the editor's tools act on: the selected layer when it can take a
//! given edit, the full selection, the rows the layers panel shows, and
//! ungrouping the selection.

use vstd::prelude::*;
use crate::command::group::{dissolved_view, grouped_view, siblings_ok, GroupNodes, UngroupNode};
use crate::command::id_space::with_next;
use crate::command::tree::AddNode;
use crate::command::kinds::Command;
use crate::document::{entries_view, inserted_view, DocView, Document};
use crate::document::copy::{cloned_as, lemma_clone_is_fresh};
use crate::document::subtree::restored_view;
use crate::command::insert::InsertSubtree;
use crate::document::walk::forest_walk;
use crate::history::{pushed_on, Editor};
use crate::node::{ids_view, KindView, Node, NodeId, NodeKind, NodeView};

verus! {

/// Node `id` of `d` is visible and unlocked.
pub open spec fn editable(d: DocView, id: u64) -> bool {
    d.nodes.contains_key(id) && d.nodes[id].props.visible && !d.nodes[id].props.locked
}

/// The selected layer when it is a visible, unlocked raster layer.
pub open spec fn editable_raster_spec(d: DocView, sel: Option<NodeId>) -> Option<NodeId> {
    match sel {
        Some(id) => if editable(d, id.0) && d.nodes[id.0].kind is Raster {
            Some(id)
        } else {
            None
        },
        None => None,
    }
}

/// The selected layer the pixel tools can paint right now: a visible,
/// unlocked raster layer.
pub fn editable_raster(editor: &Editor) -> (r: Option<NodeId>)
    ensures
        r == editable_raster_spec(editor.doc@, editor.selection),
{
    let id = match editor.selection {
        Some(id) => id,
        None => return None,
    };
    match editor.doc.node(id) {
        Some(n) => {
            if n.props.visible && !n.props.locked {
                match &n.kind {
                    NodeKind::Raster(_) => Some(id),
                    _ => None,
                }
            } else {
                None
            }
        },
        None => None,
    }
}

/// The selected layer mask painting acts on: an editable raster layer that
/// has a mask.
pub fn mask_layer(editor: &Editor) -> (r: Option<NodeId>)
    ensures
        r == match editable_raster_spec(editor.doc@, editor.selection) {
            Some(id) => if editor.doc@.nodes[id.0].kind->mask is Some {
                Some(id)
            } else {
                None
            },
            None => None,
        },
{
    let id = match editable_raster(editor) {
        Some(id) => id,
        None => return None,
    };
    match editor.doc.node(id) {
        Some(n) => match &n.kind {
            NodeKind::Raster(c) => if c.mask.is_some() {
                Some(id)
            } else {
                None
            },
            _ => None,
        },
        None => None,
    }
}

/// The selected layer the Move tool can reposition: a visible, unlocked
/// raster layer or smart object.
pub fn movable_layer(editor: &Editor) -> (r: Option<NodeId>)
    ensures
        r == match editor.selection {
            Some(id) => if editable(editor.doc@, id.0) && (editor.doc@.nodes[id.0].kind is Raster
                || editor.doc@.nodes[id.0].kind is Smart) {
                Some(id)
            } else {
                None
            },
            None => None,
        },
{
    let id = match editor.selection {
        Some(id) => id,
        None => return None,
    };
    match editor.doc.node(id) {
        Some(n) => {
            if n.props.visible && !n.props.locked {
                match &n.kind {
                    NodeKind::Raster(_) => Some(id),
                    NodeKind::Smart(_) => Some(id),
                    _ => None,
                }
            } else {
                None
            }
        },
        None => None,
    }
}

/// Where a layer sits: a raster layer's or smart object's offset, else the
/// origin.
pub fn layer_offset(doc: &Document, id: NodeId) -> (r: [i32; 2])
    requires
        doc@.nodes.contains_key(id.0),
    ensures
        r == match doc@.nodes[id.0].kind {
            KindView::Raster { offset, .. } => offset,
            KindView::Smart { offset, .. } => offset,
            _ => [0i32, 0],
        },
{
    match doc.node(id) {
        Some(n) => match &n.kind {
            NodeKind::Raster(c) => c.offset,
            NodeKind::Smart(c) => c.offset,
            _ => [0, 0],
        },
        None => [0, 0],
    }
}

/// The extra selections kept: present, and not the primary selection.
pub open spec fn kept_extras(d: DocView, sel: Option<NodeId>, extra: Seq<NodeId>) -> Seq<NodeId>
    decreases extra.len(),
{
    if extra.len() == 0 {
        Seq::empty()
    } else {
        let e = extra.last();
        kept_extras(d, sel, extra.drop_last()) + if Some(e) != sel && d.nodes.contains_key(e.0) {
            seq![e]
        } else {
            Seq::empty()
        }
    }
}

/// Every selected node: the primary selection first, then the extra
/// selections that are still present and differ from it, in order.
pub fn selected_set(editor: &Editor, extra: &[NodeId]) -> (r: Vec<NodeId>)
    ensures
        r@ == match editor.selection {
            Some(p) => seq![p],
            None => Seq::empty(),
        } + kept_extras(editor.doc@, editor.selection, extra@),
{
    let mut out: Vec<NodeId> = Vec::new();
    if let Some(p) = editor.selection {
        out.push(p);
    }
    let ghost head = out@;
    let mut i: usize = 0;
    while i < extra.len()
        invariant
            i <= extra@.len(),
            out@ == head + kept_extras(editor.doc@, editor.selection, extra@.take(i as int)),
        decreases extra@.len() - i,
    {
        let e = extra[i];
        let keep = match editor.selection {
            Some(p) => p.0 != e.0,
            None => true,
        } && editor.doc.node(e).is_some();
        if keep {
            out.push(e);
        }
        proof {
            assert(extra@.take(i + 1).drop_last() =~= extra@.take(i as int));
            assert(extra@.take(i + 1).last() == e);
        }
        i += 1;
    }
    assert(extra@.take(i as int) =~= extra@);
    out
}

/// Node `g` is a group other than the root, its parent is a group, and the
/// parent's children after dissolving `g` still fit in `usize`.
pub open spec fn ungroupable(d: DocView, g: u64) -> bool {
    &&& d.nodes.contains_key(g)
    &&& d.nodes[g].kind is Group
    &&& g != d.root
    &&& d.nodes[g].parent is Some
    &&& d.nodes.contains_key(d.nodes[g].parent.unwrap())
    &&& d.nodes[d.nodes[g].parent.unwrap()].kind is Group
    &&& d.nodes[d.nodes[g].parent.unwrap()].children.len() + d.nodes[g].children.len() < usize::MAX
}

/// Dissolve the selected group into its parent as one undoable edit, then
/// clear the selection and the extra selections. Nothing happens unless the
/// selection is a group other than the root whose parent is a group.
pub fn ungroup_selected(editor: &mut Editor, extra: &mut Vec<NodeId>)
    requires
        old(editor).inv(),
        old(editor).history.revision_count() < u64::MAX,
    ensures
        final(editor).inv(),
        ({
            let d = old(editor).doc@;
            let sel = old(editor).selection;
            if sel is Some && ungroupable(d, sel.unwrap().0) {
                &&& final(editor).doc@ == dissolved_view(d, sel.unwrap().0)
                &&& final(editor).selection is None
                &&& final(extra)@.len() == 0
                &&& pushed_on(old(editor).history, final(editor).history, "Ungroup"@, d)
                &&& final(editor).saved_at == old(editor).saved_at
            } else {
                &&& *final(editor) == *old(editor)
                &&& final(extra)@ == old(extra)@
            }
        }),
{
    let id = match editor.selection {
        Some(id) => id,
        None => return,
    };
    let ok = match editor.doc.node(id) {
        Some(n) => match &n.kind {
            NodeKind::Group { .. } => {
                if id.0 == editor.doc.root().0 || n.children.len() == usize::MAX {
                    false
                } else {
                    match n.parent {
                        Some(p) => match editor.doc.node(p) {
                            Some(pn) => pn.kind.is_group() && n.children.len() < usize::MAX
                                && pn.children.len() < usize::MAX - n.children.len(),
                            None => false,
                        },
                        None => false,
                    }
                }
            },
            _ => false,
        },
        None => false,
    };
    if !ok {
        return;
    }
    let cmd = UngroupNode::new(id);
    proof {
        Command::lemma_merges_only_edits(editor.history.top(), Command::UngroupNode(cmd));
        Command::lemma_ungroup_node(cmd);
        assert(cmd.can_apply(editor.doc@));
        assert(cmd.undoable(editor.doc@));
    }
    editor.apply(Command::UngroupNode(cmd));
    editor.selection = None;
    extra.clear();
}

/// The panel rows of the subtrees `ids` at `depth`, in order: each node,
/// followed by the rows of its children when it is an expanded group;
/// looking at most `fuel` levels down.
pub open spec fn panel_rows(m: Map<u64, NodeView>, ids: Seq<u64>, depth: nat, fuel: nat) -> Seq<(u64, nat)>
    decreases fuel, ids.len(),
{
    if fuel == 0 || ids.len() == 0 {
        Seq::empty()
    } else {
        let id = ids.last();
        let below = if m.contains_key(id) && m[id].kind == (KindView::Group { expanded: true }) {
            panel_rows(m, m[id].children, depth + 1, (fuel - 1) as nat)
        } else {
            Seq::empty()
        };
        panel_rows(m, ids.drop_last(), depth, fuel) + seq![(id, depth)] + below
    }
}

/// Rows as ids and depths.
pub open spec fn rows_view(s: Seq<(NodeId, usize)>) -> Seq<(u64, nat)> {
    s.map_values(|r: (NodeId, usize)| (r.0.0, r.1 as nat))
}

/// Append the panel rows of `parent`'s children at `depth`.
fn rows_below(doc: &Document, parent: NodeId, depth: usize, fuel: usize, out: &mut Vec<(NodeId, usize)>)
    requires
        doc.wf(),
        doc@.nodes.contains_key(parent.0),
        depth + fuel <= usize::MAX,
    ensures
        rows_view(final(out)@) == rows_view(old(out)@) + panel_rows(
            doc@.nodes,
            doc@.nodes[parent.0].children,
            depth as nat,
            fuel as nat,
        ),
    decreases fuel,
{
    let ghost m = doc@.nodes;
    let ghost ch = m[parent.0].children;
    if fuel == 0 {
        assert(rows_view(out@) =~= rows_view(old(out)@) + panel_rows(m, ch, depth as nat, 0));
        return;
    }
    let kids = doc.children(parent);
    let mut j: usize = 0;
    assert(ch.take(0) =~= Seq::<u64>::empty());
    assert(rows_view(out@) =~= rows_view(old(out)@) + panel_rows(m, ch.take(0), depth as nat, fuel as nat));
    while j < kids.len()
        invariant
            doc.wf(),
            m == doc@.nodes,
            0 < fuel,
            depth + fuel <= usize::MAX,
            j <= kids@.len(),
            kids@.len() == ch.len(),
            forall|i: int| 0 <= i < ch.len() ==> #[trigger] ch[i] == kids@[i].0,
            rows_view(out@) == rows_view(old(out)@) + panel_rows(m, ch.take(j as int), depth as nat, fuel as nat),
        decreases kids@.len() - j,
    {
        let id = kids[j];
        let ghost pre = rows_view(out@);
        out.push((id, depth));
        assert(rows_view(out@) =~= pre + seq![(id.0, depth as nat)]);
        let ghost mid = rows_view(out@);
        match doc.node(id) {
            Some(n) => match &n.kind {
                NodeKind::Group { expanded } => {
                    if *expanded {
                        rows_below(doc, id, depth + 1, fuel - 1, out);
                    }
                },
                _ => {},
            },
            None => {},
        }
        proof {
            let t = ch.take(j + 1);
            assert(t.drop_last() =~= ch.take(j as int));
            assert(t.last() == id.0);
        }
        j += 1;
    }
    assert(ch.take(j as int) =~= ch);
}

/// The rows of the layers panel: the tree below the root, top-most first,
/// each node with its depth; a collapsed group's children are not shown.
pub fn visible_rows(editor: &Editor) -> (r: Vec<(NodeId, usize)>)
    requires
        editor.doc.wf(),
    ensures
        rows_view(r@) == panel_rows(
            editor.doc@.nodes,
            editor.doc@.nodes[editor.doc@.root].children,
            0,
            editor.doc@.nodes.dom().len(),
        ),
{
    let mut out: Vec<(NodeId, usize)> = Vec::new();
    let n = editor.doc.node_count();
    assert(editor.doc@.nodes.contains_key(editor.doc@.root));
    rows_below(&editor.doc, editor.doc.root(), 0, n, &mut out);
    assert(rows_view(out@) =~= panel_rows(editor.doc@.nodes, editor.doc@.nodes[editor.doc@.root].children, 0, n as nat));
    out
}

/// Every node with children is an expanded group, and every child is present.
pub open spec fn all_expanded(m: Map<u64, NodeView>) -> bool {
    forall|id: u64| #[trigger] m.contains_key(id) ==> {
        &&& m[id].children.len() > 0 ==> m[id].kind == (KindView::Group { expanded: true })
        &&& forall|i: int| 0 <= i < m[id].children.len() ==> m.contains_key(#[trigger] m[id].children[i])
    }
}

proof fn lemma_walk_concat(m: Map<u64, NodeView>, a: Seq<u64>, b: Seq<u64>, depth: nat, n: nat)
    ensures
        forest_walk(m, a + b, depth, n) == forest_walk(m, a, depth, n) + forest_walk(m, b, depth, n),
    decreases a.len(),
{
    if a.len() == 0 {
        assert(a + b =~= b);
    } else if depth >= n {
    } else {
        assert((a + b).skip(1) =~= a.skip(1) + b);
        assert((a + b)[0] == a[0]);
        lemma_walk_concat(m, a.skip(1), b, depth, n);
    }
}

/// Panel rows and the full walk agree where every group is expanded.
proof fn lemma_rows_walk(m: Map<u64, NodeView>, ids: Seq<u64>, depth: nat, fuel: nat)
    requires
        all_expanded(m),
        forall|i: int| 0 <= i < ids.len() ==> m.contains_key(#[trigger] ids[i]),
    ensures
        panel_rows(m, ids, depth, fuel) == forest_walk(m, ids, depth, depth + fuel),
    decreases fuel, ids.len(),
{
    let n = depth + fuel;
    if fuel == 0 || ids.len() == 0 {
    } else {
        let x = ids.last();
        let init = ids.drop_last();
        lemma_rows_walk(m, init, depth, fuel);
        assert(ids =~= init + seq![x]);
        lemma_walk_concat(m, init, seq![x], depth, n);
        assert(seq![x].skip(1) =~= Seq::<u64>::empty());
        assert(m.contains_key(x));
        let ch = m[x].children;
        let below = if m.contains_key(x) && m[x].kind == (KindView::Group { expanded: true }) {
            panel_rows(m, ch, depth + 1, (fuel - 1) as nat)
        } else {
            Seq::empty()
        };
        assert(panel_rows(m, ids, depth, fuel) == panel_rows(m, init, depth, fuel) + seq![(x, depth)] + below);
        if ch.len() > 0 {
            lemma_rows_walk(m, ch, depth + 1, (fuel - 1) as nat);
            assert(below == forest_walk(m, ch, depth + 1, n));
        } else {
            assert(ch =~= Seq::<u64>::empty());
            assert(below =~= Seq::<(u64, nat)>::empty());
            assert(forest_walk(m, ch, depth + 1, n) =~= Seq::<(u64, nat)>::empty());
        }
        assert(forest_walk(m, Seq::<u64>::empty(), depth, n) =~= Seq::<(u64, nat)>::empty());
        assert(forest_walk(m, seq![x], depth, n) =~= seq![(x, depth)] + forest_walk(m, ch, depth + 1, n));
    }
}

/// With every group expanded, the layers panel shows the whole tree: its
/// rows are those of the full walk `iter_tree` lists, in the same order.
pub proof fn lemma_expanded_rows_are_full_walk(d: DocView)
    requires
        d.nodes.contains_key(d.root),
        all_expanded(d.nodes),
    ensures
        panel_rows(d.nodes, d.nodes[d.root].children, 0, d.nodes.dom().len()) == forest_walk(
            d.nodes,
            d.nodes[d.root].children,
            0,
            d.nodes.dom().len(),
        ),
{
    let m = d.nodes;
    assert(m.contains_key(d.root));
    lemma_rows_walk(m, m[d.root].children, 0, m.dom().len());
}

/// Where a new layer goes: just above the selected node in its parent, or
/// on top of the root when nothing present is selected.
pub open spec fn insert_target(d: DocView, sel: Option<NodeId>) -> (u64, int) {
    match sel {
        Some(s) => if d.nodes.contains_key(s.0) {
            let p = match d.nodes[s.0].parent {
                Some(p) => p,
                None => d.root,
            };
            let cs = if d.nodes.contains_key(p) {
                d.nodes[p].children
            } else {
                Seq::<u64>::empty()
            };
            (p, if cs.contains(s.0) {
                cs.index_of(s.0)
            } else {
                0
            })
        } else {
            (d.root, 0)
        },
        None => (d.root, 0),
    }
}

/// The parent and index `insert_target` names.
fn target_of(doc: &Document, sel: Option<NodeId>) -> (r: (NodeId, usize))
    requires
        doc.wf(),
    ensures
        r.0.0 == insert_target(doc@, sel).0,
        r.1 == insert_target(doc@, sel).1,
{
    let root = doc.root();
    match sel {
        Some(s) => match doc.node(s) {
            Some(n) => {
                let p = match n.parent {
                    Some(p) => p,
                    None => root,
                };
                let cs = doc.children(p);
                match crate::document::position(cs, s) {
                    Some(i) => {
                        proof {
                            let v = ids_view(cs@);
                            assert(v.contains(s.0));
                            let k = v.index_of(s.0);
                            if doc@.nodes.contains_key(p.0) {
                                assert(v.no_duplicates());
                            }
                            assert(v[i as int] == s.0);
                            assert(k == i);
                        }
                        (p, i)
                    },
                    None => (p, 0),
                }
            },
            None => (root, 0),
        },
        None => (root, 0),
    }
}

/// Add `node` just above the selection (in the selection's parent), or on
/// top of the root, as one undoable edit, and select it; `None` (and nothing
/// changes) when that parent is not a group.
pub fn add_node(editor: &mut Editor, node: Node) -> (r: Option<NodeId>)
    requires
        old(editor).inv(),
        old(editor).history.revision_count() < u64::MAX,
        old(editor).doc@.next_id < u64::MAX,
        node.children@.len() == 0,
    ensures
        final(editor).inv(),
        ({
            let d = old(editor).doc@;
            let (p, i) = insert_target(d, old(editor).selection);
            if d.nodes.contains_key(p) && d.nodes[p].kind is Group {
                &&& r == Some(NodeId(d.next_id))
                &&& final(editor).doc@ == inserted_view(with_next(d, (d.next_id + 1) as u64), d.next_id, node@, p, i)
                &&& final(editor).selection == r
                &&& pushed_on(
                    old(editor).history,
                    final(editor).history,
                    "Add "@ + node.kind.kind_name_spec(),
                    with_next(d, (d.next_id + 1) as u64),
                )
                &&& final(editor).saved_at == old(editor).saved_at
            } else {
                &&& r is None
                &&& *final(editor) == *old(editor)
            }
        }),
{
    let (parent, index) = target_of(&editor.doc, editor.selection);
    let is_group = match editor.doc.node(parent) {
        Some(pn) => pn.kind.is_group(),
        None => false,
    };
    if !is_group {
        return None;
    }
    let ghost d = editor.doc@;
    let cmd = AddNode::new(&mut editor.doc, node, parent, index);
    let id = cmd.id;
    editor.history.follow_next_id(&editor.doc);
    proof {
        Command::lemma_add_node(cmd);
        Command::lemma_merges_only_edits(editor.history.top(), Command::AddNode(cmd));
    }
    editor.apply(Command::AddNode(cmd));
    editor.selection = Some(id);
    Some(id)
}

/// Group the selected nodes (the primary selection first, then the extra
/// ones still present) under a new group named "Group", as one undoable
/// edit, then select the group and clear the extra selections. Nothing
/// happens unless they share a parent; when that parent is not a group, only
/// the group's id has been used up.
pub fn group_selected(editor: &mut Editor, extra: &mut Vec<NodeId>)
    requires
        old(editor).inv(),
        old(editor).history.revision_count() < u64::MAX,
        old(editor).doc@.next_id < u64::MAX,
    ensures
        final(editor).inv(),
        ({
            let d = old(editor).doc@;
            let ids = ids_view(
                match old(editor).selection {
                    Some(p) => seq![p],
                    None => Seq::empty(),
                } + kept_extras(d, old(editor).selection, old(extra)@),
            );
            let g = d.next_id;
            if !siblings_ok(d, ids) {
                &&& final(editor).doc@ == d
                &&& final(editor).history == old(editor).history
                &&& final(editor).selection == old(editor).selection
                &&& final(editor).saved_at == old(editor).saved_at
                &&& final(extra)@ == old(extra)@
            } else if d.nodes.contains_key(d.nodes[ids[0]].parent.unwrap()) && d.nodes[d.nodes[ids[0]].parent.unwrap()].kind is Group {
                &&& final(editor).doc@ == grouped_view(with_next(d, (g + 1) as u64), ids, g, "Group"@, d.nodes[ids[0]].parent.unwrap())
                &&& final(editor).selection == Some(NodeId(g))
                &&& final(extra)@.len() == 0
                &&& pushed_on(old(editor).history, final(editor).history, "Group Layers"@, with_next(d, (g + 1) as u64))
                &&& final(editor).saved_at == old(editor).saved_at
            } else {
                &&& final(editor).doc@ == with_next(d, (g + 1) as u64)
                &&& final(editor).selection == old(editor).selection
                &&& final(extra)@ == old(extra)@
            }
        }),
{
    let ids = selected_set(editor, extra.as_slice());
    let ghost d = editor.doc@;
    let cmd = match GroupNodes::new(&mut editor.doc, ids.as_slice(), String::from_str("Group")) {
        Some(c) => c,
        None => return,
    };
    editor.history.follow_next_id(&editor.doc);
    let gid = cmd.group_id();
    let first = ids[0];
    let parent_is_group = match editor.doc.node(first) {
        Some(n) => match n.parent {
            Some(p) => match editor.doc.node(p) {
                Some(pn) => pn.kind.is_group(),
                None => false,
            },
            None => false,
        },
        None => false,
    };
    if !parent_is_group {
        return;
    }
    proof {
        Command::lemma_merges_only_edits(editor.history.top(), Command::GroupNodes(cmd));
        Command::lemma_group_nodes(cmd);
        reveal_strlit("Group");
    }
    editor.apply(Command::GroupNodes(cmd));
    editor.selection = Some(gid);
    extra.clear();
}

/// A fresh copy of the subtree at `src` (new ids) inserted under `parent`
/// at `index`, as one undoable edit labelled `label`, then selected.
fn insert_copy(editor: &mut Editor, src: NodeId, parent: NodeId, index: usize, label: String) -> (r: Option<NodeId>)
    requires
        old(editor).inv(),
        old(editor).history.revision_count() < u64::MAX,
        old(editor).doc@.nodes.contains_key(src.0),
        old(editor).doc@.nodes.contains_key(parent.0),
        old(editor).doc@.next_id + old(editor).doc@.nodes.dom().len() <= u64::MAX,
    ensures
        final(editor).inv(),
        r is Some,
        exists|s: Seq<(u64, NodeView)>, out: Seq<(u64, NodeView)>, e: DocView| {
            &&& #[trigger] cloned_as(old(editor).doc@, src.0, parent.0, s, r.unwrap().0, out, e)
            &&& final(editor).doc@ == restored_view(e, out, parent.0, index as int)
            &&& pushed_on(old(editor).history, final(editor).history, label@, e)
        },
        final(editor).selection == r,
        final(editor).saved_at == old(editor).saved_at,
{
    let ghost d = editor.doc@;
    proof {
        editor.doc.lemma_dom_finite();
    }
    let (root, nodes) = match editor.doc.clone_subtree(src, parent) {
        Some(x) => x,
        None => {
            assert(false);
            return None;
        },
    };
    let ghost e = editor.doc@;
    let ghost out = entries_view(nodes@);
    let ghost s = choose|s: Seq<(u64, NodeView)>| #[trigger] cloned_as(d, src.0, parent.0, s, root.0, out, e);
    proof {
        lemma_clone_is_fresh(d, src.0, parent.0, s, root.0, out, e);
        assert(e == with_next(d, e.next_id));
    }
    editor.history.follow_next_id(&editor.doc);
    let cmd = InsertSubtree::new(root, nodes, parent, index, label);
    proof {
        Command::lemma_merges_only_edits(editor.history.top(), Command::InsertSubtree(cmd));
        Command::lemma_insert_subtree(cmd);
    }
    editor.apply(Command::InsertSubtree(cmd));
    editor.selection = Some(root);
    assert(cloned_as(d, src.0, parent.0, s, root.0, out, e));
    assert(editor.doc@ == restored_view(e, out, parent.0, index as int));
    Some(root)
}

/// Duplicate the selected layer: a deep copy with fresh ids, just above it
/// in its parent, as one undoable edit, then selected. `None` (and nothing
/// changes) when nothing present is selected or the ids would run out.
pub fn duplicate_selected_layer(editor: &mut Editor) -> (r: Option<NodeId>)
    requires
        old(editor).inv(),
        old(editor).history.revision_count() < u64::MAX,
    ensures
        final(editor).inv(),
        ({
            let d = old(editor).doc@;
            match old(editor).selection {
                Some(id) => if d.nodes.contains_key(id.0) && d.next_id + d.nodes.dom().len() <= u64::MAX {
                    let (p, i) = insert_target(d, Some(id));
                    &&& r is Some
                    &&& exists|s: Seq<(u64, NodeView)>, out: Seq<(u64, NodeView)>, e: DocView| {
                        &&& #[trigger] cloned_as(d, id.0, p, s, r.unwrap().0, out, e)
                        &&& final(editor).doc@ == restored_view(e, out, p, i)
                        &&& pushed_on(old(editor).history, final(editor).history, "Duplicate Layer"@, e)
                    }
                    &&& final(editor).selection == r
                } else {
                    r is None && *final(editor) == *old(editor)
                },
                None => r is None && *final(editor) == *old(editor),
            }
        }),
{
    let id = match editor.selection {
        Some(id) => id,
        None => return None,
    };
    if editor.doc.node(id).is_none() {
        return None;
    }
    let n = editor.doc.node_count();
    if editor.doc.next_id() > u64::MAX - (n as u64) {
        return None;
    }
    let (parent, index) = target_of(&editor.doc, Some(id));
    proof {
        let m = editor.doc@.nodes;
        if m[id.0].parent is Some {
            assert(id.0 != editor.doc@.root);
        }
    }
    insert_copy(editor, id, parent, index, String::from_str("Duplicate Layer"))
}

/// Paste a fresh deep copy of the layer `clipboard` names just above the
/// selection (or on top of the root), as one undoable edit, then select it
/// and clear the extra selections. `None` (and nothing changes) when the
/// clipboard is empty, its layer is gone, or the ids would run out.
pub fn paste_layer(editor: &mut Editor, clipboard: Option<NodeId>, extra: &mut Vec<NodeId>) -> (r: Option<NodeId>)
    requires
        old(editor).inv(),
        old(editor).history.revision_count() < u64::MAX,
    ensures
        final(editor).inv(),
        ({
            let d = old(editor).doc@;
            match clipboard {
                Some(src) => if d.nodes.contains_key(src.0) && d.next_id + d.nodes.dom().len() <= u64::MAX {
                    let (p, i) = insert_target(d, old(editor).selection);
                    &&& r is Some
                    &&& exists|s: Seq<(u64, NodeView)>, out: Seq<(u64, NodeView)>, e: DocView| {
                        &&& #[trigger] cloned_as(d, src.0, p, s, r.unwrap().0, out, e)
                        &&& final(editor).doc@ == restored_view(e, out, p, i)
                        &&& pushed_on(old(editor).history, final(editor).history, "Paste Layer"@, e)
                    }
                    &&& final(editor).selection == r
                    &&& final(extra)@.len() == 0
                } else {
                    r is None && *final(editor) == *old(editor) && final(extra)@ == old(extra)@
                },
                None => r is None && *final(editor) == *old(editor) && final(extra)@ == old(extra)@,
            }
        }),
{
    let src = match clipboard {
        Some(s) => s,
        None => return None,
    };
    if editor.doc.node(src).is_none() {
        return None;
    }
    let n = editor.doc.node_count();
    if editor.doc.next_id() > u64::MAX - (n as u64) {
        return None;
    }
    let (parent, index) = target_of(&editor.doc, editor.selection);
    let r = insert_copy(editor, src, parent, index, String::from_str("Paste Layer"));
    extra.clear();
    r
}

} // verus!
