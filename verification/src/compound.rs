//! Compound paths: merging a vector layer's shapes into one even-odd shape,
//! and releasing shapes back into one shape per subpath. Both go through the
//! editor's history as one `SetVectorShapes` edit.

use vstd::prelude::*;
use crate::command::content::{shapes_of, SetVectorShapes};
use crate::command::kinds::Command;
use crate::document::DocView;
use crate::document::edit::with_kind;
use crate::history::{merged_into, pushed_on, Editor, History};
use crate::node::{KindView, NodeId, NodeKind};
use crate::vector::{shapes_view, FillRule, Path, Shape, ShapeView, SubPathView};

verus! {

/// The shapes of node `id` when it is a vector layer of `d`.
pub open spec fn layer_shapes(d: DocView, id: u64) -> Option<Seq<ShapeView>> {
    if d.nodes.contains_key(id) {
        shapes_of(d.nodes[id].kind)
    } else {
        None
    }
}

/// Every subpath of `s`, shape by shape, in order.
pub open spec fn all_subpaths(s: Seq<ShapeView>) -> Seq<SubPathView>
    decreases s.len(),
{
    if s.len() == 0 {
        Seq::empty()
    } else {
        all_subpaths(s.drop_last()) + s.last().0.0
    }
}

/// The compound of `s`: all its subpaths under the even-odd rule, painted
/// like the first shape.
pub open spec fn compound_of(s: Seq<ShapeView>) -> ShapeView {
    ((all_subpaths(s), FillRule::EvenOdd), s[0].1, s[0].2)
}

/// One shape per subpath of `sh`, keeping its fill rule and paint.
pub open spec fn split_shape(sh: ShapeView) -> Seq<ShapeView> {
    sh.0.0.map_values(|sp: SubPathView| ((seq![sp], sh.0.1), sh.1, sh.2))
}

/// `s` released: every shape split into one shape per subpath, in order.
pub open spec fn released_of(s: Seq<ShapeView>) -> Seq<ShapeView>
    decreases s.len(),
{
    if s.len() == 0 {
        Seq::empty()
    } else {
        released_of(s.drop_last()) + split_shape(s.last())
    }
}

/// Some shape of `s` has more than one subpath.
pub open spec fn has_compound(s: Seq<ShapeView>) -> bool {
    exists|i: int| 0 <= i < s.len() && (#[trigger] s[i]).0.0.len() > 1
}

/// The compound shape of a non-empty shape list.
fn compound(shapes: &Vec<Shape>) -> (r: Shape)
    requires
        shapes@.len() >= 1,
    ensures
        r@ == compound_of(shapes_view(shapes@)),
{
    let ghost sv = shapes_view(shapes@);
    let mut path = shapes[0].path.duplicate();
    proof {
        assert(sv.take(1).drop_last() =~= Seq::<ShapeView>::empty());
        assert(sv.take(1).last() == shapes@[0]@);
        assert(all_subpaths(Seq::<ShapeView>::empty()) == Seq::<SubPathView>::empty());
        assert(path@.0 =~= all_subpaths(sv.take(1)));
    }
    let mut i: usize = 1;
    while i < shapes.len()
        invariant
            1 <= i <= shapes@.len(),
            sv == shapes_view(shapes@),
            path@ == (all_subpaths(sv.take(i as int)), sv[0].0.1),
        decreases shapes@.len() - i,
    {
        path.append(&shapes[i].path);
        proof {
            assert(sv.take(i + 1).drop_last() =~= sv.take(i as int));
            assert(sv.take(i + 1).last() == sv[i as int]);
        }
        i += 1;
    }
    assert(sv.take(i as int) =~= sv);
    path.fill_rule = FillRule::EvenOdd;
    Shape { path, fill: shapes[0].fill, stroke: shapes[0].stroke }
}

/// Every shape split into one shape per subpath, and whether any shape had
/// more than one.
fn released(shapes: &Vec<Shape>) -> (r: (Vec<Shape>, bool))
    ensures
        shapes_view(r.0@) == released_of(shapes_view(shapes@)),
        r.1 == has_compound(shapes_view(shapes@)),
{
    let ghost sv = shapes_view(shapes@);
    let mut out: Vec<Shape> = Vec::new();
    let mut changed = false;
    let mut i: usize = 0;
    while i < shapes.len()
        invariant
            i <= shapes@.len(),
            sv == shapes_view(shapes@),
            shapes_view(out@) == released_of(sv.take(i as int)),
            changed == exists|k: int| 0 <= k < i && (#[trigger] sv[k]).0.0.len() > 1,
        decreases shapes@.len() - i,
    {
        let s = &shapes[i];
        let parts = s.path.split_subpaths();
        if parts.len() > 1 {
            changed = true;
        }
        let ghost base = shapes_view(out@);
        let ghost split = split_shape(sv[i as int]);
        let mut j: usize = 0;
        while j < parts.len()
            invariant
                j <= parts@.len(),
                parts@.len() == s.path@.0.len(),
                forall|k: int| 0 <= k < parts@.len() ==> (#[trigger] parts@[k])@ == (seq![s.path@.0[k]], s.path@.1),
                sv[i as int] == s@,
                split == split_shape(s@),
                shapes_view(out@) == base + split.take(j as int),
            decreases parts@.len() - j,
        {
            let piece = Shape { path: parts[j].duplicate(), fill: s.fill, stroke: s.stroke };
            let ghost before = out@;
            out.push(piece);
            proof {
                assert(shapes_view(out@) =~= shapes_view(before).push(piece@));
                assert(split.take(j + 1) =~= split.take(j as int).push(split[j as int]));
            }
            j += 1;
        }
        proof {
            assert(split.take(j as int) =~= split);
            assert(sv.take(i + 1).drop_last() =~= sv.take(i as int));
            assert(sv.take(i + 1).last() == sv[i as int]);
            if !changed {
                assert forall|k: int| 0 <= k < i + 1 implies !((#[trigger] sv[k]).0.0.len() > 1) by {
                    if k == i {
                        assert(sv[k].0.0.len() == parts@.len());
                    }
                }
            }
        }
        i += 1;
    }
    assert(sv.take(i as int) =~= sv);
    (out, changed)
}

/// `h1` is `h0` after recording a path edit of layer `id` made on document
/// `before`: merged into the edit on top when merging is on and that edit is
/// a path edit of the same layer, else pushed as "Edit Path".
pub open spec fn path_edit_recorded(h0: History, h1: History, id: NodeId, before: DocView) -> bool {
    if h0.is_merging() && h0.applied() > 0 && (h0.top() matches Command::SetVectorShapes(x) && x.id == id) {
        merged_into(h0, h1)
    } else {
        pushed_on(h0, h1, "Edit Path"@, before)
    }
}

/// Merge the shapes of vector layer `id` into one compound shape (all
/// subpaths, even-odd rule, the first shape's paint), as one undoable edit.
/// Nothing happens unless `id` is a vector layer with at least two shapes.
pub fn make_compound_path(editor: &mut Editor, id: NodeId)
    requires
        old(editor).inv(),
        old(editor).history.revision_count() < u64::MAX,
    ensures
        final(editor).inv(),
        ({
            let d = old(editor).doc@;
            let s = layer_shapes(d, id.0);
            if s is Some && s.unwrap().len() >= 2 {
                &&& final(editor).doc@ == with_kind(d, id.0, KindView::Vector(seq![compound_of(s.unwrap())]))
                &&& path_edit_recorded(old(editor).history, final(editor).history, id, d)
                &&& final(editor).selection == old(editor).selection
                &&& final(editor).saved_at == old(editor).saved_at
            } else {
                *final(editor) == *old(editor)
            }
        }),
{
    let merged = match editor.doc.node(id) {
        Some(n) => match &n.kind {
            NodeKind::Vector(c) => {
                if c.shapes.len() < 2 {
                    return;
                }
                compound(&c.shapes)
            },
            _ => return,
        },
        None => return,
    };
    let cmd = SetVectorShapes::new(&editor.doc, id, vec![merged]);
    proof {
        Command::lemma_set_vector_shapes(cmd);
        Command::lemma_merges_path_edit(editor.history.top(), cmd);
        assert(shapes_view(cmd.new@) =~= seq![merged@]);
    }
    editor.apply(Command::SetVectorShapes(cmd));
}

/// Split every shape of vector layer `id` into one shape per subpath (each
/// keeping its fill rule and paint), as one undoable edit. Nothing happens
/// unless `id` is a vector layer with a shape of more than one subpath.
pub fn release_compound_path(editor: &mut Editor, id: NodeId)
    requires
        old(editor).inv(),
        old(editor).history.revision_count() < u64::MAX,
    ensures
        final(editor).inv(),
        ({
            let d = old(editor).doc@;
            let s = layer_shapes(d, id.0);
            if s is Some && has_compound(s.unwrap()) {
                &&& final(editor).doc@ == with_kind(d, id.0, KindView::Vector(released_of(s.unwrap())))
                &&& path_edit_recorded(old(editor).history, final(editor).history, id, d)
                &&& final(editor).selection == old(editor).selection
                &&& final(editor).saved_at == old(editor).saved_at
            } else {
                *final(editor) == *old(editor)
            }
        }),
{
    let out = match editor.doc.node(id) {
        Some(n) => match &n.kind {
            NodeKind::Vector(c) => {
                let (out, changed) = released(&c.shapes);
                if !changed {
                    return;
                }
                out
            },
            _ => return,
        },
        None => return,
    };
    let cmd = SetVectorShapes::new(&editor.doc, id, out);
    proof {
        Command::lemma_set_vector_shapes(cmd);
        Command::lemma_merges_path_edit(editor.history.top(), cmd);
    }
    editor.apply(Command::SetVectorShapes(cmd));
}

/// Releasing a compound gives one shape per subpath of the merged shapes, in
/// order, each under the even-odd rule with the first shape's paint.
pub proof fn lemma_release_compound(s: Seq<ShapeView>)
    requires
        s.len() >= 1,
    ensures
        released_of(seq![compound_of(s)]) == all_subpaths(s).map_values(
            |sp: SubPathView| ((seq![sp], FillRule::EvenOdd), s[0].1, s[0].2),
        ),
{
    let one = seq![compound_of(s)];
    assert(one.drop_last() =~= Seq::<ShapeView>::empty());
    assert(released_of(Seq::<ShapeView>::empty()) == Seq::<ShapeView>::empty());
    assert(one.last() == compound_of(s));
    assert(released_of(one) =~= split_shape(compound_of(s)));
}

/// Merging keeps every subpath: the compound holds as many subpaths as the
/// shapes together.
pub proof fn lemma_compound_keeps_subpaths(s: Seq<ShapeView>, i: int, k: int)
    requires
        0 <= i < s.len(),
        0 <= k < s[i].0.0.len(),
    ensures
        exists|j: int| 0 <= j < compound_of(s).0.0.len() && compound_of(s).0.0[j] == s[i].0.0[k],
    decreases s.len(),
{
    let init = s.drop_last();
    assert(all_subpaths(s) == all_subpaths(init) + s.last().0.0);
    if i == s.len() - 1 {
        let j = all_subpaths(init).len() + k;
        assert(compound_of(s).0.0[j] == s[i].0.0[k]);
    } else {
        assert(init[i] == s[i]);
        lemma_compound_keeps_subpaths(init, i, k);
        let j0 = choose|j: int| 0 <= j < compound_of(init).0.0.len() && compound_of(init).0.0[j] == init[i].0.0[k];
        assert(compound_of(s).0.0[j0] == s[i].0.0[k]);
    }
}

} // verus!
