use vstd::prelude::*;
use vstd::std_specs::cmp::OrdSpec;

verus! {

/// Lexicographic order on tile coordinates, the order std's `Ord` for
/// tuples documents.
pub open spec fn coord_lt(a: (i32, i32), b: (i32, i32)) -> bool {
    a.0 < b.0 || (a.0 == b.0 && a.1 < b.1)
}

/// A sequence of coordinates in strictly increasing lexicographic order.
pub open spec fn coords_sorted(s: Seq<(i32, i32)>) -> bool {
    forall|i: int, j: int| 0 <= i < j < s.len() ==> coord_lt(#[trigger] s[i], #[trigger] s[j])
}

/// Tile coordinates `(i32, i32)` and node ids `u64` obey std's documented
/// total order, so the ordered-map specifications apply to them.
pub proof fn lemma_coord_order()
    ensures
        vstd::laws_cmp::obeys_cmp::<(i32, i32)>(),
        vstd::laws_cmp::obeys_cmp::<&(i32, i32)>(),
        vstd::laws_cmp::obeys_cmp::<u64>(),
        vstd::laws_cmp::obeys_cmp::<&u64>(),
{
    broadcast use vstd::laws_cmp::group_laws_cmp, vstd::laws_cmp::lemma_ref_obeys_cmp_spec;
}

/// Node ids obey std's documented total order.
pub open spec fn ids_ordered() -> bool {
    vstd::laws_cmp::obeys_cmp::<u64>()
}

/// The keys an ordered map hands out come in lexicographic order.
pub proof fn lemma_keys_sorted(s: Seq<&(i32, i32)>)
    requires
        vstd::std_specs::btree::increasing_seq(s),
    ensures
        coords_sorted(s.unref()),
{
    broadcast use vstd::std_specs::btree::group_btree_axioms;
    lemma_coord_order();
    vstd::std_specs::btree::axiom_increasing_seq_meaning(s);
    let u = s.unref();
    assert forall|i: int, j: int| 0 <= i < j < u.len() implies coord_lt(#[trigger] u[i], #[trigger] u[j]) by {
        assert(OrdSpec::cmp_spec(&s[i], &s[j]) is Less);
    }
}

/// The keys an ordered map keyed by `u64` hands out come in increasing order.
pub proof fn lemma_ids_sorted(s: Seq<&u64>)
    requires
        vstd::std_specs::btree::increasing_seq(s),
    ensures
        forall|i: int, j: int| 0 <= i < j < s.len() ==> *(#[trigger] s[i]) < *(#[trigger] s[j]),
{
    broadcast use vstd::std_specs::btree::group_btree_axioms;
    lemma_coord_order();
    vstd::std_specs::btree::axiom_increasing_seq_meaning(s);
    assert forall|i: int, j: int| 0 <= i < j < s.len() implies *(#[trigger] s[i]) < *(#[trigger] s[j]) by {
        assert(OrdSpec::cmp_spec(&s[i], &s[j]) is Less);
    }
}

} // verus!
