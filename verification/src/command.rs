//! Undoable commands. Every model edit is a command: applied to a document,
//! it can be reverted, and reverting then re-applying walks the document back
//! and forth between exactly the same states.

use vstd::prelude::*;

pub mod bake;
pub mod batch;
pub mod canvas;
pub mod content;
pub mod group;
pub mod id_space;
pub mod insert;
pub mod kinds;
pub mod layer;
pub mod merge;
pub mod props;
pub mod tree;

verus! {

/// `a` followed by `b`.
pub(crate) fn concat(a: &str, b: &str) -> (r: String)
    ensures
        r@ == a@ + b@,
{
    let mut s = a.to_owned();
    s.append(b);
    s
}

/// `prefix`, then `name` in double quotes.
pub(crate) fn quoted(prefix: &str, name: &str) -> (r: String)
    ensures
        r@ == prefix@ + "\""@ + name@ + "\""@,
{
    let mut s = concat(prefix, "\"");
    s.append(name);
    s.append("\"");
    s
}

} // verus!
