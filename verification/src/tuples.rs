//! Fixed-size tuples out of split lines.
use itertools::Itertools;
use vstd::prelude::*;

verus! {

/// Not verified: calls `itertools::Itertools::collect_tuple` on the pieces,
/// at the type of a pair. The contract repeats what the crate documents:
/// the tuple comes back exactly when the number of items equals the tuple's
/// size, and it holds the items in their order.
#[verifier::external_body]
pub(crate) fn collect_pair(parts: Vec<Vec<u8>>) -> (r: Option<(Vec<u8>, Vec<u8>)>)
    ensures
        match r {
            Some(t) => parts@.len() == 2 && t.0 == parts@[0] && t.1 == parts@[1],
            None => parts@.len() != 2,
        },
{
    parts.into_iter().collect_tuple()
}

/// Not verified: calls `itertools::Itertools::collect_tuple` on the pieces,
/// at the type of a triple. The contract repeats what the crate documents:
/// the tuple comes back exactly when the number of items equals the tuple's
/// size, and it holds the items in their order.
#[verifier::external_body]
pub(crate) fn collect_triple(parts: Vec<Vec<u8>>) -> (r: Option<(Vec<u8>, Vec<u8>, Vec<u8>)>)
    ensures
        match r {
            Some(t) => parts@.len() == 3 && t.0 == parts@[0] && t.1 == parts@[1] && t.2
                == parts@[2],
            None => parts@.len() != 3,
        },
{
    parts.into_iter().collect_tuple()
}

} // verus!
