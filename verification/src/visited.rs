//! The marks that a pass over the neighbours leaves on the nodes it
//! touches, kept in an `ahash::AHashMap`.

use vstd::prelude::*;
use crate::arena::NodeKey;
use crate::tree_traits::NeighborSizeEvent;

verus! {

/// `ahash::RandomState`, the source of the hashers of a map, taken as a
/// value about which nothing is known.
#[verifier::external_type_specification]
#[verifier::external_body]
pub struct ExRandomState(ahash::RandomState);

/// `ahash::AHashMap`, taken as a value about which nothing is known but
/// what [`visited_marks`] says it holds.
#[verifier::external_type_specification]
#[verifier::external_body]
#[verifier::reject_recursive_types(K)]
#[verifier::reject_recursive_types(V)]
#[verifier::reject_recursive_types(S)]
pub struct ExAHashMap<K, V, S>(ahash::AHashMap<K, V, S>);

/// The marks of a pass, one for each node it has touched.
pub type VisitedNodes = ahash::AHashMap<NodeKey, NeighborSizeEvent>;

/// The marks that a map holds, each under the key of its node.
pub uninterp spec fn visited_marks(marks: ahash::AHashMap<NodeKey, NeighborSizeEvent>) -> Map<
    NodeKey,
    NeighborSizeEvent,
>;

/// `AHashMap::new`: a map without marks.
#[verifier::external_body]
pub(crate) fn visited_new() -> (marks: ahash::AHashMap<NodeKey, NeighborSizeEvent>)
    ensures
        forall|key: NodeKey| !visited_marks(marks).contains_key(key),
{
    ahash::AHashMap::new()
}

/// `AHashMap::insert`: the mark stands under the key afterwards, whatever
/// stood there before, and nothing else changes.
#[verifier::external_body]
pub(crate) fn visited_insert(
    marks: &mut ahash::AHashMap<NodeKey, NeighborSizeEvent>,
    key: NodeKey,
    mark: NeighborSizeEvent,
)
    ensures
        visited_marks(*final(marks)) == visited_marks(*old(marks)).insert(key, mark),
{
    marks.insert(key, mark);
}

/// `AHashMap::get`: the mark under the key, if there is one.
#[verifier::external_body]
pub(crate) fn visited_get(marks: &ahash::AHashMap<NodeKey, NeighborSizeEvent>, key: NodeKey) -> (mark: Option<
    &NeighborSizeEvent,
>)
    ensures
        mark is Some == visited_marks(*marks).contains_key(key),
        mark matches Some(m) ==> *m == visited_marks(*marks)[key],
{
    marks.get(&key)
}

/// Puts a mark under a key that has none, and leaves a key that has one as
/// it is.
pub fn visited_or_insert(
    marks: &mut ahash::AHashMap<NodeKey, NeighborSizeEvent>,
    key: NodeKey,
    mark: NeighborSizeEvent,
)
    ensures
        visited_marks(*final(marks)) == if visited_marks(*old(marks)).contains_key(key) {
            visited_marks(*old(marks))
        } else {
            visited_marks(*old(marks)).insert(key, mark)
        },
{
    let present = visited_get(marks, key).is_some();
    if !present {
        visited_insert(marks, key, mark);
    }
}

} // verus!
