//! Bridges between the deep views of byte and component vectors and their
//! plain views, used as ambient lemmas by the other modules.

use vstd::prelude::*;

verus! {

/// The deep view of a byte vector is its view.
pub broadcast proof fn lemma_bytes_deep_view(v: Vec<u8>)
    ensures
        #[trigger] v.deep_view() == v@,
{
    assert(v.deep_view() =~= v@);
}

/// The deep view of a component vector is its view, component by component.
pub broadcast proof fn lemma_comps_deep_view(v: Vec<Vec<u8>>)
    ensures
        (#[trigger] v.deep_view()).len() == v@.len(),
        forall|i: int| 0 <= i < v@.len() ==> v.deep_view()[i] == v@[i]@,
{
    assert forall|i: int| 0 <= i < v@.len() implies v.deep_view()[i] == v@[i]@ by {
        assert(v.deep_view()[i] =~= v@[i]@);
    }
}

/// The deep view of a root list indexes into each root's deep view.
pub broadcast proof fn lemma_roots_deep_view(v: Vec<Vec<Vec<u8>>>)
    ensures
        (#[trigger] v.deep_view()).len() == v@.len(),
        forall|i: int| 0 <= i < v@.len() ==> v.deep_view()[i] == v@[i].deep_view(),
{
}

/// The deep view of a string vector is its view, string by string.
pub broadcast proof fn lemma_strings_deep_view(v: Vec<String>)
    ensures
        (#[trigger] v.deep_view()).len() == v@.len(),
        forall|i: int| 0 <= i < v@.len() ==> v.deep_view()[i] == v@[i]@,
{
}

} // verus!
