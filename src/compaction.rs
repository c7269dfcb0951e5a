//! Compaction: rewriting the live data of a store into fresh segments.
use crate::engine::{layout, KVStore};
use vstd::prelude::*;

verus! {

/// Compacts `store`: its live keys, each written once with its value into
/// segments numbered from 0, replace the old segments. The store's keys and
/// values are unchanged.
pub fn compact_segments(store: &mut KVStore)
    requires
        old(store).wf(),
    ensures
        final(store).wf(),
        final(store)@ == old(store)@,
        final(store).key_seq() == old(store).key_seq(),
        final(store).size_limit() == old(store).size_limit(),
        final(store).log() == layout(old(store).key_seq(), old(store)@, old(store).size_limit()),
        forall|j: int| 0 <= j < final(store).ids().len() ==> final(store).ids()[j] == j,
{
    store.compact();
}

} // verus!
