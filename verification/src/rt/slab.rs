//! The index-keyed registry that backs the heap slab and the thread-root set.
//!
//! The storage is `sharded_slab::Slab<usize>`. Verus does not look inside it:
//! what it holds is named by [`slab_entries`], and each method the runtime
//! calls is wrapped below with a contract over that name. These contracts are
//! believed, not proved.

use vstd::prelude::*;

verus! {

/// A slab of `usize` values keyed by the indices that the slab hands out.
///
/// Trusted: the field is a `sharded_slab::Slab<usize>`, which Verus cannot
/// declare because its type parameter is bound by the crate's `Config` trait.
#[verifier::external_body]
pub struct IndexSlab {
    inner: sharded_slab::Slab<usize>,
}

/// The entries of a slab: each index currently handed out, with its value.
pub uninterp spec fn slab_entries(slab: IndexSlab) -> Map<usize, usize>;

/// Trusted: `sharded_slab::Slab::new`. Claims that a new slab has no entries.
#[verifier::external_body]
pub(crate) fn slab_new() -> (made: IndexSlab)
    ensures
        slab_entries(made) == (Map::<usize, usize>::empty()),
{
    IndexSlab { inner: sharded_slab::Slab::new() }
}

/// Trusted: `sharded_slab::Slab::insert`. Claims that on `Some(key)` the key
/// was not in use and now maps to `value`, every other entry staying as it
/// was, and that on `None` (the slab is full) nothing changed. Which key is
/// handed out is left open. The call panics only if more threads have used
/// slabs in this process than the default configuration admits.
#[verifier::external_body]
pub(crate) fn slab_insert(slab: &mut IndexSlab, value: usize) -> (key: Option<usize>)
    ensures
        key is Some ==> !slab_entries(*old(slab)).contains_key(key->0),
        key is Some ==> slab_entries(*final(slab)) == slab_entries(*old(slab)).insert(
            key->0,
            value,
        ),
        key is None ==> slab_entries(*final(slab)) == slab_entries(*old(slab)),
{
    slab.inner.insert(value)
}

/// Trusted: `sharded_slab::Slab::remove`, on a key that has an entry.
/// Claims that the entry is gone afterwards, that nothing else changed, and
/// that the result is `true`. A key without an entry is left out: the slab
/// may take it for the slot's next tenant and damage its free list.
#[verifier::external_body]
pub(crate) fn slab_remove(slab: &mut IndexSlab, key: usize) -> (removed: bool)
    requires
        slab_entries(*old(slab)).contains_key(key),
    ensures
        removed,
        slab_entries(*final(slab)) == slab_entries(*old(slab)).remove(key),
{
    slab.inner.remove(key)
}

/// Trusted: `sharded_slab::Slab::take`, on a key that has an entry. Claims
/// the same as for removal, and that the value that was stored under `key`
/// is returned. A key without an entry is left out, as for removal.
#[verifier::external_body]
pub(crate) fn slab_take(slab: &mut IndexSlab, key: usize) -> (taken: Option<usize>)
    requires
        slab_entries(*old(slab)).contains_key(key),
    ensures
        taken == Some(slab_entries(*old(slab))[key]),
        slab_entries(*final(slab)) == slab_entries(*old(slab)).remove(key),
{
    slab.inner.take(key)
}

/// Whether `values` lists the value of every entry of `entries` exactly once,
/// in some order.
pub open spec fn lists_each_entry_once(entries: Map<usize, usize>, values: Seq<usize>) -> bool {
    exists|keys: Seq<usize>|
        {
            &&& keys.no_duplicates()
            &&& keys.to_set() == entries.dom()
            &&& #[trigger] keys.len() == values.len()
            &&& forall|i: int| 0 <= i < keys.len() ==> values[i] == entries[#[trigger] keys[i]]
        }
}

/// Trusted: `sharded_slab::Slab::unique_iter`, collected into a vector.
/// Claims that the slab is left as it was and that the vector holds the
/// value of each entry exactly once. The order is left open.
#[verifier::external_body]
pub(crate) fn slab_values(slab: &mut IndexSlab) -> (values: Vec<usize>)
    ensures
        slab_entries(*final(slab)) == slab_entries(*old(slab)),
        lists_each_entry_once(slab_entries(*old(slab)), values@),
{
    slab.inner.unique_iter().copied().collect()
}

} // verus!
