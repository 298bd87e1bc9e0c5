//! The statistics table: a hash map from count keys to counters.
//!
//! The map itself is hashbrown's `HashMap` keyed with aHash, kept in a
//! field opaque to Verus; its contents are named by `table_model`, and
//! the wrappers below state what each operation does to that model.
//! The derived `Eq` and `Hash` of `CountItem` compare the underlying
//! name strings, so lookup agrees with equality of views.

use vstd::prelude::*;

use crate::codec::{CountItem, ItemView};

verus! {

/// A map from count keys to counters. Opaque to Verus; described by
/// `table_model`.
#[verifier::external_body]
pub struct CountTable {
    inner: hashbrown::HashMap<CountItem, u32, std::hash::BuildHasherDefault<ahash::AHasher>>,
}

/// What a table holds: a finite map from key views to counters.
pub uninterp spec fn table_model(t: CountTable) -> Map<ItemView, u32>;

/// The contents of a table with nothing in it.
pub open spec fn empty_counts() -> Map<ItemView, u32> {
    Map::empty()
}

impl CountTable {
    /// Relies on hashbrown's `HashMap::default`: a fresh map is empty.
    #[verifier::external_body]
    pub fn new() -> (r: CountTable)
        ensures
            table_model(r) == empty_counts(),
    {
        CountTable { inner: hashbrown::HashMap::default() }
    }

    /// Relies on hashbrown's `HashMap::get`: returns the value stored
    /// under an equal key, if any.
    #[verifier::external_body]
    pub fn get_count(&self, k: &CountItem) -> (r: Option<u32>)
        ensures
            r == (if table_model(*self).dom().contains(k@) {
                Some(table_model(*self)[k@])
            } else {
                None::<u32>
            }),
    {
        self.inner.get(k).copied()
    }

    /// Relies on hashbrown's `HashMap::insert`: afterwards the map holds
    /// the prior entries plus this key bound to this value.
    #[verifier::external_body]
    pub fn set_count(&mut self, k: CountItem, v: u32)
        ensures
            table_model(*final(self)) == table_model(*old(self)).insert(k@, v),
    {
        self.inner.insert(k, v);
    }

    /// Relies on hashbrown's `HashMap::len`: the number of stored keys.
    #[verifier::external_body]
    pub fn len(&self) -> (n: usize)
        ensures
            n == table_model(*self).dom().len(),
    {
        self.inner.len()
    }

    /// Relies on hashbrown's `HashMap::iter`: iteration yields each
    /// stored entry exactly once, in no promised order.
    #[verifier::external_body]
    pub fn entries(&self) -> (v: Vec<(CountItem, u32)>)
        ensures
            v@.len() == table_model(*self).dom().len(),
            forall|i: int|
                0 <= i < v@.len() ==> table_model(*self).contains_pair(
                    (#[trigger] v@[i]).0@,
                    v@[i].1,
                ),
            forall|k: ItemView|
                table_model(*self).dom().contains(k) ==> exists|i: int|
                    0 <= i < v@.len() && (#[trigger] v@[i]).0@ == k,
    {
        self.inner.iter().map(|(k, v)| (k.clone(), *v)).collect()
    }
}

} // verus!
