//! Tables keyed by a component's number: std's `HashMap` with the hasher of
//! `rustc_hash`.
//!
//! Nothing in this file is proved: each function makes one call on such a
//! table, and its contract says what the table then holds.

use rustc_hash::FxBuildHasher;
use rustc_hash::FxHashMap;
use vstd::prelude::*;

verus! {

#[verifier::external_type_specification]
#[verifier::external_body]
pub struct ExFxBuildHasher(FxBuildHasher);

/// `FxHashMap::default`: a table that holds nothing.
#[verifier::external_body]
pub(crate) fn table_new<V>() -> (made: FxHashMap<usize, V>)
    ensures
        made@ == (Map::<usize, V>::empty()),
{
    FxHashMap::default()
}

/// `HashMap::get`: the value kept under `key`, if there is one.
#[verifier::external_body]
pub(crate) fn table_get<V>(table: &FxHashMap<usize, V>, key: usize) -> (value: Option<&V>)
    ensures
        match value {
            Some(v) => table@.contains_key(key) && *v == table@[key],
            None => !table@.contains_key(key),
        },
{
    table.get(&key)
}

/// `HashMap::insert`: afterwards `value` is kept under `key`, in place of
/// what was kept there before, and every other key keeps its value.
#[verifier::external_body]
pub(crate) fn table_insert<V>(table: &mut FxHashMap<usize, V>, key: usize, value: V)
    ensures
        final(table)@ == old(table)@.insert(key, value),
{
    table.insert(key, value);
}

} // verus!
