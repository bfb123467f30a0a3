//! Interning tables and visit sets backed by `rustc_hash`.
//!
//! The stores key every interning table by a packed code and map it to
//! a dense `u32` identity; validation records visited dense identities in a
//! set. The contents of a table are named by [`fx_table_contents`] and those
//! of a set by [`fx_set_contents`]; the wrappers below state what each
//! `HashMap` and `HashSet` operation does to them.

use rustc_hash::FxBuildHasher;
use rustc_hash::FxHashMap;
use rustc_hash::FxHashSet;
use vstd::prelude::*;

verus! {

/// The build-hasher type of `rustc_hash::FxHashMap`.
#[verifier::external_type_specification]
#[verifier::external_body]
pub struct ExFxBuildHasher(FxBuildHasher);

/// The key-to-identity pairs held by one interning table.
pub uninterp spec fn fx_table_contents(table: FxHashMap<(u128, u8), u32>) -> Map<(u128, u8), u32>;

/// Calls `FxHashMap::with_capacity_and_hasher`; the new table holds no pair.
#[verifier::external_body]
pub(crate) fn fx_table_with_capacity(capacity: usize) -> (r: FxHashMap<(u128, u8), u32>)
    ensures
        fx_table_contents(r).dom().is_empty(),
{
    FxHashMap::with_capacity_and_hasher(capacity, FxBuildHasher)
}

/// Calls `HashMap::get`; the result is the identity stored under `key`, if any.
#[verifier::external_body]
pub(crate) fn fx_table_get(table: &FxHashMap<(u128, u8), u32>, key: (u128, u8)) -> (r: Option<u32>)
    ensures
        r == (if fx_table_contents(*table).dom().contains(key) {
            Some(fx_table_contents(*table)[key])
        } else {
            None
        }),
{
    table.get(&key).copied()
}

/// Calls `HashMap::insert`; afterwards `key` maps to `value` and every other
/// pair is unchanged.
#[verifier::external_body]
pub(crate) fn fx_table_insert(table: &mut FxHashMap<(u128, u8), u32>, key: (u128, u8), value: u32)
    ensures
        fx_table_contents(*final(table)) == fx_table_contents(*old(table)).insert(key, value),
{
    table.insert(key, value);
}


/// The dense identities held by one visit set.
pub uninterp spec fn fx_set_contents(set: FxHashSet<u32>) -> Set<u32>;

/// Calls `FxHashSet::default`; the new set holds no identity.
#[verifier::external_body]
pub(crate) fn fx_set_new() -> (r: FxHashSet<u32>)
    ensures
        forall|x: u32| !fx_set_contents(r).contains(x),
{
    FxHashSet::default()
}

/// Calls `HashSet::insert`; afterwards the set also holds `value`, and the
/// result says whether it was absent before.
#[verifier::external_body]
pub(crate) fn fx_set_insert(set: &mut FxHashSet<u32>, value: u32) -> (r: bool)
    ensures
        fx_set_contents(*final(set)) == fx_set_contents(*old(set)).insert(value),
        r == !fx_set_contents(*old(set)).contains(value),
{
    set.insert(value)
}

/// Calls `HashSet::contains`; the result says whether the set holds `value`.
#[verifier::external_body]
pub(crate) fn fx_set_contains(set: &FxHashSet<u32>, value: u32) -> (r: bool)
    ensures
        r == fx_set_contents(*set).contains(value),
{
    set.contains(&value)
}

} // verus!
