//! Trusted wrappers around the hash maps and hash sets of `rustc_hash`.
//!
//! `FxHashMap` and `FxHashSet` are the standard library's `HashMap` and
//! `HashSet` with the Fx hasher plugged in, so every contract below states
//! only what the standard library documents of the wrapped call.
use vstd::prelude::*;

use rustc_hash::{FxHashMap, FxHashSet};

verus! {

#[verifier::external_type_specification]
#[verifier::external_body]
pub struct ExFxBuildHasher(rustc_hash::FxBuildHasher);

/// Relies on `HashMap::default`: the new map is empty.
#[verifier::external_body]
pub(crate) fn fx_map_new<V>() -> (r: FxHashMap<usize, V>)
    ensures
        r@.dom() == Set::<usize>::empty(),
{
    FxHashMap::default()
}

/// Relies on `HashMap::insert`: the map afterwards holds `v` under `k` and
/// is otherwise unchanged.
#[verifier::external_body]
pub(crate) fn fx_map_insert<V>(m: &mut FxHashMap<usize, V>, k: usize, v: V)
    ensures
        final(m)@ == old(m)@.insert(k, v),
{
    m.insert(k, v);
}

/// Relies on `HashMap::remove`: the entry under `k` leaves the map and is
/// handed back; the map is otherwise unchanged.
#[verifier::external_body]
pub(crate) fn fx_map_remove<V>(m: &mut FxHashMap<usize, V>, k: usize) -> (r: Option<V>)
    ensures
        final(m)@ == old(m)@.remove(k),
        r == (if old(m)@.dom().contains(k) {
            Some(old(m)@[k])
        } else {
            None::<V>
        }),
{
    m.remove(&k)
}

/// Relies on `HashSet::default`: the new set is empty.
#[verifier::external_body]
pub(crate) fn fx_set_new() -> (r: FxHashSet<u64>)
    ensures
        r@ == Set::<u64>::empty(),
{
    FxHashSet::default()
}

/// Relies on `HashSet::insert`: the set afterwards also holds `v`.
#[verifier::external_body]
pub(crate) fn fx_set_insert(s: &mut FxHashSet<u64>, v: u64)
    ensures
        final(s)@ == old(s)@.insert(v),
{
    s.insert(v);
}

/// Relies on `HashSet::contains`.
#[verifier::external_body]
pub(crate) fn fx_set_contains(s: &FxHashSet<u64>, v: u64) -> (r: bool)
    ensures
        r == s@.contains(v),
{
    s.contains(&v)
}

/// Relies on `HashSet::iter`: every element is listed exactly once, in an
/// order nothing is promised about.
#[verifier::external_body]
pub(crate) fn fx_set_to_vec(s: &FxHashSet<u64>) -> (r: Vec<u64>)
    ensures
        r@.no_duplicates(),
        forall|x: u64| r@.contains(x) <==> s@.contains(x),
{
    s.iter().copied().collect()
}

} // verus!
