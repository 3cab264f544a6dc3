//! The hash maps that the VM keys by program counter or heap slot:
//! `rustc_hash::FxHashMap`, the standard `HashMap` with the Fx hasher.

use rustc_hash::{FxBuildHasher, FxHashMap};
use vstd::prelude::*;

verus! {

/// The Fx hash builder: a unit struct whose hashers hash a key the same way
/// every time.
#[verifier::external_type_specification]
#[verifier::external_body]
pub struct ExFxBuildHasher(FxBuildHasher);

/// An empty map: calls `FxHashMap::default()`, which builds the standard
/// `HashMap` with no entries.
#[verifier::external_body]
pub(crate) fn fx_map_new<V>() -> (r: FxHashMap<u32, V>)
    ensures
        r@.dom() == Set::<u32>::empty(),
{
    FxHashMap::default()
}

/// Calls `HashMap::insert`: afterwards the map sends `key` to `value` and
/// every other key where it sent it before. Claimed because `u32` keys hash
/// and compare consistently and the Fx hasher is deterministic.
#[verifier::external_body]
pub(crate) fn fx_map_insert<V>(m: &mut FxHashMap<u32, V>, key: u32, value: V)
    ensures
        final(m)@ == old(m)@.insert(key, value),
{
    m.insert(key, value);
}

/// Calls `HashMap::get`: the value the map sends `key` to, or `None` when
/// it holds no entry for `key`.
#[verifier::external_body]
pub(crate) fn fx_map_get<V>(m: &FxHashMap<u32, V>, key: u32) -> (r: Option<&V>)
    ensures
        match r {
            Some(v) => m@.contains_key(key) && *v == m@[key],
            None => !m@.contains_key(key),
        },
{
    m.get(&key)
}

/// Calls `HashMap::contains_key`: whether the map holds an entry for `key`.
#[verifier::external_body]
pub(crate) fn fx_map_contains_key<V>(m: &FxHashMap<u32, V>, key: u32) -> (r: bool)
    ensures
        r == m@.contains_key(key),
{
    m.contains_key(&key)
}

} // verus!
