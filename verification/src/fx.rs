//! Hash maps keyed by a `u32` code, hashed with `rustc_hash`.
//!
//! The map type is `rustc_hash::FxHashMap`, which is std's `HashMap` with the hasher
//! `rustc_hash::FxBuildHasher`. That hasher is a pure function of the bytes it is fed, so the
//! map behaves as std documents. The functions below state that behaviour over the map's view,
//! a `Map` from codes to values; none of them is proved.

use rustc_hash::{FxBuildHasher, FxHashMap};
use vstd::prelude::*;

verus! {

/// The hasher state of `rustc_hash`, carried inside every `FxHashMap`.
#[verifier::external_type_specification]
#[verifier::external_body]
pub struct ExFxBuildHasher(FxBuildHasher);

/// Calls `HashMap::get`: the value stored under `key`, or `None` if there is none.
#[verifier::external_body]
pub(crate) fn fx_get<V>(m: &FxHashMap<u32, V>, key: u32) -> (r: Option<&V>)
    ensures
        match r {
            Some(v) => m@.contains_key(key) && *v == m@[key],
            None => !m@.contains_key(key),
        },
{
    m.get(&key)
}

/// Calls `HashMap::get_mut`: a mutable reference to the value stored under `key`, or `None` if
/// there is none. What the borrower leaves behind replaces the value; nothing else changes.
#[verifier::external_body]
pub(crate) fn fx_get_mut<V>(m: &mut FxHashMap<u32, V>, key: u32) -> (r: Option<&mut V>)
    ensures
        match r {
            Some(v) => {
                &&& old(m)@.contains_key(key)
                &&& *v == old(m)@[key]
                &&& final(m)@ == old(m)@.insert(key, *final(v))
            },
            None => !old(m)@.contains_key(key) && final(m)@ == old(m)@,
        },
{
    m.get_mut(&key)
}

/// Calls `HashMap::entry` and `Entry::or_default`: a mutable reference to the value stored under
/// `key`, which is first set to `V::default()` if there is none.
#[verifier::external_body]
pub(crate) fn fx_or_default<V: Default>(m: &mut FxHashMap<u32, V>, key: u32) -> (r: &mut V)
    ensures
        old(m)@.contains_key(key) ==> *r == old(m)@[key],
        !old(m)@.contains_key(key) ==> call_ensures(V::default, (), *r),
        final(m)@ == old(m)@.insert(key, *final(r)),
{
    m.entry(key).or_default()
}

/// Calls `HashMap::insert`: stores `value` under `key`, in place of any earlier value.
#[verifier::external_body]
pub(crate) fn fx_insert<V>(m: &mut FxHashMap<u32, V>, key: u32, value: V)
    ensures
        final(m)@ == old(m)@.insert(key, value),
{
    m.insert(key, value);
}

/// Calls `HashMap::remove`: deletes the entry under `key`, if there is one.
#[verifier::external_body]
pub(crate) fn fx_remove<V>(m: &mut FxHashMap<u32, V>, key: u32)
    ensures
        final(m)@ == old(m)@.remove(key),
{
    m.remove(&key);
}

/// Calls `HashMap::keys`: every key of the map once, in an order that is not specified.
#[verifier::external_body]
pub(crate) fn fx_keys<V>(m: &FxHashMap<u32, V>) -> (r: Vec<u32>)
    ensures
        r@.no_duplicates(),
        r@.to_set() == m@.dom(),
{
    m.keys().copied().collect()
}

/// Calls `HashMap::len`: the number of entries.
#[verifier::external_body]
pub(crate) fn fx_len<V>(m: &FxHashMap<u32, V>) -> (r: usize)
    ensures
        r == m@.len(),
{
    m.len()
}

} // verus!
