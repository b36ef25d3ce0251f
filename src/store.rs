//! The per-side price-level store: an `indexmap::IndexMap` from price to size,
//! whose entries keep the order in which their keys were first inserted.

use indexmap::IndexMap;
use vstd::prelude::*;

use crate::model::{has_key, has_key_at};

verus! {

#[verifier::external_type_specification]
#[verifier::external_body]
#[verifier::reject_recursive_types(K)]
#[verifier::reject_recursive_types(V)]
#[verifier::reject_recursive_types(S)]
pub struct ExIndexMap<K, V, S>(IndexMap<K, V, S>);

/// The entries of a map of price levels, in the map's own order.
pub uninterp spec fn entries(m: IndexMap<i64, i64>) -> Seq<(i64, i64)>;

/// Relies on `IndexMap::new`: a new map holds no entries.
#[verifier::external_body]
pub fn store_new() -> (r: IndexMap<i64, i64>)
    ensures
        entries(r) == Seq::<(i64, i64)>::empty(),
{
    IndexMap::new()
}

/// Relies on `IndexMap::clone`: the copy holds the same entries in the same
/// order (`i64` keys and values are copied as they are).
#[verifier::external_body]
pub fn store_clone(m: &IndexMap<i64, i64>) -> (r: IndexMap<i64, i64>)
    ensures
        entries(r) == entries(*m),
{
    m.clone()
}

/// Relies on `IndexMap::len`: the number of entries.
#[verifier::external_body]
pub fn store_len(m: &IndexMap<i64, i64>) -> (r: usize)
    ensures
        r as int == entries(*m).len(),
{
    m.len()
}

/// Relies on `IndexMap::get_index`: the entry at position `i`, if there is one.
#[verifier::external_body]
pub fn store_get_index(m: &IndexMap<i64, i64>, i: usize) -> (r: Option<(i64, i64)>)
    ensures
        i < entries(*m).len() ==> r == Some(entries(*m)[i as int]),
        i >= entries(*m).len() ==> r.is_none(),
{
    m.get_index(i).map(|(k, v)| (*k, *v))
}

/// Relies on `IndexMap::clear`: every entry is removed.
#[verifier::external_body]
pub fn store_clear(m: &mut IndexMap<i64, i64>)
    ensures
        entries(*final(m)) == Seq::<(i64, i64)>::empty(),
{
    m.clear()
}

/// Relies on `IndexMap::insert`: an existing key keeps its place and takes the
/// new value, and the old value is returned; a new key goes last.
#[verifier::external_body]
pub fn store_insert(m: &mut IndexMap<i64, i64>, k: i64, v: i64) -> (r: Option<i64>)
    ensures
        forall|i: int|
            has_key_at(entries(*old(m)), k, i) ==> r == Some(entries(*old(m))[i].1) && entries(
                *final(m),
            ) == entries(*old(m)).update(i, (k, v)),
        !has_key(entries(*old(m)), k) ==> r.is_none() && entries(*final(m)) == entries(
            *old(m),
        ).push((k, v)),
{
    m.insert(k, v)
}

/// Relies on `IndexMap::swap_remove`: the entry of key `k`, if there is one, is
/// removed, and the last entry takes its place; its value is returned.
#[verifier::external_body]
pub fn store_swap_remove(m: &mut IndexMap<i64, i64>, k: i64) -> (r: Option<i64>)
    ensures
        forall|i: int|
            has_key_at(entries(*old(m)), k, i) ==> r == Some(entries(*old(m))[i].1) && entries(
                *final(m),
            ) == entries(*old(m)).update(i, entries(*old(m)).last()).drop_last(),
        !has_key(entries(*old(m)), k) ==> r.is_none() && entries(*final(m)) == entries(*old(m)),
{
    m.swap_remove(&k)
}

} // verus!
