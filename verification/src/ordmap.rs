//! The insertion-ordered maps of macro packs (`indexmap::IndexMap`), with
//! what the library relies on of each method it calls. Each map's contents
//! are named as its entries in map order; an `IndexMap` holds each key once.

use indexmap::IndexMap;
use vstd::prelude::*;

use crate::text::first_index;

verus! {

#[verifier::external_type_specification]
#[verifier::external_body]
#[verifier::reject_recursive_types(K)]
#[verifier::reject_recursive_types(V)]
#[verifier::reject_recursive_types(S)]
pub struct ExIndexMap<K, V, S>(IndexMap<K, V, S>);

pub open spec fn entry_keys<V>(e: Seq<(Seq<char>, V)>) -> Seq<Seq<char>> {
    e.map_values(|x: (Seq<char>, V)| x.0)
}

/// Value stored under `key` in an entry list, if any.
pub open spec fn entry_lookup<V>(e: Seq<(Seq<char>, V)>, key: Seq<char>) -> Option<V> {
    match first_index(entry_keys(e), key) {
        Some(i) => Some(e[i].1),
        None => None,
    }
}

// ---- name -> name maps (one enum parameter's mirror) ----

/// Entries of a name -> name map, in map order.
pub uninterp spec fn name_map_entries(m: IndexMap<String, String>) -> Seq<(Seq<char>, Seq<char>)>;

/// `IndexMap::get` on a name -> name map: the value stored under `key`.
#[verifier::external_body]
pub(crate) fn name_map_get<'a>(m: &'a IndexMap<String, String>, key: &str) -> (r: Option<&'a String>)
    ensures
        match entry_lookup(name_map_entries(*m), key@) {
            Some(v) => r matches Some(s) && s@ == v,
            None => r is None,
        },
{
    m.get(key)
}

/// `IndexMap::contains_key` on a name -> name map.
#[verifier::external_body]
pub(crate) fn name_map_contains(m: &IndexMap<String, String>, key: &str) -> (r: bool)
    ensures
        r == entry_keys(name_map_entries(*m)).contains(key@),
{
    m.contains_key(key)
}

// ---- a macro's mirror table: parameter name -> (value -> button) ----

/// Entries of a mirror table, each inner map given by its entries.
pub uninterp spec fn mirror_entries(m: IndexMap<String, IndexMap<String, String>>) -> Seq<
    (Seq<char>, Seq<(Seq<char>, Seq<char>)>),
>;

/// `IndexMap::get` on a mirror table: the inner map stored under `key`.
#[verifier::external_body]
pub(crate) fn mirror_get<'a>(m: &'a IndexMap<String, IndexMap<String, String>>, key: &str) -> (r: Option<
    &'a IndexMap<String, String>,
>)
    ensures
        match entry_lookup(mirror_entries(*m), key@) {
            Some(v) => r matches Some(inner) && name_map_entries(*inner) == v,
            None => r is None,
        },
{
    m.get(key)
}

// ---- value -> bit maps of a resolved mirror ----

/// Entries of a value -> bit map, in map order.
pub uninterp spec fn bit_map_entries(m: IndexMap<String, u16>) -> Seq<(Seq<char>, u16)>;

/// `IndexMap::new`: an empty map.
#[verifier::external_body]
pub(crate) fn bit_map_new() -> (r: IndexMap<String, u16>)
    ensures
        bit_map_entries(r) == Seq::<(Seq<char>, u16)>::empty(),
{
    IndexMap::new()
}

/// Entries after `IndexMap::insert` of `(key, value)`: a present key keeps
/// its place and takes the new value; a new key goes last.
pub open spec fn inserted<V>(e: Seq<(Seq<char>, V)>, key: Seq<char>, value: V) -> Seq<(Seq<char>, V)> {
    match first_index(entry_keys(e), key) {
        Some(i) => e.update(i, (key, value)),
        None => e.push((key, value)),
    }
}

/// `IndexMap::insert` on a value -> bit map.
#[verifier::external_body]
pub(crate) fn bit_map_insert(m: &mut IndexMap<String, u16>, key: String, value: u16)
    ensures
        bit_map_entries(*final(m)) == inserted(bit_map_entries(*old(m)), key@, value),
{
    m.insert(key, value);
}

/// `IndexMap::get` on a value -> bit map.
#[verifier::external_body]
pub(crate) fn bit_map_get(m: &IndexMap<String, u16>, key: &str) -> (r: Option<u16>)
    ensures
        r == entry_lookup(bit_map_entries(*m), key@),
{
    m.get(key).copied()
}

// ---- name -> (pack index, macro index) selection maps ----

/// Entries of a macro-name -> (pack, macro) index map, in map order.
pub uninterp spec fn pick_map_entries(m: IndexMap<String, (usize, usize)>) -> Seq<(Seq<char>, (usize, usize))>;

/// `IndexMap::new`: an empty map.
#[verifier::external_body]
pub(crate) fn pick_map_new() -> (r: IndexMap<String, (usize, usize)>)
    ensures
        pick_map_entries(r) == Seq::<(Seq<char>, (usize, usize))>::empty(),
{
    IndexMap::new()
}

/// `IndexMap::insert` on a selection map.
#[verifier::external_body]
pub(crate) fn pick_map_insert(m: &mut IndexMap<String, (usize, usize)>, key: String, value: (usize, usize))
    ensures
        pick_map_entries(*final(m)) == inserted(pick_map_entries(*old(m)), key@, value),
{
    m.insert(key, value);
}

/// The values of a selection map in map order (`IndexMap::values`).
#[verifier::external_body]
pub(crate) fn pick_map_values(m: &IndexMap<String, (usize, usize)>) -> (r: Vec<(usize, usize)>)
    ensures
        r@ == pick_map_entries(*m).map_values(|e: (Seq<char>, (usize, usize))| e.1),
{
    m.values().copied().collect()
}

} // verus!
