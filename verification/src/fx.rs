//! Hash maps and hash sets keyed by caller-defined states.
//!
//! The engines keep their tables in `rustc_hash`'s `FxHashMap` and
//! `FxHashSet`, and the graph keeps its keys in a map whose hashers are the
//! defaults of `FxHasher`: the standard collections with a different hasher.
//! The functions here are the only places where those tables are written or
//! read, and their contracts are taken on trust.

use crate::values::clone_is_exact;
use rustc_hash::{FxBuildHasher, FxHashMap, FxHashSet, FxHasher};
use std::collections::HashMap;
use std::hash::{BuildHasherDefault, Hash};
use vstd::prelude::*;
use vstd::std_specs::hash::obeys_key_model;

verus! {

/// `rustc_hash::FxBuildHasher`, carried through as it is.
#[verifier::external_type_specification]
#[verifier::external_body]
pub struct ExFxBuildHasher(FxBuildHasher);

/// `rustc_hash::FxHasher`, carried through as it is.
#[verifier::external_type_specification]
#[verifier::external_body]
pub struct ExFxHasher(FxHasher);

/// `std::hash::BuildHasherDefault`, carried through as it is.
#[verifier::external_type_specification]
#[verifier::external_body]
#[verifier::reject_recursive_types(H)]
pub struct ExBuildHasherDefault<H>(BuildHasherDefault<H>);

/// `K` can key a table: hashing is deterministic, `==` is equality, and a
/// clone equals the key it was made from.
pub open spec fn lawful_key<K: Clone>() -> bool {
    obeys_key_model::<K>() && clone_is_exact::<K>()
}

/// `HashMap::insert` on a map hashed by `FxBuildHasher`.
///
/// Trusted: `FxBuildHasher` starts every hasher from the same state, so for a
/// key type that obeys the key model the map behaves as a mathematical map:
/// afterwards `k` is bound to `v` and nothing else has changed, and the
/// previous binding of `k`, if any, is handed back.
#[verifier::external_body]
pub(crate) fn fx_insert<K: Eq + Hash, V>(m: &mut FxHashMap<K, V>, k: K, v: V) -> (prev: Option<V>)
    ensures
        obeys_key_model::<K>() ==> final(m)@ == old(m)@.insert(k, v),
        obeys_key_model::<K>() ==> match prev {
            Some(p) => old(m)@.contains_key(k) && old(m)@[k] == p,
            None => !old(m)@.contains_key(k),
        },
{
    m.insert(k, v)
}

/// `HashMap::get` on a map hashed by `FxBuildHasher`.
///
/// Trusted: for a key type that obeys the key model the lookup finds the
/// value bound to `k` exactly when the map binds `k`.
#[verifier::external_body]
pub(crate) fn fx_get<'a, K: Eq + Hash, V>(m: &'a FxHashMap<K, V>, k: &K) -> (found: Option<&'a V>)
    ensures
        obeys_key_model::<K>() ==> match found {
            Some(v) => m@.contains_key(*k) && m@[*k] == *v,
            None => !m@.contains_key(*k),
        },
{
    m.get(k)
}

/// `HashMap::insert` on a map hashed by `BuildHasherDefault<FxHasher>`.
///
/// Trusted: `BuildHasherDefault` starts every hasher from the default state
/// of `FxHasher`, so for a key type that obeys the key model the map behaves
/// as a mathematical map: afterwards `k` is bound to `v` and nothing else
/// has changed, and the previous binding of `k`, if any, is handed back.
#[verifier::external_body]
pub(crate) fn keyed_insert<K: Eq + Hash, V>(
    m: &mut HashMap<K, V, BuildHasherDefault<FxHasher>>,
    k: K,
    v: V,
) -> (prev: Option<V>)
    ensures
        obeys_key_model::<K>() ==> final(m)@ == old(m)@.insert(k, v),
        obeys_key_model::<K>() ==> match prev {
            Some(p) => old(m)@.contains_key(k) && old(m)@[k] == p,
            None => !old(m)@.contains_key(k),
        },
{
    m.insert(k, v)
}

/// `HashMap::get` on a map hashed by `BuildHasherDefault<FxHasher>`.
///
/// Trusted: for a key type that obeys the key model the lookup finds the
/// value bound to `k` exactly when the map binds `k`.
#[verifier::external_body]
pub(crate) fn keyed_get<'a, K: Eq + Hash, V>(
    m: &'a HashMap<K, V, BuildHasherDefault<FxHasher>>,
    k: &K,
) -> (found: Option<&'a V>)
    ensures
        obeys_key_model::<K>() ==> match found {
            Some(v) => m@.contains_key(*k) && m@[*k] == *v,
            None => !m@.contains_key(*k),
        },
{
    m.get(k)
}

/// `HashSet::insert` on a set hashed by `FxBuildHasher`.
///
/// Trusted: for a key type that obeys the key model the set afterwards holds
/// `k` besides what it held, and the answer is whether `k` was new.
#[verifier::external_body]
pub(crate) fn fx_set_insert<K: Eq + Hash>(s: &mut FxHashSet<K>, k: K) -> (fresh: bool)
    ensures
        obeys_key_model::<K>() ==> final(s)@ == old(s)@.insert(k),
        obeys_key_model::<K>() ==> fresh == !old(s)@.contains(k),
{
    s.insert(k)
}

} // verus!
