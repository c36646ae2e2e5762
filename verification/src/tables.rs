//! Hash tables of `bevy_platform`, as the library's data keeps them.
//!
//! Each table type the library uses has a name for its contents (a `Map` or
//! `Set` of plain values) and one small trusted wrapper per method that the
//! logic calls. The wrappers only forward to `bevy::platform::collections`;
//! their contracts restate what `hashbrown` (behind bevy's newtypes) does.
use vstd::prelude::*;
use bevy::platform::collections::{HashMap, HashSet};
use crate::document::WidgetBlueprintNode;
use crate::registry::WidgetRegistration;

verus! {

#[verifier::external_type_specification]
#[verifier::external_body]
pub struct ExFixedHasher(bevy::platform::hash::FixedHasher);

#[verifier::external_type_specification]
#[verifier::external_body]
#[verifier::reject_recursive_types(K)]
#[verifier::reject_recursive_types(V)]
#[verifier::reject_recursive_types(S)]
pub struct ExHashMap<K, V, S>(bevy::platform::collections::HashMap<K, V, S>);

#[verifier::external_type_specification]
#[verifier::external_body]
#[verifier::reject_recursive_types(T)]
#[verifier::reject_recursive_types(S)]
pub struct ExHashSet<T, S>(bevy::platform::collections::HashSet<T, S>);

// ---------------------------------------------------------------------------
// u64 -> WidgetBlueprintNode
// ---------------------------------------------------------------------------

/// The entries of a table of blueprint nodes, keyed by node id.
pub uninterp spec fn node_table(m: HashMap<u64, WidgetBlueprintNode>) -> Map<u64, WidgetBlueprintNode>;

/// `HashMap::new`: a table with no entries.
#[verifier::external_body]
pub(crate) fn node_table_new() -> (m: HashMap<u64, WidgetBlueprintNode>)
    ensures
        node_table(m) =~= Map::empty(),
{
    HashMap::new()
}

/// `HashMap::contains_key`: whether the key has an entry.
#[verifier::external_body]
pub(crate) fn node_table_contains(m: &HashMap<u64, WidgetBlueprintNode>, k: u64) -> (r: bool)
    ensures
        r == node_table(*m).contains_key(k),
{
    m.contains_key(&k)
}

/// `HashMap::get`: the entry of the key, if any.
#[verifier::external_body]
pub(crate) fn node_table_get(m: &HashMap<u64, WidgetBlueprintNode>, k: u64) -> (r: Option<&WidgetBlueprintNode>)
    ensures
        r is Some == node_table(*m).contains_key(k),
        r matches Some(v) ==> *v == node_table(*m)[k],
{
    m.get(&k)
}

/// `HashMap::insert`: the key now maps to `v`; the previous entry, if any, is returned.
#[verifier::external_body]
pub(crate) fn node_table_insert(m: &mut HashMap<u64, WidgetBlueprintNode>, k: u64, v: WidgetBlueprintNode) -> (r: Option<WidgetBlueprintNode>)
    ensures
        node_table(*final(m)) == node_table(*old(m)).insert(k, v),
        r is Some == node_table(*old(m)).contains_key(k),
        r matches Some(p) ==> p == node_table(*old(m))[k],
{
    m.insert(k, v)
}

/// `HashMap::remove`: the key loses its entry, which is returned.
#[verifier::external_body]
pub(crate) fn node_table_remove(m: &mut HashMap<u64, WidgetBlueprintNode>, k: u64) -> (r: Option<WidgetBlueprintNode>)
    ensures
        node_table(*final(m)) == node_table(*old(m)).remove(k),
        r is Some == node_table(*old(m)).contains_key(k),
        r matches Some(p) ==> p == node_table(*old(m))[k],
{
    m.remove(&k)
}

/// `HashMap::len`: the number of entries.
#[verifier::external_body]
pub(crate) fn node_table_len(m: &HashMap<u64, WidgetBlueprintNode>) -> (r: usize)
    ensures
        r == node_table(*m).dom().len(),
{
    m.len()
}

/// `HashMap::keys`, collected: every key once, in the table's own order.
#[verifier::external_body]
pub(crate) fn node_table_keys(m: &HashMap<u64, WidgetBlueprintNode>) -> (r: Vec<u64>)
    ensures
        r@.no_duplicates(),
        r@.to_set() == node_table(*m).dom(),
{
    m.keys().copied().collect()
}

// ---------------------------------------------------------------------------
// String -> String
// ---------------------------------------------------------------------------

/// The entries of a table of strings keyed by strings, by their characters.
pub uninterp spec fn string_table(m: HashMap<String, String>) -> Map<Seq<char>, Seq<char>>;

/// `HashMap::new`: a table with no entries.
#[verifier::external_body]
pub(crate) fn string_table_new() -> (m: HashMap<String, String>)
    ensures
        string_table(m) =~= Map::empty(),
{
    HashMap::new()
}

/// `HashMap::get`, cloned: the value of the key, if any.
#[verifier::external_body]
pub(crate) fn string_table_get(m: &HashMap<String, String>, k: &str) -> (r: Option<String>)
    ensures
        r is Some == string_table(*m).contains_key(k@),
        r matches Some(v) ==> v@ == string_table(*m)[k@],
{
    m.get(k).cloned()
}

/// `HashMap::insert`: the key now maps to `v`.
#[verifier::external_body]
pub(crate) fn string_table_insert(m: &mut HashMap<String, String>, k: String, v: String)
    ensures
        string_table(*final(m)) == string_table(*old(m)).insert(k@, v@),
{
    m.insert(k, v);
}

/// `HashMap::remove`: the key loses its entry.
#[verifier::external_body]
pub(crate) fn string_table_remove(m: &mut HashMap<String, String>, k: &str)
    ensures
        string_table(*final(m)) == string_table(*old(m)).remove(k@),
{
    m.remove(k);
}

/// `HashMap::is_empty`: whether there is no entry.
#[verifier::external_body]
pub(crate) fn string_table_is_empty(m: &HashMap<String, String>) -> (r: bool)
    ensures
        r == (string_table(*m).dom() =~= Set::empty()),
{
    m.is_empty()
}

/// `HashMap::clone`: a table with the same entries.
#[verifier::external_body]
pub(crate) fn string_table_clone(m: &HashMap<String, String>) -> (r: HashMap<String, String>)
    ensures
        string_table(r) == string_table(*m),
{
    m.clone()
}

// ---------------------------------------------------------------------------
// u64 -> Option<u64>
// ---------------------------------------------------------------------------

/// The entries of a table of parent links, keyed by node id.
pub uninterp spec fn link_table(m: HashMap<u64, Option<u64>>) -> Map<u64, Option<u64>>;

/// `HashMap::new`: a table with no entries.
#[verifier::external_body]
pub(crate) fn link_table_new() -> (m: HashMap<u64, Option<u64>>)
    ensures
        link_table(m) =~= Map::empty(),
{
    HashMap::new()
}

/// `HashMap::get`, copied: the entry of the key, if any.
#[verifier::external_body]
pub(crate) fn link_table_get(m: &HashMap<u64, Option<u64>>, k: u64) -> (r: Option<Option<u64>>)
    ensures
        r is Some == link_table(*m).contains_key(k),
        r matches Some(v) ==> v == link_table(*m)[k],
{
    m.get(&k).copied()
}

/// `HashMap::insert`: the key now maps to `v`.
#[verifier::external_body]
pub(crate) fn link_table_insert(m: &mut HashMap<u64, Option<u64>>, k: u64, v: Option<u64>)
    ensures
        link_table(*final(m)) == link_table(*old(m)).insert(k, v),
{
    m.insert(k, v);
}

/// `HashMap::keys`, collected: every key once, in the table's own order.
#[verifier::external_body]
pub(crate) fn link_table_keys(m: &HashMap<u64, Option<u64>>) -> (r: Vec<u64>)
    ensures
        r@.no_duplicates(),
        r@.to_set() == link_table(*m).dom(),
{
    m.keys().copied().collect()
}

// ---------------------------------------------------------------------------
// Set of u64
// ---------------------------------------------------------------------------

/// The members of a set of node ids.
pub uninterp spec fn id_set(s: HashSet<u64>) -> Set<u64>;

/// `HashSet::new`: a set with no member.
#[verifier::external_body]
pub(crate) fn id_set_new() -> (s: HashSet<u64>)
    ensures
        id_set(s) =~= Set::empty(),
{
    HashSet::new()
}

/// `HashSet::contains`: whether `k` is a member.
#[verifier::external_body]
pub(crate) fn id_set_contains(s: &HashSet<u64>, k: u64) -> (r: bool)
    ensures
        r == id_set(*s).contains(k),
{
    s.contains(&k)
}

/// `HashSet::insert`: `k` is now a member; the result says whether it was not one before.
#[verifier::external_body]
pub(crate) fn id_set_insert(s: &mut HashSet<u64>, k: u64) -> (r: bool)
    ensures
        id_set(*final(s)) == id_set(*old(s)).insert(k),
        r == !id_set(*old(s)).contains(k),
{
    s.insert(k)
}

/// `HashSet::remove`: `k` is no longer a member.
#[verifier::external_body]
pub(crate) fn id_set_remove(s: &mut HashSet<u64>, k: u64)
    ensures
        id_set(*final(s)) == id_set(*old(s)).remove(k),
{
    s.remove(&k);
}

// ---------------------------------------------------------------------------
// u64 -> WidgetRegistration, String -> u64
// ---------------------------------------------------------------------------

/// The entries of a table of widget registrations, keyed by the widget's type key.
pub uninterp spec fn registration_table(m: HashMap<u64, WidgetRegistration>) -> Map<u64, WidgetRegistration>;

/// `HashMap::new`: a table with no entries.
#[verifier::external_body]
pub(crate) fn registration_table_new() -> (m: HashMap<u64, WidgetRegistration>)
    ensures
        registration_table(m) =~= Map::empty(),
{
    HashMap::new()
}

/// `HashMap::get`: the entry of the key, if any.
#[verifier::external_body]
pub(crate) fn registration_table_get(m: &HashMap<u64, WidgetRegistration>, k: u64) -> (r: Option<&WidgetRegistration>)
    ensures
        r is Some == registration_table(*m).contains_key(k),
        r matches Some(v) ==> *v == registration_table(*m)[k],
{
    m.get(&k)
}

/// `HashMap::insert`: the key now maps to `v`.
#[verifier::external_body]
pub(crate) fn registration_table_insert(m: &mut HashMap<u64, WidgetRegistration>, k: u64, v: WidgetRegistration)
    ensures
        registration_table(*final(m)) == registration_table(*old(m)).insert(k, v),
{
    m.insert(k, v);
}

/// `HashMap::keys`, collected: every key once, in the table's own order.
#[verifier::external_body]
pub(crate) fn registration_table_keys(m: &HashMap<u64, WidgetRegistration>) -> (r: Vec<u64>)
    ensures
        r@.no_duplicates(),
        r@.to_set() == registration_table(*m).dom(),
{
    m.keys().copied().collect()
}

/// The entries of a table from widget paths to type keys, by the paths' characters.
pub uninterp spec fn path_table(m: HashMap<String, u64>) -> Map<Seq<char>, u64>;

/// `HashMap::new`: a table with no entries.
#[verifier::external_body]
pub(crate) fn path_table_new() -> (m: HashMap<String, u64>)
    ensures
        path_table(m) =~= Map::empty(),
{
    HashMap::new()
}

/// `HashMap::get`, copied: the entry of the path, if any.
#[verifier::external_body]
pub(crate) fn path_table_get(m: &HashMap<String, u64>, k: &str) -> (r: Option<u64>)
    ensures
        r is Some == path_table(*m).contains_key(k@),
        r matches Some(v) ==> v == path_table(*m)[k@],
{
    m.get(k).copied()
}

/// `HashMap::insert`: the path now maps to `v`.
#[verifier::external_body]
pub(crate) fn path_table_insert(m: &mut HashMap<String, u64>, k: String, v: u64)
    ensures
        path_table(*final(m)) == path_table(*old(m)).insert(k@, v),
{
    m.insert(k, v);
}

} // verus!
