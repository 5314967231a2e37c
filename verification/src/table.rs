//! The table of a map node: from index word to child node.
//!
//! The table is a `hashbrown::HashMap` hashed with `ahash`. Verus does not
//! look into it: what it holds is named by [`table_entries`], and the
//! functions below say what each call does to that.
use vstd::prelude::*;

verus! {

/// The children of a map node by their index word.
#[verifier::external_body]
pub struct KeyTable {
    map: hashbrown::HashMap<u128, u32, core::hash::BuildHasherDefault<ahash::AHasher>>,
}

/// The entries of a table.
pub uninterp spec fn table_entries(t: KeyTable) -> Map<u128, u32>;

/// Makes an empty table, by `HashMap::default`.
#[verifier::external_body]
pub(crate) fn table_new() -> (table: KeyTable)
    ensures
        forall|key: u128| !table_entries(table).contains_key(key),
{
    KeyTable { map: hashbrown::HashMap::default() }
}

/// Looks `key` up, by `HashMap::get`: the value entered for it, if any.
#[verifier::external_body]
pub(crate) fn table_get(t: &KeyTable, key: u128) -> (r: Option<u32>)
    ensures
        r == if table_entries(*t).contains_key(key) {
            Some(table_entries(*t)[key])
        } else {
            None
        },
{
    t.map.get(&key).copied()
}

/// Enters `value` for `key`, by `HashMap::insert`, and returns what was
/// entered for `key` before, if anything.
#[verifier::external_body]
pub(crate) fn table_insert(t: &mut KeyTable, key: u128, value: u32) -> (r: Option<u32>)
    ensures
        table_entries(*final(t)) == table_entries(*old(t)).insert(key, value),
        r == if table_entries(*old(t)).contains_key(key) {
            Some(table_entries(*old(t))[key])
        } else {
            None
        },
{
    t.map.insert(key, value)
}

/// The number of entries, by `HashMap::len`.
#[verifier::external_body]
pub(crate) fn table_len(t: &KeyTable) -> (n: usize)
    ensures
        n == table_entries(*t).len(),
{
    t.map.len()
}

/// The entries as `HashMap::iter` yields them: every entry once, in an order
/// that nothing is said about.
#[verifier::external_body]
pub(crate) fn table_items(t: &KeyTable) -> (r: Vec<(u128, u32)>)
    ensures
        forall|i: int|
            0 <= i < r@.len() ==> table_entries(*t).contains_pair((#[trigger] r@[i]).0, r@[i].1),
        forall|i: int, j: int|
            0 <= i < j < r@.len() ==> (#[trigger] r@[i]).0 != (#[trigger] r@[j]).0,
        forall|key: u128| #[trigger]
            table_entries(*t).contains_key(key) ==> exists|i: int|
                0 <= i < r@.len() && (#[trigger] r@[i]).0 == key,
{
    t.map.iter().map(|(key, value)| (*key, *value)).collect()
}

/// The entry that `HashMap::iter` yields first: some entry, or `None` when
/// the table is empty.
#[verifier::external_body]
pub(crate) fn table_any(t: &KeyTable) -> (r: Option<(u128, u32)>)
    ensures
        match r {
            Some((key, value)) => table_entries(*t).contains_pair(key, value),
            None => forall|key: u128| !table_entries(*t).contains_key(key),
        },
{
    t.map.iter().next().map(|(key, value)| (*key, *value))
}

} // verus!
