//! The insertion-ordered collections of the `indexmap` crate, as far as the
//! engine uses them. The functions marked `external_body` are not proved: each
//! states what the collection's own documentation states of the method that it
//! calls.

use indexmap::IndexMap;
use indexmap::IndexSet;
use vstd::prelude::*;

verus! {

#[verifier::external_type_specification]
#[verifier::external_body]
#[verifier::reject_recursive_types(T)]
#[verifier::reject_recursive_types(S)]
pub struct ExIndexSet<T, S>(IndexSet<T, S>);

#[verifier::external_type_specification]
#[verifier::external_body]
#[verifier::reject_recursive_types(K)]
#[verifier::reject_recursive_types(V)]
#[verifier::reject_recursive_types(S)]
pub struct ExIndexMap<K, V, S>(IndexMap<K, V, S>);

/// One capture: the name of a group and the first and last offset of what it
/// matched.
pub type Capture = (Seq<char>, (usize, usize));

/// The characters that a set holds, in the order in which they were first
/// inserted.
pub uninterp spec fn set_items(s: IndexSet<char>) -> Seq<char>;

/// The captures that a map holds, in the order in which their names were first
/// inserted.
pub uninterp spec fn map_entries(m: IndexMap<String, (usize, usize)>) -> Seq<Capture>;

/// The position of the first capture named `key`, if there is one.
pub open spec fn key_index(entries: Seq<Capture>, key: Seq<char>) -> Option<int>
    decreases entries.len(),
{
    if entries.len() == 0 {
        None
    } else {
        match key_index(entries.drop_last(), key) {
            Some(i) => Some(i),
            None => if entries.last().0 == key {
                Some(entries.len() - 1)
            } else {
                None
            },
        }
    }
}

/// What is stored under `key`, if anything.
pub open spec fn lookup(entries: Seq<Capture>, key: Seq<char>) -> Option<(usize, usize)> {
    match key_index(entries, key) {
        Some(i) => Some(entries[i].1),
        None => None,
    }
}

/// The captures after `key` has been given the value `value`: a name that is
/// already there keeps its place, a new one comes last.
pub open spec fn upsert(entries: Seq<Capture>, key: Seq<char>, value: (usize, usize)) -> Seq<Capture> {
    match key_index(entries, key) {
        Some(i) => entries.update(i, (key, value)),
        None => entries.push((key, value)),
    }
}

/// The characters after `c` has been inserted: one that is already there
/// changes nothing, a new one comes last.
pub open spec fn with_item(items: Seq<char>, c: char) -> Seq<char> {
    if items.contains(c) {
        items
    } else {
        items.push(c)
    }
}

/// `IndexSet::new`: a set that holds nothing.
#[verifier::external_body]
pub(crate) fn set_new() -> (s: IndexSet<char>)
    ensures
        set_items(s) == Seq::<char>::empty(),
{
    IndexSet::new()
}

/// `IndexSet::insert`: the character is added at the end unless the set holds
/// it already; the result tells whether it was added.
#[verifier::external_body]
pub(crate) fn set_insert(s: &mut IndexSet<char>, c: char) -> (added: bool)
    ensures
        set_items(*final(s)) == with_item(set_items(*old(s)), c),
        added == !set_items(*old(s)).contains(c),
{
    s.insert(c)
}

/// `IndexSet::contains`: whether the set holds the character.
#[verifier::external_body]
pub(crate) fn set_contains(s: &IndexSet<char>, c: char) -> (b: bool)
    ensures
        b == set_items(*s).contains(c),
{
    s.contains(&c)
}

/// `IndexSet::len`: the number of characters in the set.
#[verifier::external_body]
pub(crate) fn set_len(s: &IndexSet<char>) -> (n: usize)
    ensures
        n == set_items(*s).len(),
{
    s.len()
}

/// `IndexSet::get_index`: the character at a position of the insertion order,
/// or nothing where the position is past the end.
#[verifier::external_body]
pub(crate) fn set_get_index(s: &IndexSet<char>, i: usize) -> (c: Option<char>)
    ensures
        c == (if i < set_items(*s).len() {
            Some(set_items(*s)[i as int])
        } else {
            None
        }),
{
    s.get_index(i).copied()
}

/// `IndexSet::clone`: a set with the same characters in the same order.
#[verifier::external_body]
pub(crate) fn set_clone(s: &IndexSet<char>) -> (t: IndexSet<char>)
    ensures
        set_items(t) == set_items(*s),
{
    s.clone()
}

/// `IndexMap::new`: a map that holds nothing.
#[verifier::external_body]
pub(crate) fn map_new() -> (m: IndexMap<String, (usize, usize)>)
    ensures
        map_entries(m) == Seq::<Capture>::empty(),
{
    IndexMap::new()
}

/// `IndexMap::insert`: a key that is already there keeps its place and gets the
/// new value, and the value it had is returned; a new key comes last, and
/// nothing is returned.
#[verifier::external_body]
pub(crate) fn map_insert(m: &mut IndexMap<String, (usize, usize)>, key: String, value: (usize, usize)) -> (prev: Option<(usize, usize)>)
    ensures
        map_entries(*final(m)) == upsert(map_entries(*old(m)), key@, value),
        prev == lookup(map_entries(*old(m)), key@),
{
    m.insert(key, value)
}

/// `IndexMap::get`: the value stored under the key, if the key is there.
#[verifier::external_body]
pub(crate) fn map_get(m: &IndexMap<String, (usize, usize)>, key: &str) -> (v: Option<(usize, usize)>)
    ensures
        v == lookup(map_entries(*m), key@),
{
    m.get(key).copied()
}

/// `IndexMap::len`: the number of entries in the map.
#[verifier::external_body]
pub(crate) fn map_len(m: &IndexMap<String, (usize, usize)>) -> (n: usize)
    ensures
        n == map_entries(*m).len(),
{
    m.len()
}

/// `IndexMap::get_index`: the entry at a position of the insertion order, or
/// nothing where the position is past the end.
#[verifier::external_body]
pub(crate) fn map_get_index(m: &IndexMap<String, (usize, usize)>, i: usize) -> (e: Option<(String, (usize, usize))>)
    ensures
        i < map_entries(*m).len() ==> e.is_some() && e.unwrap().0@ == map_entries(*m)[i as int].0
            && e.unwrap().1 == map_entries(*m)[i as int].1,
        i >= map_entries(*m).len() ==> e.is_none(),
{
    m.get_index(i).map(|(k, v)| (k.clone(), *v))
}

/// `IndexMap::clone`: a map with the same entries in the same order.
#[verifier::external_body]
pub(crate) fn map_clone(m: &IndexMap<String, (usize, usize)>) -> (t: IndexMap<String, (usize, usize)>)
    ensures
        map_entries(t) == map_entries(*m),
{
    m.clone()
}

} // verus!
