//! The per-line station listing, kept in an insertion-ordered `IndexMap`.
use vstd::prelude::*;
use indexmap::IndexMap;

verus! {

#[verifier::external_type_specification]
#[verifier::external_body]
#[verifier::reject_recursive_types(K)]
#[verifier::reject_recursive_types(V)]
#[verifier::reject_recursive_types(S)]
pub struct ExIndexMap<K, V, S>(IndexMap<K, V, S>);

/// The entries of a line listing, in insertion order: each line's name with
/// the station names recorded for it.
pub uninterp spec fn line_table(m: IndexMap<String, Vec<String>>) -> Seq<(Seq<char>, Seq<Seq<char>>)>;

/// No key occurs twice in the entries.
pub open spec fn keys_unique(t: Seq<(Seq<char>, Seq<Seq<char>>)>) -> bool {
    forall|i: int, j: int| 0 <= i < t.len() && 0 <= j < t.len() && i != j ==> t[i].0 != t[j].0
}

/// Whether `key` is among the entries' keys.
pub open spec fn has_key(t: Seq<(Seq<char>, Seq<Seq<char>>)>, key: Seq<char>) -> bool {
    exists|i: int| 0 <= i < t.len() && t[i].0 == key
}

/// The entries after recording `station` under `key`: appended to the list of
/// an existing key, or as a new last entry holding only `station`.
pub open spec fn with_member(
    t: Seq<(Seq<char>, Seq<Seq<char>>)>,
    key: Seq<char>,
    station: Seq<char>,
) -> Seq<(Seq<char>, Seq<Seq<char>>)> {
    if has_key(t, key) {
        let i = choose|i: int| 0 <= i < t.len() && t[i].0 == key;
        t.update(i, (key, t[i].1.push(station)))
    } else {
        t.push((key, seq![station]))
    }
}

/// The entries after recording each of `stations` under `key`, in order.
pub open spec fn with_members(
    t: Seq<(Seq<char>, Seq<Seq<char>>)>,
    key: Seq<char>,
    stations: Seq<Seq<char>>,
) -> Seq<(Seq<char>, Seq<Seq<char>>)>
    decreases stations.len(),
{
    if stations.len() == 0 {
        t
    } else {
        with_member(with_members(t, key, stations.drop_last()), key, stations.last())
    }
}

/// After recording a station under `key`, `key` is among the keys.
pub proof fn lemma_has_key_after(t: Seq<(Seq<char>, Seq<Seq<char>>)>, key: Seq<char>, station: Seq<char>)
    ensures
        has_key(with_member(t, key, station), key),
{
    let r = with_member(t, key, station);
    if has_key(t, key) {
        let i = choose|i: int| 0 <= i < t.len() && t[i].0 == key;
        assert(r[i].0 == key);
    } else {
        assert(r[t.len() as int].0 == key);
    }
}

/// Relies on `IndexMap::new`: the new map has no entries.
#[verifier::external_body]
pub(crate) fn new_line_table() -> (r: IndexMap<String, Vec<String>>)
    ensures
        line_table(r) == Seq::<(Seq<char>, Seq<Seq<char>>)>::empty(),
{
    IndexMap::new()
}

/// Relies on `IndexMap::entry` with `Entry::or_default`: an existing key keeps
/// its position and its list gets `station` pushed; a missing key is inserted
/// last with an empty list, which then gets `station`. Keys stay unique.
#[verifier::external_body]
pub(crate) fn push_member(m: &mut IndexMap<String, Vec<String>>, key: String, station: String)
    requires
        keys_unique(line_table(*old(m))),
    ensures
        keys_unique(line_table(*final(m))),
        line_table(*final(m)) == with_member(line_table(*old(m)), key@, station@),
{
    m.entry(key).or_default().push(station);
}

} // verus!
