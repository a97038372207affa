use vstd::prelude::*;
use indexmap::IndexMap;
use crate::value::ValueType;

verus! {

#[verifier::external_type_specification]
#[verifier::external_body]
#[verifier::reject_recursive_types(K)]
#[verifier::reject_recursive_types(V)]
#[verifier::reject_recursive_types(S)]
pub struct ExIndexMap<K, V, S>(IndexMap<K, V, S>);

/// A schema's content: (field name, declared type) pairs in insertion order.
pub type SchemaView = Seq<(Seq<char>, ValueType)>;

/// The entries of a schema map, in the map's order.
pub uninterp spec fn schema_entries(m: IndexMap<String, ValueType>) -> SchemaView;

pub open spec fn schema_has(s: SchemaView, k: Seq<char>) -> bool {
    exists|i: int| 0 <= i < s.len() && s[i].0 == k
}

/// The declared type of `k`: that of its first entry.
pub open spec fn schema_type(s: SchemaView, k: Seq<char>) -> Option<ValueType>
    decreases s.len(),
{
    if s.len() == 0 {
        None
    } else if s[0].0 == k {
        Some(s[0].1)
    } else {
        schema_type(s.drop_first(), k)
    }
}

pub proof fn lemma_schema_type(s: SchemaView, k: Seq<char>)
    ensures
        schema_type(s, k) is Some <==> schema_has(s, k),
        schema_type(s, k) is Some ==> exists|i: int|
            0 <= i < s.len() && s[i].0 == k && s[i].1 == schema_type(s, k)->Some_0,
    decreases s.len(),
{
    if s.len() > 0 {
        lemma_schema_type(s.drop_first(), k);
        if schema_has(s, k) && s[0].0 != k {
            let i = choose|i: int| 0 <= i < s.len() && s[i].0 == k;
            assert(s.drop_first()[i - 1].0 == k);
        }
        if schema_has(s.drop_first(), k) {
            let i = choose|i: int| 0 <= i < s.len() - 1 && s.drop_first()[i].0 == k;
            assert(s[i + 1].0 == k);
        }
        if s[0].0 != k && schema_type(s, k) is Some {
            let i = choose|i: int|
                0 <= i < s.len() - 1 && s.drop_first()[i].0 == k && s.drop_first()[i].1
                    == schema_type(s, k)->Some_0;
            assert(s[i + 1] == s.drop_first()[i]);
        }
    }
}

/// Relies on `IndexMap::new`: a new map is empty.
#[verifier::external_body]
pub(crate) fn schema_new() -> (r: IndexMap<String, ValueType>)
    ensures
        schema_entries(r) == Seq::<(Seq<char>, ValueType)>::empty(),
{
    IndexMap::new()
}

/// Relies on `IndexMap::insert`: a present key keeps its place and takes the
/// new type; an absent one is appended last.
#[verifier::external_body]
pub(crate) fn schema_insert(m: &mut IndexMap<String, ValueType>, k: String, v: ValueType)
    ensures
        !schema_has(schema_entries(*old(m)), k@) ==> schema_entries(*final(m))
            == schema_entries(*old(m)).push((k@, v)),
        schema_has(schema_entries(*old(m)), k@) ==> exists|i: int|
            0 <= i < schema_entries(*old(m)).len() && schema_entries(*old(m))[i].0 == k@
                && schema_entries(*final(m)) == schema_entries(*old(m)).update(i, (k@, v)),
{
    m.insert(k, v);
}

/// Relies on `IndexMap::len`: the number of entries.
#[verifier::external_body]
pub(crate) fn schema_len(m: &IndexMap<String, ValueType>) -> (r: usize)
    ensures
        r == schema_entries(*m).len(),
{
    m.len()
}

/// Relies on `IndexMap::get_index`: the entry at position `i`, copied out.
#[verifier::external_body]
pub(crate) fn schema_get_index(m: &IndexMap<String, ValueType>, i: usize) -> (r: Option<(String, ValueType)>)
    ensures
        i < schema_entries(*m).len() ==> r is Some && r->Some_0.0@ == schema_entries(*m)[i as int].0
            && r->Some_0.1 == schema_entries(*m)[i as int].1,
        i >= schema_entries(*m).len() ==> r is None,
{
    m.get_index(i).map(|(k, v)| (k.clone(), *v))
}

/// Relies on `IndexMap::get`: the type stored under `k`. Keys of an
/// `IndexMap` are unique, so that entry is the first with key `k`.
#[verifier::external_body]
pub(crate) fn schema_get(m: &IndexMap<String, ValueType>, k: &str) -> (r: Option<ValueType>)
    ensures
        r == schema_type(schema_entries(*m), k@),
{
    m.get(k).copied()
}

/// Relies on `IndexMap::contains_key`: whether some entry has key `k`.
#[verifier::external_body]
pub(crate) fn schema_contains_key(m: &IndexMap<String, ValueType>, k: &str) -> (r: bool)
    ensures
        r == schema_has(schema_entries(*m), k@),
{
    m.contains_key(k)
}

/// Relies on `IndexMap`'s `Clone`: the copy holds the same entries in the same order.
#[verifier::external_body]
pub(crate) fn schema_clone(m: &IndexMap<String, ValueType>) -> (r: IndexMap<String, ValueType>)
    ensures
        schema_entries(r) == schema_entries(*m),
{
    m.clone()
}

} // verus!
