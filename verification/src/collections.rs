//! Ordered sets of names and ordered mappings from names to expressions.
//!
//! The collections are those of the `indexmap` crate, which keep the order in
//! which their keys came. What a collection holds has a name here, and each of
//! its methods that is called has a contract over that name.

use indexmap::{IndexMap, IndexSet};
use vstd::prelude::*;

use crate::ast::{Expr, Term};

verus! {

#[verifier::external_type_specification]
#[verifier::external_body]
#[verifier::reject_recursive_types(K)]
#[verifier::reject_recursive_types(V)]
#[verifier::reject_recursive_types(S)]
pub struct ExIndexMap<K, V, S>(IndexMap<K, V, S>);

#[verifier::external_type_specification]
#[verifier::external_body]
#[verifier::reject_recursive_types(T)]
#[verifier::reject_recursive_types(S)]
pub struct ExIndexSet<T, S>(IndexSet<T, S>);

/// A mapping from names to expressions, in the order in which the names came.
pub type Mapping = IndexMap<String, Expr>;

/// A set of names, in the order in which they came.
pub type NameSet = IndexSet<String>;

/// The model of a [`Mapping`].
pub type Entries = Seq<(Seq<char>, Term)>;

/// The names that a set holds, in order.
pub uninterp spec fn names_of(set: IndexSet<String>) -> Seq<Seq<char>>;

/// The entries that a mapping holds, in order.
pub uninterp spec fn entries_of(map: IndexMap<String, Expr>) -> Seq<(Seq<char>, Term)>;

/// `names` with `name` in it: last, unless it was there before.
pub open spec fn with_name(names: Seq<Seq<char>>, name: Seq<char>) -> Seq<Seq<char>> {
    if names.contains(name) {
        names
    } else {
        names.push(name)
    }
}

/// `names` with each of `more` in it.
pub open spec fn with_names(names: Seq<Seq<char>>, more: Seq<Seq<char>>) -> Seq<Seq<char>>
    decreases more.len(),
{
    if more.len() == 0 {
        names
    } else {
        with_name(with_names(names, more.drop_last()), more.last())
    }
}

/// What `entries` holds under `key`.
pub open spec fn lookup(entries: Entries, key: Seq<char>) -> Option<Term>
    decreases entries.len(),
{
    if entries.len() == 0 {
        None
    } else if entries[0].0 == key {
        Some(entries[0].1)
    } else {
        lookup(entries.drop_first(), key)
    }
}

/// `entries` with `value` under `key`: in place of what was there, or last.
pub open spec fn put(entries: Entries, key: Seq<char>, value: Term) -> Entries
    decreases entries.len(),
{
    if entries.len() == 0 {
        seq![(key, value)]
    } else if entries[0].0 == key {
        seq![(key, value)] + entries.drop_first()
    } else {
        seq![entries[0]] + put(entries.drop_first(), key, value)
    }
}

/// `indexmap::IndexSet::new`: a set without names.
#[verifier::external_body]
pub(crate) fn names_new() -> (set: NameSet)
    ensures
        names_of(set) == Seq::<Seq<char>>::empty(),
{
    IndexSet::new()
}

/// `indexmap::IndexSet::insert`: puts `name` last, unless the set holds it
/// already, and says whether it was new.
#[verifier::external_body]
pub(crate) fn names_insert(set: &mut NameSet, name: String) -> (new: bool)
    ensures
        names_of(*final(set)) == with_name(names_of(*old(set)), name@),
        new == !names_of(*old(set)).contains(name@),
{
    set.insert(name)
}

/// `indexmap::IndexSet::len`: how many names the set holds.
#[verifier::external_body]
pub(crate) fn names_len(set: &NameSet) -> (n: usize)
    ensures
        n == names_of(*set).len(),
{
    set.len()
}

/// `indexmap::IndexSet::get_index`: the name at the given place of the order.
#[verifier::external_body]
pub(crate) fn names_get_index(set: &NameSet, i: usize) -> (r: Option<&String>)
    ensures
        r is Some <==> i < names_of(*set).len(),
        r matches Some(name) ==> name@ == names_of(*set)[i as int],
{
    set.get_index(i)
}

/// `indexmap::IndexMap::new`: a mapping without entries.
#[verifier::external_body]
pub(crate) fn mapping_new() -> (map: Mapping)
    ensures
        entries_of(map) == Seq::<(Seq<char>, Term)>::empty(),
{
    IndexMap::new()
}

/// `indexmap::IndexMap::insert`: puts `value` under `key`, in place of what was
/// there before, or last. What was there before is dropped.
#[verifier::external_body]
pub(crate) fn mapping_insert(map: &mut Mapping, key: String, value: Expr)
    ensures
        entries_of(*final(map)) == put(entries_of(*old(map)), key@, value@),
{
    map.insert(key, value);
}

/// The `Clone` of `indexmap::IndexMap`: a mapping with the same entries.
#[verifier::external_body]
pub(crate) fn mapping_clone(map: &Mapping) -> (r: Mapping)
    ensures
        entries_of(r) == entries_of(*map),
{
    map.clone()
}

/// `indexmap::IndexMap::get`: what the mapping holds under `key`.
#[verifier::external_body]
pub(crate) fn mapping_get<'a>(map: &'a Mapping, key: &str) -> (r: Option<&'a Expr>)
    ensures
        r is Some <==> lookup(entries_of(*map), key@) is Some,
        r matches Some(e) ==> lookup(entries_of(*map), key@) == Some(e@),
{
    map.get(key)
}

/// `indexmap::IndexMap::len`: how many entries the mapping holds.
#[verifier::external_body]
pub(crate) fn mapping_len(map: &Mapping) -> (n: usize)
    ensures
        n == entries_of(*map).len(),
{
    map.len()
}

/// `indexmap::IndexMap::get_index`: the entry at the given place of the order.
#[verifier::external_body]
pub(crate) fn mapping_get_index(map: &Mapping, i: usize) -> (r: Option<(&String, &Expr)>)
    ensures
        r is Some <==> i < entries_of(*map).len(),
        r matches Some((key, value)) ==> (key@, value@) == entries_of(*map)[i as int],
{
    map.get_index(i)
}

/// A name is among `names` with `name` in it where it was before or is `name`.
pub proof fn lemma_with_name_contains(names: Seq<Seq<char>>, name: Seq<char>, x: Seq<char>)
    ensures
        with_name(names, name).contains(x) <==> names.contains(x) || x == name,
{
    if !names.contains(name) {
        let more = names.push(name);
        if names.contains(x) {
            let i = choose|i: int| 0 <= i < names.len() && names[i] == x;
            assert(more[i] == x);
        }
        if x == name {
            assert(more[names.len() as int] == x);
        }
        if more.contains(x) && x != name {
            let i = choose|i: int| 0 <= i < more.len() && more[i] == x;
            assert(names[i] == x);
        }
    }
}

/// A name is among `names` with `more` in it where it is among either.
pub proof fn lemma_with_names_contains(names: Seq<Seq<char>>, more: Seq<Seq<char>>, x: Seq<char>)
    ensures
        with_names(names, more).contains(x) <==> names.contains(x) || more.contains(x),
    decreases more.len(),
{
    if more.len() > 0 {
        lemma_with_names_contains(names, more.drop_last(), x);
        lemma_with_name_contains(with_names(names, more.drop_last()), more.last(), x);
        assert(more =~= more.drop_last().push(more.last()));
        if more.contains(x) && x != more.last() {
            let i = choose|i: int| 0 <= i < more.len() && more[i] == x;
            assert(more.drop_last()[i] == x);
        }
        if more.drop_last().contains(x) {
            let i = choose|i: int| 0 <= i < more.drop_last().len() && more.drop_last()[i] == x;
            assert(more[i] == x);
        }
        assert(more[more.len() - 1] == more.last());
    }
}

/// Putting in names one list after the other is putting in both lists.
pub proof fn lemma_with_names_add(
    names: Seq<Seq<char>>,
    first: Seq<Seq<char>>,
    second: Seq<Seq<char>>,
)
    ensures
        with_names(with_names(names, first), second) == with_names(names, first + second),
    decreases second.len(),
{
    if second.len() == 0 {
        assert(first + second =~= first);
    } else {
        lemma_with_names_add(names, first, second.drop_last());
        assert((first + second).drop_last() =~= first + second.drop_last());
    }
}

/// What `put` changes: `key` now holds `value`, every other key what it held.
pub proof fn lemma_put_lookup(entries: Entries, key: Seq<char>, value: Term, k: Seq<char>)
    ensures
        lookup(put(entries, key, value), k) == (if k == key {
            Some(value)
        } else {
            lookup(entries, k)
        }),
    decreases entries.len(),
{
    reveal_with_fuel(lookup, 2);
    let after = put(entries, key, value);
    if entries.len() == 0 {
        assert(after.drop_first() =~= Seq::<(Seq<char>, Term)>::empty());
    } else if entries[0].0 == key {
        assert(after.drop_first() =~= entries.drop_first());
    } else {
        lemma_put_lookup(entries.drop_first(), key, value, k);
        assert(after.drop_first() =~= put(entries.drop_first(), key, value));
    }
}

} // verus!
