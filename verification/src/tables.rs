use vstd::prelude::*;
use crate::node::{Class, EClass, Enode, Id, Node};

verus! {

/// `indexmap::IndexMap`: a hash table that keeps its entries in the order of
/// insertion. The verifier sees nothing inside it.
#[verifier::external_type_specification]
#[verifier::external_body]
#[verifier::reject_recursive_types(K)]
#[verifier::reject_recursive_types(V)]
#[verifier::reject_recursive_types(S)]
pub struct ExIndexMap<K, V, S>(indexmap::IndexMap<K, V, S>);

/// `indexmap::IndexSet`: a hash set that keeps its members in the order of insertion.
#[verifier::external_type_specification]
#[verifier::external_body]
#[verifier::reject_recursive_types(T)]
#[verifier::reject_recursive_types(S)]
pub struct ExIndexSet<T, S>(indexmap::IndexSet<T, S>);

/// `core::hash::BuildHasherDefault`: the builder of the hashers of the tables.
#[verifier::external_type_specification]
#[verifier::external_body]
#[verifier::reject_recursive_types(H)]
pub struct ExBuildHasherDefault<H>(core::hash::BuildHasherDefault<H>);

/// `fxhash::FxHasher`: the hasher of the tables.
#[verifier::external_type_specification]
#[verifier::external_body]
pub struct ExFxHasher(fxhash::FxHasher);

/// `IndexMap::clone`, which the derived `Clone` of the e-graph calls: nothing
/// is stated of the copy.
pub assume_specification<K, V, S>[ <indexmap::IndexMap<K, V, S> as core::clone::Clone>::clone ](
    m: &indexmap::IndexMap<K, V, S>,
) -> (r: indexmap::IndexMap<K, V, S>) where
    K: core::clone::Clone,
    V: core::clone::Clone,
    S: core::clone::Clone,
;

/// The hash-cons table: e-nodes to class ids.
pub type Memo = indexmap::IndexMap<Enode, Id, fxhash::FxBuildHasher>;

/// The table of classes, by id.
pub type Classes = indexmap::IndexMap<Id, EClass, fxhash::FxBuildHasher>;

/// One match of a pattern: the class bound to each pattern variable.
pub type Bindings = indexmap::IndexMap<String, Id, fxhash::FxBuildHasher>;

/// A variable and the id bound to it.
pub type Binding = (String, Id);

/// A set of ids that remembers the order in which they came.
pub type IdSet = indexmap::IndexSet<Id>;

/// The entries of a hash-cons table, keyed by the value of each stored
/// e-node: two e-nodes are one key where they have the same operator and the
/// same arguments.
pub uninterp spec fn memo_entries(m: Memo) -> Map<Node, usize>;

/// The entries of a table of classes: the value of the class stored under each id.
pub uninterp spec fn class_entries(m: Classes) -> Map<usize, Class>;

/// The entries of a set of bindings, in the order of first insertion.
pub uninterp spec fn binding_entries(b: Bindings) -> Seq<(Seq<char>, usize)>;

/// The members of a set of ids, in the order of first insertion.
pub uninterp spec fn idset_items(s: IdSet) -> Seq<usize>;

/// The value of a binding.
pub open spec fn binding_view(e: Binding) -> (Seq<char>, usize) {
    (e.0@, e.1)
}

/// Whether some entry has the key `k`.
pub open spec fn has_key(es: Seq<(Seq<char>, usize)>, k: Seq<char>) -> bool {
    exists|i: int| 0 <= i < es.len() && (#[trigger] es[i]).0 == k
}

/// The place of an entry with the key `k`.
pub open spec fn key_index(es: Seq<(Seq<char>, usize)>, k: Seq<char>) -> int {
    choose|i: int| 0 <= i < es.len() && (#[trigger] es[i]).0 == k
}

/// No two entries have the same key.
pub open spec fn distinct_keys(es: Seq<(Seq<char>, usize)>) -> bool {
    forall|i: int, j: int|
        0 <= i < es.len() && 0 <= j < es.len() && (#[trigger] es[i]).0 == (#[trigger] es[j]).0
            ==> i == j
}

/// The entries after `v` is stored under `k`: an entry with that key keeps its
/// place and takes the value, a new key goes to the end.
pub open spec fn put(es: Seq<(Seq<char>, usize)>, k: Seq<char>, v: usize) -> Seq<(Seq<char>, usize)> {
    if has_key(es, k) {
        es.update(key_index(es, k), (k, v))
    } else {
        es.push((k, v))
    }
}

/// The members after `x` is added: unchanged where it is one already.
pub open spec fn with_item(items: Seq<usize>, x: usize) -> Seq<usize> {
    if items.contains(x) {
        items
    } else {
        items.push(x)
    }
}

/// `IndexMap::default`: a table without entries.
#[verifier::external_body]
pub(crate) fn memo_new() -> (table: Memo)
    ensures
        memo_entries(table).dom() == Set::<Node>::empty(),
{
    indexmap::IndexMap::default()
}

/// `IndexMap::get`: the id stored under a node equal to `key`, if there is one.
#[verifier::external_body]
pub(crate) fn memo_get(table: &Memo, key: &Enode) -> (r: Option<Id>)
    ensures
        r == (if memo_entries(*table).contains_key(key@) {
            Some(memo_entries(*table)[key@])
        } else {
            None
        }),
{
    table.get(key).copied()
}

/// `IndexMap::insert`: stores `id` under `key`, in place of what an equal key held.
#[verifier::external_body]
pub(crate) fn memo_insert(table: &mut Memo, key: Enode, id: Id)
    ensures
        memo_entries(*final(table)) == memo_entries(*old(table)).insert(key@, id),
{
    table.insert(key, id);
}

/// `IndexMap::swap_remove`: removes the entry of a node equal to `key`, if there is one.
#[verifier::external_body]
pub(crate) fn memo_remove(table: &mut Memo, key: &Enode)
    ensures
        memo_entries(*final(table)) == memo_entries(*old(table)).remove(key@),
{
    table.swap_remove(key);
}

/// `IndexMap::default`: a table without classes.
#[verifier::external_body]
pub(crate) fn classes_new() -> (table: Classes)
    ensures
        class_entries(table).dom() == Set::<usize>::empty(),
{
    indexmap::IndexMap::default()
}

/// `IndexMap::get`: the class stored under `id`, if there is one.
#[verifier::external_body]
pub(crate) fn classes_get(table: &Classes, id: Id) -> (r: Option<&EClass>)
    ensures
        match r {
            Some(c) => class_entries(*table).contains_key(id) && c@ == class_entries(*table)[id],
            None => !class_entries(*table).contains_key(id),
        },
{
    table.get(&id)
}

/// `IndexMap::insert`: stores `class` under `id`, in place of what that id held.
#[verifier::external_body]
pub(crate) fn classes_insert(table: &mut Classes, id: Id, class: EClass)
    ensures
        class_entries(*final(table)) == class_entries(*old(table)).insert(id, class@),
{
    table.insert(id, class);
}

/// `IndexMap::swap_remove`: takes the class stored under `id` out of the table,
/// if there is one.
#[verifier::external_body]
pub(crate) fn classes_take(table: &mut Classes, id: Id) -> (r: Option<EClass>)
    ensures
        class_entries(*final(table)) == class_entries(*old(table)).remove(id),
        match r {
            Some(c) => class_entries(*old(table)).contains_key(id) && c@ == class_entries(
                *old(table),
            )[id],
            None => !class_entries(*old(table)).contains_key(id),
        },
{
    table.swap_remove(&id)
}

/// `IndexMap::default`: no bindings.
#[verifier::external_body]
pub(crate) fn bindings_new() -> (b: Bindings)
    ensures
        binding_entries(b).len() == 0,
{
    indexmap::IndexMap::default()
}

/// `IndexMap::len`: the number of entries.
#[verifier::external_body]
pub(crate) fn bindings_len(b: &Bindings) -> (n: usize)
    ensures
        n == binding_entries(*b).len(),
{
    b.len()
}

/// `IndexMap::get_index`: the entry at place `i`.
#[verifier::external_body]
pub(crate) fn bindings_entry(b: &Bindings, i: usize) -> (r: Binding)
    requires
        i < binding_entries(*b).len(),
    ensures
        binding_view(r) == binding_entries(*b)[i as int],
{
    let (k, v) = b.get_index(i).unwrap();
    (k.clone(), *v)
}

/// `IndexMap::get`: the id bound to the variable `key`, if it is bound. An
/// `IndexMap` holds each key once, so the entry with the key is the one
/// that `key_index` picks.
#[verifier::external_body]
pub(crate) fn bindings_get(b: &Bindings, key: &String) -> (r: Option<Id>)
    ensures
        r == (if has_key(binding_entries(*b), key@) {
            Some(binding_entries(*b)[key_index(binding_entries(*b), key@)].1)
        } else {
            None
        }),
{
    b.get(key).copied()
}

/// `IndexMap::insert`: binds `key` to `id`; a key that is bound already keeps
/// its place, a new one goes to the end.
#[verifier::external_body]
pub(crate) fn bindings_insert(b: &mut Bindings, key: String, id: Id)
    ensures
        binding_entries(*final(b)) == put(binding_entries(*old(b)), key@, id),
{
    b.insert(key, id);
}

/// `IndexSet::new`: the empty set.
#[verifier::external_body]
pub(crate) fn idset_new() -> (s: IdSet)
    ensures
        idset_items(s).len() == 0,
{
    indexmap::IndexSet::new()
}

/// `IndexSet::insert`: adds `id` at the end unless it is a member already.
#[verifier::external_body]
pub(crate) fn idset_insert(s: &mut IdSet, id: Id)
    ensures
        idset_items(*final(s)) == with_item(idset_items(*old(s)), id),
{
    s.insert(id);
}

/// `IndexSet::len`: the number of members.
#[verifier::external_body]
pub(crate) fn idset_len(s: &IdSet) -> (n: usize)
    ensures
        n == idset_items(*s).len(),
{
    s.len()
}

/// `IndexSet::get_index`: the member at place `i`.
#[verifier::external_body]
pub(crate) fn idset_get(s: &IdSet, i: usize) -> (r: Id)
    requires
        i < idset_items(*s).len(),
    ensures
        r == idset_items(*s)[i as int],
{
    *s.get_index(i).unwrap()
}

} // verus!
