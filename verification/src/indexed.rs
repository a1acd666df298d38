//! The insertion-ordered sets and maps of `indexmap`, hashed with `fxhash`,
//! that the test constraint system interns its names, values and objects in.
//!
//! Each collection is described by the sequence of what it holds, in
//! insertion order; the wrappers below state what each method does to it.
use vstd::prelude::*;

use fxhash::FxBuildHasher;
use indexmap::{IndexMap, IndexSet};

use crate::field::Limbs;
use crate::test_constraint_system::NamedObject;

verus! {

#[verifier::external_type_specification]
#[verifier::external_body]
#[verifier::reject_recursive_types(T)]
#[verifier::reject_recursive_types(S)]
pub struct ExIndexSet<T, S>(IndexSet<T, S>);

#[verifier::external_type_specification]
#[verifier::external_body]
#[verifier::reject_recursive_types(K)]
#[verifier::reject_recursive_types(V)]
#[verifier::reject_recursive_types(S)]
pub struct ExIndexMap<K, V, S>(IndexMap<K, V, S>);

#[verifier::external_type_specification]
#[verifier::external_body]
pub struct ExFxHasher(fxhash::FxHasher);

#[verifier::external_type_specification]
#[verifier::external_body]
#[verifier::reject_recursive_types(H)]
pub struct ExBuildHasherDefault<H>(std::hash::BuildHasherDefault<H>);

/// The interned path segments, in insertion order.
pub uninterp spec fn segment_items(s: IndexSet<String, FxBuildHasher>) -> Seq<Seq<char>>;

/// The interned field elements (as limbs), in insertion order.
pub uninterp spec fn field_items(s: IndexSet<Limbs, FxBuildHasher>) -> Seq<Limbs>;

/// The named objects with their interned paths, in insertion order.
pub uninterp spec fn object_entries(
    m: IndexMap<(usize, usize), NamedObject, FxBuildHasher>,
) -> Seq<((usize, usize), NamedObject)>;

/// `IndexSet::with_hasher`: an empty set of segments.
#[verifier::external_body]
pub(crate) fn segments_new() -> (r: IndexSet<String, FxBuildHasher>)
    ensures
        segment_items(r) == Seq::<Seq<char>>::empty(),
{
    IndexSet::with_hasher(FxBuildHasher::default())
}

/// `IndexSet::insert_full`: appends `value` unless an equal string is held,
/// and gives the position of the held string and whether it was appended.
#[verifier::external_body]
pub(crate) fn segments_insert_full(s: &mut IndexSet<String, FxBuildHasher>, value: String) -> (r: (
    usize,
    bool,
))
    ensures
        r.1 == !segment_items(*old(s)).contains(value@),
        segment_items(*final(s)) == (if r.1 {
            segment_items(*old(s)).push(value@)
        } else {
            segment_items(*old(s))
        }),
        r.0 < segment_items(*final(s)).len(),
        segment_items(*final(s))[r.0 as int] == value@,
        segment_items(*final(s)).len() <= usize::MAX,
{
    s.insert_full(value)
}

/// `IndexSet::get_index_of`: the position of a string equal to `value`, if any.
#[verifier::external_body]
pub(crate) fn segments_get_index_of(s: &IndexSet<String, FxBuildHasher>, value: &str) -> (r: Option<
    usize,
>)
    ensures
        match r {
            Some(i) => i < segment_items(*s).len() && segment_items(*s)[i as int] == value@,
            None => !segment_items(*s).contains(value@),
        },
{
    s.get_index_of(value)
}

/// `IndexSet::get_index`: the string at position `index`, if there is one.
#[verifier::external_body]
pub(crate) fn segments_get_index(s: &IndexSet<String, FxBuildHasher>, index: usize) -> (r: Option<
    &String,
>)
    ensures
        match r {
            Some(v) => index < segment_items(*s).len() && v@ == segment_items(*s)[index as int],
            None => index >= segment_items(*s).len(),
        },
{
    s.get_index(index)
}

/// `IndexSet::with_hasher`: an empty set of field elements.
#[verifier::external_body]
pub(crate) fn fields_new() -> (r: IndexSet<Limbs, FxBuildHasher>)
    ensures
        field_items(r) == Seq::<Limbs>::empty(),
{
    IndexSet::with_hasher(FxBuildHasher::default())
}

/// `IndexSet::insert_full`: appends `value` unless it is held, and gives its
/// position and whether it was appended.
#[verifier::external_body]
pub(crate) fn fields_insert_full(s: &mut IndexSet<Limbs, FxBuildHasher>, value: Limbs) -> (r: (
    usize,
    bool,
))
    ensures
        r.1 == !field_items(*old(s)).contains(value),
        field_items(*final(s)) == (if r.1 {
            field_items(*old(s)).push(value)
        } else {
            field_items(*old(s))
        }),
        r.0 < field_items(*final(s)).len(),
        field_items(*final(s))[r.0 as int] == value,
{
    s.insert_full(value)
}

/// `IndexSet::get_index`: the element at position `index`, if there is one.
#[verifier::external_body]
pub(crate) fn fields_get_index(s: &IndexSet<Limbs, FxBuildHasher>, index: usize) -> (r: Option<
    &Limbs,
>)
    ensures
        match r {
            Some(v) => index < field_items(*s).len() && *v == field_items(*s)[index as int],
            None => index >= field_items(*s).len(),
        },
{
    s.get_index(index)
}

/// `IndexMap::with_hasher`: an empty map of named objects.
#[verifier::external_body]
pub(crate) fn objects_new() -> (r: IndexMap<(usize, usize), NamedObject, FxBuildHasher>)
    ensures
        object_entries(r) == Seq::<((usize, usize), NamedObject)>::empty(),
{
    IndexMap::with_hasher(FxBuildHasher::default())
}

/// `IndexMap::insert_full`: replaces the value of an entry with key `key` in
/// place, or appends the entry; gives the entry's position and the old value.
#[verifier::external_body]
pub(crate) fn objects_insert_full(
    m: &mut IndexMap<(usize, usize), NamedObject, FxBuildHasher>,
    key: (usize, usize),
    value: NamedObject,
) -> (r: (usize, Option<NamedObject>))
    ensures
        r.0 < object_entries(*final(m)).len(),
        object_entries(*final(m)).len() <= usize::MAX,
        match r.1 {
            Some(prev) => r.0 < object_entries(*old(m)).len() && object_entries(
                *old(m),
            )[r.0 as int] == (key, prev) && object_entries(*final(m)) == object_entries(
                *old(m),
            ).update(r.0 as int, (key, value)),
            None => (forall|i: int|
                0 <= i < object_entries(*old(m)).len() ==> object_entries(*old(m))[i].0 != key)
                && r.0 == object_entries(*old(m)).len() && object_entries(*final(m))
                == object_entries(*old(m)).push((key, value)),
        },
{
    m.insert_full(key, value)
}

/// `IndexMap::get`: the value of an entry with key `key`, if any.
#[verifier::external_body]
pub(crate) fn objects_get<'a>(
    m: &'a IndexMap<(usize, usize), NamedObject, FxBuildHasher>,
    key: &(usize, usize),
) -> (r: Option<&'a NamedObject>)
    ensures
        match r {
            Some(v) => exists|i: int|
                0 <= i < object_entries(*m).len() && object_entries(*m)[i] == (*key, *v),
            None => forall|i: int|
                0 <= i < object_entries(*m).len() ==> object_entries(*m)[i].0 != *key,
        },
{
    m.get(key)
}

/// `IndexMap::get_index`: the entry at position `index`, if there is one.
#[verifier::external_body]
pub(crate) fn objects_get_index(
    m: &IndexMap<(usize, usize), NamedObject, FxBuildHasher>,
    index: usize,
) -> (r: Option<(&(usize, usize), &NamedObject)>)
    ensures
        match r {
            Some((k, v)) => index < object_entries(*m).len() && object_entries(*m)[index as int]
                == (*k, *v),
            None => index >= object_entries(*m).len(),
        },
{
    m.get_index(index)
}

/// `IndexMap::index_mut`: the value at position `index`, to be changed in place.
#[verifier::external_body]
pub(crate) fn objects_index_mut(
    m: &mut IndexMap<(usize, usize), NamedObject, FxBuildHasher>,
    index: usize,
) -> (r: &mut NamedObject)
    requires
        index < object_entries(*old(m)).len(),
    ensures
        *r == object_entries(*old(m))[index as int].1,
        object_entries(*final(m)) == object_entries(*old(m)).update(
            index as int,
            (object_entries(*old(m))[index as int].0, *final(r)),
        ),
{
    &mut m[index]
}

} // verus!
