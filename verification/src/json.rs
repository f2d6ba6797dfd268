//! What the library takes on trust from `serde_json`: the value type, its
//! object map, and the few operations by which records are read and built.

use vstd::prelude::*;

verus! {

/// `serde_json::Value`, which the library hands on without looking inside.
#[verifier::external_type_specification]
#[verifier::external_body]
pub struct ExJsonValue(serde_json::Value);

/// `serde_json::Map`, the map that a JSON object holds.
#[verifier::external_type_specification]
#[verifier::external_body]
#[verifier::reject_recursive_types(K)]
#[verifier::reject_recursive_types(V)]
pub struct ExJsonMap<K, V>(serde_json::Map<K, V>);

/// The fields of a JSON object map: each key with the value kept under it.
/// The order in which the map keeps them is no part of this.
pub uninterp spec fn map_fields(map: serde_json::Map<String, serde_json::Value>) -> Map<
    Seq<char>,
    serde_json::Value,
>;

/// The object map of a JSON value that is an object, `None` for any other
/// JSON value: what `serde_json::Value::as_object` hands out.
pub uninterp spec fn value_object(value: serde_json::Value) -> Option<
    serde_json::Map<String, serde_json::Value>,
>;

/// `serde_json::Value::as_object` returns the map of the `Object` variant and
/// `None` for every other variant.
pub assume_specification[ serde_json::Value::as_object ](value: &serde_json::Value) -> (object:
    Option<&serde_json::Map<String, serde_json::Value>>)
    ensures
        object is Some <==> value_object(*value) is Some,
        object matches Some(map) ==> value_object(*value) == Some(*map),
;

/// `<serde_json::Value as Clone>::clone`, which is derived: the copy is a
/// JSON value with the same contents.
pub assume_specification[ <serde_json::Value as Clone>::clone ](
    value: &serde_json::Value,
) -> (copy: serde_json::Value)
    ensures
        copy == *value,
;

/// The record without fields.
pub open spec fn no_fields() -> Map<Seq<char>, serde_json::Value> {
    Map::empty()
}

/// `serde_json::Map::new` makes a map without fields.
pub assume_specification[ serde_json::Map::<String, serde_json::Value>::new ]() -> (made:
    serde_json::Map<String, serde_json::Value>)
    ensures
        map_fields(made) == no_fields(),
;

/// `serde_json::Map::insert` puts the value under the key, in place of the
/// value that the key had, and returns that former value if there was one.
pub assume_specification[ serde_json::Map::<String, serde_json::Value>::insert ](
    map: &mut serde_json::Map<String, serde_json::Value>,
    k: String,
    v: serde_json::Value,
) -> (former: Option<serde_json::Value>)
    ensures
        map_fields(*final(map)) == map_fields(*old(map)).insert(k@, v),
        former == (if map_fields(*old(map)).contains_key(k@) {
            Some(map_fields(*old(map))[k@])
        } else {
            None
        }),
;

/// The `Object` variant of `serde_json::Value` around `map`: a JSON value
/// for which `as_object` returns that map.
#[verifier::external_body]
pub(crate) fn object_value(map: serde_json::Map<String, serde_json::Value>) -> (value:
    serde_json::Value)
    ensures
        value_object(value) == Some(map),
{
    serde_json::Value::Object(map)
}

/// The entries that `serde_json::Map::iter` yields, collected. The iterator
/// yields each entry of the map once. In which order depends on how
/// `serde_json` was built, so nothing is said of it.
#[verifier::external_body]
pub(crate) fn map_entries<'a>(map: &'a serde_json::Map<String, serde_json::Value>) -> (entries:
    Vec<(&'a String, &'a serde_json::Value)>)
    ensures
        forall|i: int|
            0 <= i < entries@.len() ==> map_fields(*map).contains_key((#[trigger] entries@[i]).0@)
                && map_fields(*map)[entries@[i].0@] == *entries@[i].1,
        forall|i: int, j: int|
            0 <= i < j < entries@.len() ==> (#[trigger] entries@[i]).0@ != (#[trigger] entries@[j]).0@,
        forall|key: Seq<char>| #[trigger]
            map_fields(*map).contains_key(key) ==> exists|i: int|
                0 <= i < entries@.len() && (#[trigger] entries@[i]).0@ == key,
{
    map.iter().collect()
}

} // verus!
