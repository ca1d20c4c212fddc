//! YAML values as `serde_yml` holds them, and what the library asks of that crate.

use vstd::prelude::*;
use serde_yml::{Mapping, Value};
use crate::reading;
use crate::writing;

verus! {

/// A YAML value of `serde_yml`.
#[verifier::external_type_specification]
#[verifier::external_body]
pub struct ExValue(serde_yml::Value);

/// A YAML object of `serde_yml`.
#[verifier::external_type_specification]
#[verifier::external_body]
pub struct ExMapping(serde_yml::Mapping);

/// Why `serde_yml` could not read or write a document.
#[verifier::external_type_specification]
#[verifier::external_body]
pub struct ExYamlError(serde_yml::Error);

/// What a YAML value is.
pub enum Yaml {
    /// Nothing.
    Null,
    /// A truth value.
    Bool(bool),
    /// A number, by the text that stands for it.
    Number(Seq<char>),
    /// A text.
    Text(Seq<char>),
    /// A list.
    List(Seq<Yaml>),
    /// An object: its entries in order, no key twice.
    Object(Seq<(Yaml, Yaml)>),
    /// A value under a tag.
    Tagged(Seq<char>, Box<Yaml>),
}

/// `yaml` without the tags around it.
pub open spec fn untagged(yaml: Yaml) -> Yaml
    decreases yaml,
{
    match yaml {
        Yaml::Tagged(_, inner) => untagged(*inner),
        _ => yaml,
    }
}

/// The position of the entry under the text `key`, or the number of entries if there is none.
pub open spec fn position(entries: Seq<(Yaml, Yaml)>, key: Seq<char>) -> int
    decreases entries.len(),
{
    if entries.len() == 0 {
        0
    } else if entries[0].0 == Yaml::Text(key) {
        0
    } else {
        1 + position(entries.drop_first(), key)
    }
}

/// Where no entry has the text `key` as its key, none is found under it.
pub(crate) proof fn lemma_absent(entries: Seq<(Yaml, Yaml)>, key: Seq<char>)
    requires
        forall|i: int| 0 <= i < entries.len() ==> (#[trigger] entries[i]).0 != Yaml::Text(key),
    ensures
        position(entries, key) == entries.len(),
    decreases entries.len(),
{
    if entries.len() > 0 {
        assert(entries[0].0 != Yaml::Text(key));
        assert forall|i: int| 0 <= i < entries.drop_first().len() implies (
        #[trigger] entries.drop_first()[i]).0 != Yaml::Text(key) by {
            assert(entries.drop_first()[i] == entries[i + 1]);
        }
        lemma_absent(entries.drop_first(), key);
    }
}

/// The value under the text `key`.
pub open spec fn entry(entries: Seq<(Yaml, Yaml)>, key: Seq<char>) -> Option<Yaml> {
    if position(entries, key) < entries.len() {
        Some(entries[position(entries, key)].1)
    } else {
        None
    }
}

/// `entries` with `value` under the text `key`: in place if the key is there, else at the end.
pub open spec fn with_entry(
    entries: Seq<(Yaml, Yaml)>,
    key: Seq<char>,
    value: Yaml,
) -> Seq<(Yaml, Yaml)> {
    if position(entries, key) < entries.len() {
        entries.update(position(entries, key), (Yaml::Text(key), value))
    } else {
        entries.push((Yaml::Text(key), value))
    }
}

/// What a `serde_yml::Value` holds.
pub uninterp spec fn yaml_of(value: Value) -> Yaml;

/// The entries of a `serde_yml::Mapping`, in order.
pub uninterp spec fn entries_of(mapping: Mapping) -> Seq<(Yaml, Yaml)>;

/// The value that `serde_yml::from_str` reads from a text, if it reads one.
pub uninterp spec fn parsed_yaml(text: Seq<char>) -> Option<Yaml>;

/// The text that `serde_yml::to_string` writes for a value, if it writes one.
pub uninterp spec fn yaml_text(yaml: Yaml) -> Option<Seq<char>>;

/// Calls `serde_yml::from_str`. What it reads, and whether it reads anything, is a function of
/// the text alone, named [`parsed_yaml`]. It takes the columns of a line in a signed number of
/// 32 bits, so each line has to stay within that.
#[verifier::external_body]
pub(crate) fn read(text: &str) -> (r: Result<Value, serde_yml::Error>)
    requires
        reading::readable(text@, i32::MAX as int),
    ensures
        match r {
            Ok(value) => parsed_yaml(text@) == Some(yaml_of(value)),
            Err(_) => parsed_yaml(text@) is None,
        },
{
    serde_yml::from_str::<Value>(text)
}

/// Calls `serde_yml::to_string`. What it writes, and whether it writes anything, is a function
/// of the value alone, named [`yaml_text`]. It takes the bytes of a text, the columns of a line
/// and the lines in a signed number of 32 bits, so the value has to stay within that.
#[verifier::external_body]
pub(crate) fn write(value: &Value) -> (r: Result<String, serde_yml::Error>)
    requires
        writing::writable(yaml_of(*value), i32::MAX as int),
    ensures
        match r {
            Ok(text) => yaml_text(yaml_of(*value)) == Some(text@),
            Err(_) => yaml_text(yaml_of(*value)) is None,
        },
{
    serde_yml::to_string(value)
}

/// Calls `Value::as_mapping`: the object that the value is, tags around it put aside.
#[verifier::external_body]
pub(crate) fn as_mapping(value: &Value) -> (r: Option<&Mapping>)
    ensures
        match r {
            Some(mapping) => untagged(yaml_of(*value)) == Yaml::Object(entries_of(*mapping)),
            None => !(untagged(yaml_of(*value)) is Object),
        },
{
    value.as_mapping()
}

/// What a value is made of.
pub(crate) enum ValueParts<'a> {
    /// Nothing, a truth value or a number.
    Plain,
    /// A text.
    Text(&'a String),
    /// A list.
    List(&'a Vec<Value>),
    /// An object.
    Object(&'a Mapping),
    /// A value under a tag.
    Tagged(&'a String, &'a Value),
}

/// Tells the variants of `Value` apart and hands out what they hold.
#[verifier::external_body]
pub(crate) fn parts(value: &Value) -> (r: ValueParts<'_>)
    ensures
        match r {
            ValueParts::Plain => yaml_of(*value) is Null || yaml_of(*value) is Bool || yaml_of(
                *value,
            ) is Number,
            ValueParts::Text(text) => yaml_of(*value) == Yaml::Text(text@),
            ValueParts::List(items) => yaml_of(*value) == Yaml::List(
                Seq::new(items@.len(), |i: int| yaml_of(items@[i])),
            ),
            ValueParts::Object(mapping) => yaml_of(*value) == Yaml::Object(entries_of(*mapping)),
            ValueParts::Tagged(tag, inner) => yaml_of(*value) == Yaml::Tagged(
                tag@,
                Box::new(yaml_of(*inner)),
            ),
        },
{
    match value {
        Value::Null => ValueParts::Plain,
        Value::Bool(_) => ValueParts::Plain,
        Value::Number(_) => ValueParts::Plain,
        Value::String(text) => ValueParts::Text(text),
        Value::Sequence(items) => ValueParts::List(items),
        Value::Mapping(mapping) => ValueParts::Object(mapping),
        Value::Tagged(tagged) => ValueParts::Tagged(&tagged.tag.string, &tagged.value),
    }
}

/// Calls `Mapping::iter`: the entries in order.
#[verifier::external_body]
pub(crate) fn entries<'a>(mapping: &'a Mapping) -> (r: Vec<(&'a Value, &'a Value)>)
    ensures
        entries_of(*mapping) == Seq::new(
            r@.len(),
            |i: int| (yaml_of(*r@[i].0), yaml_of(*r@[i].1)),
        ),
{
    mapping.iter().collect()
}

/// Calls `Value::is_sequence`: whether the value is a list, tags around it put aside.
#[verifier::external_body]
pub(crate) fn is_sequence(value: &Value) -> (r: bool)
    ensures
        r == (untagged(yaml_of(*value)) is List),
{
    value.is_sequence()
}

/// Calls `Mapping::get` with a text as the key: the value under that key.
#[verifier::external_body]
pub(crate) fn get<'a>(mapping: &'a Mapping, key: &str) -> (r: Option<&'a Value>)
    ensures
        match r {
            Some(value) => entry(entries_of(*mapping), key@) == Some(yaml_of(*value)),
            None => entry(entries_of(*mapping), key@) is None,
        },
{
    mapping.get(Value::String(key.to_owned()))
}

/// Calls `Mapping::new`: an object without entries.
#[verifier::external_body]
pub(crate) fn new_mapping() -> (r: Mapping)
    ensures
        entries_of(r) == Seq::<(Yaml, Yaml)>::empty(),
{
    Mapping::new()
}

/// Calls `Mapping::insert` with a text as the key: the value takes the place of the one under
/// that key, or comes last.
#[verifier::external_body]
pub(crate) fn insert(mapping: &mut Mapping, key: &str, value: Value)
    ensures
        entries_of(*final(mapping)) == with_entry(entries_of(*old(mapping)), key@, yaml_of(value)),
{
    mapping.insert(Value::String(key.to_owned()), value);
}

/// Makes a `Value::Mapping`: the value that is the given object.
#[verifier::external_body]
pub(crate) fn mapping_value(mapping: Mapping) -> (r: Value)
    ensures
        yaml_of(r) == Yaml::Object(entries_of(mapping)),
{
    Value::Mapping(mapping)
}

/// Makes a `Value::Sequence`: the value that is the list without items.
#[verifier::external_body]
pub(crate) fn empty_list() -> (r: Value)
    ensures
        yaml_of(r) == Yaml::List(Seq::empty()),
{
    Value::Sequence(Vec::new())
}

/// Calls `Value::clone`: a value that holds the same.
#[verifier::external_body]
pub(crate) fn clone_value(value: &Value) -> (r: Value)
    ensures
        yaml_of(r) == yaml_of(*value),
{
    value.clone()
}

/// The first entry under a key is what is found under it.
pub proof fn first_entry_under_a_key_counts(entries: Seq<(Yaml, Yaml)>, key: Seq<char>, i: int)
    requires
        0 <= i < entries.len(),
        entries[i].0 == Yaml::Text(key),
        forall|j: int| 0 <= j < i ==> (#[trigger] entries[j]).0 != Yaml::Text(key),
    ensures
        position(entries, key) == i,
        entry(entries, key) == Some(entries[i].1),
    decreases i,
{
    if i > 0 {
        let rest = entries.drop_first();
        assert(entries[0].0 != Yaml::Text(key));
        assert(rest[i - 1] == entries[i]);
        assert forall|j: int| 0 <= j < i - 1 implies (#[trigger] rest[j]).0 != Yaml::Text(key) by {
            assert(rest[j] == entries[j + 1]);
        }
        first_entry_under_a_key_counts(rest, key, i - 1);
    }
}

/// Nothing is found under a key that no entry has.
pub proof fn nothing_is_found_under_no_key(entries: Seq<(Yaml, Yaml)>, key: Seq<char>)
    requires
        forall|i: int| 0 <= i < entries.len() ==> (#[trigger] entries[i]).0 != Yaml::Text(key),
    ensures
        entry(entries, key) is None,
{
    lemma_absent(entries, key);
}

} // verus!
