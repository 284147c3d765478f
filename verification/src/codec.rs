//! Reading and writing the three file formats, done by `serde_json`, `serde_yaml` and `toml`.
//!
//! Each function here goes from text to the library's tree or back. What a format's grammar
//! says of a text is not restated: the result of each outside call has a name, and the
//! contracts of the library speak of these names.

use crate::catalog::{CatalogEntry, CatalogValue, Node};
use vstd::prelude::*;

verus! {

/// `serde_json::Value`, carried through as it is: nothing here looks into it.
#[verifier::external_type_specification]
#[verifier::external_body]
pub struct ExJsonValue(serde_json::Value);

/// `serde_yaml::Value`, carried through as it is: nothing here looks into it.
#[verifier::external_type_specification]
#[verifier::external_body]
pub struct ExYamlValue(serde_yaml::Value);

/// `toml::Value`, carried through as it is: nothing here looks into it.
#[verifier::external_type_specification]
#[verifier::external_body]
pub struct ExTomlValue(toml::Value);

/// Whether every entry of a tree has a name.
pub open spec fn all_named(node: Node) -> bool
    decreases node,
{
    match node {
        Node::Leaf(_) => true,
        Node::Table(fields) => forall|i: int|
            0 <= i < fields.len() ==> (#[trigger] fields[i]).name is Some && all_named(
                fields[i].value,
            ),
    }
}

/// The tree that `serde_json::from_str` reads from `content`, or `None` where it reports an
/// error. An object is a table with its members in the order in which `serde_json::Map`
/// yields them, a string is a text, and any other value is the text that its `Display` writes.
pub uninterp spec fn json_document(content: Seq<char>) -> Option<Node>;

/// The tree that `serde_yaml::from_str` reads from `content`, or `None` where it reports an
/// error. A mapping is a table with its entries in the order in which `serde_yaml::Mapping`
/// yields them, an entry has a name where its key is a string, a string is a text, and any
/// other value is the text that its `Debug` writes.
pub uninterp spec fn yaml_document(content: Seq<char>) -> Option<Node>;

/// The tree that `toml::from_str` reads from `content`, or `None` where it reports an error. A
/// table is a table with its entries in the order in which `toml::Table` yields them, a string
/// is a text, and any other value is the text that its `Display` writes.
pub uninterp spec fn toml_document(content: Seq<char>) -> Option<Node>;

/// The text that `serde_json::to_string_pretty` writes for a tree, or `None` where it reports
/// an error.
pub uninterp spec fn json_text(tree: Node) -> Option<Seq<char>>;

/// The text that `serde_yaml::to_string` writes for a tree, or `None` where the tree cannot be
/// brought into YAML.
pub uninterp spec fn yaml_text(tree: Node) -> Option<Seq<char>>;

/// The text that `toml::to_string_pretty` writes for a tree, or `None` where the tree cannot
/// be brought into TOML.
pub uninterp spec fn toml_text(tree: Node) -> Option<Seq<char>>;

/// Copies a `serde_json::Value` into the library's tree, variant by variant: the members of an
/// object, the characters of a string, and for any other value what its `Display` writes.
#[verifier::external_body]
fn json_to_catalog(value: &serde_json::Value) -> CatalogValue {
    match value {
        serde_json::Value::Object(members) => CatalogValue::Table(
            members.iter().map(
                |(name, member)|
                    CatalogEntry { name: Some(name.clone()), value: json_to_catalog(member) },
            ).collect(),
        ),
        serde_json::Value::String(text) => CatalogValue::Text(text.clone()),
        other => CatalogValue::Text(other.to_string()),
    }
}

/// Copies a `serde_yaml::Value` into the library's tree, variant by variant: the entries of a
/// mapping, each with the string that `Value::as_str` finds in its key, the characters of a
/// string, and for any other value what its `Debug` writes.
#[verifier::external_body]
fn yaml_to_catalog(value: &serde_yaml::Value) -> CatalogValue {
    match value {
        serde_yaml::Value::Mapping(entries) => CatalogValue::Table(
            entries.iter().map(
                |(key, entry)|
                    CatalogEntry {
                        name: key.as_str().map(|name| name.to_string()),
                        value: yaml_to_catalog(entry),
                    },
            ).collect(),
        ),
        serde_yaml::Value::String(text) => CatalogValue::Text(text.clone()),
        other => CatalogValue::Text(format!("{:?}", other)),
    }
}

/// Copies a `toml::Value` into the library's tree, variant by variant: the entries of a table,
/// the characters of a string, and for any other value what its `Display` writes.
#[verifier::external_body]
fn toml_to_catalog(value: &toml::Value) -> CatalogValue {
    match value {
        toml::Value::Table(entries) => CatalogValue::Table(
            entries.iter().map(
                |(name, entry)|
                    CatalogEntry { name: Some(name.clone()), value: toml_to_catalog(entry) },
            ).collect(),
        ),
        toml::Value::String(text) => CatalogValue::Text(text.clone()),
        other => CatalogValue::Text(other.to_string()),
    }
}

/// Copies a tree into a `serde_json::Value`: a text becomes a string, a table an object with
/// one member for each entry.
#[verifier::external_body]
fn catalog_to_json(tree: &CatalogValue) -> serde_json::Value
    requires
        all_named(tree.deep_view()),
{
    match tree {
        CatalogValue::Text(text) => serde_json::Value::String(text.clone()),
        CatalogValue::Table(entries) => serde_json::Value::Object(
            entries.iter().map(
                |entry| (entry.name.clone().unwrap_or_default(), catalog_to_json(&entry.value)),
            ).collect(),
        ),
    }
}

/// Reads `content` with `serde_json::from_str`. The contract claims that the call fails exactly
/// when `serde_json` reports an error, with the text of that error, and that the tree depends
/// on `content` alone.
#[verifier::external_body]
pub(crate) fn parse_json_text(content: &str) -> (parsed: Result<CatalogValue, String>)
    ensures
        match parsed {
            Ok(tree) => json_document(content@) == Some(tree.deep_view()),
            Err(_) => json_document(content@) is None,
        },
{
    match serde_json::from_str::<serde_json::Value>(content) {
        Ok(value) => Ok(json_to_catalog(&value)),
        Err(error) => Err(error.to_string()),
    }
}

/// Reads `content` with `serde_yaml::from_str`. The contract claims that the call fails exactly
/// when `serde_yaml` reports an error, with the text of that error, and that the tree depends
/// on `content` alone.
#[verifier::external_body]
pub(crate) fn parse_yaml_text(content: &str) -> (parsed: Result<CatalogValue, String>)
    ensures
        match parsed {
            Ok(tree) => yaml_document(content@) == Some(tree.deep_view()),
            Err(_) => yaml_document(content@) is None,
        },
{
    match serde_yaml::from_str::<serde_yaml::Value>(content) {
        Ok(value) => Ok(yaml_to_catalog(&value)),
        Err(error) => Err(error.to_string()),
    }
}

/// Reads `content` with `toml::from_str`. The contract claims that the call fails exactly when
/// `toml` reports an error, with the text of that error, and that the tree depends on
/// `content` alone.
#[verifier::external_body]
pub(crate) fn parse_toml_text(content: &str) -> (parsed: Result<CatalogValue, String>)
    ensures
        match parsed {
            Ok(tree) => toml_document(content@) == Some(tree.deep_view()),
            Err(_) => toml_document(content@) is None,
        },
{
    match toml::from_str::<toml::Value>(content) {
        Ok(value) => Ok(toml_to_catalog(&value)),
        Err(error) => Err(error.to_string()),
    }
}

/// Writes `tree` with `serde_json::to_string_pretty`. The contract claims that the call fails
/// exactly when `serde_json` reports an error, with the text of that error, and that the text
/// depends on the tree alone.
#[verifier::external_body]
pub(crate) fn render_json(tree: &CatalogValue) -> (text: Result<String, String>)
    requires
        all_named(tree.deep_view()),
    ensures
        match text {
            Ok(text) => json_text(tree.deep_view()) == Some(text@),
            Err(_) => json_text(tree.deep_view()) is None,
        },
{
    serde_json::to_string_pretty(&catalog_to_json(tree)).map_err(|error| error.to_string())
}

/// Writes `tree` as YAML: `serde_json::to_string` writes it as JSON, `serde_yaml::from_str`
/// reads that text as a YAML value, and `serde_yaml::to_string` writes the value. The contract
/// claims that the call fails exactly when one of the three reports an error, with the text of
/// that error, and that the text depends on the tree alone.
#[verifier::external_body]
pub(crate) fn render_yaml(tree: &CatalogValue) -> (text: Result<String, String>)
    requires
        all_named(tree.deep_view()),
    ensures
        match text {
            Ok(text) => yaml_text(tree.deep_view()) == Some(text@),
            Err(_) => yaml_text(tree.deep_view()) is None,
        },
{
    let json = serde_json::to_string(&catalog_to_json(tree)).map_err(|error| error.to_string())?;
    let value: serde_yaml::Value = serde_yaml::from_str(&json).map_err(|error| error.to_string())?;
    serde_yaml::to_string(&value).map_err(|error| error.to_string())
}

/// Writes `tree` as TOML: `toml::Value::try_from` turns it into a TOML value, and
/// `toml::to_string_pretty` writes the value. The contract claims that the call fails exactly
/// when one of the two reports an error, with the text of that error, and that the text depends
/// on the tree alone.
#[verifier::external_body]
pub(crate) fn render_toml(tree: &CatalogValue) -> (text: Result<String, String>)
    requires
        all_named(tree.deep_view()),
    ensures
        match text {
            Ok(text) => toml_text(tree.deep_view()) == Some(text@),
            Err(_) => toml_text(tree.deep_view()) is None,
        },
{
    let value = toml::Value::try_from(catalog_to_json(tree)).map_err(|error| error.to_string())?;
    toml::to_string_pretty(&value).map_err(|error| error.to_string())
}

} // verus!
