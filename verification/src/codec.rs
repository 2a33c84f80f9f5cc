//! The calls into serde_json, serde_yaml and toml: reading documents into
//! [`JsonValue`]s and [`TomlValue`]s, and printing values back.
//!
//! Each function here makes one outside call and converts between the outside
//! value types and this library's own; what the outside crate computes is
//! named by a spec function without a body.
use vstd::prelude::*;

use crate::value::{canonical, JsonValue, JsonView};

verus! {

#[verifier::external_type_specification]
#[verifier::external_body]
pub struct ExSerdeJsonValue(serde_json::Value);

#[verifier::external_type_specification]
#[verifier::external_body]
pub struct ExTomlValue(toml::Value);

/// What `serde_json::from_str::<serde_json::Value>` makes of a text; `None`
/// when it rejects the text.
pub uninterp spec fn serde_json_parse(text: Seq<char>) -> Option<JsonView>;

/// What `Display` of `serde_json::Value` (compact JSON) prints for a value.
pub uninterp spec fn serde_json_compact(v: JsonView) -> Seq<char>;

/// What `serde_json::to_string_pretty` prints for a value; `None` when it fails.
pub uninterp spec fn serde_json_pretty(v: JsonView) -> Option<Seq<char>>;

/// What `serde_yaml::from_str::<serde_json::Value>` makes of a text; `None`
/// when it rejects the text.
pub uninterp spec fn serde_yaml_parse(text: Seq<char>) -> Option<JsonView>;

/// What `serde_yaml::to_string` prints for a value; `None` when it fails.
pub uninterp spec fn serde_yaml_print(v: JsonView) -> Option<Seq<char>>;

/// Whether `serde_yaml::from_str::<serde_yaml::Value>` reads a text as a
/// mapping; `None` when it rejects the text.
pub uninterp spec fn serde_yaml_mapping(text: Seq<char>) -> Option<bool>;

/// What the `toml` crate reads from a document text; `None` when it rejects it.
pub uninterp spec fn toml_parse(text: Seq<char>) -> Option<TomlView>;

/// What `serde_json::to_string` prints for the `toml::Value` read from a
/// document text; `None` when either step fails.
pub uninterp spec fn toml_as_json_text(text: Seq<char>) -> Option<Seq<char>>;

/// What `toml::to_string_pretty` prints for the `toml::Value` that
/// `serde_json::from_value` builds from a JSON value; `None` when either step fails.
pub uninterp spec fn toml_pretty_from_json(v: JsonView) -> Option<Seq<char>>;

/// A TOML value. Floats are held as serde_json renders them (`None` for a
/// float that is not finite); datetimes as the `toml` crate prints them.
#[derive(Debug, PartialEq, Eq)]
pub enum TomlValue {
    String(String),
    Integer(i64),
    Float(Option<String>),
    Boolean(bool),
    Datetime(String),
    Array(Vec<TomlValue>),
    Table(Vec<(String, TomlValue)>),
}

/// The mathematical content of a [`TomlValue`].
pub enum TomlView {
    Str(Seq<char>),
    Integer(i64),
    Float(Option<Seq<char>>),
    Boolean(bool),
    Datetime(Seq<char>),
    Array(Seq<TomlView>),
    Table(Seq<(Seq<char>, TomlView)>),
}

/// The view of a TOML value.
pub open spec fn toml_view(v: TomlValue) -> TomlView
    decreases v,
{
    match v {
        TomlValue::String(s) => TomlView::Str(s@),
        TomlValue::Integer(i) => TomlView::Integer(i),
        TomlValue::Float(f) => TomlView::Float(crate::text::opt_view(f)),
        TomlValue::Boolean(b) => TomlView::Boolean(b),
        TomlValue::Datetime(d) => TomlView::Datetime(d@),
        TomlValue::Array(a) => TomlView::Array(toml_array_view(a@)),
        TomlValue::Table(t) => TomlView::Table(toml_table_view(t@)),
    }
}

/// The views of the elements of a TOML array.
pub open spec fn toml_array_view(s: Seq<TomlValue>) -> Seq<TomlView>
    decreases s,
{
    if s.len() == 0 {
        Seq::empty()
    } else {
        toml_array_view(s.drop_last()).push(toml_view(s.last()))
    }
}

/// The views of the entries of a TOML table.
pub open spec fn toml_table_view(s: Seq<(String, TomlValue)>) -> Seq<(Seq<char>, TomlView)>
    decreases s,
{
    if s.len() == 0 {
        Seq::empty()
    } else {
        toml_table_view(s.drop_last()).push((s.last().0@, toml_view(s.last().1)))
    }
}

impl View for TomlValue {
    type V = TomlView;

    open spec fn view(&self) -> TomlView {
        toml_view(*self)
    }
}

#[verifier::external_body]
fn from_serde_json(v: serde_json::Value) -> JsonValue {
    match v {
        serde_json::Value::Null => JsonValue::Null,
        serde_json::Value::Bool(b) => JsonValue::Bool(b),
        serde_json::Value::Number(n) => JsonValue::Number(n.to_string()),
        serde_json::Value::String(s) => JsonValue::String(s),
        serde_json::Value::Array(a) => JsonValue::Array(a.into_iter().map(from_serde_json).collect()),
        serde_json::Value::Object(o) => JsonValue::Object(o.into_iter().map(|(k, v)| (k, from_serde_json(v))).collect()),
    }
}

#[verifier::external_body]
fn to_serde_json(v: &JsonValue) -> serde_json::Value {
    match v {
        JsonValue::Null => serde_json::Value::Null,
        JsonValue::Bool(b) => serde_json::Value::Bool(*b),
        JsonValue::Number(n) => n.parse::<serde_json::Number>().map(serde_json::Value::Number).unwrap_or(serde_json::Value::Null),
        JsonValue::String(s) => serde_json::Value::String(s.clone()),
        JsonValue::Array(a) => serde_json::Value::Array(a.iter().map(to_serde_json).collect()),
        JsonValue::Object(o) => serde_json::Value::Object(o.iter().map(|(k, v)| (k.clone(), to_serde_json(v))).collect()),
    }
}

#[verifier::external_body]
fn from_toml(v: toml::Value) -> TomlValue {
    match v {
        toml::Value::String(s) => TomlValue::String(s),
        toml::Value::Integer(i) => TomlValue::Integer(i),
        toml::Value::Float(f) => TomlValue::Float(serde_json::Number::from_f64(f).map(|n| n.to_string())),
        toml::Value::Boolean(b) => TomlValue::Boolean(b),
        toml::Value::Datetime(d) => TomlValue::Datetime(d.to_string()),
        toml::Value::Array(a) => TomlValue::Array(a.into_iter().map(from_toml).collect()),
        toml::Value::Table(t) => TomlValue::Table(t.into_iter().map(|(k, v)| (k, from_toml(v))).collect()),
    }
}

/// Reads a JSON text with `serde_json::from_str`. Claims that the result is
/// what serde_json makes of the text, that an error comes exactly when
/// serde_json rejects it (the message is serde_json's), and that the value is
/// canonical: serde_json's `Map` is a `BTreeMap` (the `preserve_order`
/// feature is off), so object keys come once each, in increasing order.
#[verifier::external_body]
pub(crate) fn parse_json_text(text: &str) -> (r: Result<JsonValue, String>)
    ensures
        r is Ok <==> serde_json_parse(text@) is Some,
        r matches Ok(v) ==> serde_json_parse(text@) == Some(v@),
        r matches Ok(v) ==> canonical(v@),
{
    serde_json::from_str::<serde_json::Value>(text).map(from_serde_json).map_err(|e| e.to_string())
}

/// Prints a value as compact JSON with serde_json's `Display`. Claims only
/// that the result is what serde_json prints for the value.
#[verifier::external_body]
pub(crate) fn json_compact(v: &JsonValue) -> (r: String)
    ensures
        r@ == serde_json_compact(v@),
{
    to_serde_json(v).to_string()
}

/// Prints a value with `serde_json::to_string_pretty`. Claims only that the
/// result is what serde_json prints, and that an error comes exactly when it fails.
#[verifier::external_body]
pub(crate) fn json_pretty(v: &JsonValue) -> (r: Result<String, String>)
    ensures
        r is Ok <==> serde_json_pretty(v@) is Some,
        r matches Ok(s) ==> serde_json_pretty(v@) == Some(s@),
{
    serde_json::to_string_pretty(&to_serde_json(v)).map_err(|e| e.to_string())
}

/// Reads a YAML text into a JSON value with `serde_yaml::from_str`. Claims
/// that the result is what serde_yaml makes of the text, that an error comes
/// exactly when serde_yaml rejects it, and that the value is canonical (it is
/// a `serde_json::Value`, whose maps are `BTreeMap`s).
#[verifier::external_body]
pub(crate) fn parse_yaml_text(text: &str) -> (r: Result<JsonValue, String>)
    ensures
        r is Ok <==> serde_yaml_parse(text@) is Some,
        r matches Ok(v) ==> serde_yaml_parse(text@) == Some(v@),
        r matches Ok(v) ==> canonical(v@),
{
    serde_yaml::from_str::<serde_json::Value>(text).map(from_serde_json).map_err(|e| e.to_string())
}

/// Prints a value as YAML with `serde_yaml::to_string`. Claims only that the
/// result is what serde_yaml prints, and that an error comes exactly when it fails.
#[verifier::external_body]
pub(crate) fn yaml_print(v: &JsonValue) -> (r: Result<String, String>)
    ensures
        r is Ok <==> serde_yaml_print(v@) is Some,
        r matches Ok(s) ==> serde_yaml_print(v@) == Some(s@),
{
    serde_yaml::to_string(&to_serde_json(v)).map_err(|e| e.to_string())
}

/// Reads a text with `serde_yaml::from_str::<serde_yaml::Value>` and tells
/// whether the value is a mapping (`Value::is_mapping`). Claims only that the
/// result is what serde_yaml gives.
#[verifier::external_body]
pub(crate) fn yaml_mapping_probe(text: &str) -> (r: Option<bool>)
    ensures
        r == serde_yaml_mapping(text@),
{
    serde_yaml::from_str::<serde_yaml::Value>(text).ok().map(|v| v.is_mapping())
}

/// Reads a TOML document with the `toml` crate (`str::parse::<toml::Value>`).
/// Claims only that the result is what `toml` makes of the text, and that an
/// error comes exactly when `toml` rejects it.
#[verifier::external_body]
pub(crate) fn parse_toml_text(text: &str) -> (r: Result<TomlValue, String>)
    ensures
        r is Ok <==> toml_parse(text@) is Some,
        r matches Ok(v) ==> toml_parse(text@) == Some(v@),
{
    text.parse::<toml::Value>().map(from_toml).map_err(|e| e.to_string())
}

/// Reads a TOML document with the `toml` crate and prints the `toml::Value`
/// with `serde_json::to_string`. Claims only that the result is what the two
/// calls give, and that an error comes exactly when either fails.
#[verifier::external_body]
pub(crate) fn toml_document_json(text: &str) -> (r: Result<String, String>)
    ensures
        r is Ok <==> toml_as_json_text(text@) is Some,
        r matches Ok(s) ==> toml_as_json_text(text@) == Some(s@),
{
    let value = text.parse::<toml::Value>().map_err(|e| e.to_string())?;
    serde_json::to_string(&value).map_err(|e| e.to_string())
}

/// Builds a `toml::Value` from a JSON value with `serde_json::from_value` and
/// prints it with `toml::to_string_pretty`. Claims only that the result is
/// what the two calls give, and that an error comes exactly when either fails.
#[verifier::external_body]
pub(crate) fn toml_pretty(v: &JsonValue) -> (r: Result<String, String>)
    ensures
        r is Ok <==> toml_pretty_from_json(v@) is Some,
        r matches Ok(s) ==> toml_pretty_from_json(v@) == Some(s@),
{
    let value: toml::Value = serde_json::from_value(to_serde_json(v)).map_err(|e| e.to_string())?;
    toml::to_string_pretty(&value).map_err(|e| e.to_string())
}

/// A value printed as pretty JSON, as serde_json prints it; an error when
/// serde_json cannot print it.
pub fn pretty_json(v: &JsonValue) -> (r: Result<String, String>)
    ensures
        r is Ok <==> serde_json_pretty(v@) is Some,
        r matches Ok(s) ==> serde_json_pretty(v@) == Some(s@),
{
    json_pretty(v)
}

} // verus!
