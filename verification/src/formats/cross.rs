//! Diffing documents of different formats (JSON, TOML, YAML) through the JSON
//! values they stand for.
use vstd::prelude::*;

use crate::codec::{parse_json_text, parse_toml_text, parse_yaml_text, serde_json_parse, serde_yaml_parse};
use crate::error::GudfError;
use crate::format::{FormatKind, FormatKindView};
use crate::formats::json::{
    diff_json_values, law_different_values_report_difference, parsed_diff_ok, reports_difference, unchanged_at,
};
use crate::formats::toml::{toml_doc_json, toml_to_json};
use crate::result::{count_kind, ChangeKind, ChangeView, DiffResult};
use crate::text::{has_prefix, push_str, str_eq, to_lowercase, unicode_lowercase};
use crate::value::{canonical, JsonValue, JsonView};

verus! {

/// The formats that can be diffed against one another.
#[derive(Debug, Clone, Copy, PartialEq, Eq, Structural)]
pub enum CrossFormatKind {
    Json,
    Toml,
    Yaml,
}

/// The format named by an extension already in lower case.
pub open spec fn kind_of_lower_extension(ext: Seq<char>) -> Option<CrossFormatKind> {
    if ext == "json"@ {
        Some(CrossFormatKind::Json)
    } else if ext == "toml"@ {
        Some(CrossFormatKind::Toml)
    } else if ext == "yaml"@ || ext == "yml"@ {
        Some(CrossFormatKind::Yaml)
    } else {
        None
    }
}

/// What a text of the given format stands for as JSON; `None` when it cannot be read.
pub open spec fn cross_parse(kind: CrossFormatKind, text: Seq<char>) -> Option<JsonView> {
    match kind {
        CrossFormatKind::Json => serde_json_parse(text),
        CrossFormatKind::Toml => toml_doc_json(text),
        CrossFormatKind::Yaml => serde_yaml_parse(text),
    }
}

/// The prefix of a parse error message for a format.
pub open spec fn cross_error_prefix(kind: CrossFormatKind) -> Seq<char> {
    match kind {
        CrossFormatKind::Json => "JSON: "@,
        CrossFormatKind::Toml => "TOML: "@,
        CrossFormatKind::Yaml => "YAML: "@,
    }
}

fn prefixed(prefix: &str, message: String) -> (r: String)
    ensures
        r@ == prefix@ + message@,
{
    let mut r = String::new();
    push_str(&mut r, prefix);
    push_str(&mut r, message.as_str());
    r
}

impl CrossFormatKind {
    /// The format named by a file extension, in any case: `json`, `toml`,
    /// `yaml` or `yml`.
    pub fn from_extension(ext: &str) -> (r: Option<CrossFormatKind>)
        ensures
            r == kind_of_lower_extension(unicode_lowercase(ext@)),
    {
        let lower = to_lowercase(ext);
        proof {
            reveal_strlit("json");
            reveal_strlit("toml");
            reveal_strlit("yaml");
            reveal_strlit("yml");
        }
        if str_eq(lower.as_str(), "json") {
            Some(CrossFormatKind::Json)
        } else if str_eq(lower.as_str(), "toml") {
            Some(CrossFormatKind::Toml)
        } else if str_eq(lower.as_str(), "yaml") || str_eq(lower.as_str(), "yml") {
            Some(CrossFormatKind::Yaml)
        } else {
            None
        }
    }

    /// Reads a text of this format as the JSON value it stands for. A text
    /// that cannot be read gives a parse error whose message names the format.
    pub fn parse_to_json(&self, content: &str) -> (r: Result<JsonValue, GudfError>)
        ensures
            match cross_parse(*self, content@) {
                Some(v) => r matches Ok(j) && j@ == v,
                None => r matches Err(GudfError::ParseError(m)) && has_prefix(m@, cross_error_prefix(*self)),
            },
    {
        match self {
            CrossFormatKind::Json => match parse_json_text(content) {
                Ok(v) => Ok(v),
                Err(e) => {
                    let m = prefixed("JSON: ", e);
                    proof { reveal_strlit("JSON: "); }
                    assert(m@.subrange(0, 6) =~= "JSON: "@);
                    Err(GudfError::ParseError(m))
                },
            },
            CrossFormatKind::Toml => match parse_toml_text(content) {
                Ok(v) => Ok(toml_to_json(&v)),
                Err(e) => {
                    let m = prefixed("TOML: ", e);
                    proof { reveal_strlit("TOML: "); }
                    assert(m@.subrange(0, 6) =~= "TOML: "@);
                    Err(GudfError::ParseError(m))
                },
            },
            CrossFormatKind::Yaml => match parse_yaml_text(content) {
                Ok(v) => Ok(v),
                Err(e) => {
                    let m = prefixed("YAML: ", e);
                    proof { reveal_strlit("YAML: "); }
                    assert(m@.subrange(0, 6) =~= "YAML: "@);
                    Err(GudfError::ParseError(m))
                },
            },
        }
    }
}

/// Diffs two documents of possibly different formats through the JSON values
/// they stand for; the result's format is JSON.
pub fn diff_cross(old: &str, old_kind: CrossFormatKind, new: &str, new_kind: CrossFormatKind) -> (r: Result<DiffResult, GudfError>)
    ensures
        parsed_diff_ok(cross_parse(old_kind, old@), cross_parse(new_kind, new@), r, FormatKindView::Json),
{
    let old_json = match old_kind.parse_to_json(old) {
        Ok(v) => v,
        Err(e) => return Err(e),
    };
    let new_json = match new_kind.parse_to_json(new) {
        Ok(v) => v,
        Err(e) => return Err(e),
    };
    let changes = diff_json_values(&old_json, &new_json);
    Ok(DiffResult::from_changes(changes, FormatKind::Json))
}

/// Two documents, of any two formats, that read as the same value differ in
/// nothing but their format: their diff holds only one unchanged entry, for
/// the root, and counts no addition, deletion or modification.
pub proof fn law_same_content_no_differences(
    old_kind: CrossFormatKind,
    old: Seq<char>,
    new_kind: CrossFormatKind,
    new: Seq<char>,
    r: Result<DiffResult, GudfError>,
)
    requires
        cross_parse(old_kind, old) is Some,
        cross_parse(new_kind, new) == cross_parse(old_kind, old),
        parsed_diff_ok(cross_parse(old_kind, old), cross_parse(new_kind, new), r, FormatKindView::Json),
    ensures
        r matches Ok(d) && d@.changes.len() == 1 && d@.changes[0].kind == ChangeKind::Unchanged
            && d.stats.additions == 0 && d.stats.deletions == 0 && d.stats.modifications == 0,
{
    let v = cross_parse(old_kind, old).unwrap();
    let d = r.unwrap();
    assert(d@.changes =~= seq![unchanged_at(v, v, Seq::empty())]);
    assert(d@.changes.drop_last() =~= Seq::<ChangeView>::empty());
    reveal_with_fuel(count_kind, 2);
}

/// Two documents, of any two formats, that read as different values are
/// reported as different: some change of their diff is not `Unchanged`.
pub proof fn law_changed_content_reported(
    old_kind: CrossFormatKind,
    old: Seq<char>,
    new_kind: CrossFormatKind,
    new: Seq<char>,
    r: Result<DiffResult, GudfError>,
)
    requires
        cross_parse(old_kind, old) matches Some(a) && canonical(a),
        cross_parse(new_kind, new) matches Some(b) && canonical(b),
        cross_parse(old_kind, old) != cross_parse(new_kind, new),
        parsed_diff_ok(cross_parse(old_kind, old), cross_parse(new_kind, new), r, FormatKindView::Json),
    ensures
        r matches Ok(d) && reports_difference(d@.changes),
{
    law_different_values_report_difference(
        cross_parse(old_kind, old).unwrap(),
        cross_parse(new_kind, new).unwrap(),
        Seq::empty(),
    );
}

} // verus!
