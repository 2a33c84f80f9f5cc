//! TOML documents, diffed as the JSON values they stand for.
use vstd::prelude::*;

use crate::codec::{parse_toml_text, toml_array_view, toml_parse, toml_table_view, toml_view, TomlValue, TomlView};
use crate::error::GudfError;
use crate::format::{Format, FormatKind, FormatKindView};
use crate::formats::json::{diff_json_values, parsed_diff_ok};
use crate::result::DiffResult;
use crate::text::{copy_string, signed_decimal, signed_decimal_string};
use crate::value::{array_view, json_view, lemma_array_view, lemma_object_view, object_view, JsonValue, JsonView};

verus! {

/// The JSON value a TOML value stands for: integers as their decimal text,
/// floats as serde_json renders them (`null` when not finite), datetimes as
/// strings, arrays and tables element by element.
pub open spec fn toml_json(v: TomlView) -> JsonView
    decreases v,
{
    match v {
        TomlView::Str(s) => JsonView::Str(s),
        TomlView::Integer(i) => JsonView::Number(signed_decimal(i as int)),
        TomlView::Float(f) => match f {
            Some(t) => JsonView::Number(t),
            None => JsonView::Null,
        },
        TomlView::Boolean(b) => JsonView::Bool(b),
        TomlView::Datetime(d) => JsonView::Str(d),
        TomlView::Array(a) => JsonView::Array(toml_json_array(a)),
        TomlView::Table(t) => JsonView::Object(toml_json_table(t)),
    }
}

/// [`toml_json`] of each element.
pub open spec fn toml_json_array(a: Seq<TomlView>) -> Seq<JsonView>
    decreases a,
{
    if a.len() == 0 {
        Seq::empty()
    } else {
        toml_json_array(a.drop_last()).push(toml_json(a.last()))
    }
}

/// [`toml_json`] of each entry's value, keys kept.
pub open spec fn toml_json_table(t: Seq<(Seq<char>, TomlView)>) -> Seq<(Seq<char>, JsonView)>
    decreases t,
{
    if t.len() == 0 {
        Seq::empty()
    } else {
        toml_json_table(t.drop_last()).push((t.last().0, toml_json(t.last().1)))
    }
}

/// What a TOML text stands for as JSON; `None` when `toml` rejects it.
pub open spec fn toml_doc_json(text: Seq<char>) -> Option<JsonView> {
    match toml_parse(text) {
        Some(t) => Some(toml_json(t)),
        None => None,
    }
}

proof fn lemma_toml_json_array(a: Seq<TomlView>)
    ensures
        toml_json_array(a).len() == a.len(),
        forall|i: int| 0 <= i < a.len() ==> #[trigger] toml_json_array(a)[i] == toml_json(a[i]),
    decreases a.len(),
{
    if a.len() > 0 {
        lemma_toml_json_array(a.drop_last());
    }
}

proof fn lemma_toml_json_table(t: Seq<(Seq<char>, TomlView)>)
    ensures
        toml_json_table(t).len() == t.len(),
        forall|i: int| 0 <= i < t.len() ==> #[trigger] toml_json_table(t)[i] == (t[i].0, toml_json(t[i].1)),
    decreases t.len(),
{
    if t.len() > 0 {
        lemma_toml_json_table(t.drop_last());
    }
}

proof fn lemma_toml_array_view(s: Seq<TomlValue>)
    ensures
        toml_array_view(s).len() == s.len(),
        forall|i: int| 0 <= i < s.len() ==> #[trigger] toml_array_view(s)[i] == toml_view(s[i]),
    decreases s.len(),
{
    if s.len() > 0 {
        lemma_toml_array_view(s.drop_last());
    }
}

proof fn lemma_toml_table_view(s: Seq<(String, TomlValue)>)
    ensures
        toml_table_view(s).len() == s.len(),
        forall|i: int| 0 <= i < s.len() ==> #[trigger] toml_table_view(s)[i] == (s[i].0@, toml_view(s[i].1)),
    decreases s.len(),
{
    if s.len() > 0 {
        lemma_toml_table_view(s.drop_last());
    }
}

/// The JSON value that a TOML value stands for.
#[verifier::loop_isolation(false)]
pub fn toml_to_json(value: &TomlValue) -> (r: JsonValue)
    ensures
        r@ == toml_json(value@),
    decreases value,
{
    match value {
        TomlValue::String(s) => JsonValue::String(copy_string(s)),
        TomlValue::Integer(i) => JsonValue::Number(signed_decimal_string(*i)),
        TomlValue::Float(f) => match f {
            Some(t) => JsonValue::Number(copy_string(t)),
            None => JsonValue::Null,
        },
        TomlValue::Boolean(b) => JsonValue::Bool(*b),
        TomlValue::Datetime(d) => JsonValue::String(copy_string(d)),
        TomlValue::Array(a) => {
            let ghost tv = toml_array_view(a@);
            proof {
                lemma_toml_array_view(a@);
                lemma_toml_json_array(tv);
            }
            let mut out: Vec<JsonValue> = Vec::new();
            let mut i: usize = 0;
            while i < a.len()
                invariant
                    i <= a.len(),
                    tv == toml_array_view(a@),
                    tv.len() == a@.len(),
                    forall|k: int| 0 <= k < a@.len() ==> #[trigger] tv[k] == toml_view(a@[k]),
                    out@.len() == i,
                    forall|k: int| 0 <= k < i ==> #[trigger] json_view(out@[k]) == toml_json(tv[k]),
                decreases a.len() - i,
            {
                proof {
                    assert(decreases_to!(*value => a@[i as int]));
                }
                let e = toml_to_json(&a[i]);
                out.push(e);
                i = i + 1;
            }
            proof {
                lemma_array_view(out@);
                assert(array_view(out@) =~= toml_json_array(tv));
            }
            JsonValue::Array(out)
        },
        TomlValue::Table(t) => {
            let ghost tv = toml_table_view(t@);
            proof {
                lemma_toml_table_view(t@);
                lemma_toml_json_table(tv);
            }
            let mut out: Vec<(String, JsonValue)> = Vec::new();
            let mut i: usize = 0;
            while i < t.len()
                invariant
                    i <= t.len(),
                    tv == toml_table_view(t@),
                    tv.len() == t@.len(),
                    forall|k: int| 0 <= k < t@.len() ==> #[trigger] tv[k] == (t@[k].0@, toml_view(t@[k].1)),
                    out@.len() == i,
                    forall|k: int| 0 <= k < i ==> (#[trigger] out@[k]).0@ == tv[k].0 && json_view(out@[k].1) == toml_json(tv[k].1),
                decreases t.len() - i,
            {
                proof {
                    assert(decreases_to!(*value => t@[i as int].1));
                }
                let e = toml_to_json(&t[i].1);
                out.push((copy_string(&t[i].0), e));
                i = i + 1;
            }
            proof {
                lemma_object_view(out@);
                assert(object_view(out@) =~= toml_json_table(tv));
            }
            JsonValue::Object(out)
        },
    }
}

/// Diffs TOML documents as the JSON values they stand for.
pub struct TomlFormat;

impl Format for TomlFormat {
    open spec fn format_kind(&self) -> FormatKindView {
        FormatKindView::Toml
    }

    open spec fn diff_result(&self, old: Seq<char>, new: Seq<char>, r: Result<DiffResult, GudfError>) -> bool {
        parsed_diff_ok(toml_doc_json(old), toml_doc_json(new), r, FormatKindView::Toml)
    }

    fn kind(&self) -> (r: FormatKind) {
        FormatKind::Toml
    }

    fn diff(&self, old: &str, new: &str) -> (r: Result<DiffResult, GudfError>) {
        let old_toml = match parse_toml_text(old) {
            Ok(v) => v,
            Err(e) => return Err(GudfError::ParseError(e)),
        };
        let new_toml = match parse_toml_text(new) {
            Ok(v) => v,
            Err(e) => return Err(GudfError::ParseError(e)),
        };
        let old_json = toml_to_json(&old_toml);
        let new_json = toml_to_json(&new_toml);
        let changes = diff_json_values(&old_json, &new_json);
        Ok(DiffResult::from_changes(changes, FormatKind::Toml))
    }
}

} // verus!
