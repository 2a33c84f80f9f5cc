//! JSON Patch output (RFC 6902): operations on JSON Pointer paths.
use vstd::prelude::*;

use crate::codec::{json_pretty, parse_json_text, serde_json_parse, serde_json_pretty};
use crate::output::OutputFormatter;
use crate::path::{json_pointer_spec, to_json_pointer};
use crate::result::{changes_view, Change, ChangeKind, ChangeView, DiffResult, DiffResultView};
use crate::text::{opt_or_empty, opt_str, owned};
use crate::value::{array_view, json_string, lemma_array_view, object_of2, object_of3, JsonValue, JsonView};

verus! {

/// A diff path as a JSON Pointer (RFC 6901, see [`json_pointer_spec`]):
/// `items[1].name` is `/items/1/name`; the root is the empty pointer.
pub open spec fn pointer_path(path: Seq<char>) -> Seq<char> {
    json_pointer_spec(path)
}

/// A text read as JSON, or `null` when it is missing or does not read.
pub open spec fn parsed_or_null(s: Option<Seq<char>>) -> JsonView {
    match s {
        Some(t) => match serde_json_parse(t) {
            Some(v) => v,
            None => JsonView::Null,
        },
        None => JsonView::Null,
    }
}

/// The operation for one change: `add` and `replace` carry the new value,
/// `remove` none; a move or a rename is a `move` from the old path to the new
/// one; an unchanged entry has none.
pub open spec fn patch_op(c: ChangeView) -> Option<JsonView> {
    let jp = pointer_path(opt_or_empty(c.path));
    match c.kind {
        ChangeKind::Added => Some(JsonView::Object(seq![
            ("op"@, JsonView::Str("add"@)), ("path"@, JsonView::Str(jp)), ("value"@, parsed_or_null(c.new_value))])),
        ChangeKind::Removed => Some(JsonView::Object(seq![("op"@, JsonView::Str("remove"@)), ("path"@, JsonView::Str(jp))])),
        ChangeKind::Modified => Some(JsonView::Object(seq![
            ("op"@, JsonView::Str("replace"@)), ("path"@, JsonView::Str(jp)), ("value"@, parsed_or_null(c.new_value))])),
        ChangeKind::Moved | ChangeKind::Renamed => Some(JsonView::Object(seq![
            ("from"@, JsonView::Str(jp)), ("op"@, JsonView::Str("move"@)),
            ("path"@, JsonView::Str(pointer_path(opt_or_empty(c.new_value))))])),
        ChangeKind::Unchanged => None,
    }
}

/// The operations for a list of changes, in order.
pub open spec fn patch_ops(cs: Seq<ChangeView>) -> Seq<JsonView>
    decreases cs.len(),
{
    if cs.len() == 0 {
        Seq::empty()
    } else {
        patch_ops(cs.drop_last()) + match patch_op(cs.last()) {
            Some(op) => seq![op],
            None => Seq::empty(),
        }
    }
}

/// A list of operations printed as pretty JSON, or `[]` when printing fails.
pub open spec fn pretty_or_empty(ops: Seq<JsonView>) -> Seq<char> {
    match serde_json_pretty(JsonView::Array(ops)) {
        Some(s) => s,
        None => "[]"@,
    }
}

/// Reads an optional text as JSON (see [`parsed_or_null`]).
pub fn parse_or_null(s: &Option<String>) -> (r: JsonValue)
    ensures
        r@ == parsed_or_null(crate::text::opt_view(*s)),
{
    match s {
        Some(t) => match parse_json_text(t.as_str()) {
            Ok(v) => v,
            Err(_) => JsonValue::Null,
        },
        None => JsonValue::Null,
    }
}

/// Prints operations (see [`pretty_or_empty`]).
pub fn print_ops(ops: Vec<JsonValue>) -> (r: String)
    ensures
        r@ == pretty_or_empty(array_view(ops@)),
{
    let arr = JsonValue::Array(ops);
    match json_pretty(&arr) {
        Ok(s) => s,
        Err(_) => owned("[]"),
    }
}

fn pointer_of(path: &str) -> (r: String)
    ensures
        r@ == pointer_path(path@),
{
    to_json_pointer(path)
}

/// Renders diffs as JSON Patch documents.
pub struct JsonPatchFormatter;

impl OutputFormatter for JsonPatchFormatter {
    open spec fn rendering(&self, result: DiffResultView) -> Seq<char> {
        pretty_or_empty(patch_ops(result.changes))
    }

    fn format(&self, result: &DiffResult) -> (r: String) {
        let ghost cs = result@.changes;
        let mut ops: Vec<JsonValue> = Vec::new();
        let mut i: usize = 0;
        while i < result.changes.len()
            invariant
                i <= result.changes.len(),
                cs == changes_view(result.changes@),
                cs.len() == result.changes@.len(),
                array_view(ops@) == patch_ops(cs.take(i as int)),
            decreases result.changes.len() - i,
        {
            proof {
                assert(cs.take(i + 1).drop_last() =~= cs.take(i as int));
                assert(cs[i as int] == result.changes@[i as int]@);
                lemma_array_view(ops@);
            }
            let ghost before = array_view(ops@);
            let c = &result.changes[i];
            let jp = pointer_of(opt_str(&c.path));
            match c.kind {
                ChangeKind::Added => {
                    let op = object_of3("op", json_string("add"), "path", JsonValue::String(jp), "value", parse_or_null(&c.new_value));
                    ops.push(op);
                },
                ChangeKind::Removed => {
                    let op = object_of2("op", json_string("remove"), "path", JsonValue::String(jp));
                    ops.push(op);
                },
                ChangeKind::Modified => {
                    let op = object_of3("op", json_string("replace"), "path", JsonValue::String(jp), "value", parse_or_null(&c.new_value));
                    ops.push(op);
                },
                ChangeKind::Moved | ChangeKind::Renamed => {
                    let target = pointer_of(opt_str(&c.new_value));
                    let op = object_of3("from", JsonValue::String(jp), "op", json_string("move"), "path", JsonValue::String(target));
                    ops.push(op);
                },
                ChangeKind::Unchanged => {},
            }
            proof { lemma_array_view(ops@); }
            assert(array_view(ops@) =~= patch_ops(cs.take(i + 1)));
            i = i + 1;
        }
        assert(cs.take(i as int) =~= cs);
        print_ops(ops)
    }
}

} // verus!
