//! Applying a list of changes to a document to rebuild the new version.
use vstd::prelude::*;

use crate::codec::{
    json_compact, json_pretty, parse_json_text, parse_yaml_text, serde_json_compact, serde_json_parse, serde_json_pretty,
    serde_yaml_parse, serde_yaml_print, toml_as_json_text, toml_document_json, toml_pretty, toml_pretty_from_json,
    yaml_print,
};
use crate::error::GudfError;
use crate::format::{detect_format, detect_spec, FormatKind, FormatKindView};
use crate::formats::text::{
    cut_into_lines, line_change, new_lines, new_values, old_values, similar_line_changes, text_changes, text_diff_ok,
    LineTag,
};
use crate::result::{changes_view, Change, ChangeKind, ChangeView, DiffResult};
use crate::text::{
    chars_of, concat_all, concat_strings, copy_string, cut_lines, lemma_line_cuts, line_cuts, opt_or_empty, opt_str,
    opt_view, owned, parse_usize_range, parse_usize_spec, push_str, str_eq, string_from_range, views_of,
};
use crate::path::{parse_path, parse_seq, segments_view, PathSegment, SegmentView};
use crate::value::{
    array_view, entries_insert, entries_remove, entry_index, find_key, json_view, lemma_array_view, lemma_find_key,
    lemma_object_view, object_insert, object_remove, object_view, JsonValue, JsonView,
};

verus! {

/// A way to apply changes to a document of some format, for users to provide.
pub trait Patchable {
    /// Applies `changes` to `original`.
    fn apply(&self, original: &str, changes: &[Change]) -> Result<String, GudfError>;
}

// ── Text ───────────────────────────────────────────────────────────────

/// The lines while text changes are applied.
pub struct TextPatchState {
    pub lines: Seq<Seq<char>>,
}

/// The line index a change addresses. Locations count lines of the patched
/// text, as line diffs give them: an addition or a modification at line `L`
/// (from one) becomes line `L` of the result, so it addresses index `L - 1`;
/// a removal located after `L` lines of the result removes the line then at
/// index `L`. A change with no location addresses line zero; `None` when the
/// index falls before the first line.
pub open spec fn text_target(c: ChangeView) -> Option<nat> {
    match c.location {
        Some(l) => if c.kind == ChangeKind::Removed {
            Some(l.line as nat)
        } else if l.line >= 1 {
            Some((l.line - 1) as nat)
        } else {
            None
        },
        None => Some(0),
    }
}

/// One change applied to the lines: an addition inserts its new value, line
/// ending included, at the target when the target is at most the line
/// count; a removal removes the target line when there is one; a
/// modification, move or rename replaces the target line when there is one;
/// anything else does nothing.
pub open spec fn text_patch_step(st: TextPatchState, c: ChangeView) -> TextPatchState {
    let value = opt_or_empty(c.new_value);
    match text_target(c) {
        None => st,
        Some(t) => match c.kind {
            ChangeKind::Added => if t <= st.lines.len() {
                TextPatchState { lines: st.lines.insert(t as int, value) }
            } else {
                st
            },
            ChangeKind::Removed => if t < st.lines.len() {
                TextPatchState { lines: st.lines.remove(t as int) }
            } else {
                st
            },
            ChangeKind::Modified | ChangeKind::Moved | ChangeKind::Renamed => if t < st.lines.len() {
                TextPatchState { lines: st.lines.update(t as int, value) }
            } else {
                st
            },
            ChangeKind::Unchanged => st,
        },
    }
}

/// All changes applied in order to the lines of `original`.
pub open spec fn text_patch_lines(original: Seq<char>, cs: Seq<ChangeView>) -> TextPatchState
    decreases cs.len(),
{
    if cs.len() == 0 {
        TextPatchState { lines: line_cuts(original) }
    } else {
        text_patch_step(text_patch_lines(original, cs.drop_last()), cs.last())
    }
}

/// The patched text: the lines, each with its own ending, one after another.
pub open spec fn text_patch_spec(original: Seq<char>, cs: Seq<ChangeView>) -> Seq<char> {
    concat_all(text_patch_lines(original, cs).lines)
}

/// Applies line changes to a text (see [`text_patch_spec`]); this never fails.
pub fn patch_text(original: &str, changes: &[Change]) -> (r: Result<String, GudfError>)
    ensures
        r matches Ok(s) && s@ == text_patch_spec(original@, changes_view(changes@)),
{
    let ghost cs = changes_view(changes@);
    let mut lines = cut_lines(original);
    let mut i: usize = 0;
    while i < changes.len()
        invariant
            i <= changes.len(),
            cs == changes_view(changes@),
            cs.len() == changes@.len(),
            views_of(lines@) == text_patch_lines(original@, cs.take(i as int)).lines,
        decreases changes.len() - i,
    {
        proof {
            assert(cs.take(i + 1).drop_last() =~= cs.take(i as int));
            assert(cs[i as int] == changes@[i as int]@);
        }
        let c = &changes[i];
        let target: i128 = match c.location {
            Some(l) => if c.kind == ChangeKind::Removed { l.line as i128 } else { l.line as i128 - 1 },
            None => 0,
        };
        if target >= 0 {
            let ghost before = views_of(lines@);
            match c.kind {
                ChangeKind::Added => {
                    if target <= lines.len() as i128 {
                        let value = owned(opt_str(&c.new_value));
                        let ghost vv = value@;
                        lines.insert(target as usize, value);
                        assert(views_of(lines@) =~= before.insert(target as int, vv));
                    }
                },
                ChangeKind::Removed => {
                    if target < lines.len() as i128 {
                        let _ = lines.remove(target as usize);
                        assert(views_of(lines@) =~= before.remove(target as int));
                    }
                },
                ChangeKind::Modified | ChangeKind::Moved | ChangeKind::Renamed => {
                    if target < lines.len() as i128 {
                        let value = owned(opt_str(&c.new_value));
                        let ghost vv = value@;
                        lines.set(target as usize, value);
                        assert(views_of(lines@) =~= before.update(target as int, vv));
                    }
                },
                ChangeKind::Unchanged => {},
            }
        }
        i = i + 1;
    }
    assert(cs.take(i as int) =~= cs);
    Ok(concat_strings(&lines))
}

// ── JSON ───────────────────────────────────────────────────────────────

/// A step of a path as patching reads it: a key or an array index.
#[derive(Debug)]
pub enum PathPart {
    Key(String),
    Index(usize),
}

/// The mathematical content of a [`PathPart`].
pub enum PartView {
    Key(Seq<char>),
    Index(nat),
}

impl View for PathPart {
    type V = PartView;

    open spec fn view(&self) -> PartView {
        match self {
            PathPart::Key(k) => PartView::Key(k@),
            PathPart::Index(i) => PartView::Index(*i as nat),
        }
    }
}

/// A path segment as patching reads it.
pub open spec fn part_of(seg: SegmentView) -> PartView {
    match seg {
        SegmentView::Key(k) => PartView::Key(k),
        SegmentView::Index(n) => PartView::Index(n as nat),
    }
}

/// The parts of a path, read as [`parse_seq`] reads paths: dotted keys,
/// indices in brackets and bracket-quoted keys.
pub open spec fn patch_parts(path: Seq<char>) -> Seq<PartView> {
    parse_seq(path).map_values(|seg: SegmentView| part_of(seg))
}

/// Reads a path into parts (see [`patch_parts`]).
pub fn parse_patch_path(path: &str) -> (parts: Vec<PathPart>)
    ensures
        parts@.map_values(|p: PathPart| p@) == patch_parts(path@),
{
    let segs = parse_path(path);
    let ghost sv = segments_view(segs@);
    let mut parts: Vec<PathPart> = Vec::new();
    let mut i: usize = 0;
    while i < segs.len()
        invariant
            i <= segs.len(),
            sv == segments_view(segs@),
            sv == parse_seq(path@),
            parts@.map_values(|p: PathPart| p@) == sv.take(i as int).map_values(|seg: SegmentView| part_of(seg)),
        decreases segs.len() - i,
    {
        let ghost before = parts@.map_values(|p: PathPart| p@);
        assert(sv[i as int] == segs@[i as int]@);
        let seg = &segs[i];
        let part = match seg {
            PathSegment::Key(k) => PathPart::Key(copy_string(k)),
            PathSegment::Index(n) => PathPart::Index(*n),
        };
        assert(part@ == part_of(seg@));
        parts.push(part);
        assert(parts@.map_values(|p: PathPart| p@) =~= before.push(part_of(sv[i as int])));
        i = i + 1;
        assert(parts@.map_values(|p: PathPart| p@) =~= sv.take(i as int).map_values(|seg: SegmentView| part_of(seg)));
    }
    assert(sv.take(i as int) =~= sv);
    parts
}

/// Why a path could not be followed.
#[derive(Debug, Clone, Copy, PartialEq, Eq, Structural)]
pub enum PathFailure {
    CannotSet,
    CannotRemove,
    NotFound,
    OutOfBounds,
}

/// The message for a failure at `path`.
pub open spec fn failure_message(f: PathFailure, path: Seq<char>) -> Seq<char> {
    match f {
        PathFailure::CannotSet => "Cannot set value at path: "@ + path,
        PathFailure::CannotRemove => "Cannot remove at path: "@ + path,
        PathFailure::NotFound => "Path not found: "@ + path,
        PathFailure::OutOfBounds => "Index out of bounds: "@ + path,
    }
}

/// The value with `new` placed at `parts`: the last part sets a key of an
/// object or an existing index of an array; each earlier part must lead to
/// an existing key or index.
pub open spec fn set_at(v: JsonView, parts: Seq<PartView>, new: JsonView) -> Result<JsonView, PathFailure>
    decreases parts.len(),
{
    if parts.len() == 0 {
        Ok(v)
    } else if parts.len() == 1 {
        match parts[0] {
            PartView::Key(k) => match v {
                JsonView::Object(es) => Ok(JsonView::Object(object_insert(es, k, new))),
                _ => Err(PathFailure::CannotSet),
            },
            PartView::Index(i) => match v {
                JsonView::Array(a) => if i < a.len() {
                    Ok(JsonView::Array(a.update(i as int, new)))
                } else if i == a.len() {
                    Ok(JsonView::Array(a.push(new)))
                } else {
                    Err(PathFailure::CannotSet)
                },
                _ => Err(PathFailure::CannotSet),
            },
        }
    } else {
        match parts[0] {
            PartView::Key(k) => match v {
                JsonView::Object(es) => match find_key(es, k) {
                    Some(j) => match set_at(es[j].1, parts.drop_first(), new) {
                        Ok(c) => Ok(JsonView::Object(es.update(j, (k, c)))),
                        Err(e) => Err(e),
                    },
                    None => Err(PathFailure::NotFound),
                },
                _ => Err(PathFailure::NotFound),
            },
            PartView::Index(i) => match v {
                JsonView::Array(a) => if i < a.len() {
                    match set_at(a[i as int], parts.drop_first(), new) {
                        Ok(c) => Ok(JsonView::Array(a.update(i as int, c))),
                        Err(e) => Err(e),
                    }
                } else {
                    Err(PathFailure::OutOfBounds)
                },
                _ => Err(PathFailure::OutOfBounds),
            },
        }
    }
}

/// The value with the entry at `parts` removed: the last part removes a key
/// of an object (present or not) or an existing index of an array; each
/// earlier part must lead to an existing key or index.
pub open spec fn remove_at(v: JsonView, parts: Seq<PartView>) -> Result<JsonView, PathFailure>
    decreases parts.len(),
{
    if parts.len() == 0 {
        Ok(v)
    } else if parts.len() == 1 {
        match parts[0] {
            PartView::Key(k) => match v {
                JsonView::Object(es) => Ok(JsonView::Object(object_remove(es, k))),
                _ => Err(PathFailure::CannotRemove),
            },
            PartView::Index(i) => match v {
                JsonView::Array(a) => if i < a.len() { Ok(JsonView::Array(a.remove(i as int))) } else { Err(PathFailure::CannotRemove) },
                _ => Err(PathFailure::CannotRemove),
            },
        }
    } else {
        match parts[0] {
            PartView::Key(k) => match v {
                JsonView::Object(es) => match find_key(es, k) {
                    Some(j) => match remove_at(es[j].1, parts.drop_first()) {
                        Ok(c) => Ok(JsonView::Object(es.update(j, (k, c)))),
                        Err(e) => Err(e),
                    },
                    None => Err(PathFailure::NotFound),
                },
                _ => Err(PathFailure::NotFound),
            },
            PartView::Index(i) => match v {
                JsonView::Array(a) => if i < a.len() {
                    match remove_at(a[i as int], parts.drop_first()) {
                        Ok(c) => Ok(JsonView::Array(a.update(i as int, c))),
                        Err(e) => Err(e),
                    }
                } else {
                    Err(PathFailure::OutOfBounds)
                },
                _ => Err(PathFailure::OutOfBounds),
            },
        }
    }
}

/// The views of a list of parts.
pub open spec fn parts_view(parts: Seq<PathPart>) -> Seq<PartView> {
    parts.map_values(|p: PathPart| p@)
}

/// Places `new` at `parts[from..]` in `v` (see [`set_at`]).
pub fn set_json_path(v: JsonValue, parts: &Vec<PathPart>, from: usize, new: JsonValue) -> (r: Result<JsonValue, PathFailure>)
    requires
        from <= parts.len(),
    ensures
        match set_at(v@, parts_view(parts@).skip(from as int), new@) {
            Ok(x) => r matches Ok(y) && y@ == x,
            Err(e) => r == Err::<JsonValue, PathFailure>(e),
        },
    decreases parts.len() - from,
{
    let ghost ps = parts_view(parts@).skip(from as int);
    if from == parts.len() {
        return Ok(v);
    }
    assert(ps[0] == parts@[from as int]@);
    assert(ps.drop_first() =~= parts_view(parts@).skip(from + 1));
    let last = from + 1 == parts.len();
    match &parts[from] {
        PathPart::Key(k) => match v {
            JsonValue::Object(es) => {
                let mut es = es;
                let ghost before = object_view(es@);
                proof {
                    lemma_object_view(es@);
                    lemma_find_key(before, k@);
                }
                if last {
                    entries_insert(&mut es, copy_string(k), new);
                    return Ok(JsonValue::Object(es));
                }
                let n = es.len();
                match entry_index(&es, k.as_str()) {
                    Some(j) => {
                        let (key, child) = es.remove(j);
                        assert(before[j as int] == (key@, child@));
                        match set_json_path(child, parts, from + 1, new) {
                            Ok(c) => {
                                let ghost cv = c@;
                                let ghost kv = key@;
                                es.insert(j, (key, c));
                                proof { lemma_object_view(es@); }
                                assert(object_view(es@) =~= before.update(j as int, (kv, cv)));
                                Ok(JsonValue::Object(es))
                            },
                            Err(e) => Err(e),
                        }
                    },
                    None => Err(PathFailure::NotFound),
                }
            },
            _ => if last { Err(PathFailure::CannotSet) } else { Err(PathFailure::NotFound) },
        },
        PathPart::Index(idx) => match v {
            JsonValue::Array(a) => {
                let mut a = a;
                let ghost before = array_view(a@);
                proof { lemma_array_view(a@); }
                if last && *idx == a.len() {
                    let ghost nv = new@;
                    a.push(new);
                    proof { lemma_array_view(a@); }
                    assert(array_view(a@) =~= before.push(nv));
                    return Ok(JsonValue::Array(a));
                }
                if *idx >= a.len() {
                    return if last { Err(PathFailure::CannotSet) } else { Err(PathFailure::OutOfBounds) };
                }
                if last {
                    let ghost nv = new@;
                    a.set(*idx, new);
                    proof { lemma_array_view(a@); }
                    assert(array_view(a@) =~= before.update(*idx as int, nv));
                    return Ok(JsonValue::Array(a));
                }
                let child = a.remove(*idx);
                match set_json_path(child, parts, from + 1, new) {
                    Ok(c) => {
                        let ghost cv = c@;
                        a.insert(*idx, c);
                        proof { lemma_array_view(a@); }
                        assert(array_view(a@) =~= before.update(*idx as int, cv));
                        Ok(JsonValue::Array(a))
                    },
                    Err(e) => Err(e),
                }
            },
            _ => if last { Err(PathFailure::CannotSet) } else { Err(PathFailure::OutOfBounds) },
        },
    }
}

/// Removes the entry at `parts[from..]` from `v` (see [`remove_at`]).
pub fn remove_json_path(v: JsonValue, parts: &Vec<PathPart>, from: usize) -> (r: Result<JsonValue, PathFailure>)
    requires
        from <= parts.len(),
    ensures
        match remove_at(v@, parts_view(parts@).skip(from as int)) {
            Ok(x) => r matches Ok(y) && y@ == x,
            Err(e) => r == Err::<JsonValue, PathFailure>(e),
        },
    decreases parts.len() - from,
{
    let ghost ps = parts_view(parts@).skip(from as int);
    if from == parts.len() {
        return Ok(v);
    }
    assert(ps[0] == parts@[from as int]@);
    assert(ps.drop_first() =~= parts_view(parts@).skip(from + 1));
    let last = from + 1 == parts.len();
    match &parts[from] {
        PathPart::Key(k) => match v {
            JsonValue::Object(es) => {
                let mut es = es;
                let ghost before = object_view(es@);
                proof {
                    lemma_object_view(es@);
                    lemma_find_key(before, k@);
                }
                if last {
                    entries_remove(&mut es, k.as_str());
                    return Ok(JsonValue::Object(es));
                }
                let n = es.len();
                match entry_index(&es, k.as_str()) {
                    Some(j) => {
                        let (key, child) = es.remove(j);
                        assert(before[j as int] == (key@, child@));
                        match remove_json_path(child, parts, from + 1) {
                            Ok(c) => {
                                let ghost cv = c@;
                                let ghost kv = key@;
                                es.insert(j, (key, c));
                                proof { lemma_object_view(es@); }
                                assert(object_view(es@) =~= before.update(j as int, (kv, cv)));
                                Ok(JsonValue::Object(es))
                            },
                            Err(e) => Err(e),
                        }
                    },
                    None => Err(PathFailure::NotFound),
                }
            },
            _ => if last { Err(PathFailure::CannotRemove) } else { Err(PathFailure::NotFound) },
        },
        PathPart::Index(idx) => match v {
            JsonValue::Array(a) => {
                let mut a = a;
                let ghost before = array_view(a@);
                proof { lemma_array_view(a@); }
                if *idx >= a.len() {
                    return if last { Err(PathFailure::CannotRemove) } else { Err(PathFailure::OutOfBounds) };
                }
                if last {
                    let _ = a.remove(*idx);
                    proof { lemma_array_view(a@); }
                    assert(array_view(a@) =~= before.remove(*idx as int));
                    return Ok(JsonValue::Array(a));
                }
                let child = a.remove(*idx);
                match remove_json_path(child, parts, from + 1) {
                    Ok(c) => {
                        let ghost cv = c@;
                        a.insert(*idx, c);
                        proof { lemma_array_view(a@); }
                        assert(array_view(a@) =~= before.update(*idx as int, cv));
                        Ok(JsonValue::Array(a))
                    },
                    Err(e) => Err(e),
                }
            },
            _ => if last { Err(PathFailure::CannotRemove) } else { Err(PathFailure::OutOfBounds) },
        },
    }
}

/// The value a change sets: its new value read as JSON, or `null` when it has
/// none or it does not read.
pub open spec fn change_json_value(c: ChangeView) -> JsonView {
    match c.new_value {
        Some(s) => match serde_json_parse(s) {
            Some(v) => v,
            None => JsonView::Null,
        },
        None => JsonView::Null,
    }
}

/// The path a change addresses when it is to be applied: not for unchanged
/// entries, nor for a missing path or the root `$`.
pub open spec fn change_target(c: ChangeView) -> Option<Seq<char>> {
    if c.kind == ChangeKind::Unchanged {
        None
    } else {
        match c.path {
            Some(p) => if p == "$"@ { None } else { Some(p) },
            None => None,
        }
    }
}

/// A change that puts a value in place of the whole document: any but a
/// removal or an unchanged entry, at the root `$`.
pub open spec fn replaces_root(c: ChangeView) -> bool {
    c.kind != ChangeKind::Unchanged && c.kind != ChangeKind::Removed && c.path == Some("$"@)
}

/// One change's setting step: an addition, modification, move or rename sets
/// its value at its path, or is the whole new document when its path is the
/// root; a removal or anything else leaves the value.
pub open spec fn json_set_step(v: JsonView, c: ChangeView) -> Result<JsonView, (PathFailure, Seq<char>)> {
    if replaces_root(c) {
        Ok(change_json_value(c))
    } else {
        json_set_at_target(v, c)
    }
}

/// The setting step of a change whose path is not the root.
pub open spec fn json_set_at_target(v: JsonView, c: ChangeView) -> Result<JsonView, (PathFailure, Seq<char>)> {
    match change_target(c) {
        Some(p) => if c.kind != ChangeKind::Removed {
            match set_at(v, patch_parts(p), change_json_value(c)) {
                Ok(x) => Ok(x),
                Err(f) => Err((f, p)),
            }
        } else {
            Ok(v)
        },
        None => Ok(v),
    }
}

/// One change's removing step: a removal removes its path; anything else
/// leaves the value.
pub open spec fn json_remove_step(v: JsonView, c: ChangeView) -> Result<JsonView, (PathFailure, Seq<char>)> {
    match change_target(c) {
        Some(p) => if c.kind == ChangeKind::Removed {
            match remove_at(v, patch_parts(p)) {
                Ok(x) => Ok(x),
                Err(f) => Err((f, p)),
            }
        } else {
            Ok(v)
        },
        None => Ok(v),
    }
}

/// The setting steps of all changes, in order; the first failure stops.
pub open spec fn json_patch_sets(v: JsonView, cs: Seq<ChangeView>) -> Result<JsonView, (PathFailure, Seq<char>)>
    decreases cs.len(),
{
    if cs.len() == 0 {
        Ok(v)
    } else {
        match json_patch_sets(v, cs.drop_last()) {
            Ok(x) => json_set_step(x, cs.last()),
            Err(e) => Err(e),
        }
    }
}

/// The removing steps of all changes, last change first, so that removals
/// from one array take the highest index first; the first failure stops.
pub open spec fn json_patch_removals(v: JsonView, cs: Seq<ChangeView>) -> Result<JsonView, (PathFailure, Seq<char>)>
    decreases cs.len(),
{
    if cs.len() == 0 {
        Ok(v)
    } else {
        match json_remove_step(v, cs.last()) {
            Ok(x) => json_patch_removals(x, cs.drop_last()),
            Err(e) => Err(e),
        }
    }
}

/// All changes applied: first every addition, modification, move and rename
/// in order, then every removal from the last to the first.
pub open spec fn json_patch_all(v: JsonView, cs: Seq<ChangeView>) -> Result<JsonView, (PathFailure, Seq<char>)> {
    match json_patch_sets(v, cs) {
        Ok(x) => json_patch_removals(x, cs),
        Err(e) => Err(e),
    }
}

/// What patching a document can come to.
pub enum PatchOutcome {
    /// The patched text.
    Done(Seq<char>),
    /// A document could not be read (a parse error).
    Unreadable,
    /// A path could not be followed (a patch error with this message).
    PathFailed(Seq<char>),
    /// The result could not be printed (a patch error).
    Unprintable,
}

/// `r` is the result that `o` describes.
pub open spec fn outcome_matches(r: Result<String, GudfError>, o: PatchOutcome) -> bool {
    match o {
        PatchOutcome::Done(s) => r matches Ok(x) && x@ == s,
        PatchOutcome::Unreadable => r matches Err(GudfError::ParseError(_)),
        PatchOutcome::PathFailed(m) => r matches Err(GudfError::PatchError(x)) && x@ == m,
        PatchOutcome::Unprintable => r matches Err(GudfError::PatchError(_)),
    }
}

/// Patching a JSON text: read it, apply every change, print the result pretty.
pub open spec fn json_patch_outcome(original: Seq<char>, cs: Seq<ChangeView>) -> PatchOutcome {
    match serde_json_parse(original) {
        None => PatchOutcome::Unreadable,
        Some(v) => match json_patch_all(v, cs) {
            Err(e) => PatchOutcome::PathFailed(failure_message(e.0, e.1)),
            Ok(x) => match serde_json_pretty(x) {
                Some(s) => PatchOutcome::Done(s),
                None => PatchOutcome::Unprintable,
            },
        },
    }
}

fn failure_text(f: PathFailure, path: &str) -> (r: String)
    ensures
        r@ == failure_message(f, path@),
{
    let mut m = match f {
        PathFailure::CannotSet => owned("Cannot set value at path: "),
        PathFailure::CannotRemove => owned("Cannot remove at path: "),
        PathFailure::NotFound => owned("Path not found: "),
        PathFailure::OutOfBounds => owned("Index out of bounds: "),
    };
    push_str(&mut m, path);
    m
}

proof fn lemma_patch_all_err(v: JsonView, cs: Seq<ChangeView>, n: int, e: (PathFailure, Seq<char>))
    requires
        0 <= n <= cs.len(),
        json_patch_sets(v, cs.take(n)) == Err::<JsonView, (PathFailure, Seq<char>)>(e),
    ensures
        json_patch_sets(v, cs) == Err::<JsonView, (PathFailure, Seq<char>)>(e),
    decreases cs.len() - n,
{
    if n < cs.len() {
        assert(cs.take(n + 1).drop_last() =~= cs.take(n));
        lemma_patch_all_err(v, cs, n + 1, e);
    } else {
        assert(cs.take(n) =~= cs);
    }
}

/// Applies changes to a JSON value (see [`json_patch_all`]); the error is the
/// failure and the path it came at.
pub fn patch_json_value(v: JsonValue, changes: &[Change]) -> (r: Result<JsonValue, (PathFailure, String)>)
    ensures
        match json_patch_all(v@, changes_view(changes@)) {
            Ok(x) => r matches Ok(y) && y@ == x,
            Err(e) => r matches Err(f) && f.0 == e.0 && f.1@ == e.1,
        },
{
    let ghost cs = changes_view(changes@);
    let mut value = v;
    let ghost v0 = v@;
    let mut i: usize = 0;
    assert(cs.take(0) =~= Seq::<ChangeView>::empty());
    while i < changes.len()
        invariant
            i <= changes.len(),
            cs == changes_view(changes@),
            cs.len() == changes@.len(),
            v0 == v@,
            json_patch_sets(v0, cs.take(i as int)) == Ok::<JsonView, (PathFailure, Seq<char>)>(value@),
        decreases changes.len() - i,
    {
        proof {
            assert(cs.take(i + 1).drop_last() =~= cs.take(i as int));
            assert(cs[i as int] == changes@[i as int]@);
            reveal_strlit("$");
        }
        let c = &changes[i];
        if c.kind != ChangeKind::Unchanged && c.kind != ChangeKind::Removed {
            let new_val = match &c.new_value {
                Some(s) => match parse_json_text(s.as_str()) {
                    Ok(x) => x,
                    Err(_) => JsonValue::Null,
                },
                None => JsonValue::Null,
            };
            match &c.path {
                Some(p) => {
                    if str_eq(p.as_str(), "$") {
                        value = new_val;
                    } else {
                        let parts = parse_patch_path(p.as_str());
                        assert(parts_view(parts@) == patch_parts(p@));
                        assert(parts_view(parts@).skip(0) =~= parts_view(parts@));
                        match set_json_path(value, &parts, 0, new_val) {
                            Ok(x) => value = x,
                            Err(f) => {
                                proof { lemma_patch_all_err(v0, cs, i + 1, (f, p@)); }
                                return Err((f, copy_string(p)));
                            },
                        }
                    }
                },
                None => {},
            }
        }
        i = i + 1;
    }
    assert(cs.take(i as int) =~= cs);
    let ghost sets = value@;
    let mut k: usize = changes.len();
    while k > 0
        invariant
            k <= changes.len(),
            cs == changes_view(changes@),
            cs.len() == changes@.len(),
            v0 == v@,
            json_patch_sets(v0, cs) == Ok::<JsonView, (PathFailure, Seq<char>)>(sets),
            json_patch_removals(sets, cs) == json_patch_removals(value@, cs.take(k as int)),
        decreases k,
    {
        proof {
            assert(cs.take(k as int).drop_last() =~= cs.take(k - 1));
            assert(cs.take(k as int).last() == cs[k - 1]);
            assert(cs[k - 1] == changes@[k - 1]@);
            reveal_strlit("$");
        }
        let c = &changes[k - 1];
        if c.kind == ChangeKind::Removed {
            match &c.path {
                Some(p) => {
                    if !str_eq(p.as_str(), "$") {
                        let parts = parse_patch_path(p.as_str());
                        assert(parts_view(parts@) == patch_parts(p@));
                        assert(parts_view(parts@).skip(0) =~= parts_view(parts@));
                        let ghost vv = value@;
                        match remove_json_path(value, &parts, 0) {
                            Ok(x) => value = x,
                            Err(f) => {
                                proof {
                                    assert(json_remove_step(vv, cs[k - 1]) == Err::<JsonView, (PathFailure, Seq<char>)>((f, p@)));
                                    assert(json_patch_removals(vv, cs.take(k as int)) == Err::<JsonView, (PathFailure, Seq<char>)>((f, p@)));
                                }
                                return Err((f, copy_string(p)));
                            },
                        }
                    }
                },
                None => {},
            }
        }
        k = k - 1;
    }
    assert(cs.take(0) =~= Seq::<ChangeView>::empty());
    Ok(value)
}

/// Patches a JSON text (see [`json_patch_outcome`]).
pub fn patch_json(original: &str, changes: &[Change]) -> (r: Result<String, GudfError>)
    ensures
        outcome_matches(r, json_patch_outcome(original@, changes_view(changes@))),
{
    let value = match parse_json_text(original) {
        Ok(v) => v,
        Err(e) => return Err(GudfError::ParseError(e)),
    };
    let patched = match patch_json_value(value, changes) {
        Ok(v) => v,
        Err((f, p)) => return Err(GudfError::PatchError(failure_text(f, p.as_str()))),
    };
    match json_pretty(&patched) {
        Ok(s) => Ok(s),
        Err(e) => Err(GudfError::PatchError(e)),
    }
}

/// Patching a TOML text: its JSON form patched, read back, and printed as TOML.
pub open spec fn toml_patch_outcome(original: Seq<char>, cs: Seq<ChangeView>) -> PatchOutcome {
    match toml_as_json_text(original) {
        None => PatchOutcome::Unreadable,
        Some(j) => match json_patch_outcome(j, cs) {
            PatchOutcome::Done(p) => match serde_json_parse(p) {
                None => PatchOutcome::Unreadable,
                Some(v) => match toml_pretty_from_json(v) {
                    Some(t) => PatchOutcome::Done(t),
                    None => PatchOutcome::Unprintable,
                },
            },
            other => other,
        },
    }
}

/// Patches a TOML text (see [`toml_patch_outcome`]).
pub fn patch_toml(original: &str, changes: &[Change]) -> (r: Result<String, GudfError>)
    ensures
        outcome_matches(r, toml_patch_outcome(original@, changes_view(changes@))),
{
    let json_text = match toml_document_json(original) {
        Ok(s) => s,
        Err(e) => return Err(GudfError::ParseError(e)),
    };
    let patched = match patch_json(json_text.as_str(), changes) {
        Ok(s) => s,
        Err(e) => return Err(e),
    };
    let value = match parse_json_text(patched.as_str()) {
        Ok(v) => v,
        Err(e) => return Err(GudfError::ParseError(e)),
    };
    match toml_pretty(&value) {
        Ok(s) => Ok(s),
        Err(e) => Err(GudfError::PatchError(e)),
    }
}

/// Patching a YAML text: its JSON form patched, read back, and printed as YAML.
pub open spec fn yaml_patch_outcome(original: Seq<char>, cs: Seq<ChangeView>) -> PatchOutcome {
    match serde_yaml_parse(original) {
        None => PatchOutcome::Unreadable,
        Some(v) => match json_patch_outcome(serde_json_compact(v), cs) {
            PatchOutcome::Done(p) => match serde_json_parse(p) {
                None => PatchOutcome::Unreadable,
                Some(w) => match serde_yaml_print(w) {
                    Some(t) => PatchOutcome::Done(t),
                    None => PatchOutcome::Unprintable,
                },
            },
            other => other,
        },
    }
}

/// Patches a YAML text (see [`yaml_patch_outcome`]).
pub fn patch_yaml(original: &str, changes: &[Change]) -> (r: Result<String, GudfError>)
    ensures
        outcome_matches(r, yaml_patch_outcome(original@, changes_view(changes@))),
{
    let value = match parse_yaml_text(original) {
        Ok(v) => v,
        Err(e) => return Err(GudfError::ParseError(e)),
    };
    let json_text = json_compact(&value);
    let patched = match patch_json(json_text.as_str(), changes) {
        Ok(s) => s,
        Err(e) => return Err(e),
    };
    let back = match parse_json_text(patched.as_str()) {
        Ok(v) => v,
        Err(e) => return Err(GudfError::ParseError(e)),
    };
    match yaml_print(&back) {
        Ok(s) => Ok(s),
        Err(e) => Err(GudfError::PatchError(e)),
    }
}

/// Patching a document of a known format.
pub open spec fn patch_outcome(kind: FormatKindView, original: Seq<char>, cs: Seq<ChangeView>) -> PatchOutcome {
    match kind {
        FormatKindView::Text | FormatKindView::Code(_) => PatchOutcome::Done(text_patch_spec(original, cs)),
        FormatKindView::Json => json_patch_outcome(original, cs),
        FormatKindView::Toml => toml_patch_outcome(original, cs),
        FormatKindView::Yaml => yaml_patch_outcome(original, cs),
    }
}

/// Applies changes to a document of the given format.
pub fn patch_as(kind: FormatKind, original: &str, changes: &[Change]) -> (r: Result<String, GudfError>)
    ensures
        outcome_matches(r, patch_outcome(kind@, original@, changes_view(changes@))),
{
    match kind {
        FormatKind::Text | FormatKind::Code(_) => patch_text(original, changes),
        FormatKind::Json => patch_json(original, changes),
        FormatKind::Toml => patch_toml(original, changes),
        FormatKind::Yaml => patch_yaml(original, changes),
    }
}

/// Applies changes to a document whose format is guessed from it.
pub fn patch(original: &str, changes: &[Change]) -> (r: Result<String, GudfError>)
    ensures
        outcome_matches(r, patch_outcome(detect_spec(original@), original@, changes_view(changes@))),
{
    let kind = detect_format(original);
    patch_as(kind, original, changes)
}

// ── Patching with a line diff ──────────────────────────────────────────

proof fn lemma_values_count(ops: Seq<(LineTag, Seq<char>)>)
    ensures
        new_lines(ops) == new_values(ops).len(),
        new_values(ops).len() <= ops.len(),
        ops.len() <= old_values(ops).len() + new_values(ops).len(),
    decreases ops.len(),
{
    if ops.len() > 0 {
        lemma_values_count(ops.drop_last());
    }
}

proof fn lemma_old_values_concat(a: Seq<(LineTag, Seq<char>)>, b: Seq<(LineTag, Seq<char>)>)
    ensures
        old_values(a + b) == old_values(a) + old_values(b),
    decreases b.len(),
{
    if b.len() == 0 {
        assert(a + b =~= a);
        assert(old_values(a) + old_values(b) =~= old_values(a));
    } else {
        lemma_old_values_concat(a, b.drop_last());
        assert((a + b).drop_last() =~= a + b.drop_last());
        if b.last().0 != LineTag::Insert {
            assert(old_values(a) + old_values(b) =~= (old_values(a) + old_values(b.drop_last())).push(b.last().1));
        } else {
            assert(old_values(a) + old_values(b) =~= old_values(a) + old_values(b.drop_last()));
        }
    }
}

/// Replaying the first `k` changes of a line diff on the old lines leaves the
/// first `k` operations' new lines followed by the old lines still to come.
proof fn lemma_replay(old: Seq<char>, ops: Seq<(LineTag, Seq<char>)>, k: int)
    requires
        0 <= k <= ops.len(),
        ops.len() <= usize::MAX,
        line_cuts(old) == old_values(ops),
    ensures
        text_patch_lines(old, text_changes(ops.take(k))).lines == new_values(ops.take(k)) + old_values(ops.skip(k)),
    decreases k,
{
    if k == 0 {
        assert(ops.take(0) =~= Seq::empty());
        assert(ops.skip(0) =~= ops);
        assert(new_values(Seq::empty()) + old_values(ops) =~= old_values(ops));
    } else {
        let j = k - 1;
        lemma_replay(old, ops, j);
        let pre = ops.take(j);
        let cur = ops.take(k);
        let op = ops[j];
        assert(cur.drop_last() =~= pre);
        let cs = text_changes(pre);
        let ch = line_change(op, new_lines(cur));
        assert(text_changes(cur) == cs.push(ch));
        assert(cs.push(ch).drop_last() =~= cs);
        let st = text_patch_lines(old, cs);
        assert(text_patch_lines(old, text_changes(cur)) == text_patch_step(st, ch));
        lemma_values_count(cur);
        lemma_values_count(pre);
        assert(ops.skip(j) =~= seq![op] + ops.skip(k));
        lemma_old_values_concat(seq![op], ops.skip(k));
        assert(seq![op].drop_last() =~= Seq::<(LineTag, Seq<char>)>::empty());
        assert(seq![op].last() == op);
        assert(old_values(Seq::<(LineTag, Seq<char>)>::empty()) =~= Seq::empty());
        let a = new_values(pre);
        let rest = old_values(ops.skip(k));
        let v = op.1;
        let l = a.len();
        match op.0 {
            LineTag::Equal => {
                assert(old_values(seq![op]) =~= seq![v]);
                assert(old_values(ops.skip(j)) =~= seq![v] + rest);
                assert(a + (seq![v] + rest) =~= a.push(v) + rest);
            },
            LineTag::Insert => {
                assert(old_values(seq![op]) =~= Seq::<Seq<char>>::empty());
                assert(old_values(ops.skip(j)) =~= rest);
                assert((a + rest).insert(l as int, v) =~= a.push(v) + rest);
            },
            LineTag::Delete => {
                assert(old_values(seq![op]) =~= seq![v]);
                assert(old_values(ops.skip(j)) =~= seq![v] + rest);
                assert((a + (seq![v] + rest)).remove(l as int) =~= a + rest);
            },
        }
    }
}

/// Patching a text with its line diff against a new text gives the new text
/// back: whatever the two texts, their line endings included.
pub proof fn law_text_patch_round_trip(old: Seq<char>, new: Seq<char>, r: Result<DiffResult, GudfError>)
    requires
        text_diff_ok(old, new, r),
        old.len() + new.len() <= usize::MAX,
    ensures
        r matches Ok(d) && patch_outcome(FormatKindView::Text, old, d@.changes) == PatchOutcome::Done(new),
{
    let ops = similar_line_changes(old, new);
    let n = ops.len() as int;
    assert(cut_into_lines(old, new, ops));
    lemma_values_count(ops);
    lemma_line_cuts(old);
    lemma_line_cuts(new);
    lemma_replay(old, ops, n);
    assert(ops.take(n) =~= ops);
    assert(ops.skip(n) =~= Seq::empty());
    assert(text_patch_lines(old, text_changes(ops)).lines =~= line_cuts(new));
}

} // verus!
