//! Recursive diff of JSON values.
use vstd::prelude::*;
use vstd::string::*;

use crate::text::{lemma_lex_lt_order, lemma_sorted_unique, lex_lt};
use crate::codec::{json_compact, parse_json_text, serde_json_compact, serde_json_parse};
use crate::error::GudfError;
use crate::format::{Format, FormatKind, FormatKindView};
use crate::path::{append_index, append_index_spec, append_key, append_key_spec};
use crate::result::{changes_view, plain_change, stats_of, Change, ChangeKind, ChangeView, DiffResult};
use crate::value::{
    array_view, canonical, find_key, keys_of, lemma_canonical_parts, lemma_array_view, lemma_find_key, lemma_find_key_at, lemma_find_key_none,
    lemma_object_view, object_view, json_equal, JsonValue, JsonView,
};

verus! {

/// The path shown for a value: `$` for the root.
pub open spec fn shown_path(path: Seq<char>) -> Seq<char> {
    if path.len() == 0 { "$"@ } else { path }
}

/// The change for a value that is the same on both sides.
pub open spec fn unchanged_at(old: JsonView, new: JsonView, path: Seq<char>) -> ChangeView {
    plain_change(ChangeKind::Unchanged, Some(shown_path(path)), Some(serde_json_compact(old)), Some(serde_json_compact(new)), None)
}

/// The change for a value replaced by one of another shape.
pub open spec fn modified_at(old: JsonView, new: JsonView, path: Seq<char>) -> ChangeView {
    plain_change(ChangeKind::Modified, Some(shown_path(path)), Some(serde_json_compact(old)), Some(serde_json_compact(new)), None)
}

/// The change for a value present only on the old side.
pub open spec fn removed_at(old: JsonView, path: Seq<char>) -> ChangeView {
    plain_change(ChangeKind::Removed, Some(path), Some(serde_json_compact(old)), None, None)
}

/// The change for a value present only on the new side.
pub open spec fn added_at(new: JsonView, path: Seq<char>) -> ChangeView {
    plain_change(ChangeKind::Added, Some(path), None, Some(serde_json_compact(new)), None)
}

/// The changes between two JSON values at `path`:
/// - equal values give one `Unchanged` change (at `$` for the root);
/// - two objects give, for each old key in order, the diff of its value with
///   the new value under the same key or `Removed`, then `Added` for each new
///   key the old object lacks;
/// - two arrays give, index by index up to the longer length, the diff of the
///   elements, `Removed` or `Added`;
/// - anything else gives one `Modified` change.
pub open spec fn diff_spec(old: JsonView, new: JsonView, path: Seq<char>) -> Seq<ChangeView>
    decreases old, 0nat,
{
    if old == new {
        seq![unchanged_at(old, new, path)]
    } else {
        match (old, new) {
            (JsonView::Object(oe), JsonView::Object(ne)) => diff_object_old(oe, ne, path) + diff_object_added(ne, oe, path),
            (JsonView::Array(oa), JsonView::Array(na)) => diff_array(oa, na, path, if oa.len() >= na.len() { oa.len() } else { na.len() }),
            _ => seq![modified_at(old, new, path)],
        }
    }
}

/// The changes for the old entries `oe` of an object whose new entries are `ne`.
pub open spec fn diff_object_old(oe: Seq<(Seq<char>, JsonView)>, ne: Seq<(Seq<char>, JsonView)>, path: Seq<char>) -> Seq<ChangeView>
    decreases oe, 0nat,
{
    if oe.len() == 0 {
        Seq::empty()
    } else {
        let k = oe.last().0;
        let child = append_key_spec(path, k);
        diff_object_old(oe.drop_last(), ne, path) + match find_key(ne, k) {
            Some(j) => diff_spec(oe.last().1, ne[j].1, child),
            None => seq![removed_at(oe.last().1, child)],
        }
    }
}

/// The `Added` changes for the new entries `ne` whose keys the old entries `oe` lack.
pub open spec fn diff_object_added(ne: Seq<(Seq<char>, JsonView)>, oe: Seq<(Seq<char>, JsonView)>, path: Seq<char>) -> Seq<ChangeView>
    decreases ne.len(),
{
    if ne.len() == 0 {
        Seq::empty()
    } else {
        diff_object_added(ne.drop_last(), oe, path) + if find_key(oe, ne.last().0) is None {
            seq![added_at(ne.last().1, append_key_spec(path, ne.last().0))]
        } else {
            Seq::empty()
        }
    }
}

/// The changes for the first `n` indices of two arrays.
pub open spec fn diff_array(oa: Seq<JsonView>, na: Seq<JsonView>, path: Seq<char>, n: nat) -> Seq<ChangeView>
    decreases oa, n,
{
    if n == 0 {
        Seq::empty()
    } else {
        let i = n - 1;
        let child = append_index_spec(path, i as usize);
        diff_array(oa, na, path, (n - 1) as nat) + if i < oa.len() && i < na.len() {
            diff_spec(oa[i], na[i], child)
        } else if i < oa.len() {
            seq![removed_at(oa[i], child)]
        } else if i < na.len() {
            seq![added_at(na[i], child)]
        } else {
            Seq::empty()
        }
    }
}

fn shown_path_exec(path: String) -> (r: String)
    ensures
        r@ == shown_path(path@),
{
    if path.as_str().is_empty() {
        String::from_str("$")
    } else {
        path
    }
}

fn find_entry(entries: &Vec<(String, JsonValue)>, key: &String) -> (r: Option<usize>)
    ensures
        match find_key(object_view(entries@), key@) {
            Some(j) => r == Some(j as usize),
            None => r is None,
        },
{
    proof { lemma_object_view(entries@); }
    let mut i: usize = 0;
    while i < entries.len()
        invariant
            i <= entries.len(),
            object_view(entries@).len() == entries@.len(),
            forall|k: int| 0 <= k < entries@.len() ==> #[trigger] object_view(entries@)[k] == (entries@[k].0@, crate::value::json_view(entries@[k].1)),
            forall|k: int| 0 <= k < i ==> object_view(entries@)[k].0 != key@,
        decreases entries.len() - i,
    {
        if crate::text::str_eq(entries[i].0.as_str(), key.as_str()) {
            proof { lemma_find_key_at(object_view(entries@), key@, i as int); }
            return Some(i);
        }
        i = i + 1;
    }
    proof { lemma_find_key_none(object_view(entries@), key@); }
    None
}

/// Appends to `changes` the changes between `old` and `new` at `path`.
#[verifier::loop_isolation(false)]
pub fn diff_values(old_value: &JsonValue, new_value: &JsonValue, path: String, changes: &mut Vec<Change>)
    ensures
        changes_view(final(changes)@) == changes_view(old(changes)@) + diff_spec(old_value@, new_value@, path@),
    decreases old_value,
{
    let ghost start = changes_view(changes@);
    if json_equal(old_value, new_value) {
        let c = Change::plain(
            ChangeKind::Unchanged,
            Some(shown_path_exec(path)),
            Some(json_compact(old_value)),
            Some(json_compact(new_value)),
            None,
        );
        changes.push(c);
        assert(changes_view(changes@) =~= start + diff_spec(old_value@, new_value@, path@));
        return;
    }
    match (old_value, new_value) {
        (JsonValue::Object(o), JsonValue::Object(n)) => {
            let ghost oe = object_view(o@);
            let ghost ne = object_view(n@);
            proof {
                lemma_object_view(o@);
                lemma_object_view(n@);
            }
            let mut i: usize = 0;
            while i < o.len()
                invariant
                    i <= o.len(),
                    oe == object_view(o@),
                    ne == object_view(n@),
                    oe.len() == o@.len(),
                    ne.len() == n@.len(),
                    forall|k: int| 0 <= k < o@.len() ==> #[trigger] oe[k] == (o@[k].0@, crate::value::json_view(o@[k].1)),
                    changes_view(changes@) == start + diff_object_old(oe.take(i as int), ne, path@),
                decreases o.len() - i,
            {
                assert(oe.take(i + 1).drop_last() =~= oe.take(i as int));
                assert(oe.take(i + 1).last() == oe[i as int]);
                let ghost before = changes_view(changes@);
                let child = append_key(path.as_str(), o[i].0.as_str());
                match find_entry(n, &o[i].0) {
                    Some(j) => {
                        proof {
                            lemma_find_key(ne, o@[i as int].0@);
                            assert(decreases_to!(*old_value => o@[i as int].1));
                        }
                        diff_values(&o[i].1, &n[j].1, child, changes);
                    },
                    None => {
                        let c = Change::plain(ChangeKind::Removed, Some(child), Some(json_compact(&o[i].1)), None, None);
                        changes.push(c);
                        assert(changes_view(changes@) =~= before + seq![removed_at(oe[i as int].1, append_key_spec(path@, oe[i as int].0))]);
                    },
                }
                i = i + 1;
                assert(changes_view(changes@) =~= start + diff_object_old(oe.take(i as int), ne, path@));
            }
            assert(oe.take(i as int) =~= oe);
            let ghost mid = changes_view(changes@);
            let mut j: usize = 0;
            while j < n.len()
                invariant
                    j <= n.len(),
                    oe == object_view(o@),
                    ne == object_view(n@),
                    ne.len() == n@.len(),
                    forall|k: int| 0 <= k < n@.len() ==> #[trigger] ne[k] == (n@[k].0@, crate::value::json_view(n@[k].1)),
                    changes_view(changes@) == mid + diff_object_added(ne.take(j as int), oe, path@),
                decreases n.len() - j,
            {
                assert(ne.take(j + 1).drop_last() =~= ne.take(j as int));
                assert(ne.take(j + 1).last() == ne[j as int]);
                let ghost before = changes_view(changes@);
                match find_entry(o, &n[j].0) {
                    Some(_) => {
                        assert(changes_view(changes@) =~= before + Seq::<ChangeView>::empty());
                    },
                    None => {
                        let child = append_key(path.as_str(), n[j].0.as_str());
                        let c = Change::plain(ChangeKind::Added, Some(child), None, Some(json_compact(&n[j].1)), None);
                        changes.push(c);
                        assert(changes_view(changes@) =~= before + seq![added_at(ne[j as int].1, append_key_spec(path@, ne[j as int].0))]);
                    },
                }
                j = j + 1;
                assert(changes_view(changes@) =~= mid + diff_object_added(ne.take(j as int), oe, path@));
            }
            assert(ne.take(j as int) =~= ne);
            assert(changes_view(changes@) =~= start + diff_spec(old_value@, new_value@, path@));
        },
        (JsonValue::Array(a), JsonValue::Array(b)) => {
            let ghost oa = array_view(a@);
            let ghost na = array_view(b@);
            proof {
                lemma_array_view(a@);
                lemma_array_view(b@);
            }
            let max_len = if a.len() >= b.len() { a.len() } else { b.len() };
            let mut i: usize = 0;
            while i < max_len
                invariant
                    i <= max_len,
                    max_len == if a.len() >= b.len() { a.len() } else { b.len() },
                    oa == array_view(a@),
                    na == array_view(b@),
                    oa.len() == a@.len(),
                    na.len() == b@.len(),
                    forall|k: int| 0 <= k < a@.len() ==> #[trigger] oa[k] == crate::value::json_view(a@[k]),
                    forall|k: int| 0 <= k < b@.len() ==> #[trigger] na[k] == crate::value::json_view(b@[k]),
                    changes_view(changes@) == start + diff_array(oa, na, path@, i as nat),
                decreases max_len - i,
            {
                let ghost before = changes_view(changes@);
                let child = append_index(path.as_str(), i);
                if i < a.len() && i < b.len() {
                    proof {
                        assert(decreases_to!(*old_value => a@[i as int]));
                    }
                    diff_values(&a[i], &b[i], child, changes);
                } else if i < a.len() {
                    let c = Change::plain(ChangeKind::Removed, Some(child), Some(json_compact(&a[i])), None, None);
                    changes.push(c);
                    assert(changes_view(changes@) =~= before + seq![removed_at(oa[i as int], append_index_spec(path@, i))]);
                } else {
                    let c = Change::plain(ChangeKind::Added, Some(child), None, Some(json_compact(&b[i])), None);
                    changes.push(c);
                    assert(changes_view(changes@) =~= before + seq![added_at(na[i as int], append_index_spec(path@, i))]);
                }
                i = i + 1;
                assert(changes_view(changes@) =~= start + diff_array(oa, na, path@, i as nat));
            }
            assert(changes_view(changes@) =~= start + diff_spec(old_value@, new_value@, path@));
        },
        _ => {
            let c = Change::plain(
                ChangeKind::Modified,
                Some(shown_path_exec(path)),
                Some(json_compact(old_value)),
                Some(json_compact(new_value)),
                None,
            );
            changes.push(c);
            assert(changes_view(changes@) =~= start + diff_spec(old_value@, new_value@, path@));
        },
    }
}

/// The changes between two JSON values from the root.
pub fn diff_json_values(old_value: &JsonValue, new_value: &JsonValue) -> (r: Vec<Change>)
    ensures
        changes_view(r@) == diff_spec(old_value@, new_value@, Seq::empty()),
{
    let mut changes: Vec<Change> = Vec::new();
    diff_values(old_value, new_value, String::new(), &mut changes);
    assert(changes_view(Seq::<Change>::empty()) + diff_spec(old_value@, new_value@, Seq::empty()) =~= diff_spec(old_value@, new_value@, Seq::empty()));
    changes
}

/// The result of diffing two documents that were read as `old` and `new`
/// (`None` where a document could not be read): a parse error unless both were
/// read, else the diff of the two values, of format `kind`, with its statistics.
pub open spec fn parsed_diff_ok(old: Option<JsonView>, new: Option<JsonView>, r: Result<DiffResult, GudfError>, kind: FormatKindView) -> bool {
    match (old, new) {
        (Some(a), Some(b)) => r matches Ok(d) && d@.changes == diff_spec(a, b, Seq::empty())
            && d@.format == kind && stats_of(d@.changes, d.stats),
        _ => r matches Err(GudfError::ParseError(_)),
    }
}

/// The result of diffing two JSON texts: a parse error unless serde_json
/// reads both, else the diff of the two values.
pub open spec fn json_text_diff_ok(old: Seq<char>, new: Seq<char>, r: Result<DiffResult, GudfError>, kind: FormatKindView) -> bool {
    parsed_diff_ok(serde_json_parse(old), serde_json_parse(new), r, kind)
}

/// Diffs JSON documents key by key.
pub struct JsonFormat;

impl Format for JsonFormat {
    open spec fn format_kind(&self) -> FormatKindView {
        FormatKindView::Json
    }

    open spec fn diff_result(&self, old: Seq<char>, new: Seq<char>, r: Result<DiffResult, GudfError>) -> bool {
        json_text_diff_ok(old, new, r, FormatKindView::Json)
    }

    fn kind(&self) -> (r: FormatKind) {
        FormatKind::Json
    }

    fn diff(&self, old: &str, new: &str) -> (r: Result<DiffResult, GudfError>) {
        let old_val = match parse_json_text(old) {
            Ok(v) => v,
            Err(e) => return Err(GudfError::ParseError(e)),
        };
        let new_val = match parse_json_text(new) {
            Ok(v) => v,
            Err(e) => return Err(GudfError::ParseError(e)),
        };
        let changes = diff_json_values(&old_val, &new_val);
        Ok(DiffResult::from_changes(changes, FormatKind::Json))
    }
}

// ── Laws ───────────────────────────────────────────────────────────────

/// Some change of `cs` is not `Unchanged`: the diff reports a difference.
pub open spec fn reports_difference(cs: Seq<ChangeView>) -> bool {
    exists|i: int| 0 <= i < cs.len() && (#[trigger] cs[i]).kind != ChangeKind::Unchanged
}

/// The changes that the old entry `i` of an object contributes.
pub open spec fn old_entry_changes(oe: Seq<(Seq<char>, JsonView)>, ne: Seq<(Seq<char>, JsonView)>, path: Seq<char>, i: int) -> Seq<ChangeView> {
    let child = append_key_spec(path, oe[i].0);
    match find_key(ne, oe[i].0) {
        Some(j) => diff_spec(oe[i].1, ne[j].1, child),
        None => seq![removed_at(oe[i].1, child)],
    }
}

/// The changes that index `i` of two arrays contributes.
pub open spec fn index_changes(oa: Seq<JsonView>, na: Seq<JsonView>, path: Seq<char>, i: int) -> Seq<ChangeView> {
    let child = append_index_spec(path, i as usize);
    if i < oa.len() && i < na.len() {
        diff_spec(oa[i], na[i], child)
    } else if i < oa.len() {
        seq![removed_at(oa[i], child)]
    } else if i < na.len() {
        seq![added_at(na[i], child)]
    } else {
        Seq::empty()
    }
}

proof fn lemma_difference_concat(a: Seq<ChangeView>, b: Seq<ChangeView>)
    requires
        reports_difference(a) || reports_difference(b),
    ensures
        reports_difference(a + b),
{
    if reports_difference(a) {
        let i = choose|i: int| 0 <= i < a.len() && (#[trigger] a[i]).kind != ChangeKind::Unchanged;
        assert((a + b)[i] == a[i]);
    } else {
        let i = choose|i: int| 0 <= i < b.len() && (#[trigger] b[i]).kind != ChangeKind::Unchanged;
        assert((a + b)[a.len() + i] == b[i]);
    }
}

proof fn lemma_old_entries_report(oe: Seq<(Seq<char>, JsonView)>, ne: Seq<(Seq<char>, JsonView)>, path: Seq<char>, i: int)
    requires
        0 <= i < oe.len(),
        reports_difference(old_entry_changes(oe, ne, path, i)),
    ensures
        reports_difference(diff_object_old(oe, ne, path)),
    decreases oe.len(),
{
    let rest = oe.drop_last();
    if i == oe.len() - 1 {
        lemma_difference_concat(diff_object_old(rest, ne, path), old_entry_changes(oe, ne, path, i));
    } else {
        assert(rest[i] == oe[i]);
        assert(old_entry_changes(rest, ne, path, i) == old_entry_changes(oe, ne, path, i));
        lemma_old_entries_report(rest, ne, path, i);
        let last = if find_key(ne, oe.last().0) is Some {
            diff_spec(oe.last().1, ne[find_key(ne, oe.last().0).unwrap()].1, append_key_spec(path, oe.last().0))
        } else {
            seq![removed_at(oe.last().1, append_key_spec(path, oe.last().0))]
        };
        lemma_difference_concat(diff_object_old(rest, ne, path), last);
    }
}

proof fn lemma_added_entries_report(ne: Seq<(Seq<char>, JsonView)>, oe: Seq<(Seq<char>, JsonView)>, path: Seq<char>, j: int)
    requires
        0 <= j < ne.len(),
        find_key(oe, ne[j].0) is None,
    ensures
        reports_difference(diff_object_added(ne, oe, path)),
    decreases ne.len(),
{
    let rest = ne.drop_last();
    let tail = if find_key(oe, ne.last().0) is None {
        seq![added_at(ne.last().1, append_key_spec(path, ne.last().0))]
    } else {
        Seq::empty()
    };
    if j == ne.len() - 1 {
        assert(tail[0].kind == ChangeKind::Added);
        lemma_difference_concat(diff_object_added(rest, oe, path), tail);
    } else {
        assert(rest[j] == ne[j]);
        lemma_added_entries_report(rest, oe, path, j);
        lemma_difference_concat(diff_object_added(rest, oe, path), tail);
    }
}

proof fn lemma_indices_report(oa: Seq<JsonView>, na: Seq<JsonView>, path: Seq<char>, n: nat, i: int)
    requires
        0 <= i < n,
        reports_difference(index_changes(oa, na, path, i)),
    ensures
        reports_difference(diff_array(oa, na, path, n)),
    decreases n,
{
    let prev = diff_array(oa, na, path, (n - 1) as nat);
    if i == n - 1 {
        lemma_difference_concat(prev, index_changes(oa, na, path, i));
    } else {
        lemma_indices_report(oa, na, path, (n - 1) as nat, i);
        lemma_difference_concat(prev, index_changes(oa, na, path, n - 1));
    }
}

/// The diff of two different values reports a difference: some change of it
/// is not `Unchanged`. Together with the diff of a value with itself, which
/// is one `Unchanged` change, a diff tells whether the content changed.
pub proof fn law_different_values_report_difference(old: JsonView, new: JsonView, path: Seq<char>)
    requires
        canonical(old),
        canonical(new),
        old != new,
    ensures
        reports_difference(diff_spec(old, new, path)),
    decreases old,
{
    match (old, new) {
        (JsonView::Object(oe), JsonView::Object(ne)) => {
            lemma_canonical_parts(old);
            lemma_canonical_parts(new);
            if exists|i: int| 0 <= i < oe.len() && #[trigger] find_key(ne, oe[i].0) is None {
                let i = choose|i: int| 0 <= i < oe.len() && #[trigger] find_key(ne, oe[i].0) is None;
                let c = old_entry_changes(oe, ne, path, i);
                assert(c[0].kind == ChangeKind::Removed);
                lemma_old_entries_report(oe, ne, path, i);
                lemma_difference_concat(diff_object_old(oe, ne, path), diff_object_added(ne, oe, path));
            } else if exists|j: int| 0 <= j < ne.len() && #[trigger] find_key(oe, ne[j].0) is None {
                let j = choose|j: int| 0 <= j < ne.len() && #[trigger] find_key(oe, ne[j].0) is None;
                lemma_added_entries_report(ne, oe, path, j);
                lemma_difference_concat(diff_object_old(oe, ne, path), diff_object_added(ne, oe, path));
            } else if exists|i: int| 0 <= i < oe.len() && oe[i].1 != ne[#[trigger] find_key(ne, oe[i].0).unwrap()].1 {
                let i = choose|i: int| 0 <= i < oe.len() && oe[i].1 != ne[#[trigger] find_key(ne, oe[i].0).unwrap()].1;
                let j = find_key(ne, oe[i].0).unwrap();
                lemma_find_key(ne, oe[i].0);
                lemma_canonical_parts(old);
                lemma_canonical_parts(new);
                assert(canonical(oe[i].1));
                assert(canonical(ne[j].1));
                law_different_values_report_difference(oe[i].1, ne[j].1, append_key_spec(path, oe[i].0));
                lemma_old_entries_report(oe, ne, path, i);
                lemma_difference_concat(diff_object_old(oe, ne, path), diff_object_added(ne, oe, path));
            } else {
                let ko = keys_of(oe);
                let kn = keys_of(ne);
                assert(ko.to_set() =~= kn.to_set()) by {
                    assert forall|k: Seq<char>| ko.to_set().contains(k) implies kn.to_set().contains(k) by {
                        let i = choose|i: int| 0 <= i < ko.len() && ko[i] == k;
                        assert(find_key(ne, oe[i].0) is Some);
                        lemma_find_key(ne, k);
                        let j = find_key(ne, k).unwrap();
                        assert(kn[j] == k);
                    }
                    assert forall|k: Seq<char>| kn.to_set().contains(k) implies ko.to_set().contains(k) by {
                        let j = choose|j: int| 0 <= j < kn.len() && kn[j] == k;
                        assert(find_key(oe, ne[j].0) is Some);
                        lemma_find_key(oe, k);
                        let i = find_key(oe, k).unwrap();
                        assert(ko[i] == k);
                    }
                }
                lemma_sorted_unique(ko, kn);
                assert(oe =~= ne) by {
                    assert(ko.len() == kn.len());
                    assert forall|i: int| 0 <= i < oe.len() implies oe[i] == ne[i] by {
                        assert(ko[i] == kn[i]);
                        assert(ko[i] == oe[i].0 && kn[i] == ne[i].0);
                        assert forall|x: int| 0 <= x < i implies ne[x].0 != oe[i].0 by {
                            assert(kn[x] == ne[x].0);
                            assert(lex_lt(kn[x], kn[i]));
                            lemma_lex_lt_order(kn[x], kn[i], kn[i]);
                        }
                        lemma_find_key_at(ne, oe[i].0, i);
                        assert(find_key(ne, oe[i].0) is Some);
                        assert(oe[i].1 == ne[find_key(ne, oe[i].0).unwrap()].1);
                    }
                }
            }
        },
        (JsonView::Array(oa), JsonView::Array(na)) => {
            let n: nat = if oa.len() >= na.len() { oa.len() } else { na.len() };
            if oa.len() != na.len() {
                let i: int = if oa.len() < na.len() { oa.len() as int } else { na.len() as int };
                let c = index_changes(oa, na, path, i);
                assert(c[0].kind != ChangeKind::Unchanged);
                lemma_indices_report(oa, na, path, n, i);
            } else {
                assert(exists|i: int| 0 <= i < oa.len() && oa[i] != na[i]) by {
                    if forall|i: int| 0 <= i < oa.len() ==> oa[i] == na[i] {
                        assert(oa =~= na);
                    }
                }
                let i = choose|i: int| 0 <= i < oa.len() && oa[i] != na[i];
                lemma_canonical_parts(old);
                lemma_canonical_parts(new);
                assert(canonical(oa[i]));
                assert(canonical(na[i]));
                law_different_values_report_difference(oa[i], na[i], append_index_spec(path, i as usize));
                lemma_indices_report(oa, na, path, n, i);
            }
        },
        _ => {
            assert(diff_spec(old, new, path)[0].kind == ChangeKind::Modified);
        },
    }
}

} // verus!
