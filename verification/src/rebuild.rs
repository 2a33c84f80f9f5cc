//! Patching a JSON value with its diff against another value gives that
//! other value back: the law, and the facts about paths into values that it
//! rests on.
use vstd::prelude::*;

use crate::codec::{
    serde_json_compact, serde_json_parse, serde_json_pretty, serde_yaml_parse, serde_yaml_print, toml_as_json_text,
    toml_pretty_from_json,
};
use crate::formats::toml::toml_doc_json;
use crate::format::FormatKindView;
use crate::formats::json::json_text_diff_ok;
use crate::result::DiffResult;
use crate::error::GudfError;
use crate::formats::json::{
    added_at, diff_array, diff_object_added, diff_object_old, diff_spec, modified_at, removed_at, unchanged_at,
};
use crate::patch::{
    json_patch_outcome, patch_outcome, PatchOutcome, json_patch_all, change_json_value, change_target, json_patch_removals, json_patch_sets, json_remove_step, json_set_step,
    part_of, patch_parts, remove_at, replaces_root, set_at, PartView, PathFailure,
};
use crate::result::{ChangeKind, ChangeView};
use crate::path::{
    append_index_spec, append_key_spec, build_from, build_spec, law_parse_build_round_trip, lemma_build_from_push,
    needs_quoting_spec, segment_round_trips, segment_text, SegmentView,
};
use crate::text::{lemma_lex_lt_order, lex_lt, strictly_sorted};
use crate::value::{canonical, find_key, keys_of, lemma_canonical_parts, lemma_find_key, lemma_find_key_at, object_insert, object_remove, JsonView};

verus! {

/// The value at `parts` in `v`, when every part leads to an existing key or
/// index.
pub open spec fn get_at(v: JsonView, parts: Seq<PartView>) -> Option<JsonView>
    decreases parts.len(),
{
    if parts.len() == 0 {
        Some(v)
    } else {
        match parts[0] {
            PartView::Key(k) => match v {
                JsonView::Object(es) => match find_key(es, k) {
                    Some(j) => get_at(es[j].1, parts.drop_first()),
                    None => None,
                },
                _ => None,
            },
            PartView::Index(i) => match v {
                JsonView::Array(a) => if i < a.len() {
                    get_at(a[i as int], parts.drop_first())
                } else {
                    None
                },
                _ => None,
            },
        }
    }
}

/// `v` with the value at `parts` replaced by `x` (unchanged where the parts
/// lead nowhere).
pub open spec fn put_at(v: JsonView, parts: Seq<PartView>, x: JsonView) -> JsonView
    decreases parts.len(),
{
    if parts.len() == 0 {
        x
    } else {
        match parts[0] {
            PartView::Key(k) => match v {
                JsonView::Object(es) => match find_key(es, k) {
                    Some(j) => JsonView::Object(es.update(j, (k, put_at(es[j].1, parts.drop_first(), x)))),
                    None => v,
                },
                _ => v,
            },
            PartView::Index(i) => match v {
                JsonView::Array(a) => if i < a.len() {
                    JsonView::Array(a.update(i as int, put_at(a[i as int], parts.drop_first(), x)))
                } else {
                    v
                },
                _ => v,
            },
        }
    }
}

proof fn lemma_push_drop_first(p: Seq<PartView>, l: PartView)
    requires
        p.len() > 0,
    ensures
        p.push(l).drop_first() == p.drop_first().push(l),
        p.push(l)[0] == p[0],
{
    assert(p.push(l).drop_first() =~= p.drop_first().push(l));
}

/// Following one more part from where `p` leads.
proof fn lemma_get_push(v: JsonView, p: Seq<PartView>, l: PartView, at: JsonView)
    requires
        get_at(v, p) == Some(at),
    ensures
        get_at(v, p.push(l)) == get_at(at, seq![l]),
    decreases p.len(),
{
    if p.len() == 0 {
        assert(p.push(l) =~= seq![l]);
    } else {
        lemma_push_drop_first(p, l);
        match p[0] {
            PartView::Key(k) => match v {
                JsonView::Object(es) => {
                    let j = find_key(es, k).unwrap();
                    lemma_get_push(es[j].1, p.drop_first(), l, at);
                },
                _ => {},
            },
            PartView::Index(i) => match v {
                JsonView::Array(a) => {
                    lemma_get_push(a[i as int], p.drop_first(), l, at);
                },
                _ => {},
            },
        }
    }
}

/// Replacing one more part down is replacing, at `p`, a value changed one
/// level down.
proof fn lemma_put_push(v: JsonView, p: Seq<PartView>, l: PartView, at: JsonView, x: JsonView)
    requires
        get_at(v, p) == Some(at),
    ensures
        put_at(v, p.push(l), x) == put_at(v, p, put_at(at, seq![l], x)),
    decreases p.len(),
{
    if p.len() == 0 {
        assert(p.push(l) =~= seq![l]);
    } else {
        lemma_push_drop_first(p, l);
        match p[0] {
            PartView::Key(k) => match v {
                JsonView::Object(es) => {
                    let j = find_key(es, k).unwrap();
                    lemma_put_push(es[j].1, p.drop_first(), l, at, x);
                },
                _ => {},
            },
            PartView::Index(i) => match v {
                JsonView::Array(a) => {
                    lemma_put_push(a[i as int], p.drop_first(), l, at, x);
                },
                _ => {},
            },
        }
    }
}

/// Putting back what is there changes nothing.
proof fn lemma_put_get(v: JsonView, p: Seq<PartView>, at: JsonView)
    requires
        get_at(v, p) == Some(at),
    ensures
        put_at(v, p, at) == v,
    decreases p.len(),
{
    if p.len() > 0 {
        match p[0] {
            PartView::Key(k) => match v {
                JsonView::Object(es) => {
                    let j = find_key(es, k).unwrap();
                    lemma_find_key(es, k);
                    lemma_put_get(es[j].1, p.drop_first(), at);
                    assert(es.update(j, (k, es[j].1)) =~= es);
                },
                _ => {},
            },
            PartView::Index(i) => match v {
                JsonView::Array(a) => {
                    lemma_put_get(a[i as int], p.drop_first(), at);
                    assert(a.update(i as int, a[i as int]) =~= a);
                },
                _ => {},
            },
        }
    }
}

/// What was put is found again, and a second put replaces the first.
proof fn lemma_put_then(v: JsonView, p: Seq<PartView>, x: JsonView, y: JsonView)
    requires
        get_at(v, p) is Some,
    ensures
        get_at(put_at(v, p, x), p) == Some(x),
        put_at(put_at(v, p, x), p, y) == put_at(v, p, y),
    decreases p.len(),
{
    if p.len() > 0 {
        match p[0] {
            PartView::Key(k) => match v {
                JsonView::Object(es) => {
                    let j = find_key(es, k).unwrap();
                    lemma_find_key(es, k);
                    let es2 = es.update(j, (k, put_at(es[j].1, p.drop_first(), x)));
                    lemma_find_key(es2, k);
                    assert forall|m: int| 0 <= m < j implies es2[m].0 != k by {
                        assert(es2[m] == es[m]);
                    }
                    crate::value::lemma_find_key_at(es2, k, j);
                    lemma_put_then(es[j].1, p.drop_first(), x, y);
                    assert(es2.update(j, (k, put_at(es2[j].1, p.drop_first(), y))) =~= es.update(
                        j,
                        (k, put_at(es[j].1, p.drop_first(), y)),
                    ));
                },
                _ => {},
            },
            PartView::Index(i) => match v {
                JsonView::Array(a) => {
                    lemma_put_then(a[i as int], p.drop_first(), x, y);
                    assert(a.update(i as int, put_at(a[i as int], p.drop_first(), x)).update(
                        i as int,
                        put_at(put_at(a[i as int], p.drop_first(), x), p.drop_first(), y),
                    ) =~= a.update(i as int, put_at(a[i as int], p.drop_first(), y)));
                },
                _ => {},
            },
        }
    }
}

/// Setting at one more part than `p`: the last part's setting, done on the
/// value at `p`, put back at `p`.
proof fn lemma_set_push(v: JsonView, p: Seq<PartView>, l: PartView, at: JsonView, x: JsonView)
    requires
        get_at(v, p) == Some(at),
        set_at(at, seq![l], x) is Ok,
    ensures
        set_at(v, p.push(l), x) == Ok::<JsonView, PathFailure>(put_at(v, p, set_at(at, seq![l], x)->Ok_0)),
    decreases p.len(),
{
    if p.len() == 0 {
        assert(p.push(l) =~= seq![l]);
    } else {
        lemma_push_drop_first(p, l);
        assert(p.push(l).len() > 1);
        match p[0] {
            PartView::Key(k) => match v {
                JsonView::Object(es) => {
                    let j = find_key(es, k).unwrap();
                    lemma_set_push(es[j].1, p.drop_first(), l, at, x);
                },
                _ => {},
            },
            PartView::Index(i) => match v {
                JsonView::Array(a) => {
                    lemma_set_push(a[i as int], p.drop_first(), l, at, x);
                },
                _ => {},
            },
        }
    }
}

/// Removing at one more part than `p`: the last part's removal, done on the
/// value at `p`, put back at `p`.
proof fn lemma_remove_push(v: JsonView, p: Seq<PartView>, l: PartView, at: JsonView)
    requires
        get_at(v, p) == Some(at),
        remove_at(at, seq![l]) is Ok,
    ensures
        remove_at(v, p.push(l)) == Ok::<JsonView, PathFailure>(put_at(v, p, remove_at(at, seq![l])->Ok_0)),
    decreases p.len(),
{
    if p.len() == 0 {
        assert(p.push(l) =~= seq![l]);
    } else {
        lemma_push_drop_first(p, l);
        assert(p.push(l).len() > 1);
        match p[0] {
            PartView::Key(k) => match v {
                JsonView::Object(es) => {
                    let j = find_key(es, k).unwrap();
                    lemma_remove_push(es[j].1, p.drop_first(), l, at);
                },
                _ => {},
            },
            PartView::Index(i) => match v {
                JsonView::Array(a) => {
                    lemma_remove_push(a[i as int], p.drop_first(), l, at);
                },
                _ => {},
            },
        }
    }
}


// ── Paths of segments ──────────────────────────────────────────────────

/// The parts that patching reads for the segments `s`.
pub open spec fn parts_of(s: Seq<SegmentView>) -> Seq<PartView> {
    s.map_values(|g: SegmentView| part_of(g))
}

/// Segments whose path is read back as they are and is not the root `$`:
/// every segment round-trips, and the first is not the key `$`.
pub open spec fn segs_ok(s: Seq<SegmentView>) -> bool {
    (forall|i: int| 0 <= i < s.len() ==> segment_round_trips(#[trigger] s[i]))
        && (s.len() > 0 ==> s[0] != SegmentView::Key("$"@))
}

proof fn lemma_segs_push(s: Seq<SegmentView>, g: SegmentView)
    requires
        segs_ok(s),
        segment_round_trips(g),
        s.len() == 0 ==> g != SegmentView::Key("$"@),
    ensures
        segs_ok(s.push(g)),
        parts_of(s.push(g)) == parts_of(s).push(part_of(g)),
{
    assert(forall|i: int| 0 <= i < s.len() ==> s.push(g)[i] == s[i]);
    assert(parts_of(s.push(g)) =~= parts_of(s).push(part_of(g)));
}

proof fn lemma_build_nonempty(s: Seq<SegmentView>)
    requires
        segs_ok(s),
        s.len() > 0,
    ensures
        build_spec(s).len() > 0,
{
    assert(segment_round_trips(s[0]));
    let t = segment_text(s[0], true);
    assert(t.len() > 0);
    assert(build_spec(s) == t + build_from(s.drop_first(), false));
}

/// The path of `s` is read back as `s`, is empty exactly for no segments,
/// and is never the root `$` for some.
proof fn lemma_path_of(s: Seq<SegmentView>)
    requires
        segs_ok(s),
    ensures
        patch_parts(build_spec(s)) == parts_of(s),
        s.len() == 0 ==> build_spec(s) == Seq::<char>::empty(),
        s.len() > 0 ==> build_spec(s).len() > 0 && build_spec(s) != "$"@,
{
    law_parse_build_round_trip(s);
    if s.len() > 0 {
        lemma_build_nonempty(s);
        let d = seq![SegmentView::Key("$"@)];
        reveal_strlit("$");
        assert(!"$"@.contains('.') && !"$"@.contains('['));
        assert(build_spec(d) == segment_text(d[0], true) + build_from(d.drop_first(), false));
        assert(build_spec(d) =~= "$"@);
        assert(segment_round_trips(d[0]));
        assert forall|i: int| 0 <= i < d.len() implies segment_round_trips(#[trigger] d[i]) by {}
        law_parse_build_round_trip(d);
        if build_spec(s) == "$"@ {
            assert(s == d);
            assert(s[0] == SegmentView::Key("$"@));
        }
    }
}

/// Appending a key to the path of `s` is the path of `s` and that key.
proof fn lemma_append_key(s: Seq<SegmentView>, k: Seq<char>)
    requires
        segs_ok(s),
        k.len() > 0,
    ensures
        append_key_spec(build_spec(s), k) == build_spec(s.push(SegmentView::Key(k))),
{
    lemma_build_from_push(s, SegmentView::Key(k), true);
    if s.len() > 0 {
        lemma_build_nonempty(s);
    }
}

/// Appending an index to the path of `s` is the path of `s` and that index.
proof fn lemma_append_index(s: Seq<SegmentView>, i: usize)
    ensures
        append_index_spec(build_spec(s), i) == build_spec(s.push(SegmentView::Index(i))),
{
    lemma_build_from_push(s, SegmentView::Index(i), true);
}

// ── Values a diff can be patched with ──────────────────────────────────

/// Every key of `v` makes a segment that round-trips, and every array's
/// length fits in a `usize`, all the way down.
pub open spec fn path_safe(v: JsonView) -> bool
    decreases v,
{
    match v {
        JsonView::Array(a) => a.len() <= usize::MAX && forall|i: int| 0 <= i < a.len() ==> path_safe(#[trigger] a[i]),
        JsonView::Object(es) => forall|i: int|
            0 <= i < es.len() ==> segment_round_trips(SegmentView::Key(#[trigger] es[i].0)) && path_safe(es[i].1),
        _ => true,
    }
}

proof fn lemma_path_safe_parts(v: JsonView)
    requires
        path_safe(v),
    ensures
        v matches JsonView::Array(a) ==> a.len() <= usize::MAX && forall|i: int|
            0 <= i < a.len() ==> path_safe(#[trigger] a[i]),
        v matches JsonView::Object(es) ==> forall|i: int|
            0 <= i < es.len() ==> segment_round_trips(SegmentView::Key(#[trigger] es[i].0)) && path_safe(es[i].1),
{
}

proof fn lemma_reads_back_parts(v: JsonView)
    requires
        reads_back(v),
    ensures
        serde_json_parse(serde_json_compact(v)) == Some(v),
        v matches JsonView::Array(a) ==> forall|i: int| 0 <= i < a.len() ==> reads_back(#[trigger] a[i]),
        v matches JsonView::Object(es) ==> forall|i: int| 0 <= i < es.len() ==> reads_back(#[trigger] es[i].1),
{
}

/// What serde_json prints of every part of `v` reads back as that part.
pub open spec fn reads_back(v: JsonView) -> bool
    decreases v,
{
    serde_json_parse(serde_json_compact(v)) == Some(v) && match v {
        JsonView::Array(a) => forall|i: int| 0 <= i < a.len() ==> reads_back(#[trigger] a[i]),
        JsonView::Object(es) => forall|i: int| 0 <= i < es.len() ==> reads_back(#[trigger] es[i].1),
        _ => true,
    }
}


// ── The value after the setting steps ──────────────────────────────────

/// What the setting steps of the diff from `x` to `y` make of `x`: `y`
/// wherever a value is set, with the keys and elements that only `x` has
/// still in place until the removing steps.
pub open spec fn merged(x: JsonView, y: JsonView) -> JsonView
    decreases x, 0nat,
{
    if x == y {
        x
    } else {
        match (x, y) {
            (JsonView::Object(oe), JsonView::Object(ne)) => JsonView::Object(merge_added(ne, oe, merge_old(oe, ne))),
            (JsonView::Array(oa), JsonView::Array(na)) => JsonView::Array(
                merge_array(oa, na, if oa.len() >= na.len() { oa.len() } else { na.len() }),
            ),
            _ => y,
        }
    }
}

/// The old entries, each merged with the new value under its key if any.
pub open spec fn merge_old(oe: Seq<(Seq<char>, JsonView)>, ne: Seq<(Seq<char>, JsonView)>) -> Seq<(Seq<char>, JsonView)>
    decreases oe, 0nat,
{
    if oe.len() == 0 {
        Seq::empty()
    } else {
        let k = oe.last().0;
        merge_old(oe.drop_last(), ne).push(
            (
                k,
                match find_key(ne, k) {
                    Some(j) => merged(oe.last().1, ne[j].1),
                    None => oe.last().1,
                },
            ),
        )
    }
}

/// `base` with the new entries whose keys the old entries lack inserted.
pub open spec fn merge_added(
    ne: Seq<(Seq<char>, JsonView)>,
    oe: Seq<(Seq<char>, JsonView)>,
    base: Seq<(Seq<char>, JsonView)>,
) -> Seq<(Seq<char>, JsonView)>
    decreases ne.len(),
{
    if ne.len() == 0 {
        base
    } else {
        let b = merge_added(ne.drop_last(), oe, base);
        if find_key(oe, ne.last().0) is None {
            object_insert(b, ne.last().0, ne.last().1)
        } else {
            b
        }
    }
}

/// The old elements after the setting steps for the first `n` indices.
pub open spec fn merge_array(oa: Seq<JsonView>, na: Seq<JsonView>, n: nat) -> Seq<JsonView>
    decreases oa, n,
{
    if n == 0 {
        oa
    } else {
        let i = n - 1;
        let a = merge_array(oa, na, (n - 1) as nat);
        if i < oa.len() && i < na.len() {
            a.update(i, merged(oa[i], na[i]))
        } else if i < oa.len() {
            a
        } else if i < na.len() {
            a.push(na[i])
        } else {
            a
        }
    }
}

proof fn lemma_merge_array_shape(oa: Seq<JsonView>, na: Seq<JsonView>, n: nat)
    ensures
        merge_array(oa, na, n).len() == if n <= na.len() && n > oa.len() { n as int } else if na.len() > oa.len()
            && n > na.len() { na.len() as int } else { oa.len() as int },
        forall|i: int|
            0 <= i < merge_array(oa, na, n).len() ==> #[trigger] merge_array(oa, na, n)[i] == if i < n && i < oa.len()
                && i < na.len() {
                merged(oa[i], na[i])
            } else if i < oa.len() {
                oa[i]
            } else {
                na[i]
            },
    decreases n,
{
    if n > 0 {
        lemma_merge_array_shape(oa, na, (n - 1) as nat);
    }
}

proof fn lemma_merge_old_keys(oe: Seq<(Seq<char>, JsonView)>, ne: Seq<(Seq<char>, JsonView)>)
    ensures
        keys_of(merge_old(oe, ne)) == keys_of(oe),
    decreases oe.len(),
{
    if oe.len() > 0 {
        lemma_merge_old_keys(oe.drop_last(), ne);
        let m = merge_old(oe, ne);
        let m0 = merge_old(oe.drop_last(), ne);
        assert(keys_of(m0).len() == m0.len());
        assert(keys_of(oe.drop_last()).len() == oe.len() - 1);
        assert(m.len() == m0.len() + 1);
        assert(m.last().0 == oe.last().0);
        assert forall|i: int| 0 <= i < oe.len() implies #[trigger] keys_of(m)[i] == keys_of(oe)[i] by {
            if i < oe.len() - 1 {
                assert(m[i] == m0[i]);
                assert(keys_of(m0)[i] == keys_of(oe.drop_last())[i]);
            }
        }
        assert(keys_of(m) =~= keys_of(oe));
    }
}

// ── Setting steps ──────────────────────────────────────────────────────

proof fn lemma_sets_concat(v: JsonView, a: Seq<ChangeView>, b: Seq<ChangeView>)
    ensures
        json_patch_sets(v, a + b) == match json_patch_sets(v, a) {
            Ok(u) => json_patch_sets(u, b),
            Err(e) => Err(e),
        },
    decreases b.len(),
{
    if b.len() == 0 {
        assert(a + b =~= a);
    } else {
        lemma_sets_concat(v, a, b.drop_last());
        assert((a + b).drop_last() =~= a + b.drop_last());
    }
}

proof fn lemma_sets_one(v: JsonView, c: ChangeView)
    ensures
        json_patch_sets(v, seq![c]) == json_set_step(v, c),
{
    assert(seq![c].drop_last() =~= Seq::<ChangeView>::empty());
    assert(seq![c].last() == c);
    assert(json_patch_sets(v, Seq::<ChangeView>::empty()) == Ok::<JsonView, (PathFailure, Seq<char>)>(v));
}

/// Setting at an existing place replaces what is there.
proof fn lemma_set_existing(v: JsonView, p: Seq<PartView>, x: JsonView)
    requires
        get_at(v, p) is Some,
        p.len() > 0,
    ensures
        set_at(v, p, x) == Ok::<JsonView, PathFailure>(put_at(v, p, x)),
    decreases p.len(),
{
    match p[0] {
        PartView::Key(k) => match v {
            JsonView::Object(es) => {
                let j = find_key(es, k).unwrap();
                if p.len() > 1 {
                    lemma_set_existing(es[j].1, p.drop_first(), x);
                } else {
                    assert(p.drop_first().len() == 0);
                }
            },
            _ => {},
        },
        PartView::Index(i) => match v {
            JsonView::Array(a) => {
                if p.len() > 1 {
                    lemma_set_existing(a[i as int], p.drop_first(), x);
                } else {
                    assert(p.drop_first().len() == 0);
                }
            },
            _ => {},
        },
    }
}


/// No key at the top of `v` is `$`, which would name the root.
pub open spec fn no_root_key(v: JsonView) -> bool {
    v matches JsonView::Object(es) ==> forall|i: int| 0 <= i < es.len() ==> #[trigger] es[i].0 != "$"@
}

/// An old entry the diff can name and recurse into.
pub open spec fn old_entry_ok(e: (Seq<char>, JsonView), top: bool) -> bool {
    canonical(e.1) && path_safe(e.1) && segment_round_trips(SegmentView::Key(e.0)) && (top ==> e.0 != "$"@)
}

/// A new entry the diff can name and whose value reads back.
pub open spec fn new_entry_ok(e: (Seq<char>, JsonView), top: bool) -> bool {
    path_safe(e.1) && reads_back(e.1) && segment_round_trips(SegmentView::Key(e.0)) && (top ==> e.0 != "$"@)
}

/// A new entry the diff can name, for the removing steps.
pub open spec fn settled_entry_ok(e: (Seq<char>, JsonView), top: bool) -> bool {
    canonical(e.1) && path_safe(e.1) && segment_round_trips(SegmentView::Key(e.0)) && (top ==> e.0 != "$"@)
}

/// In a strictly sorted list, an entry's key is found at that entry.
pub proof fn lemma_sorted_find(es: Seq<(Seq<char>, JsonView)>, idx: int)
    requires
        strictly_sorted(keys_of(es)),
        0 <= idx < es.len(),
    ensures
        find_key(es, es[idx].0) == Some(idx),
{
    let k = es[idx].0;
    assert forall|m: int| 0 <= m < idx implies es[m].0 != k by {
        assert(keys_of(es)[m] == es[m].0 && keys_of(es)[idx] == k);
        assert(lex_lt(keys_of(es)[m], keys_of(es)[idx]));
        lemma_lex_lt_order(k, k, k);
    }
    lemma_find_key_at(es, k, idx);
}

/// The setting steps of a diff that replaces `x` by `y` outright.
proof fn lemma_sets_modified(x: JsonView, y: JsonView, s: Seq<SegmentView>, v: JsonView)
    requires
        segs_ok(s),
        get_at(v, parts_of(s)) == Some(x),
        reads_back(y),
        diff_spec(x, y, build_spec(s)) == seq![modified_at(x, y, build_spec(s))],
    ensures
        json_patch_sets(v, diff_spec(x, y, build_spec(s))) == Ok::<JsonView, (PathFailure, Seq<char>)>(
            put_at(v, parts_of(s), y),
        ),
{
    let p = parts_of(s);
    let path = build_spec(s);
    lemma_path_of(s);
    let c = modified_at(x, y, path);
    lemma_sets_one(v, c);
    assert(change_json_value(c) == y);
    if s.len() == 0 {
        assert(replaces_root(c));
    } else {
        assert(!replaces_root(c));
        assert(change_target(c) == Some(path));
        lemma_set_existing(v, p, y);
    }
}

/// The setting steps of the diff from `x` to `y`, at the path of `s` in `v`,
/// leave `merged(x, y)` there.
#[verifier::spinoff_prover]
#[verifier::rlimit(60)]
proof fn lemma_sets_diff(x: JsonView, y: JsonView, s: Seq<SegmentView>, v: JsonView)
    requires
        segs_ok(s),
        get_at(v, parts_of(s)) == Some(x),
        canonical(x),
        path_safe(x),
        path_safe(y),
        reads_back(y),
        s.len() == 0 ==> no_root_key(x) && no_root_key(y),
    ensures
        json_patch_sets(v, diff_spec(x, y, build_spec(s))) == Ok::<JsonView, (PathFailure, Seq<char>)>(
            put_at(v, parts_of(s), merged(x, y)),
        ),
    decreases x, 0nat,
{
    let p = parts_of(s);
    let path = build_spec(s);
    lemma_path_of(s);
    if x == y {
        let c = unchanged_at(x, y, path);
        lemma_sets_one(v, c);
        lemma_put_get(v, p, x);
    } else {
        match x {
            JsonView::Object(oe) => match y {
                JsonView::Object(ne) => {
                    lemma_canonical_parts(x);
                    lemma_path_safe_parts(x);
                    lemma_path_safe_parts(y);
                    lemma_reads_back_parts(y);
                    assert forall|i: int| 0 <= i < oe.len() implies old_entry_ok(#[trigger] oe[i], s.len() == 0) by {
                        assert(canonical(oe[i].1));
                        assert(segment_round_trips(SegmentView::Key(oe[i].0)));
                        assert(path_safe(oe[i].1));
                        if s.len() == 0 {
                            assert(no_root_key(x));
                            assert(oe[i].0 != "$"@);
                        }
                    }
                    assert forall|j: int| 0 <= j < ne.len() implies new_entry_ok(#[trigger] ne[j], s.len() == 0) by {
                        assert(segment_round_trips(SegmentView::Key(ne[j].0)));
                        assert(path_safe(ne[j].1));
                        assert(reads_back(ne[j].1));
                        if s.len() == 0 {
                            assert(no_root_key(y));
                            assert(ne[j].0 != "$"@);
                        }
                    }
                    let old_part = diff_object_old(oe, ne, path);
                    let add_part = diff_object_added(ne, oe, path);
                    lemma_sets_concat(v, old_part, add_part);
                    assert(oe + Seq::<(Seq<char>, JsonView)>::empty() =~= oe);
                    lemma_sets_old(oe, ne, s, v, Seq::empty());
                    let mo = merge_old(oe, ne);
                    assert(mo + Seq::<(Seq<char>, JsonView)>::empty() =~= mo);
                    let v1 = put_at(v, p, JsonView::Object(mo));
                    lemma_put_then(v, p, JsonView::Object(mo), merged(x, y));
                    lemma_sets_added(ne, oe, s, v1, mo);
                },
                _ => lemma_sets_modified(x, y, s, v),
            },
            JsonView::Array(oa) => match y {
                JsonView::Array(na) => {
                    lemma_canonical_parts(x);
                    let n: nat = if oa.len() >= na.len() { oa.len() } else { na.len() };
                    lemma_sets_array(oa, na, s, v, n);
                },
                _ => lemma_sets_modified(x, y, s, v),
            },
            _ => lemma_sets_modified(x, y, s, v),
        }
    }
}

/// The setting steps for the old entries `pre` of an object whose entries
/// at the path of `s` are `pre + rest`.
#[verifier::spinoff_prover]
#[verifier::rlimit(60)]
proof fn lemma_sets_old(
    pre: Seq<(Seq<char>, JsonView)>,
    ne: Seq<(Seq<char>, JsonView)>,
    s: Seq<SegmentView>,
    v: JsonView,
    rest: Seq<(Seq<char>, JsonView)>,
)
    requires
        segs_ok(s),
        get_at(v, parts_of(s)) == Some(JsonView::Object(pre + rest)),
        strictly_sorted(keys_of(pre + rest)),
        forall|i: int| 0 <= i < pre.len() ==> old_entry_ok(#[trigger] pre[i], s.len() == 0),
        forall|j: int| 0 <= j < ne.len() ==> new_entry_ok(#[trigger] ne[j], s.len() == 0),
    ensures
        json_patch_sets(v, diff_object_old(pre, ne, build_spec(s))) == Ok::<JsonView, (PathFailure, Seq<char>)>(
            put_at(v, parts_of(s), JsonView::Object(merge_old(pre, ne) + rest)),
        ),
    decreases pre, 0nat,
{
    let p = parts_of(s);
    let path = build_spec(s);
    if pre.len() == 0 {
        assert(merge_old(pre, ne) + rest =~= pre + rest);
        lemma_put_get(v, p, JsonView::Object(pre + rest));
    } else {
        let pre0 = pre.drop_last();
        let e = pre.last();
        let k = e.0;
        let rest1 = seq![e] + rest;
        assert(pre0 + rest1 =~= pre + rest);
        assert forall|i: int| 0 <= i < pre0.len() implies old_entry_ok(#[trigger] pre0[i], s.len() == 0) by {
            assert(pre0[i] == pre[i]);
        }
        assert(old_entry_ok(pre[pre.len() - 1], s.len() == 0));
        lemma_sets_old(pre0, ne, s, v, rest1);
        let m0 = merge_old(pre0, ne);
        let e1 = m0 + rest1;
        let idx = pre0.len() as int;
        lemma_merge_old_keys(pre0, ne);
        assert(keys_of(e1) =~= keys_of(pre + rest)) by {
            assert(keys_of(m0).len() == m0.len());
            assert forall|m: int| 0 <= m < e1.len() implies #[trigger] keys_of(e1)[m] == keys_of(pre + rest)[m] by {
                if m < idx {
                    assert(keys_of(m0)[m] == keys_of(pre0)[m]);
                    assert((pre + rest)[m] == pre0[m]);
                } else {
                    assert(e1[m] == rest1[m - idx]);
                    assert((pre + rest)[m] == (pre0 + rest1)[m]);
                }
            }
        }
        assert(keys_of(m0).len() == m0.len());
        assert(e1[idx] == e);
        lemma_sorted_find(e1, idx);
        let o1 = JsonView::Object(e1);
        let v1 = put_at(v, p, o1);
        let c_part = match find_key(ne, k) {
            Some(j) => diff_spec(e.1, ne[j].1, append_key_spec(path, k)),
            None => seq![removed_at(e.1, append_key_spec(path, k))],
        };
        assert(diff_object_old(pre, ne, path) == diff_object_old(pre0, ne, path) + c_part);
        lemma_sets_concat(v, diff_object_old(pre0, ne, path), c_part);
        let target = merge_old(pre, ne) + rest;
        lemma_put_then(v, p, o1, JsonView::Object(target));
        let kseg = SegmentView::Key(k);
        assert(segment_round_trips(kseg));
        lemma_segs_push(s, kseg);
        let s1 = s.push(kseg);
        lemma_append_key(s, k);
        lemma_get_push(v1, p, PartView::Key(k), o1);
        let kp = seq![PartView::Key(k)];
        assert(kp[0] == PartView::Key(k));
        assert(kp.drop_first() =~= Seq::<PartView>::empty());
        assert(e1[idx].1 == e.1);
        assert(get_at(e.1, Seq::<PartView>::empty()) == Some(e.1));
        assert(get_at(o1, kp) == Some(e.1));
        match find_key(ne, k) {
            Some(j) => {
                lemma_find_key(ne, k);
                let mg = merged(e.1, ne[j].1);
                lemma_sets_diff(e.1, ne[j].1, s1, v1);
                lemma_put_push(v1, p, PartView::Key(k), o1, mg);
                assert(put_at(e.1, Seq::<PartView>::empty(), mg) == mg);
                assert(put_at(o1, kp, mg) == JsonView::Object(e1.update(idx, (k, mg))));
                assert(e1.update(idx, (k, mg)) =~= target);
            },
            None => {
                let c = removed_at(e.1, append_key_spec(path, k));
                lemma_sets_one(v1, c);
                assert(target =~= e1);
                lemma_put_then(v, p, o1, o1);
            },
        }
    }
}

/// The setting steps for the new entries `pre` that the old entries `oe`
/// lack, on an object whose entries at the path of `s` are `base`.
#[verifier::spinoff_prover]
#[verifier::rlimit(60)]
proof fn lemma_sets_added(
    pre: Seq<(Seq<char>, JsonView)>,
    oe: Seq<(Seq<char>, JsonView)>,
    s: Seq<SegmentView>,
    v: JsonView,
    base: Seq<(Seq<char>, JsonView)>,
)
    requires
        segs_ok(s),
        get_at(v, parts_of(s)) == Some(JsonView::Object(base)),
        forall|j: int| 0 <= j < pre.len() ==> new_entry_ok(#[trigger] pre[j], s.len() == 0),
    ensures
        json_patch_sets(v, diff_object_added(pre, oe, build_spec(s))) == Ok::<JsonView, (PathFailure, Seq<char>)>(
            put_at(v, parts_of(s), JsonView::Object(merge_added(pre, oe, base))),
        ),
    decreases pre.len(),
{
    let p = parts_of(s);
    let path = build_spec(s);
    if pre.len() == 0 {
        lemma_put_get(v, p, JsonView::Object(base));
    } else {
        let pre0 = pre.drop_last();
        let e = pre.last();
        let k = e.0;
        assert forall|j: int| 0 <= j < pre0.len() implies new_entry_ok(#[trigger] pre0[j], s.len() == 0) by {
            assert(pre0[j] == pre[j]);
        }
        assert(new_entry_ok(pre[pre.len() - 1], s.len() == 0));
        lemma_sets_added(pre0, oe, s, v, base);
        let b = merge_added(pre0, oe, base);
        let ob = JsonView::Object(b);
        let v1 = put_at(v, p, ob);
        let c_part = if find_key(oe, k) is None {
            seq![added_at(e.1, append_key_spec(path, k))]
        } else {
            Seq::empty()
        };
        assert(diff_object_added(pre, oe, path) == diff_object_added(pre0, oe, path) + c_part);
        lemma_sets_concat(v, diff_object_added(pre0, oe, path), c_part);
        let target = JsonView::Object(merge_added(pre, oe, base));
        lemma_put_then(v, p, ob, target);
        if find_key(oe, k) is None {
            let kseg = SegmentView::Key(k);
            assert(segment_round_trips(kseg));
            lemma_segs_push(s, kseg);
            let s1 = s.push(kseg);
            lemma_append_key(s, k);
            lemma_path_of(s1);
            let c = added_at(e.1, append_key_spec(path, k));
            lemma_sets_one(v1, c);
            assert(change_json_value(c) == e.1);
            assert(!replaces_root(c));
            assert(change_target(c) == Some(build_spec(s1)));
            assert(set_at(ob, seq![PartView::Key(k)], e.1) == Ok::<JsonView, PathFailure>(
                JsonView::Object(object_insert(b, k, e.1)),
            ));
            lemma_set_push(v1, p, PartView::Key(k), ob, e.1);
        } else {
            assert(c_part =~= Seq::<ChangeView>::empty());
            assert(json_patch_sets(v1, c_part) == Ok::<JsonView, (PathFailure, Seq<char>)>(v1));
        }
    }
}

/// The setting steps for the first `n` indices of two arrays, the old one
/// at the path of `s`.
#[verifier::spinoff_prover]
#[verifier::rlimit(60)]
proof fn lemma_sets_array(oa: Seq<JsonView>, na: Seq<JsonView>, s: Seq<SegmentView>, v: JsonView, n: nat)
    requires
        segs_ok(s),
        get_at(v, parts_of(s)) == Some(JsonView::Array(oa)),
        n <= oa.len() || n <= na.len(),
        oa.len() <= usize::MAX,
        na.len() <= usize::MAX,
        forall|i: int| 0 <= i < oa.len() ==> canonical(#[trigger] oa[i]) && path_safe(oa[i]),
        forall|i: int| 0 <= i < na.len() ==> path_safe(#[trigger] na[i]) && reads_back(na[i]),
    ensures
        json_patch_sets(v, diff_array(oa, na, build_spec(s), n)) == Ok::<JsonView, (PathFailure, Seq<char>)>(
            put_at(v, parts_of(s), JsonView::Array(merge_array(oa, na, n))),
        ),
    decreases oa, n,
{
    let p = parts_of(s);
    let path = build_spec(s);
    if n == 0 {
        lemma_put_get(v, p, JsonView::Array(oa));
    } else {
        let i: int = n - 1;
        lemma_sets_array(oa, na, s, v, (n - 1) as nat);
        let a = merge_array(oa, na, (n - 1) as nat);
        lemma_merge_array_shape(oa, na, (n - 1) as nat);
        let arr = JsonView::Array(a);
        let v1 = put_at(v, p, arr);
        let child = append_index_spec(path, i as usize);
        let c_part = if i < oa.len() && i < na.len() {
            diff_spec(oa[i], na[i], child)
        } else if i < oa.len() {
            seq![removed_at(oa[i], child)]
        } else if i < na.len() {
            seq![added_at(na[i], child)]
        } else {
            Seq::empty()
        };
        assert(diff_array(oa, na, path, n) == diff_array(oa, na, path, (n - 1) as nat) + c_part);
        lemma_sets_concat(v, diff_array(oa, na, path, (n - 1) as nat), c_part);
        let target = JsonView::Array(merge_array(oa, na, n));
        lemma_put_then(v, p, arr, target);
        let iseg = SegmentView::Index(i as usize);
        assert(segment_round_trips(iseg));
        lemma_segs_push(s, iseg);
        let s1 = s.push(iseg);
        lemma_append_index(s, i as usize);
        assert(part_of(iseg) == PartView::Index(i as nat));
        let ip = seq![PartView::Index(i as nat)];
        assert(ip[0] == PartView::Index(i as nat));
        assert(ip.drop_first() =~= Seq::<PartView>::empty());
        lemma_get_push(v1, p, PartView::Index(i as nat), arr);
        assert(get_at(a[i], Seq::<PartView>::empty()) == Some(a[i]));
        if i < oa.len() && i < na.len() {
            assert(a[i] == oa[i]);
            lemma_get_push(v1, p, PartView::Index(i as nat), arr);
            let mg = merged(oa[i], na[i]);
            lemma_sets_diff(oa[i], na[i], s1, v1);
            lemma_put_push(v1, p, PartView::Index(i as nat), arr, mg);
            assert(put_at(a[i], Seq::<PartView>::empty(), mg) == mg);
            assert(get_at(arr, ip) == Some(a[i]));
            assert(put_at(arr, ip, mg) == JsonView::Array(a.update(i, mg)));
        } else if i < oa.len() {
            let c = removed_at(oa[i], child);
            lemma_sets_one(v1, c);
            lemma_put_then(v, p, arr, arr);
        } else {
            lemma_path_of(s1);
            let c = added_at(na[i], child);
            lemma_sets_one(v1, c);
            assert(change_json_value(c) == na[i]);
            assert(!replaces_root(c));
            assert(change_target(c) == Some(build_spec(s1)));
            assert(a.len() == i);
            assert(set_at(arr, seq![PartView::Index(i as nat)], na[i]) == Ok::<JsonView, PathFailure>(
                JsonView::Array(a.push(na[i])),
            ));
            lemma_set_push(v1, p, PartView::Index(i as nat), arr, na[i]);
        }
    }
}


// ── Looking keys up in sorted entries ──────────────────────────────────

/// The value under `k`, if any.
pub open spec fn lookup(es: Seq<(Seq<char>, JsonView)>, k: Seq<char>) -> Option<JsonView> {
    match find_key(es, k) {
        Some(j) => Some(es[j].1),
        None => None,
    }
}

pub proof fn lemma_lookup_cases(es: Seq<(Seq<char>, JsonView)>, k: Seq<char>)
    requires
        strictly_sorted(keys_of(es)),
    ensures
        forall|i: int| 0 <= i < es.len() && es[i].0 == k ==> lookup(es, k) == Some(es[i].1),
        (forall|i: int| 0 <= i < es.len() ==> es[i].0 != k) ==> lookup(es, k) is None,
{
    assert forall|i: int| 0 <= i < es.len() && es[i].0 == k implies lookup(es, k) == Some(es[i].1) by {
        lemma_sorted_find(es, i);
    }
    if forall|i: int| 0 <= i < es.len() ==> es[i].0 != k {
        crate::value::lemma_find_key_none(es, k);
    }
}

/// Sorted entries with the same value under every key are the same.
#[verifier::spinoff_prover]
#[verifier::rlimit(60)]
proof fn lemma_lookup_ext(a: Seq<(Seq<char>, JsonView)>, b: Seq<(Seq<char>, JsonView)>)
    requires
        strictly_sorted(keys_of(a)),
        strictly_sorted(keys_of(b)),
        forall|k: Seq<char>| lookup(a, k) == lookup(b, k),
    ensures
        a == b,
{
    assert(keys_of(a).to_set() =~= keys_of(b).to_set()) by {
        assert forall|k: Seq<char>| keys_of(a).to_set().contains(k) implies keys_of(b).to_set().contains(k) by {
            let i = choose|i: int| 0 <= i < keys_of(a).len() && keys_of(a)[i] == k;
            lemma_lookup_cases(a, k);
            lemma_lookup_cases(b, k);
            assert(lookup(a, k) is Some);
            if forall|j: int| 0 <= j < b.len() ==> b[j].0 != k {
            } else {
                let j = choose|j: int| 0 <= j < b.len() && b[j].0 == k;
                assert(keys_of(b)[j] == k);
            }
        }
        assert forall|k: Seq<char>| keys_of(b).to_set().contains(k) implies keys_of(a).to_set().contains(k) by {
            let i = choose|i: int| 0 <= i < keys_of(b).len() && keys_of(b)[i] == k;
            lemma_lookup_cases(a, k);
            lemma_lookup_cases(b, k);
            assert(lookup(b, k) is Some);
            if forall|j: int| 0 <= j < a.len() ==> a[j].0 != k {
            } else {
                let j = choose|j: int| 0 <= j < a.len() && a[j].0 == k;
                assert(keys_of(a)[j] == k);
            }
        }
    }
    crate::text::lemma_sorted_unique(keys_of(a), keys_of(b));
    assert(a.len() == keys_of(a).len() && b.len() == keys_of(b).len());
    assert forall|i: int| 0 <= i < a.len() implies a[i] == b[i] by {
        assert(keys_of(a)[i] == keys_of(b)[i]);
        let k = a[i].0;
        lemma_lookup_cases(a, k);
        lemma_lookup_cases(b, k);
    }
    assert(a =~= b);
}

/// Replacing the value of an entry keeps the keys; only that key's value
/// changes.
#[verifier::spinoff_prover]
#[verifier::rlimit(60)]
pub proof fn lemma_lookup_update(es: Seq<(Seq<char>, JsonView)>, j: int, z: JsonView)
    requires
        strictly_sorted(keys_of(es)),
        0 <= j < es.len(),
    ensures
        keys_of(es.update(j, (es[j].0, z))) == keys_of(es),
        forall|k: Seq<char>| #[trigger] lookup(es.update(j, (es[j].0, z)), k) == if k == es[j].0 {
            Some(z)
        } else {
            lookup(es, k)
        },
{
    let es2 = es.update(j, (es[j].0, z));
    assert(keys_of(es2) =~= keys_of(es));
    assert forall|k: Seq<char>| #[trigger] lookup(es2, k) == if k == es[j].0 { Some(z) } else { lookup(es, k) } by {
        lemma_lookup_cases(es, k);
        lemma_lookup_cases(es2, k);
        if exists|i: int| 0 <= i < es.len() && es[i].0 == k {
            let i = choose|i: int| 0 <= i < es.len() && es[i].0 == k;
            assert(es2[i].0 == k);
            if i != j {
                assert(es[i].0 != es[j].0) by {
                    assert(keys_of(es)[i] == es[i].0 && keys_of(es)[j] == es[j].0);
                    lemma_lex_lt_order(es[i].0, es[j].0, es[i].0);
                    if i < j {
                        assert(lex_lt(keys_of(es)[i], keys_of(es)[j]));
                    } else {
                        assert(lex_lt(keys_of(es)[j], keys_of(es)[i]));
                    }
                }
            }
        } else {
            assert forall|i: int| 0 <= i < es2.len() implies es2[i].0 != k by {
                assert(es2[i].0 == es[i].0);
            }
        }
    }
}

/// Removing a key keeps the others in order, with their values.
#[verifier::spinoff_prover]
#[verifier::rlimit(60)]
pub proof fn lemma_lookup_remove(es: Seq<(Seq<char>, JsonView)>, k: Seq<char>)
    requires
        strictly_sorted(keys_of(es)),
    ensures
        strictly_sorted(keys_of(object_remove(es, k))),
        forall|q: Seq<char>| #[trigger] lookup(object_remove(es, k), q) == if q == k {
            None
        } else {
            lookup(es, q)
        },
{
    lemma_find_key(es, k);
    match find_key(es, k) {
        Some(j) => {
            let es2 = es.remove(j);
            assert(keys_of(es2) =~= keys_of(es).remove(j));
            assert(strictly_sorted(keys_of(es2))) by {
                assert forall|a: int, b: int| 0 <= a < b < keys_of(es2).len() implies lex_lt(
                    #[trigger] keys_of(es2)[a],
                    #[trigger] keys_of(es2)[b],
                ) by {
                    let a1 = if a < j { a } else { a + 1 };
                    let b1 = if b < j { b } else { b + 1 };
                    assert(keys_of(es2)[a] == keys_of(es)[a1]);
                    assert(keys_of(es2)[b] == keys_of(es)[b1]);
                }
            }
            assert forall|q: Seq<char>| #[trigger] lookup(es2, q) == if q == k { None } else { lookup(es, q) } by {
                lemma_lookup_cases(es, q);
                lemma_lookup_cases(es2, q);
                if exists|i: int| 0 <= i < es2.len() && es2[i].0 == q {
                    let i = choose|i: int| 0 <= i < es2.len() && es2[i].0 == q;
                    let i1 = if i < j { i } else { i + 1 };
                    assert(es2[i] == es[i1]);
                    assert(i1 != j);
                    assert(keys_of(es)[i1] == es[i1].0 && keys_of(es)[j] == es[j].0);
                    lemma_lex_lt_order(es[i1].0, es[j].0, es[i1].0);
                    if i1 < j {
                        assert(lex_lt(keys_of(es)[i1], keys_of(es)[j]));
                    } else {
                        assert(lex_lt(keys_of(es)[j], keys_of(es)[i1]));
                    }
                } else {
                    if q != k {
                        assert forall|i: int| 0 <= i < es.len() implies es[i].0 != q by {
                            if i < j {
                                assert(es2[i] == es[i]);
                            } else if i > j {
                                assert(es2[i - 1] == es[i]);
                            }
                        }
                    }
                }
            }
        },
        None => {
            assert forall|q: Seq<char>| #[trigger] lookup(es, q) == if q == k { None } else { lookup(es, q) } by {
                if q == k {
                    lemma_lookup_cases(es, q);
                }
            }
        },
    }
}

/// Inserting a key puts it in order with its value; the others keep theirs.
#[verifier::spinoff_prover]
#[verifier::rlimit(60)]
proof fn lemma_lookup_insert(es: Seq<(Seq<char>, JsonView)>, k: Seq<char>, z: JsonView)
    requires
        strictly_sorted(keys_of(es)),
    ensures
        strictly_sorted(keys_of(object_insert(es, k, z))),
        forall|q: Seq<char>| #[trigger] lookup(object_insert(es, k, z), q) == if q == k {
            Some(z)
        } else {
            lookup(es, q)
        },
{
    lemma_find_key(es, k);
    match find_key(es, k) {
        Some(j) => {
            lemma_lookup_update(es, j, z);
        },
        None => {
            let pos = crate::value::insert_position(es, k);
            crate::value::lemma_insert_position(es, k);
            let es2 = es.insert(pos, (k, z));
            assert(keys_of(es2) =~= keys_of(es).insert(pos, k));
            assert forall|i: int| 0 <= i < pos implies lex_lt(#[trigger] es[i].0, k) by {
                assert(!lex_lt(k, es[i].0));
                lemma_lex_lt_order(es[i].0, k, es[i].0);
            }
            assert(strictly_sorted(keys_of(es2))) by {
                assert forall|a: int, b: int| 0 <= a < b < keys_of(es2).len() implies lex_lt(
                    #[trigger] keys_of(es2)[a],
                    #[trigger] keys_of(es2)[b],
                ) by {
                    if b < pos {
                        assert(keys_of(es2)[a] == keys_of(es)[a] && keys_of(es2)[b] == keys_of(es)[b]);
                    } else if b == pos {
                        assert(keys_of(es2)[a] == es[a].0);
                    } else if a < pos {
                        assert(keys_of(es2)[a] == es[a].0 && keys_of(es2)[b] == keys_of(es)[b - 1]);
                        assert(lex_lt(es[a].0, k));
                        if b - 1 > pos {
                            assert(lex_lt(keys_of(es)[pos], keys_of(es)[b - 1]));
                        }
                        lemma_lex_lt_order(k, es[pos].0, keys_of(es)[b - 1]);
                        lemma_lex_lt_order(es[a].0, k, keys_of(es)[b - 1]);
                    } else if a == pos {
                        assert(keys_of(es2)[b] == keys_of(es)[b - 1]);
                        if b - 1 > pos {
                            assert(lex_lt(keys_of(es)[pos], keys_of(es)[b - 1]));
                            lemma_lex_lt_order(k, es[pos].0, keys_of(es)[b - 1]);
                        }
                    } else {
                        assert(keys_of(es2)[a] == keys_of(es)[a - 1] && keys_of(es2)[b] == keys_of(es)[b - 1]);
                    }
                }
            }
            assert forall|q: Seq<char>| #[trigger] lookup(es2, q) == if q == k { Some(z) } else { lookup(es, q) } by {
                lemma_lookup_cases(es, q);
                lemma_lookup_cases(es2, q);
                assert(es2[pos] == (k, z));
                if q != k {
                    if exists|i: int| 0 <= i < es.len() && es[i].0 == q {
                        let i = choose|i: int| 0 <= i < es.len() && es[i].0 == q;
                        let i2 = if i < pos { i } else { i + 1 };
                        assert(es2[i2] == es[i]);
                    } else {
                        assert forall|i: int| 0 <= i < es2.len() implies es2[i].0 != q by {
                            if i < pos {
                                assert(es2[i] == es[i]);
                            } else if i > pos {
                                assert(es2[i] == es[i - 1]);
                            }
                        }
                    }
                }
            }
        },
    }
}


proof fn lemma_find_key_push(es: Seq<(Seq<char>, JsonView)>, e: (Seq<char>, JsonView), k: Seq<char>)
    ensures
        find_key(es.push(e), k) == match find_key(es, k) {
            Some(j) => Some(j),
            None => if e.0 == k { Some(es.len() as int) } else { None },
        },
    decreases es.len(),
{
    if es.len() > 0 {
        assert(es.push(e).drop_first() =~= es.drop_first().push(e));
        assert(es.push(e)[0] == es[0]);
        lemma_find_key_push(es.drop_first(), e, k);
    } else {
        assert(es.push(e).drop_first() =~= Seq::<(Seq<char>, JsonView)>::empty());
        assert(es.push(e)[0] == e);
        assert(find_key(Seq::<(Seq<char>, JsonView)>::empty(), k) is None);
    }
}

proof fn lemma_sorted_prefix(es: Seq<(Seq<char>, JsonView)>)
    requires
        strictly_sorted(keys_of(es)),
        es.len() > 0,
    ensures
        strictly_sorted(keys_of(es.drop_last())),
        forall|i: int| 0 <= i < es.len() - 1 ==> #[trigger] es[i].0 != es.last().0,
{
    assert(keys_of(es.drop_last()) =~= keys_of(es).drop_last());
    assert forall|i: int| 0 <= i < es.len() - 1 implies #[trigger] es[i].0 != es.last().0 by {
        assert(keys_of(es)[i] == es[i].0 && keys_of(es)[es.len() - 1] == es.last().0);
        assert(lex_lt(keys_of(es)[i], keys_of(es)[es.len() - 1]));
        lemma_lex_lt_order(es[i].0, es[i].0, es[i].0);
    }
}

proof fn lemma_merge_old_at(oe: Seq<(Seq<char>, JsonView)>, ne: Seq<(Seq<char>, JsonView)>)
    ensures
        merge_old(oe, ne).len() == oe.len(),
        forall|i: int| 0 <= i < oe.len() ==> #[trigger] merge_old(oe, ne)[i] == (oe[i].0, match lookup(ne, oe[i].0) {
            Some(b) => merged(oe[i].1, b),
            None => oe[i].1,
        }),
    decreases oe.len(),
{
    if oe.len() > 0 {
        lemma_merge_old_at(oe.drop_last(), ne);
        assert forall|i: int| 0 <= i < oe.len() implies #[trigger] merge_old(oe, ne)[i] == (oe[i].0, match lookup(ne, oe[i].0) {
            Some(b) => merged(oe[i].1, b),
            None => oe[i].1,
        }) by {
            if i < oe.len() - 1 {
                assert(merge_old(oe, ne)[i] == merge_old(oe.drop_last(), ne)[i]);
                assert(oe.drop_last()[i] == oe[i]);
            }
        }
    }
}

/// The value under a key after the setting steps of an object's diff.
pub open spec fn merged_lookup(oe: Seq<(Seq<char>, JsonView)>, ne: Seq<(Seq<char>, JsonView)>, k: Seq<char>) -> Option<JsonView> {
    match lookup(oe, k) {
        Some(a) => Some(match lookup(ne, k) {
            Some(b) => merged(a, b),
            None => a,
        }),
        None => lookup(ne, k),
    }
}

#[verifier::spinoff_prover]
#[verifier::rlimit(60)]
proof fn lemma_merge_added_lookup(
    pre: Seq<(Seq<char>, JsonView)>,
    oe: Seq<(Seq<char>, JsonView)>,
    base: Seq<(Seq<char>, JsonView)>,
)
    requires
        strictly_sorted(keys_of(base)),
        strictly_sorted(keys_of(pre)),
    ensures
        strictly_sorted(keys_of(merge_added(pre, oe, base))),
        forall|k: Seq<char>| #[trigger] lookup(merge_added(pre, oe, base), k) == if lookup(oe, k) is None && lookup(pre, k) is Some {
            lookup(pre, k)
        } else {
            lookup(base, k)
        },
    decreases pre.len(),
{
    if pre.len() > 0 {
        let pre0 = pre.drop_last();
        let e = pre.last();
        lemma_sorted_prefix(pre);
        lemma_merge_added_lookup(pre0, oe, base);
        let b = merge_added(pre0, oe, base);
        assert(pre0.push(e) =~= pre);
        lemma_find_key(pre0, e.0);
        assert forall|k: Seq<char>| #[trigger] lookup(pre, k) == match lookup(pre0, k) {
            Some(x) => Some(x),
            None => if e.0 == k { Some(e.1) } else { None },
        } by {
            lemma_find_key_push(pre0, e, k);
            lemma_find_key(pre0, k);
            if let Some(j) = find_key(pre0, k) {
                assert(pre[j] == pre0[j]);
            }
        }
        if find_key(oe, e.0) is None {
            lemma_lookup_insert(b, e.0, e.1);
        }
    }
}

/// The object entries after the removing steps for the old entries `pre`,
/// last first: a key the new entries have gets their value, any other key
/// goes.
pub open spec fn settle_old(
    pre: Seq<(Seq<char>, JsonView)>,
    ne: Seq<(Seq<char>, JsonView)>,
    f: Seq<(Seq<char>, JsonView)>,
) -> Seq<(Seq<char>, JsonView)>
    decreases pre.len(),
{
    if pre.len() == 0 {
        f
    } else {
        let k = pre.last().0;
        settle_old(
            pre.drop_last(),
            ne,
            match find_key(ne, k) {
                Some(j) => object_insert(f, k, ne[j].1),
                None => object_remove(f, k),
            },
        )
    }
}

#[verifier::spinoff_prover]
#[verifier::rlimit(60)]
proof fn lemma_settle_lookup(pre: Seq<(Seq<char>, JsonView)>, ne: Seq<(Seq<char>, JsonView)>, f: Seq<(Seq<char>, JsonView)>)
    requires
        strictly_sorted(keys_of(f)),
    ensures
        strictly_sorted(keys_of(settle_old(pre, ne, f))),
        forall|q: Seq<char>| #[trigger] lookup(settle_old(pre, ne, f), q) == if find_key(pre, q) is Some {
            lookup(ne, q)
        } else {
            lookup(f, q)
        },
    decreases pre.len(),
{
    if pre.len() > 0 {
        let pre0 = pre.drop_last();
        let e = pre.last();
        let k = e.0;
        let f1 = match find_key(ne, k) {
            Some(j) => object_insert(f, k, ne[j].1),
            None => object_remove(f, k),
        };
        match find_key(ne, k) {
            Some(j) => lemma_lookup_insert(f, k, ne[j].1),
            None => lemma_lookup_remove(f, k),
        }
        lemma_settle_lookup(pre0, ne, f1);
        assert(pre0.push(e) =~= pre);
        assert forall|q: Seq<char>| #[trigger] lookup(settle_old(pre, ne, f), q) == if find_key(pre, q) is Some {
            lookup(ne, q)
        } else {
            lookup(f, q)
        } by {
            lemma_find_key_push(pre0, e, q);
        }
    }
}

// ── Removing steps ─────────────────────────────────────────────────────

proof fn lemma_removals_concat(v: JsonView, a: Seq<ChangeView>, b: Seq<ChangeView>)
    ensures
        json_patch_removals(v, a + b) == match json_patch_removals(v, b) {
            Ok(u) => json_patch_removals(u, a),
            Err(e) => Err(e),
        },
    decreases b.len(),
{
    if b.len() == 0 {
        assert(a + b =~= a);
    } else {
        assert((a + b).drop_last() =~= a + b.drop_last());
        assert((a + b).last() == b.last());
        match json_remove_step(v, b.last()) {
            Ok(x) => lemma_removals_concat(x, a, b.drop_last()),
            Err(_) => {},
        }
    }
}

proof fn lemma_removals_one(v: JsonView, c: ChangeView)
    ensures
        json_patch_removals(v, seq![c]) == json_remove_step(v, c),
{
    assert(seq![c].drop_last() =~= Seq::<ChangeView>::empty());
    assert(seq![c].last() == c);
    match json_remove_step(v, c) {
        Ok(x) => {
            assert(json_patch_removals(x, Seq::<ChangeView>::empty()) == Ok::<JsonView, (PathFailure, Seq<char>)>(x));
        },
        Err(_) => {},
    }
}

proof fn lemma_rems_added(pre: Seq<(Seq<char>, JsonView)>, oe: Seq<(Seq<char>, JsonView)>, path: Seq<char>, v: JsonView)
    ensures
        json_patch_removals(v, diff_object_added(pre, oe, path)) == Ok::<JsonView, (PathFailure, Seq<char>)>(v),
    decreases pre.len(),
{
    if pre.len() > 0 {
        let pre0 = pre.drop_last();
        let e = pre.last();
        let c_part = if find_key(oe, e.0) is None {
            seq![added_at(e.1, append_key_spec(path, e.0))]
        } else {
            Seq::empty()
        };
        assert(diff_object_added(pre, oe, path) == diff_object_added(pre0, oe, path) + c_part);
        lemma_removals_concat(v, diff_object_added(pre0, oe, path), c_part);
        if find_key(oe, e.0) is None {
            lemma_removals_one(v, added_at(e.1, append_key_spec(path, e.0)));
        } else {
            assert(c_part =~= Seq::<ChangeView>::empty());
        }
        lemma_rems_added(pre0, oe, path, v);
    }
}


/// The removing steps of the diff from `x` to `y`, at the path of `s` in
/// `v` where the setting steps left `merged(x, y)`, leave `y` there.
#[verifier::spinoff_prover]
#[verifier::rlimit(60)]
proof fn lemma_rems_diff(x: JsonView, y: JsonView, s: Seq<SegmentView>, v: JsonView)
    requires
        segs_ok(s),
        get_at(v, parts_of(s)) == Some(merged(x, y)),
        canonical(x),
        canonical(y),
        path_safe(x),
        path_safe(y),
        s.len() == 0 ==> no_root_key(x) && no_root_key(y),
    ensures
        json_patch_removals(v, diff_spec(x, y, build_spec(s))) == Ok::<JsonView, (PathFailure, Seq<char>)>(
            put_at(v, parts_of(s), y),
        ),
    decreases x, 0nat,
{
    let p = parts_of(s);
    let path = build_spec(s);
    lemma_path_of(s);
    if x == y {
        lemma_removals_one(v, unchanged_at(x, y, path));
        lemma_put_get(v, p, x);
    } else {
        match (x, y) {
            (JsonView::Object(_), JsonView::Object(_)) => {},
            (JsonView::Array(_), JsonView::Array(_)) => {},
            _ => {
                assert(diff_spec(x, y, path) == seq![modified_at(x, y, path)]);
                lemma_removals_one(v, modified_at(x, y, path));
                lemma_put_get(v, p, y);
            },
        }
        match x {
            JsonView::Object(oe) => match y {
                JsonView::Object(ne) => {
                    lemma_canonical_parts(x);
                    lemma_canonical_parts(y);
                    lemma_path_safe_parts(x);
                    lemma_path_safe_parts(y);
                    let mo = merge_old(oe, ne);
                    let ma = merge_added(ne, oe, mo);
                    lemma_merge_old_keys(oe, ne);
                    lemma_merge_old_at(oe, ne);
                    lemma_merge_added_lookup(ne, oe, mo);
                    assert forall|i: int| 0 <= i < oe.len() implies old_entry_ok(#[trigger] oe[i], s.len() == 0)
                        && lookup(ma, oe[i].0) == Some(match lookup(ne, oe[i].0) {
                        Some(b) => merged(oe[i].1, b),
                        None => oe[i].1,
                    }) by {
                        assert(segment_round_trips(SegmentView::Key(oe[i].0)));
                        assert(path_safe(oe[i].1));
                        if s.len() == 0 {
                            assert(no_root_key(x));
                        }
                        lemma_lookup_cases(oe, oe[i].0);
                        lemma_lookup_cases(mo, oe[i].0);
                        assert(mo[i].0 == oe[i].0);
                    }
                    assert forall|j: int| 0 <= j < ne.len() implies settled_entry_ok(#[trigger] ne[j], s.len() == 0) by {
                        assert(canonical(ne[j].1));
                        assert(segment_round_trips(SegmentView::Key(ne[j].0)));
                        assert(path_safe(ne[j].1));
                        if s.len() == 0 {
                            assert(no_root_key(y));
                        }
                    }
                    let old_part = diff_object_old(oe, ne, path);
                    let add_part = diff_object_added(ne, oe, path);
                    lemma_removals_concat(v, old_part, add_part);
                    lemma_rems_added(ne, oe, path, v);
                    lemma_rems_old(oe, ne, s, v, ma);
                    let st = settle_old(oe, ne, ma);
                    lemma_settle_lookup(oe, ne, ma);
                    assert forall|q: Seq<char>| lookup(st, q) == lookup(ne, q) by {
                        lemma_lookup_cases(oe, q);
                        lemma_lookup_cases(mo, q);
                        lemma_find_key(oe, q);
                        if find_key(oe, q) is None {
                            assert forall|i: int| 0 <= i < mo.len() implies mo[i].0 != q by {
                                assert(mo[i].0 == oe[i].0);
                            }
                        }
                    }
                    lemma_lookup_ext(st, ne);
                },
                _ => {},
            },
            JsonView::Array(oa) => match y {
                JsonView::Array(na) => {
                    lemma_canonical_parts(x);
                    lemma_canonical_parts(y);
                    lemma_path_safe_parts(x);
                    lemma_path_safe_parts(y);
                    let n: nat = if oa.len() >= na.len() { oa.len() } else { na.len() };
                    lemma_merge_array_shape(oa, na, n);
                    assert(arr_settled(oa, na, n) =~= merge_array(oa, na, n));
                    lemma_rems_array(oa, na, s, v, n);
                },
                _ => {},
            },
            _ => {},
        }
    }
}

/// The removing steps for the old entries `pre`, last first, on an object
/// whose entries at the path of `s` are `f`.
#[verifier::spinoff_prover]
#[verifier::rlimit(60)]
proof fn lemma_rems_old(
    pre: Seq<(Seq<char>, JsonView)>,
    ne: Seq<(Seq<char>, JsonView)>,
    s: Seq<SegmentView>,
    v: JsonView,
    f: Seq<(Seq<char>, JsonView)>,
)
    requires
        segs_ok(s),
        get_at(v, parts_of(s)) == Some(JsonView::Object(f)),
        strictly_sorted(keys_of(f)),
        strictly_sorted(keys_of(pre)),
        forall|i: int|
            0 <= i < pre.len() ==> old_entry_ok(#[trigger] pre[i], s.len() == 0) && lookup(f, pre[i].0) == Some(
                match lookup(ne, pre[i].0) {
                    Some(b) => merged(pre[i].1, b),
                    None => pre[i].1,
                },
            ),
        forall|j: int| 0 <= j < ne.len() ==> settled_entry_ok(#[trigger] ne[j], s.len() == 0),
    ensures
        json_patch_removals(v, diff_object_old(pre, ne, build_spec(s))) == Ok::<JsonView, (PathFailure, Seq<char>)>(
            put_at(v, parts_of(s), JsonView::Object(settle_old(pre, ne, f))),
        ),
    decreases pre, 0nat,
{
    let p = parts_of(s);
    let path = build_spec(s);
    let of = JsonView::Object(f);
    if pre.len() == 0 {
        lemma_put_get(v, p, of);
    } else {
        let pre0 = pre.drop_last();
        let e = pre.last();
        let k = e.0;
        lemma_sorted_prefix(pre);
        assert(old_entry_ok(pre[pre.len() - 1], s.len() == 0));
        let c_part = match find_key(ne, k) {
            Some(j) => diff_spec(e.1, ne[j].1, append_key_spec(path, k)),
            None => seq![removed_at(e.1, append_key_spec(path, k))],
        };
        assert(diff_object_old(pre, ne, path) == diff_object_old(pre0, ne, path) + c_part);
        lemma_removals_concat(v, diff_object_old(pre0, ne, path), c_part);
        let kseg = SegmentView::Key(k);
        lemma_segs_push(s, kseg);
        let s1 = s.push(kseg);
        lemma_append_key(s, k);
        lemma_path_of(s1);
        lemma_find_key(f, k);
        let jf = find_key(f, k).unwrap();
        let kp = seq![PartView::Key(k)];
        assert(kp[0] == PartView::Key(k));
        assert(kp.drop_first() =~= Seq::<PartView>::empty());
        lemma_get_push(v, p, PartView::Key(k), of);
        assert(get_at(f[jf].1, Seq::<PartView>::empty()) == Some(f[jf].1));
        let f1 = match find_key(ne, k) {
            Some(j) => object_insert(f, k, ne[j].1),
            None => object_remove(f, k),
        };
        let of1 = JsonView::Object(f1);
        match find_key(ne, k) {
            Some(j) => {
                lemma_find_key(ne, k);
                assert(settled_entry_ok(ne[j], s.len() == 0));
                lemma_lookup_insert(f, k, ne[j].1);
                assert(lookup(ne, k) == Some(ne[j].1));
                lemma_rems_diff(e.1, ne[j].1, s1, v);
                lemma_put_push(v, p, PartView::Key(k), of, ne[j].1);
                assert(put_at(f[jf].1, Seq::<PartView>::empty(), ne[j].1) == ne[j].1);
                assert(put_at(of, kp, ne[j].1) == of1);
            },
            None => {
                lemma_lookup_remove(f, k);
                let c = removed_at(e.1, append_key_spec(path, k));
                lemma_removals_one(v, c);
                assert(change_target(c) == Some(build_spec(s1)));
                assert(remove_at(of, kp) == Ok::<JsonView, PathFailure>(of1));
                lemma_remove_push(v, p, PartView::Key(k), of);
            },
        }
        let v1 = put_at(v, p, of1);
        lemma_put_then(v, p, of1, JsonView::Object(settle_old(pre, ne, f)));
        assert forall|i: int| 0 <= i < pre0.len() implies old_entry_ok(#[trigger] pre0[i], s.len() == 0) && lookup(
            f1,
            pre0[i].0,
        ) == Some(
            match lookup(ne, pre0[i].0) {
                Some(b) => merged(pre0[i].1, b),
                None => pre0[i].1,
            },
        ) by {
            assert(pre0[i] == pre[i]);
            assert(pre[i].0 != k);
        }
        lemma_rems_old(pre0, ne, s, v1, f1);
    }
}

/// The elements after the removing steps for the indices from `n` up: the
/// new elements from `n` on, what the setting steps left before it.
pub open spec fn arr_settled(oa: Seq<JsonView>, na: Seq<JsonView>, n: nat) -> Seq<JsonView> {
    let g = merge_array(oa, na, if oa.len() >= na.len() { oa.len() } else { na.len() });
    Seq::new(if n <= na.len() { na.len() } else { n }, |i: int| if i < n { g[i] } else { na[i] })
}

/// The removing steps for the first `n` indices of two arrays, last first.
#[verifier::spinoff_prover]
#[verifier::rlimit(60)]
proof fn lemma_rems_array(oa: Seq<JsonView>, na: Seq<JsonView>, s: Seq<SegmentView>, v: JsonView, n: nat)
    requires
        segs_ok(s),
        get_at(v, parts_of(s)) == Some(JsonView::Array(arr_settled(oa, na, n))),
        n <= oa.len() || n <= na.len(),
        oa.len() <= usize::MAX,
        na.len() <= usize::MAX,
        forall|i: int| 0 <= i < oa.len() ==> canonical(#[trigger] oa[i]) && path_safe(oa[i]),
        forall|i: int| 0 <= i < na.len() ==> canonical(#[trigger] na[i]) && path_safe(na[i]),
    ensures
        json_patch_removals(v, diff_array(oa, na, build_spec(s), n)) == Ok::<JsonView, (PathFailure, Seq<char>)>(
            put_at(v, parts_of(s), JsonView::Array(na)),
        ),
    decreases oa, n,
{
    let p = parts_of(s);
    let path = build_spec(s);
    let mx: nat = if oa.len() >= na.len() { oa.len() } else { na.len() };
    let g = merge_array(oa, na, mx);
    lemma_merge_array_shape(oa, na, mx);
    let cur = arr_settled(oa, na, n);
    let arr = JsonView::Array(cur);
    if n == 0 {
        assert(cur =~= na);
        lemma_put_get(v, p, arr);
    } else {
        let i: int = n - 1;
        let child = append_index_spec(path, i as usize);
        let c_part = if i < oa.len() && i < na.len() {
            diff_spec(oa[i], na[i], child)
        } else if i < oa.len() {
            seq![removed_at(oa[i], child)]
        } else if i < na.len() {
            seq![added_at(na[i], child)]
        } else {
            Seq::empty()
        };
        assert(diff_array(oa, na, path, n) == diff_array(oa, na, path, (n - 1) as nat) + c_part);
        lemma_removals_concat(v, diff_array(oa, na, path, (n - 1) as nat), c_part);
        let next = arr_settled(oa, na, (n - 1) as nat);
        let arr1 = JsonView::Array(next);
        let iseg = SegmentView::Index(i as usize);
        assert(segment_round_trips(iseg));
        lemma_segs_push(s, iseg);
        let s1 = s.push(iseg);
        lemma_append_index(s, i as usize);
        lemma_path_of(s1);
        assert(part_of(iseg) == PartView::Index(i as nat));
        let ip = seq![PartView::Index(i as nat)];
        assert(ip[0] == PartView::Index(i as nat));
        assert(ip.drop_first() =~= Seq::<PartView>::empty());
        lemma_get_push(v, p, PartView::Index(i as nat), arr);
        if i < oa.len() && i < na.len() {
            assert(cur[i] == merged(oa[i], na[i]));
            assert(get_at(cur[i], Seq::<PartView>::empty()) == Some(cur[i]));
            lemma_rems_diff(oa[i], na[i], s1, v);
            lemma_put_push(v, p, PartView::Index(i as nat), arr, na[i]);
            assert(put_at(cur[i], Seq::<PartView>::empty(), na[i]) == na[i]);
            assert(put_at(arr, ip, na[i]) == JsonView::Array(cur.update(i, na[i])));
            assert(cur.update(i, na[i]) =~= next);
        } else if i < oa.len() {
            let c = removed_at(oa[i], child);
            lemma_removals_one(v, c);
            assert(change_target(c) == Some(build_spec(s1)));
            assert(cur.len() == n);
            assert(remove_at(arr, ip) == Ok::<JsonView, PathFailure>(JsonView::Array(cur.remove(i))));
            assert(cur.remove(i) =~= next);
            lemma_remove_push(v, p, PartView::Index(i as nat), arr);
        } else {
            let c = added_at(na[i], child);
            lemma_removals_one(v, c);
            assert(cur =~= next);
            lemma_put_get(v, p, arr);
        }
        lemma_put_then(v, p, arr1, JsonView::Array(na));
        lemma_rems_array(oa, na, s, put_at(v, p, arr1), (n - 1) as nat);
    }
}

// ── The law ────────────────────────────────────────────────────────────

/// Patching a JSON value with its diff against a new value gives the new
/// value: every setting step in order, then every removing step from the
/// last to the first. This holds for values as serde_json reads them (keys
/// in order, none twice), whose keys paths can carry (non-empty, and without
/// `"` where they must be quoted), whose arrays' lengths fit in a `usize`,
/// with no key `$` at the top (the root's own path), and whose new parts
/// read back from the text serde_json prints for them.
pub proof fn law_json_patch_round_trip(old: JsonView, new: JsonView)
    requires
        canonical(old),
        canonical(new),
        path_safe(old),
        path_safe(new),
        no_root_key(old),
        no_root_key(new),
        reads_back(new),
    ensures
        json_patch_all(old, diff_spec(old, new, Seq::empty())) == Ok::<JsonView, (PathFailure, Seq<char>)>(new),
{
    let s = Seq::<SegmentView>::empty();
    assert(parts_of(s) =~= Seq::<PartView>::empty());
    assert(build_spec(s) =~= Seq::<char>::empty());
    lemma_sets_diff(old, new, s, old);
    let m = merged(old, new);
    lemma_rems_diff(old, new, s, m);
}


/// Two values whose diff patches the first back into the second (see
/// [`law_json_patch_round_trip`]).
pub open spec fn patchable_pair(old: JsonView, new: JsonView) -> bool {
    canonical(old) && canonical(new) && path_safe(old) && path_safe(new) && no_root_key(old) && no_root_key(new)
        && reads_back(new)
}

/// What patching a document gives when it holds `new`: the pretty text
/// serde_json prints for it.
pub open spec fn printed_outcome(new: JsonView) -> PatchOutcome {
    match serde_json_pretty(new) {
        Some(s) => PatchOutcome::Done(s),
        None => PatchOutcome::Unprintable,
    }
}

proof fn lemma_json_outcome(text: Seq<char>, old: JsonView, new: JsonView)
    requires
        serde_json_parse(text) == Some(old),
        patchable_pair(old, new),
    ensures
        json_patch_outcome(text, diff_spec(old, new, Seq::empty())) == printed_outcome(new),
{
    law_json_patch_round_trip(old, new);
}

/// Patching a JSON text with the diff of two JSON texts gives the second
/// document, as serde_json prints it, for documents whose values meet the
/// conditions of [`law_json_patch_round_trip`].
pub proof fn law_json_text_patch_round_trip(old: Seq<char>, new: Seq<char>, r: Result<DiffResult, GudfError>)
    requires
        json_text_diff_ok(old, new, r, FormatKindView::Json),
        serde_json_parse(old) is Some && serde_json_parse(new) is Some
            && patchable_pair(serde_json_parse(old)->Some_0, serde_json_parse(new)->Some_0),
    ensures
        r matches Ok(d) && patch_outcome(FormatKindView::Json, old, d@.changes) == printed_outcome(
            serde_json_parse(new)->Some_0,
        ),
{
    lemma_json_outcome(old, serde_json_parse(old)->Some_0, serde_json_parse(new)->Some_0);
}

/// Patching a YAML text with the diff of two YAML texts gives the second
/// document, as serde_yaml prints it, for documents whose values meet the
/// conditions of [`law_json_patch_round_trip`], where the old value reads
/// back from its compact JSON text and the new one from its pretty text.
pub proof fn law_yaml_text_patch_round_trip(old: Seq<char>, new: Seq<char>, r: Result<DiffResult, GudfError>)
    requires
        crate::formats::json::parsed_diff_ok(serde_yaml_parse(old), serde_yaml_parse(new), r, FormatKindView::Yaml),
        serde_yaml_parse(old) is Some && serde_yaml_parse(new) is Some
            && patchable_pair(serde_yaml_parse(old)->Some_0, serde_yaml_parse(new)->Some_0),
        reads_back(serde_yaml_parse(old)->Some_0),
        serde_json_pretty(serde_yaml_parse(new)->Some_0) matches Some(p) && serde_json_parse(p) == serde_yaml_parse(new),
    ensures
        r matches Ok(d) && patch_outcome(FormatKindView::Yaml, old, d@.changes) == match serde_yaml_print(
            serde_yaml_parse(new)->Some_0,
        ) {
            Some(t) => PatchOutcome::Done(t),
            None => PatchOutcome::Unprintable,
        },
{
    let a = serde_yaml_parse(old)->Some_0;
    let b = serde_yaml_parse(new)->Some_0;
    lemma_reads_back_parts(a);
    lemma_json_outcome(serde_json_compact(a), a, b);
}


/// Patching a TOML text with the diff of two TOML texts gives the second
/// document, as `toml` prints it, for documents whose values meet the
/// conditions of [`law_json_patch_round_trip`], where the JSON text made
/// of the old document reads as its value and the new value reads back from
/// its pretty JSON text.
pub proof fn law_toml_text_patch_round_trip(old: Seq<char>, new: Seq<char>, r: Result<DiffResult, GudfError>)
    requires
        crate::formats::json::parsed_diff_ok(toml_doc_json(old), toml_doc_json(new), r, FormatKindView::Toml),
        toml_doc_json(old) is Some && toml_doc_json(new) is Some
            && patchable_pair(toml_doc_json(old)->Some_0, toml_doc_json(new)->Some_0),
        toml_as_json_text(old) matches Some(j) && serde_json_parse(j) == toml_doc_json(old),
        serde_json_pretty(toml_doc_json(new)->Some_0) matches Some(p) && serde_json_parse(p) == toml_doc_json(new),
    ensures
        r matches Ok(d) && patch_outcome(FormatKindView::Toml, old, d@.changes) == match toml_pretty_from_json(
            toml_doc_json(new)->Some_0,
        ) {
            Some(t) => PatchOutcome::Done(t),
            None => PatchOutcome::Unprintable,
        },
{
    let a = toml_doc_json(old)->Some_0;
    let b = toml_doc_json(new)->Some_0;
    lemma_json_outcome(toml_as_json_text(old)->Some_0, a, b);
}

} // verus!
