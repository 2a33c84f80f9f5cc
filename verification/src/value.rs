//! JSON values as the diff engine sees them, and the calls into serde_json,
//! serde_yaml and toml that produce and print them.
use vstd::prelude::*;

use crate::text::{lex_lt, str_lt, strictly_sorted};

verus! {

/// A JSON value. Numbers are held as serde_json renders them; object entries
/// are held in the order serde_json gives them.
#[derive(Debug, PartialEq, Eq)]
pub enum JsonValue {
    Null,
    Bool(bool),
    Number(String),
    String(String),
    Array(Vec<JsonValue>),
    Object(Vec<(String, JsonValue)>),
}

/// The mathematical content of a [`JsonValue`].
pub enum JsonView {
    Null,
    Bool(bool),
    Number(Seq<char>),
    Str(Seq<char>),
    Array(Seq<JsonView>),
    Object(Seq<(Seq<char>, JsonView)>),
}

/// The view of a value.
pub open spec fn json_view(v: JsonValue) -> JsonView
    decreases v,
{
    match v {
        JsonValue::Null => JsonView::Null,
        JsonValue::Bool(b) => JsonView::Bool(b),
        JsonValue::Number(n) => JsonView::Number(n@),
        JsonValue::String(s) => JsonView::Str(s@),
        JsonValue::Array(a) => JsonView::Array(array_view(a@)),
        JsonValue::Object(o) => JsonView::Object(object_view(o@)),
    }
}

/// The views of the elements of an array.
pub open spec fn array_view(s: Seq<JsonValue>) -> Seq<JsonView>
    decreases s,
{
    if s.len() == 0 {
        Seq::empty()
    } else {
        array_view(s.drop_last()).push(json_view(s.last()))
    }
}

/// The views of the entries of an object.
pub open spec fn object_view(s: Seq<(String, JsonValue)>) -> Seq<(Seq<char>, JsonView)>
    decreases s,
{
    if s.len() == 0 {
        Seq::empty()
    } else {
        object_view(s.drop_last()).push((s.last().0@, json_view(s.last().1)))
    }
}

impl View for JsonValue {
    type V = JsonView;

    open spec fn view(&self) -> JsonView {
        json_view(*self)
    }
}

/// The length of the views of an array.
pub proof fn lemma_array_view(s: Seq<JsonValue>)
    ensures
        array_view(s).len() == s.len(),
        forall|i: int| 0 <= i < s.len() ==> #[trigger] array_view(s)[i] == json_view(s[i]),
    decreases s.len(),
{
    if s.len() > 0 {
        lemma_array_view(s.drop_last());
        assert forall|i: int| 0 <= i < s.len() implies #[trigger] array_view(s)[i] == json_view(s[i]) by {
            if i < s.len() - 1 {
                assert(array_view(s)[i] == array_view(s.drop_last())[i]);
            }
        }
    }
}

/// The views of the entries of an object, entry by entry.
pub proof fn lemma_object_view(s: Seq<(String, JsonValue)>)
    ensures
        object_view(s).len() == s.len(),
        forall|i: int| 0 <= i < s.len() ==> #[trigger] object_view(s)[i] == (s[i].0@, json_view(s[i].1)),
    decreases s.len(),
{
    if s.len() > 0 {
        lemma_object_view(s.drop_last());
        assert forall|i: int| 0 <= i < s.len() implies #[trigger] object_view(s)[i] == (s[i].0@, json_view(s[i].1)) by {
            if i < s.len() - 1 {
                assert(object_view(s)[i] == object_view(s.drop_last())[i]);
            }
        }
    }
}

/// The keys of an object's entries, in order.
pub open spec fn keys_of(entries: Seq<(Seq<char>, JsonView)>) -> Seq<Seq<char>> {
    entries.map_values(|e: (Seq<char>, JsonView)| e.0)
}

/// A value as serde_json holds it: the keys of every object strictly
/// increasing (so none repeats), all the way down.
pub open spec fn canonical(v: JsonView) -> bool
    decreases v,
{
    match v {
        JsonView::Array(a) => all_canonical(a),
        JsonView::Object(es) => strictly_sorted(keys_of(es)) && values_canonical(es),
        _ => true,
    }
}

/// Every element of `s` is canonical.
pub open spec fn all_canonical(s: Seq<JsonView>) -> bool
    decreases s,
{
    if s.len() == 0 {
        true
    } else {
        all_canonical(s.drop_last()) && canonical(s.last())
    }
}

/// Every value of the entries `es` is canonical.
pub open spec fn values_canonical(es: Seq<(Seq<char>, JsonView)>) -> bool
    decreases es,
{
    if es.len() == 0 {
        true
    } else {
        values_canonical(es.drop_last()) && canonical(es.last().1)
    }
}

proof fn lemma_all_canonical(s: Seq<JsonView>)
    ensures
        all_canonical(s) <==> forall|i: int| 0 <= i < s.len() ==> #[trigger] canonical(s[i]),
    decreases s.len(),
{
    if s.len() > 0 {
        let t = s.drop_last();
        assert(all_canonical(s) == (all_canonical(t) && canonical(s.last())));
        lemma_all_canonical(t);
        assert(s.last() == s[s.len() - 1]);
        if forall|i: int| 0 <= i < s.len() ==> #[trigger] canonical(s[i]) {
            assert forall|i: int| 0 <= i < t.len() implies #[trigger] canonical(t[i]) by {
                assert(t[i] == s[i]);
            }
        }
        if all_canonical(s) {
            assert forall|i: int| 0 <= i < s.len() implies #[trigger] canonical(s[i]) by {
                if i < t.len() {
                    assert(t[i] == s[i]);
                }
            }
        }
    }
}

proof fn lemma_values_canonical(es: Seq<(Seq<char>, JsonView)>)
    ensures
        values_canonical(es) <==> forall|i: int| 0 <= i < es.len() ==> #[trigger] canonical(es[i].1),
    decreases es.len(),
{
    if es.len() > 0 {
        let t = es.drop_last();
        assert(values_canonical(es) == (values_canonical(t) && canonical(es.last().1)));
        lemma_values_canonical(t);
        assert(es.last() == es[es.len() - 1]);
        if forall|i: int| 0 <= i < es.len() ==> #[trigger] canonical(es[i].1) {
            assert forall|i: int| 0 <= i < t.len() implies #[trigger] canonical(t[i].1) by {
                assert(t[i] == es[i]);
            }
        }
        if values_canonical(es) {
            assert forall|i: int| 0 <= i < es.len() implies #[trigger] canonical(es[i].1) by {
                if i < t.len() {
                    assert(t[i] == es[i]);
                }
            }
        }
    }
}

/// The parts of a canonical value are canonical, and an object's keys are
/// strictly increasing.
pub proof fn lemma_canonical_parts(v: JsonView)
    requires
        canonical(v),
    ensures
        v matches JsonView::Array(a) ==> forall|i: int| 0 <= i < a.len() ==> #[trigger] canonical(a[i]),
        v matches JsonView::Object(es) ==> strictly_sorted(keys_of(es))
            && forall|i: int| 0 <= i < es.len() ==> #[trigger] canonical(es[i].1),
{
    match v {
        JsonView::Array(a) => lemma_all_canonical(a),
        JsonView::Object(es) => lemma_values_canonical(es),
        _ => {},
    }
}

/// The position of the first entry with key `k`, if any.
pub open spec fn find_key(entries: Seq<(Seq<char>, JsonView)>, k: Seq<char>) -> Option<int>
    decreases entries.len(),
{
    if entries.len() == 0 {
        None
    } else if entries[0].0 == k {
        Some(0)
    } else {
        match find_key(entries.drop_first(), k) {
            Some(i) => Some(i + 1),
            None => None,
        }
    }
}

/// `find_key` finds the first entry with the key, and finds none only when no entry has it.
pub proof fn lemma_find_key(entries: Seq<(Seq<char>, JsonView)>, k: Seq<char>)
    ensures
        find_key(entries, k) matches Some(i) ==> 0 <= i < entries.len() && entries[i].0 == k
            && forall|j: int| 0 <= j < i ==> entries[j].0 != k,
        find_key(entries, k) is None ==> forall|j: int| 0 <= j < entries.len() ==> entries[j].0 != k,
    decreases entries.len(),
{
    if entries.len() > 0 && entries[0].0 != k {
        let t = entries.drop_first();
        lemma_find_key(t, k);
        assert forall|j: int| 0 < j < entries.len() implies #[trigger] entries[j] == t[j - 1] by {}
    }
}

/// `find_key` is the position `i` when entry `i` is the first with the key.
pub proof fn lemma_find_key_at(entries: Seq<(Seq<char>, JsonView)>, k: Seq<char>, i: int)
    requires
        0 <= i < entries.len(),
        entries[i].0 == k,
        forall|j: int| 0 <= j < i ==> entries[j].0 != k,
    ensures
        find_key(entries, k) == Some(i),
    decreases entries.len(),
{
    if i > 0 {
        let t = entries.drop_first();
        assert forall|j: int| 0 <= j < i - 1 implies t[j].0 != k by {
            assert(t[j] == entries[j + 1]);
        }
        lemma_find_key_at(t, k, i - 1);
    }
}

/// `find_key` finds nothing when no entry has the key.
pub proof fn lemma_find_key_none(entries: Seq<(Seq<char>, JsonView)>, k: Seq<char>)
    requires
        forall|j: int| 0 <= j < entries.len() ==> entries[j].0 != k,
    ensures
        find_key(entries, k) is None,
    decreases entries.len(),
{
    if entries.len() > 0 {
        let t = entries.drop_first();
        assert forall|j: int| 0 <= j < t.len() implies t[j].0 != k by {
            assert(t[j] == entries[j + 1]);
        }
        lemma_find_key_none(t, k);
    }
}

/// Whether two values are equal.
#[verifier::loop_isolation(false)]
pub fn json_equal(a: &JsonValue, b: &JsonValue) -> (r: bool)
    ensures
        r == (a@ == b@),
    decreases a,
{
    match (a, b) {
        (JsonValue::Null, JsonValue::Null) => true,
        (JsonValue::Bool(x), JsonValue::Bool(y)) => *x == *y,
        (JsonValue::Number(x), JsonValue::Number(y)) => crate::text::str_eq(x.as_str(), y.as_str()),
        (JsonValue::String(x), JsonValue::String(y)) => crate::text::str_eq(x.as_str(), y.as_str()),
        (JsonValue::Array(x), JsonValue::Array(y)) => {
            proof {
                lemma_array_view(x@);
                lemma_array_view(y@);
            }
            if x.len() != y.len() {
                return false;
            }
            let mut i: usize = 0;
            while i < x.len()
                invariant
                    i <= x.len() == y.len(),
                    array_view(x@).len() == x@.len(),
                    array_view(y@).len() == y@.len(),
                    forall|k: int| 0 <= k < x@.len() ==> #[trigger] array_view(x@)[k] == json_view(x@[k]),
                    forall|k: int| 0 <= k < y@.len() ==> #[trigger] array_view(y@)[k] == json_view(y@[k]),
                    forall|k: int| 0 <= k < i ==> json_view(x@[k]) == json_view(y@[k]),
                decreases x.len() - i,
            {
                if !json_equal(&x[i], &y[i]) {
                    assert(array_view(x@)[i as int] != array_view(y@)[i as int]);
                    return false;
                }
                i = i + 1;
            }
            assert(array_view(x@) =~= array_view(y@));
            true
        },
        (JsonValue::Object(x), JsonValue::Object(y)) => {
            proof {
                lemma_object_view(x@);
                lemma_object_view(y@);
            }
            if x.len() != y.len() {
                return false;
            }
            let mut i: usize = 0;
            while i < x.len()
                invariant
                    i <= x.len() == y.len(),
                    object_view(x@).len() == x@.len(),
                    object_view(y@).len() == y@.len(),
                    forall|k: int| 0 <= k < x@.len() ==> #[trigger] object_view(x@)[k] == (x@[k].0@, json_view(x@[k].1)),
                    forall|k: int| 0 <= k < y@.len() ==> #[trigger] object_view(y@)[k] == (y@[k].0@, json_view(y@[k].1)),
                    forall|k: int| 0 <= k < i ==> object_view(x@)[k] == object_view(y@)[k],
                decreases x.len() - i,
            {
                let same_key = crate::text::str_eq(x[i].0.as_str(), y[i].0.as_str());
                if !same_key || !json_equal(&x[i].1, &y[i].1) {
                    assert(object_view(x@)[i as int] != object_view(y@)[i as int]);
                    return false;
                }
                i = i + 1;
            }
            assert(object_view(x@) =~= object_view(y@));
            true
        },
        _ => false,
    }
}

/// A copy of a value.
#[verifier::loop_isolation(false)]
pub fn copy_json(v: &JsonValue) -> (r: JsonValue)
    ensures
        r@ == v@,
    decreases v,
{
    match v {
        JsonValue::Null => JsonValue::Null,
        JsonValue::Bool(b) => JsonValue::Bool(*b),
        JsonValue::Number(n) => JsonValue::Number(n.clone()),
        JsonValue::String(s) => JsonValue::String(s.clone()),
        JsonValue::Array(a) => {
            proof { lemma_array_view(a@); }
            let mut r: Vec<JsonValue> = Vec::new();
            let mut i: usize = 0;
            while i < a.len()
                invariant
                    i <= a.len(),
                    r@.len() == i,
                    forall|k: int| 0 <= k < i ==> #[trigger] json_view(r@[k]) == json_view(a@[k]),
                decreases a.len() - i,
            {
                r.push(copy_json(&a[i]));
                i = i + 1;
            }
            proof { lemma_array_view(r@); }
            assert(array_view(r@) =~= array_view(a@));
            JsonValue::Array(r)
        },
        JsonValue::Object(o) => {
            proof { lemma_object_view(o@); }
            let mut r: Vec<(String, JsonValue)> = Vec::new();
            let mut i: usize = 0;
            while i < o.len()
                invariant
                    i <= o.len(),
                    r@.len() == i,
                    forall|k: int| 0 <= k < i ==> #[trigger] r@[k].0@ == o@[k].0@ && json_view(r@[k].1) == json_view(o@[k].1),
                decreases o.len() - i,
            {
                r.push((o[i].0.clone(), copy_json(&o[i].1)));
                i = i + 1;
            }
            proof { lemma_object_view(r@); }
            assert(object_view(r@) =~= object_view(o@));
            JsonValue::Object(r)
        },
    }
}

/// Where a new key goes among entries kept in key order: before the first
/// entry whose key is greater.
pub open spec fn insert_position(entries: Seq<(Seq<char>, JsonView)>, k: Seq<char>) -> int
    decreases entries.len(),
{
    if entries.len() == 0 {
        0
    } else if lex_lt(k, entries[0].0) {
        0
    } else {
        1 + insert_position(entries.drop_first(), k)
    }
}

/// The entries with `k` set to `v` as an ordered map stores them: the entry
/// with key `k` replaced if there is one, else a new entry at its place in
/// key order.
pub open spec fn object_insert(entries: Seq<(Seq<char>, JsonView)>, k: Seq<char>, v: JsonView) -> Seq<(Seq<char>, JsonView)> {
    match find_key(entries, k) {
        Some(j) => entries.update(j, (k, v)),
        None => entries.insert(insert_position(entries, k), (k, v)),
    }
}

/// The entries without the entry with key `k`.
pub open spec fn object_remove(entries: Seq<(Seq<char>, JsonView)>, k: Seq<char>) -> Seq<(Seq<char>, JsonView)> {
    match find_key(entries, k) {
        Some(j) => entries.remove(j),
        None => entries,
    }
}

pub proof fn lemma_insert_position(entries: Seq<(Seq<char>, JsonView)>, k: Seq<char>)
    ensures
        0 <= insert_position(entries, k) <= entries.len(),
        forall|j: int| 0 <= j < insert_position(entries, k) ==> !lex_lt(k, #[trigger] entries[j].0),
        insert_position(entries, k) < entries.len() ==> lex_lt(k, entries[insert_position(entries, k)].0),
    decreases entries.len(),
{
    if entries.len() > 0 && !lex_lt(k, entries[0].0) {
        let t = entries.drop_first();
        lemma_insert_position(t, k);
        assert forall|j: int| 0 < j < entries.len() implies #[trigger] entries[j] == t[j - 1] by {}
    }
}

proof fn lemma_insert_position_at(entries: Seq<(Seq<char>, JsonView)>, k: Seq<char>, p: int)
    requires
        0 <= p <= entries.len(),
        forall|j: int| 0 <= j < p ==> !lex_lt(k, #[trigger] entries[j].0),
        p < entries.len() ==> lex_lt(k, entries[p].0),
    ensures
        insert_position(entries, k) == p,
    decreases entries.len(),
{
    if entries.len() > 0 && p > 0 {
        let t = entries.drop_first();
        assert(!lex_lt(k, entries[0].0));
        assert forall|j: int| 0 <= j < p - 1 implies !lex_lt(k, #[trigger] t[j].0) by {
            assert(t[j] == entries[j + 1]);
        }
        lemma_insert_position_at(t, k, p - 1);
    }
}

/// The position of the first entry with key `key`, if any.
pub fn entry_index(entries: &Vec<(String, JsonValue)>, key: &str) -> (r: Option<usize>)
    ensures
        match find_key(object_view(entries@), key@) {
            Some(j) => r == Some(j as usize),
            None => r is None,
        },
{
    proof { lemma_object_view(entries@); }
    let mut i: usize = 0;
    while i < entries.len()
        invariant
            i <= entries.len(),
            object_view(entries@).len() == entries@.len(),
            forall|k: int| 0 <= k < entries@.len() ==> #[trigger] object_view(entries@)[k] == (entries@[k].0@, json_view(entries@[k].1)),
            forall|k: int| 0 <= k < i ==> object_view(entries@)[k].0 != key@,
        decreases entries.len() - i,
    {
        if crate::text::str_eq(entries[i].0.as_str(), key) {
            proof { lemma_find_key_at(object_view(entries@), key@, i as int); }
            return Some(i);
        }
        i = i + 1;
    }
    proof { lemma_find_key_none(object_view(entries@), key@); }
    None
}

/// Sets the entry with key `k` to `v` (see [`object_insert`]).
pub fn entries_insert(entries: &mut Vec<(String, JsonValue)>, k: String, v: JsonValue)
    ensures
        object_view(final(entries)@) == object_insert(object_view(old(entries)@), k@, v@),
{
    let ghost before = object_view(entries@);
    proof {
        lemma_object_view(entries@);
        lemma_find_key(before, k@);
    }
    match entry_index(entries, k.as_str()) {
        Some(j) => {
            let ghost kv = k@;
            entries.set(j, (k, v));
            proof { lemma_object_view(entries@); }
            assert(object_view(entries@) =~= before.update(j as int, (kv, v@)));
        },
        None => {
            let mut p: usize = 0;
            while p < entries.len() && !str_lt(k.as_str(), entries[p].0.as_str())
                invariant
                    p <= entries.len(),
                    before == object_view(entries@),
                    before.len() == entries@.len(),
                    forall|q: int| 0 <= q < entries@.len() ==> #[trigger] before[q] == (entries@[q].0@, json_view(entries@[q].1)),
                    forall|q: int| 0 <= q < p ==> !lex_lt(k@, #[trigger] before[q].0),
                decreases entries.len() - p,
            {
                p = p + 1;
            }
            proof { lemma_insert_position_at(before, k@, p as int); }
            let ghost kv = k@;
            let ghost vv = v@;
            entries.insert(p, (k, v));
            proof { lemma_object_view(entries@); }
            assert(object_view(entries@) =~= before.insert(p as int, (kv, vv)));
        },
    }
}

/// Removes the entry with key `k`, if any (see [`object_remove`]).
pub fn entries_remove(entries: &mut Vec<(String, JsonValue)>, k: &str)
    ensures
        object_view(final(entries)@) == object_remove(object_view(old(entries)@), k@),
{
    let ghost before = object_view(entries@);
    proof {
        lemma_object_view(entries@);
        lemma_find_key(before, k@);
    }
    match entry_index(entries, k) {
        Some(j) => {
            assert(entries@.len() == entries.len());
            assert(find_key(before, k@) == Some(j as int));
            let _ = entries.remove(j);
            proof { lemma_object_view(entries@); }
            assert(object_view(entries@) =~= before.remove(j as int));
            assert(object_view(entries@) == object_remove(before, k@));
        },
        None => {
            assert(object_view(entries@) == object_remove(before, k@));
        },
    }
}

/// An object with two entries, in the given order.
pub fn object_of2(k1: &str, v1: JsonValue, k2: &str, v2: JsonValue) -> (r: JsonValue)
    ensures
        r@ == JsonView::Object(seq![(k1@, v1@), (k2@, v2@)]),
{
    let ghost (a, b) = (v1@, v2@);
    let mut es: Vec<(String, JsonValue)> = Vec::new();
    es.push((k1.to_string(), v1));
    es.push((k2.to_string(), v2));
    proof { lemma_object_view(es@); }
    assert(object_view(es@) =~= seq![(k1@, a), (k2@, b)]);
    JsonValue::Object(es)
}

/// An object with three entries, in the given order.
pub fn object_of3(k1: &str, v1: JsonValue, k2: &str, v2: JsonValue, k3: &str, v3: JsonValue) -> (r: JsonValue)
    ensures
        r@ == JsonView::Object(seq![(k1@, v1@), (k2@, v2@), (k3@, v3@)]),
{
    let ghost (a, b, c) = (v1@, v2@, v3@);
    let mut es: Vec<(String, JsonValue)> = Vec::new();
    es.push((k1.to_string(), v1));
    es.push((k2.to_string(), v2));
    es.push((k3.to_string(), v3));
    proof { lemma_object_view(es@); }
    assert(object_view(es@) =~= seq![(k1@, a), (k2@, b), (k3@, c)]);
    JsonValue::Object(es)
}

/// A string value.
pub fn json_string(s: &str) -> (r: JsonValue)
    ensures
        r@ == JsonView::Str(s@),
{
    JsonValue::String(s.to_string())
}

impl JsonValue {
    /// The value under `key` when this is an object holding it (the first such entry).
    #[verifier::loop_isolation(false)]
    pub fn get(&self, key: &str) -> (r: Option<&JsonValue>)
        ensures
            match self@ {
                JsonView::Object(entries) => match find_key(entries, key@) {
                    Some(i) => r matches Some(v) && v@ == entries[i].1,
                    None => r is None,
                },
                _ => r is None,
            },
    {
        match self {
            JsonValue::Object(entries) => {
                proof {
                    lemma_object_view(entries@);
                }
                let mut i: usize = 0;
                while i < entries.len()
                    invariant
                        i <= entries.len(),
                        object_view(entries@).len() == entries@.len(),
                        forall|k: int| 0 <= k < entries@.len() ==> #[trigger] object_view(entries@)[k] == (entries@[k].0@, json_view(entries@[k].1)),
                        forall|k: int| 0 <= k < i ==> object_view(entries@)[k].0 != key@,
                    decreases entries.len() - i,
                {
                    if crate::text::str_eq(entries[i].0.as_str(), key) {
                        proof { lemma_find_key_at(object_view(entries@), key@, i as int); }
                        return Some(&entries[i].1);
                    }
                    i = i + 1;
                }
                proof { lemma_find_key_none(object_view(entries@), key@); }
                None
            },
            _ => None,
        }
    }
}

} // verus!
