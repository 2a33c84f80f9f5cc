//! Three-way merge of structured documents: the changes from a base to each
//! side are combined path by path, and overlapping changes that disagree are
//! resolved by a strategy or reported as conflicts.
use vstd::prelude::*;

use crate::codec::serde_json_parse;
use crate::error::GudfError;
use crate::format::{FormatKind, FormatKindView};
use crate::formats::cross::{cross_parse, CrossFormatKind};
use crate::formats::json::{diff_json_values, diff_spec};
use crate::result::{changes_view, Change, ChangeKind, ChangeView};
use crate::text::{
    chars_of, copy_opt_string, copy_string, lemma_lex_lt_order, lemma_sorted_unique, lex_lt, strictly_sorted, opt_view, owned, split_char, split_on, str_eq, str_lt,
};
use crate::patch::PartView;
use crate::rebuild::{get_at, lemma_lookup_remove, lemma_lookup_update, lemma_sorted_find, lookup};
use crate::value::{
    canonical, keys_of, lemma_canonical_parts, entries_insert, entries_remove, entry_index, find_key, lemma_find_key, lemma_object_view, object_insert,
    object_remove, object_view, JsonValue, JsonView,
};

verus! {

/// How conflicting changes are resolved.
#[derive(Debug, Clone, Copy, PartialEq, Eq, Structural)]
pub enum MergeStrategy {
    /// Keep the left side.
    Ours,
    /// Keep the right side.
    Theirs,
    /// Report conflicts and keep neither.
    Manual,
}

impl Default for MergeStrategy {
    /// Conflicts are reported.
    fn default() -> (r: MergeStrategy)
        ensures
            r == MergeStrategy::Manual,
    {
        MergeStrategy::Manual
    }
}

/// Two changes at one path that could not be merged.
#[derive(Debug, Clone)]
pub struct Conflict {
    /// The path.
    pub path: String,
    /// The value at the base.
    pub base: Option<String>,
    /// The left side's value.
    pub left: Option<String>,
    /// The right side's value.
    pub right: Option<String>,
}

/// The mathematical content of a [`Conflict`].
pub struct ConflictView {
    pub path: Seq<char>,
    pub base: Option<Seq<char>>,
    pub left: Option<Seq<char>>,
    pub right: Option<Seq<char>>,
}

impl View for Conflict {
    type V = ConflictView;

    open spec fn view(&self) -> ConflictView {
        ConflictView { path: self.path@, base: opt_view(self.base), left: opt_view(self.left), right: opt_view(self.right) }
    }
}

/// The views of a list of conflicts.
pub open spec fn conflicts_view(s: Seq<Conflict>) -> Seq<ConflictView> {
    s.map_values(|c: Conflict| c@)
}

/// The result of a three-way merge.
#[derive(Debug)]
pub struct MergeResult {
    /// The merged value (wholly meaningful only without conflicts).
    pub merged: JsonValue,
    /// The conflicts that were not resolved.
    pub conflicts: Vec<Conflict>,
    /// The strategy used.
    pub strategy: MergeStrategy,
}

impl MergeResult {
    /// Whether the merge had no conflicts.
    pub fn is_clean(&self) -> (r: bool)
        ensures
            r == (self.conflicts@.len() == 0),
    {
        self.conflicts.len() == 0
    }
}

// ── Paths in order ─────────────────────────────────────────────────────

/// The paths of a set in increasing order.
pub open spec fn sorted_paths(s: Set<Seq<char>>) -> Seq<Seq<char>> {
    choose|q: Seq<Seq<char>>| strictly_sorted(q) && q.to_set() == s
}

/// The paths the changes of `cs` are at.
pub open spec fn paths_of(cs: Seq<ChangeView>) -> Set<Seq<char>> {
    Set::new(|p: Seq<char>| exists|i: int| 0 <= i < cs.len() && #[trigger] cs[i].path == Some(p))
}

/// Adds a path to a sorted list of distinct paths, keeping it so.
pub(crate) fn insert_sorted(paths: &mut Vec<String>, p: &String)
    requires
        strictly_sorted(old(paths)@.map_values(|s: String| s@)),
    ensures
        strictly_sorted(final(paths)@.map_values(|s: String| s@)),
        final(paths)@.map_values(|s: String| s@).to_set() == old(paths)@.map_values(|s: String| s@).to_set().insert(p@),
{
    let ghost before = paths@.map_values(|s: String| s@);
    let mut k: usize = 0;
    while k < paths.len() && str_lt(paths[k].as_str(), p.as_str())
        invariant
            k <= paths.len(),
            before == paths@.map_values(|s: String| s@),
            forall|j: int| 0 <= j < k ==> lex_lt(#[trigger] before[j], p@),
        decreases paths.len() - k,
    {
        k = k + 1;
    }
    if k < paths.len() && str_eq(paths[k].as_str(), p.as_str()) {
        assert(before.to_set().insert(p@) =~= before.to_set()) by {
            assert(before[k as int] == p@);
        }
        return;
    }
    proof {
        if k < before.len() {
            lemma_lex_lt_order(before[k as int], p@, before[k as int]);
            assert(lex_lt(p@, before[k as int]));
        }
    }
    paths.insert(k, copy_string(p));
    let ghost after = paths@.map_values(|s: String| s@);
    assert(after =~= before.insert(k as int, p@));
    assert(strictly_sorted(after)) by {
        assert forall|x: int, y: int| 0 <= x < y < after.len() implies lex_lt(#[trigger] after[x], #[trigger] after[y]) by {
            if y < k {
            } else if y == k {
            } else if x < k {
                if x < k && y > k {
                    lemma_lex_lt_order(before[x], p@, before[y - 1]);
                }
            } else if x == k {
                if y - 1 > k {
                    lemma_lex_lt_order(p@, before[k as int], before[y - 1]);
                }
            } else {
                assert(after[x] == before[x - 1] && after[y] == before[y - 1]);
            }
        }
    }
    assert(after.to_set() =~= before.to_set().insert(p@)) by {
        assert forall|q: Seq<char>| after.to_set().contains(q) <==> before.to_set().insert(p@).contains(q) by {
            if after.to_set().contains(q) {
                let x = choose|x: int| 0 <= x < after.len() && after[x] == q;
                if x < k {
                    assert(before[x] == q);
                } else if x > k {
                    assert(before[x - 1] == q);
                }
            }
            if before.to_set().contains(q) {
                let x = choose|x: int| 0 <= x < before.len() && before[x] == q;
                if x < k {
                    assert(after[x] == q);
                } else {
                    assert(after[x + 1] == q);
                }
            }
            if q == p@ {
                assert(after[k as int] == q);
            }
        }
    }
}

// ── Applying a change ─────────────────────────────────────────────────

/// The value with `value` set at the dotted path `parts`: objects are made
/// for missing keys on the way; anything else on the way leaves the value as it is.
pub open spec fn set_dotted(v: JsonView, parts: Seq<Seq<char>>, value: JsonView) -> JsonView
    decreases parts.len(),
{
    if parts.len() == 0 {
        v
    } else if parts.len() == 1 {
        match v {
            JsonView::Object(es) => JsonView::Object(object_insert(es, parts[0], value)),
            _ => v,
        }
    } else {
        match v {
            JsonView::Object(es) => {
                let child = match find_key(es, parts[0]) {
                    Some(j) => es[j].1,
                    None => JsonView::Object(Seq::empty()),
                };
                JsonView::Object(object_insert(es, parts[0], set_dotted(child, parts.drop_first(), value)))
            },
            _ => v,
        }
    }
}

/// The value with the entry at the dotted path `parts` removed, when every
/// key on the way is there.
pub open spec fn remove_dotted(v: JsonView, parts: Seq<Seq<char>>) -> JsonView
    decreases parts.len(),
{
    if parts.len() == 0 {
        v
    } else if parts.len() == 1 {
        match v {
            JsonView::Object(es) => JsonView::Object(object_remove(es, parts[0])),
            _ => v,
        }
    } else {
        match v {
            JsonView::Object(es) => match find_key(es, parts[0]) {
                Some(j) => JsonView::Object(es.update(j, (parts[0], remove_dotted(es[j].1, parts.drop_first())))),
                None => v,
            },
            _ => v,
        }
    }
}

/// One change applied to the merged value: an addition or modification sets
/// its new value (when it reads as JSON) at its dotted path, a removal
/// removes the path; changes at the root `$`, without a path, or of other
/// kinds do nothing.
pub open spec fn merge_apply(v: JsonView, c: ChangeView) -> JsonView {
    match c.path {
        None => v,
        Some(p) => if p == "$"@ {
            v
        } else {
            match c.kind {
                ChangeKind::Added | ChangeKind::Modified => match c.new_value {
                    Some(s) => match serde_json_parse(s) {
                        Some(x) => set_dotted(v, split_on(p, '.'), x),
                        None => v,
                    },
                    None => v,
                },
                ChangeKind::Removed => remove_dotted(v, split_on(p, '.')),
                _ => v,
            }
        },
    }
}

/// The parts of a dotted path, as owned strings.
fn dotted_parts(path: &str) -> (r: Vec<String>)
    ensures
        r@.map_values(|s: String| s@) == split_on(path@, '.'),
{
    let r = split_char(path, '.');
    assert(r@.map_values(|s: String| s@) =~= split_on(path@, '.'));
    r
}

/// Sets `value` at `parts[from..]` in `v` (see [`set_dotted`]).
pub fn set_path(v: JsonValue, parts: &Vec<String>, from: usize, value: JsonValue) -> (r: JsonValue)
    requires
        from <= parts.len(),
    ensures
        r@ == set_dotted(v@, parts@.map_values(|s: String| s@).skip(from as int), value@),
    decreases parts.len() - from,
{
    let ghost ps = parts@.map_values(|s: String| s@).skip(from as int);
    if from == parts.len() {
        return v;
    }
    assert(ps[0] == parts@[from as int]@);
    assert(ps.drop_first() =~= parts@.map_values(|s: String| s@).skip(from + 1));
    match v {
        JsonValue::Object(es) => {
            let mut es = es;
            let ghost before = object_view(es@);
            proof {
                lemma_object_view(es@);
                lemma_find_key(before, ps[0]);
            }
            if from + 1 == parts.len() {
                assert(ps.len() == 1);
                entries_insert(&mut es, copy_string(&parts[from]), value);
                return JsonValue::Object(es);
            }
            assert(ps.len() > 1);
            let ghost cv = match find_key(before, ps[0]) {
                Some(j) => before[j].1,
                None => JsonView::Object(Seq::empty()),
            };
            let n = es.len();
            let child = match entry_index(&es, parts[from].as_str()) {
                Some(j) => {
                    assert(find_key(before, ps[0]) == Some(j as int));
                    assert(before[j as int] == (es@[j as int].0@, es@[j as int].1@));
                    crate::value::copy_json(&es[j].1)
                },
                None => {
                    let empty: Vec<(String, JsonValue)> = Vec::new();
                    proof { lemma_object_view(empty@); }
                    assert(object_view(empty@) =~= Seq::<(Seq<char>, JsonView)>::empty());
                    JsonValue::Object(empty)
                },
            };
            assert(child@ == cv);
            let updated = set_path(child, parts, from + 1, value);
            entries_insert(&mut es, copy_string(&parts[from]), updated);
            JsonValue::Object(es)
        },
        other => other,
    }
}

/// Removes the entry at `parts[from..]` from `v` (see [`remove_dotted`]).
pub fn remove_path(v: JsonValue, parts: &Vec<String>, from: usize) -> (r: JsonValue)
    requires
        from <= parts.len(),
    ensures
        r@ == remove_dotted(v@, parts@.map_values(|s: String| s@).skip(from as int)),
    decreases parts.len() - from,
{
    let ghost ps = parts@.map_values(|s: String| s@).skip(from as int);
    if from == parts.len() {
        return v;
    }
    assert(ps[0] == parts@[from as int]@);
    assert(ps.drop_first() =~= parts@.map_values(|s: String| s@).skip(from + 1));
    match v {
        JsonValue::Object(es) => {
            let mut es = es;
            let ghost before = object_view(es@);
            proof {
                lemma_object_view(es@);
                lemma_find_key(before, ps[0]);
            }
            if from + 1 == parts.len() {
                assert(ps.len() == 1);
                entries_remove(&mut es, parts[from].as_str());
                return JsonValue::Object(es);
            }
            assert(ps.len() > 1);
            let n = es.len();
            match entry_index(&es, parts[from].as_str()) {
                Some(j) => {
                    assert(find_key(before, ps[0]) == Some(j as int));
                    let (key, child) = es.remove(j);
                    assert(before[j as int] == (key@, child@));
                    let updated = remove_path(child, parts, from + 1);
                    let ghost uv = updated@;
                    let ghost kv = key@;
                    es.insert(j, (key, updated));
                    proof { lemma_object_view(es@); }
                    assert(object_view(es@) =~= before.update(j as int, (kv, uv)));
                    JsonValue::Object(es)
                },
                None => JsonValue::Object(es),
            }
        },
        other => other,
    }
}

/// Applies one change to the merged value (see [`merge_apply`]).
pub fn apply_change(root: JsonValue, change: &Change) -> (r: JsonValue)
    ensures
        r@ == merge_apply(root@, change@),
{
    let path = match &change.path {
        Some(p) => p,
        None => return root,
    };
    proof { reveal_strlit("$"); }
    if str_eq(path.as_str(), "$") {
        return root;
    }
    match change.kind {
        ChangeKind::Added | ChangeKind::Modified => match &change.new_value {
            Some(s) => match crate::codec::parse_json_text(s.as_str()) {
                Ok(x) => {
                    let parts = dotted_parts(path.as_str());
                    assert(parts@.map_values(|s: String| s@).skip(0) =~= parts@.map_values(|s: String| s@));
                    set_path(root, &parts, 0, x)
                },
                Err(_) => root,
            },
            None => root,
        },
        ChangeKind::Removed => {
            let parts = dotted_parts(path.as_str());
            assert(parts@.map_values(|s: String| s@).skip(0) =~= parts@.map_values(|s: String| s@));
            remove_path(root, &parts, 0)
        },
        _ => root,
    }
}

// ── The merge ──────────────────────────────────────────────────────────

/// The index of the last change at path `p`.
pub open spec fn last_at(cs: Seq<ChangeView>, p: Seq<char>) -> Option<int>
    decreases cs.len(),
{
    if cs.len() == 0 {
        None
    } else if cs.last().path == Some(p) {
        Some(cs.len() - 1)
    } else {
        last_at(cs.drop_last(), p)
    }
}

/// The change at path `p` (the last one when several share it).
pub open spec fn change_at(cs: Seq<ChangeView>, p: Seq<char>) -> Option<ChangeView> {
    match last_at(cs, p) {
        Some(i) => Some(cs[i]),
        None => None,
    }
}

/// Path `a` lies strictly above path `b`: `a` is the root `$` and `b` is not,
/// or `b` goes on from `a` with a `.` or a `[`.
pub open spec fn path_above(a: Seq<char>, b: Seq<char>) -> bool {
    (a == "$"@ && b != "$"@) || (a.len() < b.len() && b.take(a.len() as int) == a && (b[a.len() as int] == '.'
        || b[a.len() as int] == '['))
}

/// The change is not `Unchanged` and is at a path above or below `p`.
pub open spec fn change_near(c: ChangeView, p: Seq<char>) -> bool {
    c.kind != ChangeKind::Unchanged && match c.path {
        Some(q) => path_above(p, q) || path_above(q, p),
        None => false,
    }
}

/// Some change of `cs` changed a path above or below `p`.
pub open spec fn touched_near(cs: Seq<ChangeView>, p: Seq<char>) -> bool {
    exists|i: int| 0 <= i < cs.len() && #[trigger] change_near(cs[i], p)
}

fn path_above_exec(a: &str, b: &str) -> (r: bool)
    ensures
        r == path_above(a@, b@),
{
    if str_eq(a, "$") && !str_eq(b, "$") {
        return true;
    }
    let av = chars_of(a);
    let bv = chars_of(b);
    if av.len() >= bv.len() {
        return false;
    }
    let mut i: usize = 0;
    while i < av.len()
        invariant
            i <= av.len() < bv.len(),
            !(a@ == "$"@ && b@ != "$"@),
            av@ == a@,
            bv@ == b@,
            forall|k: int| 0 <= k < i ==> av@[k] == bv@[k],
        decreases av.len() - i,
    {
        if av[i] != bv[i] {
            assert(b@.take(a@.len() as int)[i as int] != a@[i as int]);
            return false;
        }
        i = i + 1;
    }
    assert(b@.take(a@.len() as int) =~= a@);
    let c = bv[av.len()];
    c == '.' || c == '['
}

fn near_change(cs: &Vec<Change>, p: &str) -> (r: bool)
    ensures
        r == touched_near(changes_view(cs@), p@),
{
    let ghost v = changes_view(cs@);
    let mut i: usize = 0;
    while i < cs.len()
        invariant
            i <= cs.len(),
            v == changes_view(cs@),
            v.len() == cs@.len(),
            forall|k: int| 0 <= k < i ==> !change_near(#[trigger] v[k], p@),
        decreases cs.len() - i,
    {
        assert(v[i as int] == cs@[i as int]@);
        let c = &cs[i];
        if c.kind != ChangeKind::Unchanged {
            match &c.path {
                Some(q) => {
                    if path_above_exec(p, q.as_str()) || path_above_exec(q.as_str(), p) {
                        assert(change_near(v[i as int], p@));
                        return true;
                    }
                },
                None => {},
            }
        }
        i = i + 1;
    }
    false
}

/// Two changes agree when they are of the same kind with the same new value.
pub open spec fn changes_agree(a: ChangeView, b: ChangeView) -> bool {
    a.kind == b.kind && a.new_value == b.new_value
}

/// The value a side shows: its new value, or its old one when it has none.
pub open spec fn side_value(c: ChangeView) -> Option<Seq<char>> {
    match c.new_value {
        Some(v) => Some(v),
        None => c.old_value,
    }
}

/// The merged value and conflicts after the changes at one more path: a
/// change on one side only is applied, unless the other side changed a path
/// above or below it (see [`touched_near`]), which is a conflict; changes on
/// both sides are applied
/// once when they agree, the other side's when one side is unchanged, else
/// resolved by the strategy or recorded as a conflict.
pub open spec fn merge_step(
    st: (JsonView, Seq<ConflictView>),
    p: Seq<char>,
    lc: Option<ChangeView>,
    rc: Option<ChangeView>,
    left_near: bool,
    right_near: bool,
    strategy: MergeStrategy,
) -> (JsonView, Seq<ConflictView>) {
    match (lc, rc) {
        (Some(l), None) => if l.kind != ChangeKind::Unchanged && right_near {
            match strategy {
                MergeStrategy::Ours => (merge_apply(st.0, l), st.1),
                MergeStrategy::Theirs => st,
                MergeStrategy::Manual => (st.0, st.1.push(ConflictView {
                    path: p,
                    base: l.old_value,
                    left: side_value(l),
                    right: None,
                })),
            }
        } else {
            (merge_apply(st.0, l), st.1)
        },
        (None, Some(r)) => if r.kind != ChangeKind::Unchanged && left_near {
            match strategy {
                MergeStrategy::Ours => st,
                MergeStrategy::Theirs => (merge_apply(st.0, r), st.1),
                MergeStrategy::Manual => (st.0, st.1.push(ConflictView {
                    path: p,
                    base: r.old_value,
                    left: None,
                    right: side_value(r),
                })),
            }
        } else {
            (merge_apply(st.0, r), st.1)
        },
        (Some(l), Some(r)) => if changes_agree(l, r) {
            (merge_apply(st.0, l), st.1)
        } else if l.kind == ChangeKind::Unchanged {
            (merge_apply(st.0, r), st.1)
        } else if r.kind == ChangeKind::Unchanged {
            (merge_apply(st.0, l), st.1)
        } else {
            match strategy {
                MergeStrategy::Ours => (merge_apply(st.0, l), st.1),
                MergeStrategy::Theirs => (merge_apply(st.0, r), st.1),
                MergeStrategy::Manual => (st.0, st.1.push(ConflictView {
                    path: p,
                    base: l.old_value,
                    left: side_value(l),
                    right: side_value(r),
                })),
            }
        },
        (None, None) => st,
    }
}

/// The merge over the paths `ps` in order.
pub open spec fn merge_fold(
    base: JsonView,
    ps: Seq<Seq<char>>,
    lcs: Seq<ChangeView>,
    rcs: Seq<ChangeView>,
    strategy: MergeStrategy,
) -> (JsonView, Seq<ConflictView>)
    decreases ps.len(),
{
    if ps.len() == 0 {
        (base, Seq::empty())
    } else {
        let p = ps.last();
        merge_step(
            merge_fold(base, ps.drop_last(), lcs, rcs, strategy),
            p,
            change_at(lcs, p),
            change_at(rcs, p),
            touched_near(lcs, p),
            touched_near(rcs, p),
            strategy,
        )
    }
}

/// The three-way merge of JSON values: the diffs from the base to each side,
/// merged over all their paths in increasing order, starting from the base.
pub open spec fn merge_spec(base: JsonView, left: JsonView, right: JsonView, strategy: MergeStrategy) -> (JsonView, Seq<ConflictView>) {
    let lcs = diff_spec(base, left, Seq::empty());
    let rcs = diff_spec(base, right, Seq::empty());
    merge_fold(base, sorted_paths(paths_of(lcs).union(paths_of(rcs))), lcs, rcs, strategy)
}

fn change_index(cs: &Vec<Change>, p: &String) -> (r: Option<usize>)
    ensures
        match last_at(changes_view(cs@), p@) {
            Some(i) => r == Some(i as usize),
            None => r is None,
        },
{
    let ghost v = changes_view(cs@);
    let mut k: usize = cs.len();
    assert(v.take(k as int) =~= v);
    while k > 0
        invariant
            k <= cs.len(),
            v == changes_view(cs@),
            v.len() == cs@.len(),
            last_at(v.take(k as int), p@) == last_at(v, p@),
        decreases k,
    {
        assert(v.take(k as int).drop_last() =~= v.take(k - 1));
        assert(v[k - 1] == cs@[k - 1]@);
        let same = match &cs[k - 1].path {
            Some(q) => str_eq(q.as_str(), p.as_str()),
            None => false,
        };
        if same {
            return Some(k - 1);
        }
        k = k - 1;
    }
    None
}

proof fn lemma_last_at(cs: Seq<ChangeView>, p: Seq<char>)
    ensures
        last_at(cs, p) matches Some(i) ==> 0 <= i < cs.len() && cs[i].path == Some(p),
        last_at(cs, p) is None ==> forall|i: int| 0 <= i < cs.len() ==> cs[i].path != Some(p),
    decreases cs.len(),
{
    if cs.len() > 0 {
        lemma_last_at(cs.drop_last(), p);
        assert forall|i: int| 0 <= i < cs.len() - 1 implies #[trigger] cs[i] == cs.drop_last()[i] by {}
    }
}

fn paths_of_changes(cs: &Vec<Change>, paths: &mut Vec<String>)
    requires
        strictly_sorted(old(paths)@.map_values(|s: String| s@)),
    ensures
        strictly_sorted(final(paths)@.map_values(|s: String| s@)),
        final(paths)@.map_values(|s: String| s@).to_set()
            == old(paths)@.map_values(|s: String| s@).to_set().union(paths_of(changes_view(cs@))),
{
    let ghost start = paths@.map_values(|s: String| s@).to_set();
    let ghost v = changes_view(cs@);
    let mut i: usize = 0;
    while i < cs.len()
        invariant
            i <= cs.len(),
            v == changes_view(cs@),
            v.len() == cs@.len(),
            strictly_sorted(paths@.map_values(|s: String| s@)),
            paths@.map_values(|s: String| s@).to_set() == start.union(paths_of(v.take(i as int))),
        decreases cs.len() - i,
    {
        assert(v[i as int] == cs@[i as int]@);
        let ghost before = paths@.map_values(|s: String| s@).to_set();
        let ghost pi = paths_of(v.take(i as int));
        let ghost pj = paths_of(v.take(i + 1));
        proof {
            assert forall|q: Seq<char>| pj.contains(q) <==> (pi.contains(q) || v[i as int].path == Some(q)) by {
                if pj.contains(q) {
                    let k = choose|k: int| 0 <= k < v.take(i + 1).len() && #[trigger] v.take(i + 1)[k].path == Some(q);
                    if k < i {
                        assert(v.take(i as int)[k] == v.take(i + 1)[k]);
                    }
                }
                if pi.contains(q) {
                    let k = choose|k: int| 0 <= k < v.take(i as int).len() && #[trigger] v.take(i as int)[k].path == Some(q);
                    assert(v.take(i + 1)[k] == v.take(i as int)[k]);
                }
                if v[i as int].path == Some(q) {
                    assert(v.take(i + 1)[i as int] == v[i as int]);
                }
            }
        }
        match &cs[i].path {
            Some(p) => {
                insert_sorted(paths, p);
                proof {
                    assert(v[i as int].path == Some(p@));
                    assert(pj =~= pi.insert(p@));
                    assert(paths@.map_values(|s: String| s@).to_set() =~= start.union(pj));
                }
            },
            None => {
                proof {
                    assert(pj =~= pi);
                }
            },
        }
        i = i + 1;
    }
    assert(v.take(i as int) =~= v);
}

fn opt_or(a: &Option<String>, b: &Option<String>) -> (r: Option<String>)
    ensures
        opt_view(r) == match opt_view(*a) {
            Some(x) => Some(x),
            None => opt_view(*b),
        },
{
    match a {
        Some(x) => Some(copy_string(x)),
        None => copy_opt_string(b),
    }
}

/// Merges the changes from `base` to `left` and to `right` (see [`merge_spec`]).
pub fn merge_json(base: &JsonValue, left: &JsonValue, right: &JsonValue, strategy: MergeStrategy) -> (r: MergeResult)
    ensures
        r.merged@ == merge_spec(base@, left@, right@, strategy).0,
        conflicts_view(r.conflicts@) == merge_spec(base@, left@, right@, strategy).1,
        r.strategy == strategy,
{
    let left_changes = diff_json_values(base, left);
    let right_changes = diff_json_values(base, right);
    let ghost lcs = changes_view(left_changes@);
    let ghost rcs = changes_view(right_changes@);
    let mut paths: Vec<String> = Vec::new();
    assert(paths@.map_values(|s: String| s@).to_set() =~= Set::<Seq<char>>::empty());
    paths_of_changes(&left_changes, &mut paths);
    paths_of_changes(&right_changes, &mut paths);
    let ghost ps = paths@.map_values(|s: String| s@);
    assert(ps.to_set() =~= paths_of(lcs).union(paths_of(rcs)));
    proof {
        lemma_sorted_unique(ps, sorted_paths(paths_of(lcs).union(paths_of(rcs))));
    }
    let mut merged = crate::value::copy_json(base);
    let mut conflicts: Vec<Conflict> = Vec::new();
    let mut i: usize = 0;
    while i < paths.len()
        invariant
            i <= paths.len(),
            ps == paths@.map_values(|s: String| s@),
            lcs == changes_view(left_changes@),
            rcs == changes_view(right_changes@),
            (merged@, conflicts_view(conflicts@)) == merge_fold(base@, ps.take(i as int), lcs, rcs, strategy),
        decreases paths.len() - i,
    {
        proof {
            assert(ps.take(i + 1).drop_last() =~= ps.take(i as int));
            assert(ps[i as int] == paths@[i as int]@);
            lemma_last_at(lcs, ps[i as int]);
            lemma_last_at(rcs, ps[i as int]);
        }
        let p = &paths[i];
        let nl = left_changes.len();
        let nr = right_changes.len();
        assert(lcs.len() == nl && rcs.len() == nr);
        let li = change_index(&left_changes, p);
        let ri = change_index(&right_changes, p);
        let left_near = near_change(&left_changes, p.as_str());
        let right_near = near_change(&right_changes, p.as_str());
        let ghost before = conflicts_view(conflicts@);
        let ghost old_merged = merged@;
        let ghost lo = change_at(lcs, ps[i as int]);
        let ghost ro = change_at(rcs, ps[i as int]);
        assert(ps.take(i + 1).last() == ps[i as int]);
        assert(lo == match li { Some(a) => Some(lcs[a as int]), None => None::<ChangeView> });
        assert(ro == match ri { Some(b) => Some(rcs[b as int]), None => None::<ChangeView> });
        match (li, ri) {
            (Some(a), None) => {
                assert(lcs[a as int] == left_changes@[a as int]@);
                let lc = &left_changes[a];
                if lc.kind != ChangeKind::Unchanged && right_near {
                    match strategy {
                        MergeStrategy::Ours => {
                            merged = apply_change(merged, lc);
                        },
                        MergeStrategy::Theirs => {},
                        MergeStrategy::Manual => {
                            let c = Conflict {
                                path: copy_string(p),
                                base: copy_opt_string(&lc.old_value),
                                left: opt_or(&lc.new_value, &lc.old_value),
                                right: None,
                            };
                            conflicts.push(c);
                            assert(conflicts_view(conflicts@) =~= before.push(c@));
                        },
                    }
                } else {
                    merged = apply_change(merged, lc);
                }
            },
            (None, Some(b)) => {
                assert(rcs[b as int] == right_changes@[b as int]@);
                let rc = &right_changes[b];
                if rc.kind != ChangeKind::Unchanged && left_near {
                    match strategy {
                        MergeStrategy::Ours => {},
                        MergeStrategy::Theirs => {
                            merged = apply_change(merged, rc);
                        },
                        MergeStrategy::Manual => {
                            let c = Conflict {
                                path: copy_string(p),
                                base: copy_opt_string(&rc.old_value),
                                left: None,
                                right: opt_or(&rc.new_value, &rc.old_value),
                            };
                            conflicts.push(c);
                            assert(conflicts_view(conflicts@) =~= before.push(c@));
                        },
                    }
                } else {
                    merged = apply_change(merged, rc);
                }
            },
            (Some(a), Some(b)) => {
                assert(lcs[a as int] == left_changes@[a as int]@);
                assert(rcs[b as int] == right_changes@[b as int]@);
                let lc = &left_changes[a];
                let rc = &right_changes[b];
                let same_value = match (&lc.new_value, &rc.new_value) {
                    (Some(x), Some(y)) => str_eq(x.as_str(), y.as_str()),
                    (None, None) => true,
                    _ => false,
                };
                if lc.kind == rc.kind && same_value {
                    merged = apply_change(merged, lc);
                } else if lc.kind == ChangeKind::Unchanged {
                    merged = apply_change(merged, rc);
                } else if rc.kind == ChangeKind::Unchanged {
                    merged = apply_change(merged, lc);
                } else {
                    match strategy {
                        MergeStrategy::Ours => {
                            merged = apply_change(merged, lc);
                        },
                        MergeStrategy::Theirs => {
                            merged = apply_change(merged, rc);
                        },
                        MergeStrategy::Manual => {
                            let c = Conflict {
                                path: copy_string(p),
                                base: copy_opt_string(&lc.old_value),
                                left: opt_or(&lc.new_value, &lc.old_value),
                                right: opt_or(&rc.new_value, &rc.old_value),
                            };
                            conflicts.push(c);
                            assert(conflicts_view(conflicts@) =~= before.push(c@));
                        },
                    }
                }
            },
            (None, None) => {},
        }
        assert((merged@, conflicts_view(conflicts@)) == merge_step(
            (old_merged, before),
            ps[i as int],
            lo,
            ro,
            touched_near(lcs, ps[i as int]),
            touched_near(rcs, ps[i as int]),
            strategy,
        ));
        i = i + 1;
    }
    assert(ps.take(i as int) =~= ps);
    MergeResult { merged, conflicts, strategy }
}

proof fn lemma_resolved_fold_clean(base: JsonView, ps: Seq<Seq<char>>, lcs: Seq<ChangeView>, rcs: Seq<ChangeView>, strategy: MergeStrategy)
    requires
        strategy != MergeStrategy::Manual,
    ensures
        merge_fold(base, ps, lcs, rcs, strategy).1.len() == 0,
    decreases ps.len(),
{
    if ps.len() > 0 {
        lemma_resolved_fold_clean(base, ps.drop_last(), lcs, rcs, strategy);
    }
}

/// Resolving by `Ours` or `Theirs` never leaves a conflict.
pub proof fn law_resolving_merge_is_clean(base: JsonView, left: JsonView, right: JsonView, strategy: MergeStrategy)
    requires
        strategy != MergeStrategy::Manual,
    ensures
        merge_spec(base, left, right, strategy).1.len() == 0,
{
    let lcs = diff_spec(base, left, Seq::empty());
    let rcs = diff_spec(base, right, Seq::empty());
    lemma_resolved_fold_clean(base, sorted_paths(paths_of(lcs).union(paths_of(rcs))), lcs, rcs, strategy);
}

proof fn lemma_same_fold_clean(base: JsonView, ps: Seq<Seq<char>>, cs: Seq<ChangeView>, strategy: MergeStrategy)
    ensures
        merge_fold(base, ps, cs, cs, strategy).1.len() == 0,
    decreases ps.len(),
{
    if ps.len() > 0 {
        lemma_same_fold_clean(base, ps.drop_last(), cs, strategy);
    }
}

/// When both sides made the same document, the merge has no conflict,
/// whatever the strategy.
pub proof fn law_same_sides_merge_cleanly(base: JsonView, side: JsonView, strategy: MergeStrategy)
    ensures
        merge_spec(base, side, side, strategy).1.len() == 0,
{
    let cs = diff_spec(base, side, Seq::empty());
    lemma_same_fold_clean(base, sorted_paths(paths_of(cs).union(paths_of(cs))), cs, strategy);
}

/// Every change of `cs` is `Unchanged`.
spec fn all_unchanged(cs: Seq<ChangeView>) -> bool {
    forall|i: int| 0 <= i < cs.len() ==> (#[trigger] cs[i]).kind == ChangeKind::Unchanged
}

proof fn lemma_quiet_side_fold_clean(
    base: JsonView,
    ps: Seq<Seq<char>>,
    lcs: Seq<ChangeView>,
    rcs: Seq<ChangeView>,
    strategy: MergeStrategy,
)
    requires
        all_unchanged(lcs) || all_unchanged(rcs),
    ensures
        merge_fold(base, ps, lcs, rcs, strategy).1.len() == 0,
    decreases ps.len(),
{
    if ps.len() > 0 {
        lemma_quiet_side_fold_clean(base, ps.drop_last(), lcs, rcs, strategy);
        let p = ps.last();
        lemma_last_at(lcs, p);
        lemma_last_at(rcs, p);
        if all_unchanged(lcs) {
            assert(!touched_near(lcs, p));
        } else {
            assert(!touched_near(rcs, p));
        }
    }
}

/// When one side kept the base document, the merge has no conflict,
/// whatever the strategy: the other side's changes are taken as they are.
pub proof fn law_one_sided_merge_is_clean(base: JsonView, changed: JsonView, strategy: MergeStrategy)
    ensures
        merge_spec(base, changed, base, strategy).1.len() == 0,
        merge_spec(base, base, changed, strategy).1.len() == 0,
{
    let cs = diff_spec(base, changed, Seq::empty());
    let quiet = diff_spec(base, base, Seq::empty());
    assert(all_unchanged(quiet));
    lemma_quiet_side_fold_clean(base, sorted_paths(paths_of(cs).union(paths_of(quiet))), cs, quiet, strategy);
    lemma_quiet_side_fold_clean(base, sorted_paths(paths_of(quiet).union(paths_of(cs))), quiet, cs, strategy);
}

/// The strategy that keeps the same side when the sides are swapped.
pub open spec fn swapped(s: MergeStrategy) -> MergeStrategy {
    match s {
        MergeStrategy::Ours => MergeStrategy::Theirs,
        MergeStrategy::Theirs => MergeStrategy::Ours,
        MergeStrategy::Manual => MergeStrategy::Manual,
    }
}

proof fn lemma_change_at_path(cs: Seq<ChangeView>, p: Seq<char>)
    ensures
        change_at(cs, p) matches Some(c) ==> c.path == Some(p),
{
    lemma_last_at(cs, p);
}

proof fn lemma_swapped_fold(base: JsonView, ps: Seq<Seq<char>>, lcs: Seq<ChangeView>, rcs: Seq<ChangeView>, strategy: MergeStrategy)
    ensures
        merge_fold(base, ps, lcs, rcs, strategy).0 == merge_fold(base, ps, rcs, lcs, swapped(strategy)).0,
        merge_fold(base, ps, lcs, rcs, strategy).1.len() == merge_fold(base, ps, rcs, lcs, swapped(strategy)).1.len(),
    decreases ps.len(),
{
    if ps.len() > 0 {
        lemma_swapped_fold(base, ps.drop_last(), lcs, rcs, strategy);
        let p = ps.last();
        lemma_change_at_path(lcs, p);
        lemma_change_at_path(rcs, p);
    }
}

/// Swapping the sides and the strategy (`Ours` for `Theirs`) gives the same
/// merged value and as many conflicts.
pub proof fn law_merge_swap_sides(base: JsonView, left: JsonView, right: JsonView, strategy: MergeStrategy)
    ensures
        merge_spec(base, left, right, strategy).0 == merge_spec(base, right, left, swapped(strategy)).0,
        merge_spec(base, left, right, strategy).1.len() == merge_spec(base, right, left, swapped(strategy)).1.len(),
{
    let lcs = diff_spec(base, left, Seq::empty());
    let rcs = diff_spec(base, right, Seq::empty());
    assert(paths_of(lcs).union(paths_of(rcs)) =~= paths_of(rcs).union(paths_of(lcs)));
    lemma_swapped_fold(base, sorted_paths(paths_of(lcs).union(paths_of(rcs))), lcs, rcs, strategy);
}

/// The cross format that a structured format kind is read as.
pub open spec fn structured_kind(k: FormatKindView) -> Option<CrossFormatKind> {
    match k {
        FormatKindView::Json => Some(CrossFormatKind::Json),
        FormatKindView::Toml => Some(CrossFormatKind::Toml),
        FormatKindView::Yaml => Some(CrossFormatKind::Yaml),
        _ => None,
    }
}

/// The message for a format that cannot be merged.
pub open spec fn unmergeable_message() -> Seq<char> {
    "Three-way merge only supports structured formats (JSON, TOML, YAML)"@
}

/// Merges three documents of a structured format: a parse error for the
/// first that does not read, an unsupported-format error for text and code.
pub fn merge(base: &str, left: &str, right: &str, format: FormatKind, strategy: MergeStrategy) -> (r: Result<MergeResult, GudfError>)
    ensures
        match structured_kind(format@) {
            None => r matches Err(GudfError::UnsupportedFormat(m)) && m@ == unmergeable_message(),
            Some(k) => match (cross_parse(k, base@), cross_parse(k, left@), cross_parse(k, right@)) {
                (Some(b), Some(l), Some(x)) => r matches Ok(m) && m.merged@ == merge_spec(b, l, x, strategy).0
                    && conflicts_view(m.conflicts@) == merge_spec(b, l, x, strategy).1 && m.strategy == strategy,
                _ => r matches Err(GudfError::ParseError(_)),
            },
        },
{
    let kind = match format {
        FormatKind::Json => CrossFormatKind::Json,
        FormatKind::Toml => CrossFormatKind::Toml,
        FormatKind::Yaml => CrossFormatKind::Yaml,
        _ => return Err(GudfError::UnsupportedFormat(owned("Three-way merge only supports structured formats (JSON, TOML, YAML)"))),
    };
    let base_val = match kind.parse_to_json(base) {
        Ok(v) => v,
        Err(e) => return Err(e),
    };
    let left_val = match kind.parse_to_json(left) {
        Ok(v) => v,
        Err(e) => return Err(e),
    };
    let right_val = match kind.parse_to_json(right) {
        Ok(v) => v,
        Err(e) => return Err(e),
    };
    Ok(merge_json(&base_val, &left_val, &right_val, strategy))
}


// ── Removing at a dotted path ──────────────────────────────────────────

/// The parts of a dotted path as keys to follow.
pub open spec fn key_parts(parts: Seq<Seq<char>>) -> Seq<PartView> {
    parts.map_values(|k: Seq<char>| PartView::Key(k))
}

/// Neither path of keys begins with the other.
pub open spec fn apart(a: Seq<Seq<char>>, b: Seq<Seq<char>>) -> bool {
    !(a.len() <= b.len() && b.take(a.len() as int) == a) && !(b.len() <= a.len() && a.take(b.len() as int) == b)
}

proof fn lemma_key_parts_drop(parts: Seq<Seq<char>>)
    requires
        parts.len() > 0,
    ensures
        key_parts(parts).drop_first() == key_parts(parts.drop_first()),
        key_parts(parts)[0] == PartView::Key(parts[0]),
        key_parts(parts).len() == parts.len(),
{
    assert(key_parts(parts).drop_first() =~= key_parts(parts.drop_first()));
}

/// Removing at a dotted path that leads to a value, in an object whose keys
/// do not repeat, leaves nothing at that path.
pub proof fn law_remove_dotted_removes(v: JsonView, parts: Seq<Seq<char>>)
    requires
        canonical(v),
        parts.len() > 0,
        get_at(v, key_parts(parts)) is Some,
    ensures
        get_at(remove_dotted(v, parts), key_parts(parts)) is None,
    decreases parts.len(),
{
    lemma_key_parts_drop(parts);
    let k = parts[0];
    match v {
        JsonView::Object(es) => {
            lemma_canonical_parts(v);
            lemma_find_key(es, k);
            let j = find_key(es, k).unwrap();
            if parts.len() == 1 {
                lemma_lookup_remove(es, k);
                assert(lookup(object_remove(es, k), k) is None);
            } else {
                let rest = parts.drop_first();
                let child = es[j].1;
                law_remove_dotted_removes(child, rest);
                let es2 = es.update(j, (k, remove_dotted(child, rest)));
                lemma_lookup_update(es, j, remove_dotted(child, rest));
                lemma_sorted_find(es2, j);
            }
        },
        _ => {},
    }
}

/// Removing at a dotted path leaves every path apart from it as it was, in
/// an object whose keys do not repeat.
pub proof fn law_remove_dotted_keeps_others(v: JsonView, parts: Seq<Seq<char>>, other: Seq<Seq<char>>)
    requires
        canonical(v),
        parts.len() > 0,
        apart(parts, other),
    ensures
        get_at(remove_dotted(v, parts), key_parts(other)) == get_at(v, key_parts(other)),
    decreases parts.len(),
{
    lemma_key_parts_drop(parts);
    let k = parts[0];
    if other.len() == 0 {
        assert(other.take(0) =~= Seq::<Seq<char>>::empty());
        assert(parts.take(0) =~= other);
    } else {
        lemma_key_parts_drop(other);
        let q = other[0];
        match v {
            JsonView::Object(es) => {
                lemma_canonical_parts(v);
                lemma_find_key(es, k);
                if parts.len() == 1 {
                    if q == k {
                        assert(other.take(1) =~= parts);
                    }
                    lemma_lookup_remove(es, k);
                    assert(lookup(object_remove(es, k), q) == lookup(es, q));
                } else {
                    match find_key(es, k) {
                        Some(j) => {
                            let rest = parts.drop_first();
                            let child = es[j].1;
                            let es2 = es.update(j, (k, remove_dotted(child, rest)));
                            lemma_lookup_update(es, j, remove_dotted(child, rest));
                            assert(lookup(es2, q) == if q == k { Some(remove_dotted(child, rest)) } else { lookup(es, q) });
                            if q == k {
                                let orest = other.drop_first();
                                if orest.len() == 0 {
                                    assert(parts.take(1) =~= other);
                                }
                                assert(apart(rest, orest)) by {
                                    if rest.len() <= orest.len() && orest.take(rest.len() as int) == rest {
                                        assert forall|i: int| 0 <= i < parts.len() implies other.take(parts.len() as int)[i] == parts[i] by {
                                            if i > 0 {
                                                assert(orest.take(rest.len() as int)[i - 1] == rest[i - 1]);
                                            }
                                        }
                                        assert(other.take(parts.len() as int) =~= parts);
                                    }
                                    if orest.len() <= rest.len() && rest.take(orest.len() as int) == orest {
                                        assert forall|i: int| 0 <= i < other.len() implies parts.take(other.len() as int)[i] == other[i] by {
                                            if i > 0 {
                                                assert(rest.take(orest.len() as int)[i - 1] == orest[i - 1]);
                                            }
                                        }
                                        assert(parts.take(other.len() as int) =~= other);
                                    }
                                }
                                law_remove_dotted_keeps_others(child, rest, orest);
                                lemma_find_key(es2, k);
                                lemma_sorted_find(es2, j);
                                lemma_sorted_find(es, j);
                            }
                        },
                        None => {},
                    }
                }
            },
            _ => {},
        }
    }
}

/// Merging in a removal at a dotted path that leads to a value, in an object
/// whose keys do not repeat, leaves nothing at that path.
pub proof fn law_merge_removal_removes(v: JsonView, c: ChangeView)
    requires
        canonical(v),
        c.kind == ChangeKind::Removed,
        c.path matches Some(p) && p != "$"@ && get_at(v, key_parts(split_on(p, '.'))) is Some,
    ensures
        get_at(merge_apply(v, c), key_parts(split_on(c.path->Some_0, '.'))) is None,
{
    let p = c.path->Some_0;
    crate::text::lemma_split_on_nonempty(p, '.');
    law_remove_dotted_removes(v, split_on(p, '.'));
}


/// In a merge, a removal made on one side only, with no change above or
/// below its path on the other side, removes its path from the merged value
/// (when the path leads to a value), whatever the strategy.
pub proof fn law_one_sided_removal_applied(
    st: (JsonView, Seq<ConflictView>),
    p: Seq<char>,
    l: ChangeView,
    left_near: bool,
    strategy: MergeStrategy,
)
    requires
        canonical(st.0),
        l.kind == ChangeKind::Removed,
        l.path == Some(p),
        p != "$"@,
        get_at(st.0, key_parts(split_on(p, '.'))) is Some,
    ensures
        get_at(merge_step(st, p, Some(l), None, left_near, false, strategy).0, key_parts(split_on(p, '.'))) is None,
        get_at(merge_step(st, p, None, Some(l), false, left_near, strategy).0, key_parts(split_on(p, '.'))) is None,
{
    law_merge_removal_removes(st.0, l);
}

} // verus!
