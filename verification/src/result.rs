//! Changes, diff results and their statistics.
use vstd::prelude::*;

use crate::annotations::{Annotation, AnnotationView};
use crate::format::{FormatKind, FormatKindView};
use crate::text::{copy_opt_string, opt_view};

verus! {

/// What happened to one element between the old and the new document.
#[derive(Debug, Clone, Copy, PartialEq, Eq, Structural)]
pub enum ChangeKind {
    Added,
    Removed,
    Modified,
    Unchanged,
    Moved,
    Renamed,
}

/// A line (1-based) and an optional column.
#[derive(Debug, Clone, Copy, PartialEq, Eq, Structural)]
pub struct Location {
    pub line: usize,
    pub column: Option<usize>,
}

/// One change of a diff.
#[derive(Debug, Clone)]
pub struct Change {
    pub kind: ChangeKind,
    pub path: Option<String>,
    pub old_value: Option<String>,
    pub new_value: Option<String>,
    pub location: Option<Location>,
    pub annotations: Vec<Annotation>,
}

/// The mathematical content of a [`Change`].
pub struct ChangeView {
    pub kind: ChangeKind,
    pub path: Option<Seq<char>>,
    pub old_value: Option<Seq<char>>,
    pub new_value: Option<Seq<char>>,
    pub location: Option<Location>,
    pub annotations: Seq<AnnotationView>,
}

/// The views of a list of annotations.
pub open spec fn annotations_view(a: Seq<Annotation>) -> Seq<AnnotationView> {
    a.map_values(|x: Annotation| x@)
}

impl View for Change {
    type V = ChangeView;

    open spec fn view(&self) -> ChangeView {
        ChangeView {
            kind: self.kind,
            path: opt_view(self.path),
            old_value: opt_view(self.old_value),
            new_value: opt_view(self.new_value),
            location: self.location,
            annotations: annotations_view(self.annotations@),
        }
    }
}

/// The views of a list of changes.
pub open spec fn changes_view(s: Seq<Change>) -> Seq<ChangeView> {
    s.map_values(|c: Change| c@)
}

/// A change with no annotations.
pub open spec fn plain_change(
    kind: ChangeKind,
    path: Option<Seq<char>>,
    old_value: Option<Seq<char>>,
    new_value: Option<Seq<char>>,
    location: Option<Location>,
) -> ChangeView {
    ChangeView { kind, path, old_value, new_value, location, annotations: Seq::empty() }
}

/// A copy of a list of annotations.
pub fn copy_annotations(a: &Vec<Annotation>) -> (r: Vec<Annotation>)
    ensures
        annotations_view(r@) == annotations_view(a@),
{
    let mut r: Vec<Annotation> = Vec::new();
    let mut i: usize = 0;
    while i < a.len()
        invariant
            i <= a.len(),
            r@.len() == i,
            forall|k: int| 0 <= k < i ==> #[trigger] r@[k]@ == a@[k]@,
        decreases a.len() - i,
    {
        r.push(a[i].duplicate());
        i = i + 1;
    }
    assert(annotations_view(r@) =~= annotations_view(a@));
    r
}

impl Change {
    /// A copy of this change.
    pub fn duplicate(&self) -> (r: Change)
        ensures
            r@ == self@,
    {
        Change {
            kind: self.kind,
            path: copy_opt_string(&self.path),
            old_value: copy_opt_string(&self.old_value),
            new_value: copy_opt_string(&self.new_value),
            location: self.location,
            annotations: copy_annotations(&self.annotations),
        }
    }

    /// A change with no annotations.
    pub fn plain(
        kind: ChangeKind,
        path: Option<String>,
        old_value: Option<String>,
        new_value: Option<String>,
        location: Option<Location>,
    ) -> (r: Change)
        ensures
            r@ == plain_change(kind, opt_view(path), opt_view(old_value), opt_view(new_value), location),
    {
        let r = Change { kind, path, old_value, new_value, location, annotations: Vec::new() };
        assert(annotations_view(r.annotations@) =~= Seq::empty());
        r
    }
}

/// A copy of a list of changes.
pub fn copy_changes(s: &[Change]) -> (r: Vec<Change>)
    ensures
        changes_view(r@) == changes_view(s@),
{
    let mut r: Vec<Change> = Vec::new();
    let mut i: usize = 0;
    while i < s.len()
        invariant
            i <= s.len(),
            r@.len() == i,
            forall|k: int| 0 <= k < i ==> #[trigger] r@[k]@ == s@[k]@,
        decreases s.len() - i,
    {
        r.push(s[i].duplicate());
        i = i + 1;
    }
    assert(changes_view(r@) =~= changes_view(s@));
    r
}

/// Counts of each kind of change.
#[derive(Debug, Clone, Copy, PartialEq, Eq, Structural)]
pub struct DiffStats {
    pub additions: usize,
    pub deletions: usize,
    pub modifications: usize,
    pub moves: usize,
    pub renames: usize,
}

/// The number of changes of kind `k` in `s`.
pub open spec fn count_kind(s: Seq<ChangeView>, k: ChangeKind) -> nat
    decreases s.len(),
{
    if s.len() == 0 {
        0
    } else {
        count_kind(s.drop_last(), k) + if s.last().kind == k { 1nat } else { 0nat }
    }
}

/// `st` holds the counts of `s`: additions, deletions, modifications, moves
/// and renames (unchanged entries are not counted).
pub open spec fn stats_of(s: Seq<ChangeView>, st: DiffStats) -> bool {
    &&& st.additions == count_kind(s, ChangeKind::Added)
    &&& st.deletions == count_kind(s, ChangeKind::Removed)
    &&& st.modifications == count_kind(s, ChangeKind::Modified)
    &&& st.moves == count_kind(s, ChangeKind::Moved)
    &&& st.renames == count_kind(s, ChangeKind::Renamed)
}

/// A count never exceeds the length.
pub proof fn lemma_count_kind_bound(s: Seq<ChangeView>, k: ChangeKind)
    ensures
        count_kind(s, k) <= s.len(),
    decreases s.len(),
{
    if s.len() > 0 {
        lemma_count_kind_bound(s.drop_last(), k);
    }
}

/// Counts split over a concatenation.
pub proof fn lemma_count_kind_add(a: Seq<ChangeView>, b: Seq<ChangeView>, k: ChangeKind)
    ensures
        count_kind(a + b, k) == count_kind(a, k) + count_kind(b, k),
    decreases b.len(),
{
    if b.len() == 0 {
        assert(a + b =~= a);
    } else {
        lemma_count_kind_add(a, b.drop_last(), k);
        assert((a + b).drop_last() =~= a + b.drop_last());
    }
}

impl DiffStats {
    /// All-zero statistics.
    pub fn zero() -> (r: DiffStats)
        ensures
            stats_of(Seq::empty(), r),
    {
        DiffStats { additions: 0, deletions: 0, modifications: 0, moves: 0, renames: 0 }
    }

    /// Counts the changes of each kind.
    pub fn from_changes(changes: &[Change]) -> (r: DiffStats)
        ensures
            stats_of(changes_view(changes@), r),
    {
        let mut st = DiffStats { additions: 0, deletions: 0, modifications: 0, moves: 0, renames: 0 };
        let mut i: usize = 0;
        while i < changes.len()
            invariant
                i <= changes.len(),
                stats_of(changes_view(changes@.take(i as int)), st),
            decreases changes.len() - i,
        {
            let ghost pre = changes_view(changes@.take(i as int));
            proof {
                assert(changes_view(changes@.take(i + 1)).drop_last() =~= pre);
                lemma_count_kind_bound(pre, ChangeKind::Added);
                lemma_count_kind_bound(pre, ChangeKind::Removed);
                lemma_count_kind_bound(pre, ChangeKind::Modified);
                lemma_count_kind_bound(pre, ChangeKind::Moved);
                lemma_count_kind_bound(pre, ChangeKind::Renamed);
            }
            match changes[i].kind {
                ChangeKind::Added => st.additions = st.additions + 1,
                ChangeKind::Removed => st.deletions = st.deletions + 1,
                ChangeKind::Modified => st.modifications = st.modifications + 1,
                ChangeKind::Moved => st.moves = st.moves + 1,
                ChangeKind::Renamed => st.renames = st.renames + 1,
                ChangeKind::Unchanged => {},
            }
            i = i + 1;
        }
        assert(changes@.take(i as int) =~= changes@);
        st
    }
}

/// The result of one diff.
#[derive(Debug, Clone)]
pub struct DiffResult {
    pub changes: Vec<Change>,
    pub format: FormatKind,
    pub stats: DiffStats,
}

/// The mathematical content of a [`DiffResult`].
pub struct DiffResultView {
    pub changes: Seq<ChangeView>,
    pub format: FormatKindView,
    pub stats: DiffStats,
}

impl View for DiffResult {
    type V = DiffResultView;

    open spec fn view(&self) -> DiffResultView {
        DiffResultView { changes: changes_view(self.changes@), format: self.format@, stats: self.stats }
    }
}

impl DiffResult {
    /// A copy of this result.
    pub fn duplicate(&self) -> (r: DiffResult)
        ensures
            r@ == self@,
    {
        DiffResult {
            changes: copy_changes(self.changes.as_slice()),
            format: self.format.duplicate(),
            stats: self.stats,
        }
    }

    /// A result over `changes`, with their statistics.
    pub fn from_changes(changes: Vec<Change>, format: FormatKind) -> (r: DiffResult)
        ensures
            r@.changes == changes_view(changes@),
            r@.format == format@,
            stats_of(r@.changes, r.stats),
    {
        let stats = DiffStats::from_changes(changes.as_slice());
        DiffResult { changes, format, stats }
    }
}

} // verus!
