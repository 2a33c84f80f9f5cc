//! Filtering and querying the changes of a diff, and glob patterns over paths.
use vstd::prelude::*;
use vstd::std_specs::vec::into_iter_elts;

use crate::path::{parse_path, parse_seq, PathSegment, SegmentView};
use crate::result::{Change, ChangeKind, ChangeView, DiffResult};
use crate::text::{decimal, decimal_string, split_char, split_on, str_eq};

verus! {

/// The views of a list of change references.
pub open spec fn refs_view(s: Seq<&Change>) -> Seq<ChangeView> {
    s.map_values(|c: &Change| c@)
}

/// The changes of `s` that satisfy `keep`, in order.
pub open spec fn filtered(s: Seq<ChangeView>, keep: spec_fn(ChangeView) -> bool) -> Seq<ChangeView>
    decreases s.len(),
{
    if s.len() == 0 {
        Seq::empty()
    } else {
        filtered(s.drop_last(), keep) + if keep(s.last()) { seq![s.last()] } else { Seq::empty() }
    }
}

/// The changes of `s` whose mark is `true`, in order.
pub open spec fn masked(s: Seq<ChangeView>, mask: Seq<bool>) -> Seq<ChangeView>
    decreases s.len(),
{
    if s.len() == 0 || mask.len() == 0 {
        Seq::empty()
    } else {
        masked(s.drop_last(), mask.drop_last()) + if mask.last() { seq![s.last()] } else { Seq::empty() }
    }
}

/// A step of a glob pattern: a literal segment, `*` (one segment) or `**`
/// (any number of segments).
#[derive(Debug)]
pub enum PatternSegment {
    Literal(String),
    Star,
    DoubleStar,
}

/// The mathematical content of a [`PatternSegment`].
pub enum PatternView {
    Literal(Seq<char>),
    Star,
    DoubleStar,
}

impl View for PatternSegment {
    type V = PatternView;

    open spec fn view(&self) -> PatternView {
        match self {
            PatternSegment::Literal(s) => PatternView::Literal(s@),
            PatternSegment::Star => PatternView::Star,
            PatternSegment::DoubleStar => PatternView::DoubleStar,
        }
    }
}

/// The pattern segment a piece of a pattern stands for.
pub open spec fn pattern_piece(p: Seq<char>) -> PatternView {
    if p == "**"@ {
        PatternView::DoubleStar
    } else if p == "*"@ {
        PatternView::Star
    } else {
        PatternView::Literal(p)
    }
}

/// The segments of a glob pattern: its `.`-separated pieces.
pub open spec fn pattern_of(pattern: Seq<char>) -> Seq<PatternView> {
    split_on(pattern, '.').map_values(|p: Seq<char>| pattern_piece(p))
}

/// The text of a path segment: a key, or an index in decimal.
pub open spec fn part_text(s: SegmentView) -> Seq<char> {
    match s {
        SegmentView::Key(k) => k,
        SegmentView::Index(i) => decimal(i as nat),
    }
}

/// The parts of a path as a pattern sees them.
pub open spec fn path_parts(path: Seq<char>) -> Seq<Seq<char>> {
    parse_seq(path).map_values(|s: SegmentView| part_text(s))
}

/// Every segment is `**`.
pub open spec fn all_double_star(segs: Seq<PatternView>) -> bool {
    forall|i: int| 0 <= i < segs.len() ==> segs[i] is DoubleStar
}

/// Whether the pattern segments match the parts: a literal matches an equal
/// part, `*` any one part, `**` any number of parts (none included).
pub open spec fn glob_match(segs: Seq<PatternView>, parts: Seq<Seq<char>>) -> bool
    decreases segs.len() + parts.len(),
{
    if segs.len() == 0 {
        parts.len() == 0
    } else if segs[0] is DoubleStar {
        glob_match(segs.drop_first(), parts) || (parts.len() > 0 && glob_match(segs, parts.drop_first()))
    } else if parts.len() == 0 {
        all_double_star(segs)
    } else {
        match segs[0] {
            PatternView::Literal(l) => l == parts[0] && glob_match(segs.drop_first(), parts.drop_first()),
            _ => glob_match(segs.drop_first(), parts.drop_first()),
        }
    }
}

/// A glob pattern over dotted paths.
pub struct PathMatcher {
    segments: Vec<PatternSegment>,
}

impl PathMatcher {
    /// The segments of the pattern.
    pub closed spec fn segments(&self) -> Seq<PatternView> {
        self.segments@.map_values(|s: PatternSegment| s@)
    }

    /// The matcher for a pattern such as `config.*.host` or `config.**`.
    pub fn new(pattern: &str) -> (r: PathMatcher)
        ensures
            r.segments() == pattern_of(pattern@),
    {
        let pieces = split_char(pattern, '.');
        let mut segments: Vec<PatternSegment> = Vec::new();
        let mut i: usize = 0;
        while i < pieces.len()
            invariant
                i <= pieces.len(),
                pieces@.len() == split_on(pattern@, '.').len(),
                forall|k: int| 0 <= k < pieces@.len() ==> #[trigger] pieces@[k]@ == split_on(pattern@, '.')[k],
                segments@.len() == i,
                forall|k: int| 0 <= k < i ==> (#[trigger] segments@[k])@ == pattern_piece(split_on(pattern@, '.')[k]),
            decreases pieces.len() - i,
        {
            let p = pieces[i].as_str();
            let seg = if str_eq(p, "**") {
                PatternSegment::DoubleStar
            } else if str_eq(p, "*") {
                PatternSegment::Star
            } else {
                PatternSegment::Literal(pieces[i].clone())
            };
            segments.push(seg);
            i = i + 1;
        }
        let r = PathMatcher { segments };
        assert(r.segments() =~= pattern_of(pattern@));
        r
    }

    fn match_recursive(&self, si: usize, parts: &Vec<String>, pi: usize) -> (r: bool)
        requires
            si <= self.segments@.len(),
            pi <= parts@.len(),
        ensures
            r == glob_match(self.segments().skip(si as int), parts@.map_values(|p: String| p@).skip(pi as int)),
        decreases self.segments@.len() - si + parts@.len() - pi,
    {
        let ghost segs = self.segments().skip(si as int);
        let ghost ps = parts@.map_values(|p: String| p@).skip(pi as int);
        if si == self.segments.len() {
            return pi == parts.len();
        }
        assert(segs[0] == self.segments@[si as int]@);
        assert(segs.drop_first() =~= self.segments().skip(si + 1));
        if pi < parts.len() {
            assert(ps[0] == parts@[pi as int]@);
            assert(ps.drop_first() =~= parts@.map_values(|p: String| p@).skip(pi + 1));
        }
        match &self.segments[si] {
            PatternSegment::DoubleStar => {
                if self.match_recursive(si + 1, parts, pi) {
                    return true;
                }
                pi < parts.len() && self.match_recursive(si, parts, pi + 1)
            },
            _ => {
                if pi == parts.len() {
                    return false;
                }
                match &self.segments[si] {
                    PatternSegment::Literal(l) => {
                        str_eq(l.as_str(), parts[pi].as_str()) && self.match_recursive(si + 1, parts, pi + 1)
                    },
                    _ => self.match_recursive(si + 1, parts, pi + 1),
                }
            },
        }
    }

    /// Whether the pattern matches a path (see [`glob_match`]).
    pub fn matches(&self, input_path: &str) -> (r: bool)
        ensures
            r == glob_match(self.segments(), path_parts(input_path@)),
    {
        let parsed = parse_path(input_path);
        let mut parts: Vec<String> = Vec::new();
        let mut i: usize = 0;
        while i < parsed.len()
            invariant
                i <= parsed.len(),
                parts@.len() == i,
                forall|k: int| 0 <= k < i ==> (#[trigger] parts@[k])@ == part_text(parsed@[k]@),
            decreases parsed.len() - i,
        {
            let t = match &parsed[i] {
                PathSegment::Key(k) => k.clone(),
                PathSegment::Index(n) => decimal_string(*n),
            };
            parts.push(t);
            i = i + 1;
        }
        assert(crate::path::segments_view(parsed@) == parse_seq(input_path@));
        assert(parts@.map_values(|p: String| p@) =~= path_parts(input_path@)) by {
            assert forall|k: int| 0 <= k < parts@.len() implies parts@[k]@ == path_parts(input_path@)[k] by {
                assert(parse_seq(input_path@)[k] == parsed@[k]@);
            }
        }
        assert(self.segments().skip(0) =~= self.segments());
        assert(parts@.map_values(|p: String| p@).skip(0) =~= parts@.map_values(|p: String| p@));
        self.match_recursive(0, &parts, 0)
    }
}

/// `**` alone matches every list of parts.
pub proof fn law_double_star_matches_everything(parts: Seq<Seq<char>>)
    ensures
        glob_match(seq![PatternView::DoubleStar], parts),
    decreases parts.len(),
{
    let segs = seq![PatternView::DoubleStar];
    assert(segs[0] is DoubleStar);
    assert(segs.drop_first() =~= Seq::<PatternView>::empty());
    assert(glob_match(Seq::<PatternView>::empty(), parts) == (parts.len() == 0));
    if parts.len() > 0 {
        law_double_star_matches_everything(parts.drop_first());
    }
}

/// A pattern of the parts themselves, as literals, matches them.
pub proof fn law_literal_pattern_matches_itself(parts: Seq<Seq<char>>)
    ensures
        glob_match(parts.map_values(|p: Seq<char>| PatternView::Literal(p)), parts),
    decreases parts.len(),
{
    let segs = parts.map_values(|p: Seq<char>| PatternView::Literal(p));
    if parts.len() > 0 {
        law_literal_pattern_matches_itself(parts.drop_first());
        assert(segs.drop_first() =~= parts.drop_first().map_values(|p: Seq<char>| PatternView::Literal(p)));
    }
}

/// After literal parts, `*` matches exactly one more part and `**` any
/// number of more parts: `config.database.*` matches `config.database.host`
/// but not `config.database.host.port`; `config.**` matches both.
pub proof fn law_star_one_level_double_star_any(prefix: Seq<Seq<char>>, rest: Seq<Seq<char>>)
    ensures
        glob_match(prefix.map_values(|p: Seq<char>| PatternView::Literal(p)).push(PatternView::Star), prefix + rest)
            <==> rest.len() == 1,
        glob_match(prefix.map_values(|p: Seq<char>| PatternView::Literal(p)).push(PatternView::DoubleStar), prefix + rest),
    decreases prefix.len(),
{
    let lits = prefix.map_values(|p: Seq<char>| PatternView::Literal(p));
    if prefix.len() == 0 {
        assert(prefix + rest =~= rest);
        assert(lits.push(PatternView::Star) =~= seq![PatternView::Star]);
        assert(lits.push(PatternView::DoubleStar) =~= seq![PatternView::DoubleStar]);
        assert(seq![PatternView::Star].drop_first() =~= Seq::<PatternView>::empty());
        assert(!all_double_star(seq![PatternView::Star]));
        if rest.len() > 0 {
            assert(glob_match(Seq::<PatternView>::empty(), rest.drop_first()) == (rest.len() == 1));
            assert(glob_match(seq![PatternView::Star], rest) == glob_match(Seq::<PatternView>::empty(), rest.drop_first()));
        } else {
            assert(glob_match(seq![PatternView::Star], rest) == all_double_star(seq![PatternView::Star]));
        }
        law_double_star_matches_everything(rest);
    } else {
        law_star_one_level_double_star_any(prefix.drop_first(), rest);
        let tail = prefix.drop_first().map_values(|p: Seq<char>| PatternView::Literal(p));
        assert(lits.push(PatternView::Star).drop_first() =~= tail.push(PatternView::Star));
        assert(lits.push(PatternView::DoubleStar).drop_first() =~= tail.push(PatternView::DoubleStar));
        assert((prefix + rest).drop_first() =~= prefix.drop_first() + rest);
        assert(lits.push(PatternView::Star)[0] == PatternView::Literal(prefix[0]));
        assert(lits.push(PatternView::DoubleStar)[0] == PatternView::Literal(prefix[0]));
        assert((prefix + rest)[0] == prefix[0]);
    }
}

/// The change has a path and the pattern matches it.
pub open spec fn path_selected(pattern: Seq<char>, c: ChangeView) -> bool {
    match c.path {
        Some(p) => glob_match(pattern_of(pattern), path_parts(p)),
        None => false,
    }
}

/// The change has an annotation with key `key`.
pub open spec fn has_annotation_key(c: ChangeView, key: Seq<char>) -> bool {
    exists|i: int| 0 <= i < c.annotations.len() && #[trigger] c.annotations[i].key == key
}

fn matched_path(matcher: &PathMatcher, pattern: &str, c: &Change) -> (b: bool)
    requires
        matcher.segments() == pattern_of(pattern@),
    ensures
        b == path_selected(pattern@, c@),
{
    match &c.path {
        Some(p) => matcher.matches(p.as_str()),
        None => false,
    }
}

fn annotated_with(c: &Change, key: &str) -> (b: bool)
    ensures
        b == has_annotation_key(c@, key@),
{
    let mut found = false;
    let mut i: usize = 0;
    while i < c.annotations.len()
        invariant
            i <= c.annotations.len(),
            c@.annotations.len() == c.annotations@.len(),
            found == exists|j: int| 0 <= j < i && #[trigger] c@.annotations[j].key == key@,
        decreases c.annotations.len() - i,
    {
        assert(c@.annotations[i as int] == c.annotations@[i as int]@);
        if str_eq(c.annotations[i].key.as_str(), key) {
            assert(c@.annotations[i as int].key == key@);
            found = true;
        } else {
            assert(c@.annotations[i as int].key != key@);
        }
        i = i + 1;
    }
    found
}

/// A view of the changes of a diff that filters can narrow.
pub struct DiffPipeline<'a> {
    changes: Vec<&'a Change>,
}

impl<'a> DiffPipeline<'a> {
    /// The changes still selected, in order.
    pub closed spec fn selected(&self) -> Seq<ChangeView> {
        refs_view(self.changes@)
    }

    /// The references to the changes still selected, in order.
    pub closed spec fn selected_refs(&self) -> Seq<&'a Change> {
        self.changes@
    }

    fn keep_where(self, Ghost(keep): Ghost<spec_fn(ChangeView) -> bool>, f: impl Fn(&Change) -> bool) -> (r: DiffPipeline<'a>)
        requires
            forall|c: &Change| #[trigger] f.requires((c,)),
            forall|c: &Change, b: bool| #[trigger] f.ensures((c,), b) ==> b == keep(c@),
        ensures
            r.selected() == filtered(self.selected(), keep),
    {
        let ghost s = self.selected();
        let mut kept: Vec<&'a Change> = Vec::new();
        let mut i: usize = 0;
        while i < self.changes.len()
            invariant
                i <= self.changes.len(),
                s == refs_view(self.changes@),
                s.len() == self.changes@.len(),
                forall|c: &Change| #[trigger] f.requires((c,)),
                forall|c: &Change, b: bool| #[trigger] f.ensures((c,), b) ==> b == keep(c@),
                refs_view(kept@) == filtered(s.take(i as int), keep),
            decreases self.changes.len() - i,
        {
            proof {
                assert(s.take(i + 1).drop_last() =~= s.take(i as int));
                assert(s[i as int] == self.changes@[i as int]@);
            }
            let c = self.changes[i];
            let ghost before = refs_view(kept@);
            if f(c) {
                kept.push(c);
                assert(refs_view(kept@) =~= before.push(c@));
            }
            assert(refs_view(kept@) =~= filtered(s.take(i + 1), keep));
            i = i + 1;
        }
        assert(s.take(i as int) =~= s);
        DiffPipeline { changes: kept }
    }

    /// A pipeline over all of `changes`.
    pub fn new(changes: &'a [Change]) -> (r: DiffPipeline<'a>)
        ensures
            r.selected() == changes@.map_values(|c: Change| c@),
    {
        let mut refs: Vec<&'a Change> = Vec::new();
        let mut i: usize = 0;
        while i < changes.len()
            invariant
                i <= changes.len(),
                refs@.len() == i,
                forall|k: int| 0 <= k < i ==> (#[trigger] refs@[k])@ == changes@[k]@,
            decreases changes.len() - i,
        {
            refs.push(&changes[i]);
            i = i + 1;
        }
        let r = DiffPipeline { changes: refs };
        assert(r.selected() =~= changes@.map_values(|c: Change| c@));
        r
    }

    /// Keeps the changes of the given kind.
    pub fn filter_kind(self, kind: ChangeKind) -> (r: DiffPipeline<'a>)
        ensures
            r.selected() == filtered(self.selected(), |c: ChangeView| c.kind == kind),
    {
        self.keep_where(Ghost(|c: ChangeView| c.kind == kind), |c: &Change| -> (b: bool)
            ensures
                b == (c@.kind == kind),
            { c.kind == kind })
    }

    /// Keeps the changes whose path matches a glob pattern (`*` for one
    /// segment, `**` for any number).
    pub fn filter_path(self, pattern: &str) -> (r: DiffPipeline<'a>)
        ensures
            r.selected() == filtered(self.selected(), |c: ChangeView| path_selected(pattern@, c)),
    {
        let matcher = PathMatcher::new(pattern);
        self.keep_where(Ghost(|c: ChangeView| path_selected(pattern@, c)), |c: &Change| -> (b: bool)
            ensures
                b == path_selected(pattern@, c@),
            { matched_path(&matcher, pattern, c) })
    }

    /// Drops unchanged entries.
    pub fn exclude_unchanged(self) -> (r: DiffPipeline<'a>)
        ensures
            r.selected() == filtered(self.selected(), |c: ChangeView| c.kind != ChangeKind::Unchanged),
    {
        self.keep_where(Ghost(|c: ChangeView| c.kind != ChangeKind::Unchanged), |c: &Change| -> (b: bool)
            ensures
                b == (c@.kind != ChangeKind::Unchanged),
            { c.kind != ChangeKind::Unchanged })
    }

    /// Keeps the changes that have an annotation with the given key.
    pub fn filter_annotation(self, key: &str) -> (r: DiffPipeline<'a>)
        ensures
            r.selected() == filtered(self.selected(), |c: ChangeView| has_annotation_key(c, key@)),
    {
        self.keep_where(Ghost(|c: ChangeView| has_annotation_key(c, key@)), |c: &Change| -> (b: bool)
            ensures
                b == has_annotation_key(c@, key@),
            { annotated_with(c, key) })
    }

    /// Keeps the changes for which `predicate` holds: the kept ones are those
    /// whose call of `predicate` returned `true`, in order.
    pub fn filter<F>(self, predicate: F) -> (r: DiffPipeline<'a>)
        where
            F: Fn(&&Change) -> bool,
        requires
            forall|c: &&Change| #[trigger] predicate.requires((c,)),
        ensures
            exists|mask: Seq<bool>| mask.len() == self.selected().len()
                && r.selected() == masked(self.selected(), mask)
                && forall|i: int| 0 <= i < mask.len() ==> predicate.ensures((&self.selected_refs()[i],), #[trigger] mask[i]),
    {
        let ghost s = self.selected();
        let mut kept: Vec<&'a Change> = Vec::new();
        let ghost mut mask: Seq<bool> = Seq::empty();
        let mut i: usize = 0;
        while i < self.changes.len()
            invariant
                i <= self.changes.len(),
                s == refs_view(self.changes@),
                s.len() == self.changes@.len(),
                forall|c: &&Change| #[trigger] predicate.requires((c,)),
                mask.len() == i,
                refs_view(kept@) == masked(s.take(i as int), mask),
                forall|k: int| 0 <= k < i ==> predicate.ensures((&self.changes@[k],), #[trigger] mask[k]),
            decreases self.changes.len() - i,
        {
            proof {
                assert(s.take(i + 1).drop_last() =~= s.take(i as int));
                assert(s[i as int] == self.changes@[i as int]@);
            }
            let c = self.changes[i];
            let ghost before = refs_view(kept@);
            let keep = predicate(&c);
            if keep {
                kept.push(c);
                assert(refs_view(kept@) =~= before.push(c@));
            }
            proof {
                assert(mask.push(keep).drop_last() =~= mask);
                mask = mask.push(keep);
            }
            assert(refs_view(kept@) =~= masked(s.take(i + 1), mask));
            i = i + 1;
        }
        assert(s.take(i as int) =~= s);
        DiffPipeline { changes: kept }
    }

    /// Each selected change passed through `f`.
    pub fn map_values<F>(self, f: F) -> (r: Vec<Change>)
        where
            F: Fn(&Change) -> Change,
        requires
            forall|c: &Change| #[trigger] f.requires((c,)),
        ensures
            r@.len() == self.selected().len(),
            forall|i: int| 0 <= i < r@.len() ==> f.ensures((self.selected_refs()[i],), #[trigger] r@[i]),
    {
        let mut out: Vec<Change> = Vec::new();
        let mut i: usize = 0;
        while i < self.changes.len()
            invariant
                i <= self.changes.len(),
                self.selected().len() == self.changes@.len(),
                forall|c: &Change| #[trigger] f.requires((c,)),
                out@.len() == i,
                forall|k: int| 0 <= k < i ==> f.ensures((self.changes@[k],), #[trigger] out@[k]),
            decreases self.changes.len() - i,
        {
            let c = self.changes[i];
            let x = f(c);
            out.push(x);
            i = i + 1;
        }
        out
    }

    /// The selected changes.
    pub fn collect(self) -> (r: Vec<&'a Change>)
        ensures
            refs_view(r@) == self.selected(),
    {
        self.changes
    }

    /// The number of selected changes.
    pub fn count(self) -> (r: usize)
        ensures
            r == self.selected().len(),
    {
        self.changes.len()
    }

    /// Whether no change is selected.
    pub fn is_empty(&self) -> (r: bool)
        ensures
            r == (self.selected().len() == 0),
    {
        self.changes.len() == 0
    }

    /// The first selected change.
    pub fn first(self) -> (r: Option<&'a Change>)
        ensures
            self.selected().len() == 0 ==> r is None,
            self.selected().len() > 0 ==> (r matches Some(c) && c@ == self.selected()[0]),
    {
        if self.changes.len() == 0 {
            None
        } else {
            Some(self.changes[0])
        }
    }

    /// The selected changes, one by one.
    pub fn into_iter(self) -> (r: std::vec::IntoIter<&'a Change>)
        ensures
            into_iter_elts(r) == self.selected_refs(),
    {
        proof {
            broadcast use vstd::std_specs::vec::axiom_spec_into_iter;
        }
        self.changes.into_iter()
    }
}

impl DiffResult {
    /// A pipeline over this result's changes.
    pub fn pipeline(&self) -> (r: DiffPipeline<'_>)
        ensures
            r.selected() == self@.changes,
    {
        let p = DiffPipeline::new(self.changes.as_slice());
        assert(p.selected() =~= self@.changes);
        p
    }
}


/// A pattern that starts with `**` matches the parts exactly when the rest
/// of the pattern matches what is left after skipping some number of leading
/// parts, none or all included: `**` stands for any depth.
pub proof fn law_double_star_skips_any_depth(segs: Seq<PatternView>, parts: Seq<Seq<char>>)
    ensures
        glob_match(seq![PatternView::DoubleStar] + segs, parts) <==> exists|k: int|
            0 <= k <= parts.len() && #[trigger] glob_match(segs, parts.skip(k)),
    decreases parts.len(),
{
    let ds = seq![PatternView::DoubleStar] + segs;
    assert(ds[0] is DoubleStar);
    assert(ds.drop_first() =~= segs);
    assert(parts.skip(0) =~= parts);
    assert(glob_match(ds, parts) == (glob_match(segs, parts) || (parts.len() > 0 && glob_match(ds, parts.drop_first()))));
    if glob_match(segs, parts) {
        assert(glob_match(segs, parts.skip(0)));
    }
    if parts.len() > 0 {
        let rest = parts.drop_first();
        law_double_star_skips_any_depth(segs, rest);
        if glob_match(ds, rest) {
            let k = choose|k: int| 0 <= k <= rest.len() && #[trigger] glob_match(segs, rest.skip(k));
            assert(rest.skip(k) =~= parts.skip(k + 1));
            assert(glob_match(segs, parts.skip(k + 1)));
        }
        if exists|k: int| 0 <= k <= parts.len() && #[trigger] glob_match(segs, parts.skip(k)) {
            let k = choose|k: int| 0 <= k <= parts.len() && #[trigger] glob_match(segs, parts.skip(k));
            if k > 0 {
                assert(rest.skip(k - 1) =~= parts.skip(k));
                assert(glob_match(segs, rest.skip(k - 1)));
            }
        }
    } else {
        if exists|k: int| 0 <= k <= parts.len() && #[trigger] glob_match(segs, parts.skip(k)) {
            let k = choose|k: int| 0 <= k <= parts.len() && #[trigger] glob_match(segs, parts.skip(k));
            assert(k == 0);
        }
    }
}

/// `**` followed by a key matches that key at any depth: `**.host` matches
/// `host`, `db.host` and `config.database.host`.
pub proof fn law_double_star_then_key_at_any_depth(prefix: Seq<Seq<char>>, key: Seq<char>)
    ensures
        glob_match(seq![PatternView::DoubleStar, PatternView::Literal(key)], prefix.push(key)),
{
    let segs = seq![PatternView::Literal(key)];
    let parts = prefix.push(key);
    assert(seq![PatternView::DoubleStar] + segs =~= seq![PatternView::DoubleStar, PatternView::Literal(key)]);
    let tail = parts.skip(prefix.len() as int);
    assert(tail =~= seq![key]);
    assert(segs[0] == PatternView::Literal(key));
    assert(tail[0] == key);
    assert(segs.drop_first() =~= Seq::<PatternView>::empty());
    assert(tail.drop_first() =~= Seq::<Seq<char>>::empty());
    assert(glob_match(Seq::<PatternView>::empty(), Seq::<Seq<char>>::empty()));
    assert(glob_match(segs, tail));
    law_double_star_skips_any_depth(segs, parts);
}

} // verus!
