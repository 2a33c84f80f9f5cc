//! Semantic metadata attached to changes, and the built-in annotators.
use vstd::prelude::*;
use vstd::string::*;
use vstd::slice::SliceAdditionalExecFns;

use crate::result::{annotations_view, changes_view, Change, ChangeView};
use crate::text::{
    contains_seq, contains_str, copy_string, count_char, count_char_exec, decimal,
    decimal_string, has_prefix, starts_with, str_eq, to_lowercase, unicode_lowercase,
};

verus! {

/// How serious a change is.
#[derive(Debug, Clone, Copy, PartialEq, Eq, Structural)]
pub enum Severity {
    Info,
    Warning,
    Critical,
}

/// The value of an annotation.
#[derive(Debug, Clone, PartialEq, Eq)]
pub enum AnnotationValue {
    Tag(String),
    Severity(Severity),
    Category(String),
}

/// A key with a value, attached to a change.
#[derive(Debug, Clone, PartialEq, Eq)]
pub struct Annotation {
    pub key: String,
    pub value: AnnotationValue,
}

/// The mathematical content of an [`AnnotationValue`].
pub enum AnnotationValueView {
    Tag(Seq<char>),
    Severity(Severity),
    Category(Seq<char>),
}

/// The mathematical content of an [`Annotation`].
pub struct AnnotationView {
    pub key: Seq<char>,
    pub value: AnnotationValueView,
}

impl View for AnnotationValue {
    type V = AnnotationValueView;

    open spec fn view(&self) -> AnnotationValueView {
        match self {
            AnnotationValue::Tag(s) => AnnotationValueView::Tag(s@),
            AnnotationValue::Severity(s) => AnnotationValueView::Severity(*s),
            AnnotationValue::Category(s) => AnnotationValueView::Category(s@),
        }
    }
}

impl View for Annotation {
    type V = AnnotationView;

    open spec fn view(&self) -> AnnotationView {
        AnnotationView { key: self.key@, value: self.value@ }
    }
}

impl AnnotationValue {
    /// A copy of this value.
    pub fn duplicate(&self) -> (r: AnnotationValue)
        ensures
            r@ == self@,
    {
        match self {
            AnnotationValue::Tag(s) => AnnotationValue::Tag(copy_string(s)),
            AnnotationValue::Severity(s) => AnnotationValue::Severity(*s),
            AnnotationValue::Category(s) => AnnotationValue::Category(copy_string(s)),
        }
    }
}

impl Annotation {
    /// A copy of this annotation.
    pub fn duplicate(&self) -> (r: Annotation)
        ensures
            r@ == self@,
    {
        Annotation { key: copy_string(&self.key), value: self.value.duplicate() }
    }
}

/// Something that attaches annotations to a change.
pub trait Annotator {
    /// The annotations this annotator gives a change.
    spec fn annotation_result(&self, change: ChangeView) -> Seq<AnnotationView>;

    /// The annotations for `change` (see [`Annotator::annotation_result`]).
    fn annotate(&self, change: &Change) -> (r: Vec<Annotation>)
        ensures
            annotations_view(r@) == self.annotation_result(change@);
}

/// The tree-sitter node types that [`AstNodeAnnotator`] recognises.
pub open spec fn ast_node_types() -> Seq<Seq<char>> {
    seq![
        "function_definition"@, "function_item"@, "function_declaration"@, "method_definition"@,
        "method_declaration"@, "class_definition"@, "class_declaration"@, "struct_item"@,
        "enum_item"@, "impl_item"@, "trait_item"@, "interface_declaration"@, "comment"@,
        "line_comment"@, "block_comment"@, "import_statement"@, "use_declaration"@,
        "variable_declaration"@, "let_declaration"@, "const_item"@, "type_alias"@,
    ]
}

/// The annotations of [`AstNodeAnnotator`]: one `ast_node` tag when the path
/// is exactly one of the known node types.
pub open spec fn ast_node_annotations(path: Option<Seq<char>>) -> Seq<AnnotationView> {
    match path {
        Some(p) => if ast_node_types().contains(p) {
            seq![AnnotationView { key: "ast_node"@, value: AnnotationValueView::Tag(p) }]
        } else {
            Seq::empty()
        },
        None => Seq::empty(),
    }
}

/// Tags changes with their tree-sitter node type (held in the `path` of code changes).
pub struct AstNodeAnnotator;

fn ast_node_type_at(i: usize) -> (r: &'static str)
    requires
        i < 21,
    ensures
        r@ == ast_node_types()[i as int],
{
    if i == 0 { "function_definition" }
    else if i == 1 { "function_item" }
    else if i == 2 { "function_declaration" }
    else if i == 3 { "method_definition" }
    else if i == 4 { "method_declaration" }
    else if i == 5 { "class_definition" }
    else if i == 6 { "class_declaration" }
    else if i == 7 { "struct_item" }
    else if i == 8 { "enum_item" }
    else if i == 9 { "impl_item" }
    else if i == 10 { "trait_item" }
    else if i == 11 { "interface_declaration" }
    else if i == 12 { "comment" }
    else if i == 13 { "line_comment" }
    else if i == 14 { "block_comment" }
    else if i == 15 { "import_statement" }
    else if i == 16 { "use_declaration" }
    else if i == 17 { "variable_declaration" }
    else if i == 18 { "let_declaration" }
    else if i == 19 { "const_item" }
    else { "type_alias" }
}

impl Annotator for AstNodeAnnotator {
    open spec fn annotation_result(&self, change: ChangeView) -> Seq<AnnotationView> {
        ast_node_annotations(change.path)
    }

    fn annotate(&self, change: &Change) -> (r: Vec<Annotation>)
        ensures
            annotations_view(r@) == ast_node_annotations(change@.path),
    {
        let mut r: Vec<Annotation> = Vec::new();
        match &change.path {
            None => {
                assert(annotations_view(r@) =~= Seq::<AnnotationView>::empty());
            },
            Some(path) => {
                let mut i: usize = 0;
                while i < 21
                    invariant
                        i <= 21,
                        r@.len() == 0,
                        change@.path == Some(path@),
                        forall|k: int| 0 <= k < i ==> ast_node_types()[k] != path@,
                    decreases 21 - i,
                {
                    let t = ast_node_type_at(i);
                    if str_eq(path.as_str(), t) {
                        r.push(Annotation {
                            key: String::from_str("ast_node"),
                            value: AnnotationValue::Tag(String::from_str(t)),
                        });
                        assert(ast_node_types().contains(path@));
                        assert(change@.path == Some(path@));
                        assert(ast_node_annotations(change@.path) == seq![AnnotationView { key: "ast_node"@, value: AnnotationValueView::Tag(path@) }]);
                        assert(r@.len() == 1);
                        assert(annotations_view(r@)[0].key == "ast_node"@);
                        assert(annotations_view(r@)[0].value == AnnotationValueView::Tag(path@));
                        assert(annotations_view(r@) =~= ast_node_annotations(change@.path));
                        return r;
                    }
                    i = i + 1;
                }
                assert(!ast_node_types().contains(path@));
                assert(annotations_view(r@) =~= Seq::<AnnotationView>::empty());
            },
        }
        r
    }
}

/// The patterns a [`SensitiveFieldAnnotator`] flags by default.
pub open spec fn default_sensitive_patterns() -> Seq<Seq<char>> {
    seq![
        "password"@, "passwd"@, "secret"@, "token"@, "api_key"@, "apikey"@, "api-key"@,
        "private_key"@, "private-key"@, "credential"@, "auth"@, "authorization"@, "session"@,
        "cookie"@, "jwt"@, "bearer"@, "client_secret"@,
    ]
}

fn default_pattern_at(i: usize) -> (r: &'static str)
    requires
        i < 17,
    ensures
        r@ == default_sensitive_patterns()[i as int],
{
    if i == 0 { "password" }
    else if i == 1 { "passwd" }
    else if i == 2 { "secret" }
    else if i == 3 { "token" }
    else if i == 4 { "api_key" }
    else if i == 5 { "apikey" }
    else if i == 6 { "api-key" }
    else if i == 7 { "private_key" }
    else if i == 8 { "private-key" }
    else if i == 9 { "credential" }
    else if i == 10 { "auth" }
    else if i == 11 { "authorization" }
    else if i == 12 { "session" }
    else if i == 13 { "cookie" }
    else if i == 14 { "jwt" }
    else if i == 15 { "bearer" }
    else { "client_secret" }
}

/// The index of the first pattern contained in `lower`, if any.
pub open spec fn first_contained(patterns: Seq<Seq<char>>, lower: Seq<char>) -> Option<int>
    decreases patterns.len(),
{
    if patterns.len() == 0 {
        None
    } else if contains_seq(lower, patterns[0]) {
        Some(0)
    } else {
        match first_contained(patterns.drop_first(), lower) {
            Some(i) => Some(i + 1),
            None => None,
        }
    }
}

/// The annotations of a [`SensitiveFieldAnnotator`] with `patterns`: for the
/// first pattern found in the lowercased path, a `sensitive` warning and a
/// `sensitive_field` tag naming the pattern.
pub open spec fn sensitive_annotations(patterns: Seq<Seq<char>>, path: Option<Seq<char>>) -> Seq<AnnotationView> {
    match path {
        Some(p) => match first_contained(patterns, unicode_lowercase(p)) {
            Some(i) => seq![
                AnnotationView { key: "sensitive"@, value: AnnotationValueView::Severity(Severity::Warning) },
                AnnotationView { key: "sensitive_field"@, value: AnnotationValueView::Tag(patterns[i]) },
            ],
            None => Seq::empty(),
        },
        None => Seq::empty(),
    }
}

/// Flags changes to fields whose names suggest sensitive data.
pub struct SensitiveFieldAnnotator {
    patterns: Vec<String>,
}

impl SensitiveFieldAnnotator {
    /// The patterns this annotator looks for.
    pub closed spec fn pattern_views(&self) -> Seq<Seq<char>> {
        self.patterns@.map_values(|s: String| s@)
    }

    /// An annotator looking for `patterns` only.
    pub fn new(patterns: Vec<String>) -> (r: Self)
        ensures
            r.pattern_views() == patterns@.map_values(|s: String| s@),
    {
        SensitiveFieldAnnotator { patterns }
    }

    /// An annotator looking for the default patterns.
    pub fn with_default_patterns() -> (r: Self)
        ensures
            r.pattern_views() == default_sensitive_patterns(),
    {
        let mut patterns: Vec<String> = Vec::new();
        let mut i: usize = 0;
        while i < 17
            invariant
                i <= 17,
                patterns@.len() == i,
                forall|k: int| 0 <= k < i ==> #[trigger] patterns@[k]@ == default_sensitive_patterns()[k],
            decreases 17 - i,
        {
            patterns.push(String::from_str(default_pattern_at(i)));
            i = i + 1;
        }
        assert(patterns@.map_values(|s: String| s@) =~= default_sensitive_patterns());
        SensitiveFieldAnnotator { patterns }
    }
}

impl Default for SensitiveFieldAnnotator {
    fn default() -> (r: Self)
        ensures
            r.pattern_views() == default_sensitive_patterns(),
    {
        Self::with_default_patterns()
    }
}

proof fn lemma_first_contained_step(patterns: Seq<Seq<char>>, lower: Seq<char>, i: int)
    requires
        0 <= i < patterns.len(),
        forall|k: int| 0 <= k < i ==> !contains_seq(lower, #[trigger] patterns[k]),
    ensures
        contains_seq(lower, patterns[i]) ==> first_contained(patterns, lower) == Some(i),
    decreases i,
{
    if i > 0 {
        let rest = patterns.drop_first();
        assert forall|k: int| 0 <= k < i - 1 implies !contains_seq(lower, #[trigger] rest[k]) by {
            assert(rest[k] == patterns[k + 1]);
        }
        lemma_first_contained_step(rest, lower, i - 1);
        assert(!contains_seq(lower, patterns[0]));
    }
}

impl Annotator for SensitiveFieldAnnotator {
    open spec fn annotation_result(&self, change: ChangeView) -> Seq<AnnotationView> {
        sensitive_annotations(self.pattern_views(), change.path)
    }

    fn annotate(&self, change: &Change) -> (r: Vec<Annotation>)
        ensures
            annotations_view(r@) == sensitive_annotations(self.pattern_views(), change@.path),
    {
        let mut r: Vec<Annotation> = Vec::new();
        match &change.path {
            None => {
                assert(annotations_view(r@) =~= Seq::<AnnotationView>::empty());
            },
            Some(path) => {
                let lower = to_lowercase(path.as_str());
                let ghost pats = self.pattern_views();
                let mut i: usize = 0;
                while i < self.patterns.len()
                    invariant
                        i <= self.patterns.len(),
                        r@.len() == 0,
                        change@.path == Some(path@),
                        lower@ == unicode_lowercase(path@),
                        pats == self.pattern_views(),
                        pats.len() == self.patterns@.len(),
                        forall|k: int| 0 <= k < i ==> !contains_seq(lower@, #[trigger] pats[k]),
                    decreases self.patterns.len() - i,
                {
                    assert(pats[i as int] == self.patterns@[i as int]@);
                    if contains_str(lower.as_str(), self.patterns[i].as_str()) {
                        proof { lemma_first_contained_step(pats, lower@, i as int); }
                        r.push(Annotation {
                            key: String::from_str("sensitive"),
                            value: AnnotationValue::Severity(Severity::Warning),
                        });
                        r.push(Annotation {
                            key: String::from_str("sensitive_field"),
                            value: AnnotationValue::Tag(copy_string(&self.patterns[i])),
                        });
                        assert(annotations_view(r@) =~= sensitive_annotations(pats, change@.path));
                        return r;
                    }
                    i = i + 1;
                }
                proof {
                    lemma_first_contained_none(pats, lower@);
                }
                assert(annotations_view(r@) =~= Seq::<AnnotationView>::empty());
            },
        }
        r
    }
}

proof fn lemma_first_contained_none(patterns: Seq<Seq<char>>, lower: Seq<char>)
    requires
        forall|k: int| 0 <= k < patterns.len() ==> !contains_seq(lower, #[trigger] patterns[k]),
    ensures
        first_contained(patterns, lower) is None,
    decreases patterns.len(),
{
    if patterns.len() > 0 {
        let rest = patterns.drop_first();
        assert forall|k: int| 0 <= k < rest.len() implies !contains_seq(lower, #[trigger] rest[k]) by {
            assert(rest[k] == patterns[k + 1]);
        }
        lemma_first_contained_none(rest, lower);
        assert(!contains_seq(lower, patterns[0]));
    }
}

/// A stored value that begins with `{` or `[` (a JSON object or array).
pub open spec fn is_branch_value(v: Option<Seq<char>>) -> bool {
    match v {
        Some(s) => has_prefix(s, "{"@) || has_prefix(s, "["@),
        None => false,
    }
}

/// One more than the number of `.` and `[` in `p` (held at `usize::MAX`).
pub open spec fn path_depth(p: Seq<char>) -> nat {
    let n = count_char(p, '.') + count_char(p, '[');
    if n < usize::MAX { n + 1 } else { usize::MAX as nat }
}

/// The `depth` annotation for a path.
pub open spec fn depth_annotation(p: Seq<char>) -> AnnotationView {
    AnnotationView { key: "depth"@, value: AnnotationValueView::Tag(decimal(path_depth(p))) }
}

/// The `node_type` annotation: `leaf` unless a value is a JSON object or array.
pub open spec fn node_type_annotation(c: ChangeView) -> AnnotationView {
    AnnotationView {
        key: "node_type"@,
        value: AnnotationValueView::Category(
            if !is_branch_value(c.old_value) && !is_branch_value(c.new_value) { "leaf"@ } else { "branch"@ },
        ),
    }
}

/// The annotations of [`PathDepthAnnotator`]: the depth (one more than the
/// number of `.` and `[` in the path) and `leaf` or `branch`.
pub open spec fn depth_annotations(c: ChangeView) -> Seq<AnnotationView> {
    match c.path {
        Some(p) => seq![depth_annotation(p), node_type_annotation(c)],
        None => Seq::empty(),
    }
}

/// Annotates changes with their path depth and whether they are leaf or branch nodes.
pub struct PathDepthAnnotator;

fn is_branch_text(v: &Option<String>) -> (r: bool)
    ensures
        r == is_branch_value(crate::text::opt_view(*v)),
{
    match v {
        Some(s) => starts_with(s.as_str(), "{") || starts_with(s.as_str(), "["),
        None => false,
    }
}

impl Annotator for PathDepthAnnotator {
    open spec fn annotation_result(&self, change: ChangeView) -> Seq<AnnotationView> {
        depth_annotations(change)
    }

    fn annotate(&self, change: &Change) -> (r: Vec<Annotation>)
        ensures
            annotations_view(r@) == depth_annotations(change@),
    {
        let mut r: Vec<Annotation> = Vec::new();
        match &change.path {
            None => {
                assert(annotations_view(r@) =~= Seq::<AnnotationView>::empty());
            },
            Some(path) => {
                let dots = count_char_exec(path.as_str(), '.');
                let brackets = count_char_exec(path.as_str(), '[');
                proof {
                    crate::text::lemma_count_char_bound(path@, '.');
                    crate::text::lemma_count_char_bound(path@, '[');
                }
                let depth = if dots < usize::MAX - brackets { dots + brackets + 1 } else { usize::MAX };
                let leaf = !is_branch_text(&change.old_value) && !is_branch_text(&change.new_value);
                r.push(Annotation {
                    key: String::from_str("depth"),
                    value: AnnotationValue::Tag(decimal_string(depth)),
                });
                let category = if leaf { String::from_str("leaf") } else { String::from_str("branch") };
                r.push(Annotation { key: String::from_str("node_type"), value: AnnotationValue::Category(category) });
                assert(change@.path == Some(path@));
                assert(depth as nat == path_depth(path@));
                assert(leaf == (!is_branch_value(change@.old_value) && !is_branch_value(change@.new_value)));
                assert(r@.len() == 2);
                assert(annotations_view(r@)[0] == depth_annotations(change@)[0]);
                assert(annotations_view(r@)[1] == depth_annotations(change@)[1]);
                assert(annotations_view(r@) =~= depth_annotations(change@));
            },
        }
        r
    }
}

/// A change with `extra` appended to its annotations.
pub open spec fn with_annotations(c: ChangeView, extra: Seq<AnnotationView>) -> ChangeView {
    ChangeView { annotations: c.annotations + extra, ..c }
}

/// A change after the first `n` annotators of `anns`, in order: each appends
/// what it gives for the change as annotated so far.
pub open spec fn annotated_by(c: ChangeView, anns: Seq<Box<dyn Annotator>>, n: nat) -> ChangeView
    decreases n,
{
    if n == 0 {
        c
    } else {
        let prev = annotated_by(c, anns, (n - 1) as nat);
        with_annotations(prev, anns[n - 1].annotation_result(prev))
    }
}

/// Every change after all the annotators of `anns`.
pub open spec fn annotated_all(cs: Seq<ChangeView>, anns: Seq<Box<dyn Annotator>>) -> Seq<ChangeView> {
    cs.map_values(|c: ChangeView| annotated_by(c, anns, anns.len()))
}

/// With no annotators, the changes stay as they are.
pub proof fn lemma_no_annotators(cs: Seq<ChangeView>, anns: Seq<Box<dyn Annotator>>)
    requires
        anns.len() == 0,
    ensures
        annotated_all(cs, anns) == cs,
{
    assert(annotated_all(cs, anns) =~= cs);
}

/// Applies every annotator to every change, change by change and annotator
/// by annotator, appending what each returns for the change as annotated so
/// far (see [`annotated_all`]).
pub fn annotate_changes(changes: &mut [Change], annotators: &[Box<dyn Annotator>])
    ensures
        changes_view(final(changes)@) == annotated_all(changes_view(old(changes)@), annotators@),
{
    let ghost before = changes_view(changes@);
    let ghost anns = annotators@;
    let mut i: usize = 0;
    while i < changes.len()
        invariant
            i <= changes.len(),
            anns == annotators@,
            changes@.len() == before.len(),
            before.len() == old(changes)@.len(),
            before == changes_view(old(changes)@),
            forall|k: int| i <= k < before.len() ==> #[trigger] changes@[k]@ == before[k],
            forall|k: int| 0 <= k < i ==> #[trigger] changes@[k]@ == annotated_by(before[k], anns, anns.len()),
        decreases changes.len() - i,
    {
        let mut c = changes[i].duplicate();
        let ghost orig = c@;
        let mut j: usize = 0;
        while j < annotators.len()
            invariant
                j <= annotators.len(),
                anns == annotators@,
                c@ == annotated_by(orig, anns, j as nat),
            decreases annotators.len() - j,
        {
            let ghost prev = c@;
            let found = annotators[j].annotate(&c);
            let ghost extra = annotations_view(found@);
            let mut k: usize = 0;
            while k < found.len()
                invariant
                    k <= found.len(),
                    extra == annotations_view(found@),
                    c@ == with_annotations(prev, extra.take(k as int)),
                decreases found.len() - k,
            {
                let ghost pa = c.annotations@;
                let a = found[k].duplicate();
                c.annotations.push(a);
                proof {
                    assert(annotations_view(c.annotations@) =~= annotations_view(pa).push(a@));
                    assert(extra.take(k + 1) =~= extra.take(k as int).push(found@[k as int]@));
                    assert(c@.annotations =~= prev.annotations + extra.take(k + 1));
                }
                k = k + 1;
            }
            proof {
                assert(extra.take(k as int) =~= extra);
            }
            j = j + 1;
        }
        changes.set(i, c);
        i = i + 1;
    }
    proof {
        assert(changes_view(changes@) =~= annotated_all(before, anns)) by {
            assert forall|k: int| 0 <= k < before.len() implies #[trigger] changes_view(changes@)[k] == annotated_all(before, anns)[k] by {}
        }
    }
}


proof fn lemma_first_contained(patterns: Seq<Seq<char>>, lower: Seq<char>)
    ensures
        first_contained(patterns, lower) matches Some(i) ==> 0 <= i < patterns.len() && contains_seq(lower, patterns[i])
            && forall|j: int| 0 <= j < i ==> !contains_seq(lower, #[trigger] patterns[j]),
        first_contained(patterns, lower) is None ==> forall|j: int|
            0 <= j < patterns.len() ==> !contains_seq(lower, #[trigger] patterns[j]),
    decreases patterns.len(),
{
    if patterns.len() > 0 && !contains_seq(lower, patterns[0]) {
        let t = patterns.drop_first();
        lemma_first_contained(t, lower);
        assert forall|j: int| 0 < j < patterns.len() implies #[trigger] patterns[j] == t[j - 1] by {}
    }
}

/// The sensitive-field annotations ignore letter case: two paths that
/// lowercase to the same text get the same annotations.
pub proof fn law_sensitive_ignores_case(patterns: Seq<Seq<char>>, a: Seq<char>, b: Seq<char>)
    requires
        unicode_lowercase(a) == unicode_lowercase(b),
    ensures
        sensitive_annotations(patterns, Some(a)) == sensitive_annotations(patterns, Some(b)),
{
}

/// A path is flagged exactly when its lowercased text holds one of the
/// patterns: then it gets a `sensitive` warning and a `sensitive_field` tag
/// naming the first such pattern; otherwise it gets nothing.
pub proof fn law_sensitive_flags_lowercased_matches(patterns: Seq<Seq<char>>, path: Seq<char>)
    ensures
        sensitive_annotations(patterns, Some(path)).len() > 0 <==> exists|i: int|
            0 <= i < patterns.len() && #[trigger] contains_seq(unicode_lowercase(path), patterns[i]),
        sensitive_annotations(patterns, Some(path)).len() == 0 || exists|i: int|
            0 <= i < patterns.len() && #[trigger] contains_seq(unicode_lowercase(path), patterns[i])
                && (forall|j: int| 0 <= j < i ==> !contains_seq(unicode_lowercase(path), #[trigger] patterns[j]))
                && sensitive_annotations(patterns, Some(path)) == seq![
                AnnotationView { key: "sensitive"@, value: AnnotationValueView::Severity(Severity::Warning) },
                AnnotationView { key: "sensitive_field"@, value: AnnotationValueView::Tag(patterns[i]) },
            ],
{
    let lower = unicode_lowercase(path);
    lemma_first_contained(patterns, lower);
    match first_contained(patterns, lower) {
        Some(i) => {
            assert(contains_seq(lower, patterns[i]));
        },
        None => {
            if exists|i: int| 0 <= i < patterns.len() && #[trigger] contains_seq(lower, patterns[i]) {
                let i = choose|i: int| 0 <= i < patterns.len() && #[trigger] contains_seq(lower, patterns[i]);
                assert(!contains_seq(lower, patterns[i]));
            }
        },
    }
}

} // verus!
