//! A fluent builder that diffs two documents and renders the result.
use vstd::prelude::*;

use crate::annotations::{
    default_sensitive_patterns, sensitive_annotations, Annotation, AnnotationView, Annotator,
    SensitiveFieldAnnotator,
};
use crate::engine::{builtin_diff_ok, diff_builtin};
use crate::error::GudfError;
use crate::format::{detect_format, detect_spec, FormatKind, FormatKindView};
use crate::output::inline::InlineFormatter;
use crate::output::json::JsonFormatter;
use crate::output::json_patch::JsonPatchFormatter;
use crate::output::unified::{unified_rendering, UnifiedFormatter};
use crate::output::OutputFormatter;
use crate::result::{annotations_view, changes_view, ChangeView, DiffResult, DiffResultView};
use crate::semantic::{semantic_changes, SemanticAnalyzer, SemanticOptions};
use crate::text::{opt_view, owned};

verus! {

/// How the builder renders its result.
#[derive(Debug, Clone, Copy, PartialEq, Eq, Structural)]
pub enum OutputKind {
    /// A git-style unified diff.
    Unified,
    /// One marked line per change.
    Inline,
    /// JSON operations with dot-notation paths.
    Json,
    /// A JSON Patch document.
    JsonPatch,
}

impl Default for OutputKind {
    /// A unified diff.
    fn default() -> (r: OutputKind)
        ensures
            r == OutputKind::Unified,
    {
        OutputKind::Unified
    }
}

/// A change with the sensitive-field annotations of the default patterns appended.
pub open spec fn with_sensitive(c: ChangeView) -> ChangeView {
    ChangeView {
        kind: c.kind,
        path: c.path,
        old_value: c.old_value,
        new_value: c.new_value,
        location: c.location,
        annotations: c.annotations + sensitive_annotations(default_sensitive_patterns(), c.path),
    }
}

/// A diff of two documents, configured step by step and then run.
pub struct Gudf<'a> {
    old: &'a str,
    new: &'a str,
    format: Option<FormatKind>,
    output: OutputKind,
    semantic: bool,
    semantic_options: Option<SemanticOptions>,
    annotate: bool,
    annotators: Vec<Box<dyn Annotator>>,
    context: usize,
    old_label: Option<String>,
    new_label: Option<String>,
}

/// The settings of a builder.
pub struct GudfView {
    pub old: Seq<char>,
    pub new: Seq<char>,
    pub format: Option<FormatKindView>,
    pub output: OutputKind,
    pub semantic: bool,
    pub semantic_options: Option<SemanticOptions>,
    pub annotate: bool,
    pub context: usize,
    pub old_label: Option<Seq<char>>,
    pub new_label: Option<Seq<char>>,
}

/// The format a builder diffs with: the one it was given, else the one guessed from the old document.
pub open spec fn builder_kind(v: GudfView) -> FormatKindView {
    match v.format {
        Some(k) => k,
        None => detect_spec(v.old),
    }
}

/// The options of the semantic pass: those given, else both detections on.
pub open spec fn builder_options(v: GudfView) -> SemanticOptions {
    match v.semantic_options {
        Some(o) => o,
        None => SemanticOptions { move_detection: true, rename_detection: true },
    }
}

/// The changes of a raw diff after the builder's steps: annotated with the
/// sensitive-field patterns when asked, then through the semantic pass when asked.
pub open spec fn builder_changes(v: GudfView, raw: Seq<ChangeView>) -> Seq<ChangeView> {
    let annotated = if v.annotate { raw.map_values(|c: ChangeView| with_sensitive(c)) } else { raw };
    if v.semantic { semantic_changes(annotated, builder_options(v)) } else { annotated }
}

/// What running the builder's diff gives: the default engine's diff in the
/// builder's format, then its steps (see [`builder_changes`]).
pub open spec fn execute_ok(v: GudfView, r: Result<DiffResult, GudfError>) -> bool {
    exists|raw: Result<DiffResult, GudfError>| #[trigger] builtin_diff_ok(builder_kind(v), v.old, v.new, raw) && match raw {
        Err(e) => r == Err::<DiffResult, GudfError>(e),
        Ok(d) => r matches Ok(x) && x@.format == d@.format && x@.changes == builder_changes(v, d@.changes),
    }
}

/// The text a result is rendered as in the builder's output kind.
pub open spec fn builder_rendering(v: GudfView, r: DiffResultView) -> Seq<char> {
    match v.output {
        OutputKind::Unified => unified_rendering(
            match v.old_label { Some(l) => l, None => "old"@ },
            match v.new_label { Some(l) => l, None => "new"@ },
            v.context,
            r.changes,
        ),
        OutputKind::Inline => InlineFormatter.rendering(r),
        OutputKind::Json => JsonFormatter.rendering(r),
        OutputKind::JsonPatch => JsonPatchFormatter.rendering(r),
    }
}

impl<'a> Gudf<'a> {
    /// The settings of this builder.
    pub closed spec fn settings(&self) -> GudfView {
        GudfView {
            old: self.old@,
            new: self.new@,
            format: match self.format { Some(k) => Some(k@), None => None },
            output: self.output,
            semantic: self.semantic,
            semantic_options: self.semantic_options,
            annotate: self.annotate,
            context: self.context,
            old_label: opt_view(self.old_label),
            new_label: opt_view(self.new_label),
        }
    }

    /// A diff of `old` and `new`: format guessed, unified output with three
    /// lines of context, no semantic pass, no annotations.
    pub fn diff(old: &'a str, new: &'a str) -> (r: Gudf<'a>)
        ensures
            r.settings() == (GudfView {
                old: old@,
                new: new@,
                format: None,
                output: OutputKind::Unified,
                semantic: false,
                semantic_options: None,
                annotate: false,
                context: 3,
                old_label: None,
                new_label: None,
            }),
    {
        Gudf {
            old,
            new,
            format: None,
            output: OutputKind::Unified,
            semantic: false,
            semantic_options: None,
            annotate: false,
            annotators: Vec::new(),
            context: 3,
            old_label: None,
            new_label: None,
        }
    }

    /// The same diff in the given format.
    pub fn format(self, kind: FormatKind) -> (r: Gudf<'a>)
        ensures
            r.settings() == (GudfView { format: Some(kind@), ..self.settings() }),
    {
        Gudf { format: Some(kind), ..self }
    }

    /// The same diff rendered as `kind`.
    pub fn output(self, kind: OutputKind) -> (r: Gudf<'a>)
        ensures
            r.settings() == (GudfView { output: kind, ..self.settings() }),
    {
        Gudf { output: kind, ..self }
    }

    /// The same diff with the semantic pass on or off.
    pub fn semantic(self, enabled: bool) -> (r: Gudf<'a>)
        ensures
            r.settings() == (GudfView { semantic: enabled, ..self.settings() }),
    {
        Gudf { semantic: enabled, ..self }
    }

    /// The same diff with the semantic pass on, with these options.
    pub fn semantic_options(self, options: SemanticOptions) -> (r: Gudf<'a>)
        ensures
            r.settings() == (GudfView { semantic: true, semantic_options: Some(options), ..self.settings() }),
    {
        Gudf { semantic: true, semantic_options: Some(options), ..self }
    }

    /// The same diff with the sensitive-field annotations on or off.
    pub fn annotate(self, enabled: bool) -> (r: Gudf<'a>)
        ensures
            r.settings() == (GudfView { annotate: enabled, ..self.settings() }),
    {
        Gudf { annotate: enabled, ..self }
    }

    /// The same diff with one more annotator kept with it; running the diff
    /// does not apply the annotators kept this way.
    pub fn add_annotator(self, annotator: Box<dyn Annotator>) -> (r: Gudf<'a>)
        ensures
            r.settings() == self.settings(),
    {
        let mut s = self;
        s.annotators.push(annotator);
        s
    }

    /// The same diff with `lines` lines of context in unified output.
    pub fn context(self, lines: usize) -> (r: Gudf<'a>)
        ensures
            r.settings() == (GudfView { context: lines, ..self.settings() }),
    {
        Gudf { context: lines, ..self }
    }

    /// The same diff with these names in the unified header.
    pub fn labels(self, old: &str, new: &str) -> (r: Gudf<'a>)
        ensures
            r.settings() == (GudfView { old_label: Some(old@), new_label: Some(new@), ..self.settings() }),
    {
        Gudf { old_label: Some(owned(old)), new_label: Some(owned(new)), ..self }
    }

    /// Runs the diff (see [`execute_ok`]).
    pub fn execute(&self) -> (r: Result<DiffResult, GudfError>)
        ensures
            execute_ok(self.settings(), r),
    {
        let kind = match &self.format {
            Some(k) => k.duplicate(),
            None => detect_format(self.old),
        };
        let raw = diff_builtin(&kind, self.old, self.new);
        let ghost rv = raw;
        let d = match raw {
            Ok(d) => d,
            Err(e) => {
                assert(builtin_diff_ok(builder_kind(self.settings()), self.settings().old, self.settings().new, rv));
                return Err(e);
            },
        };
        let ghost dv = d@;
        let DiffResult { changes, format, stats } = d;
        let mut changes = changes;
        if self.annotate {
            let annotator = SensitiveFieldAnnotator::default();
            let mut annotated: Vec<crate::result::Change> = Vec::new();
            let mut i: usize = 0;
            while i < changes.len()
                invariant
                    i <= changes.len(),
                    changes_view(changes@) == dv.changes,
                    annotator.pattern_views() == default_sensitive_patterns(),
                    annotated@.len() == i,
                    forall|k: int| 0 <= k < i ==> (#[trigger] annotated@[k])@ == with_sensitive(dv.changes[k]),
                decreases changes.len() - i,
            {
                let mut c = changes[i].duplicate();
                let extra = annotator.annotate(&c);
                let ghost before = c@;
                let mut j: usize = 0;
                while j < extra.len()
                    invariant
                        j <= extra.len(),
                        c@.kind == before.kind && c@.path == before.path && c@.old_value == before.old_value
                            && c@.new_value == before.new_value && c@.location == before.location,
                        c@.annotations == before.annotations + annotations_view(extra@).take(j as int),
                    decreases extra.len() - j,
                {
                    let ghost prev = c.annotations@;
                    let a = extra[j].duplicate();
                    c.annotations.push(a);
                    assert(annotations_view(c.annotations@) =~= annotations_view(prev).push(a@));
                    assert(annotations_view(extra@).take(j + 1) =~= annotations_view(extra@).take(j as int).push(extra@[j as int]@));
                    j = j + 1;
                }
                assert(annotations_view(extra@).take(j as int) =~= annotations_view(extra@));
                assert(dv.changes[i as int] == changes@[i as int]@);
                annotated.push(c);
                i = i + 1;
            }
            assert(changes_view(annotated@) =~= dv.changes.map_values(|c: ChangeView| with_sensitive(c)));
            changes = annotated;
        }
        let result = DiffResult { changes, format, stats };
        let out = if self.semantic {
            let options = match self.semantic_options {
                Some(o) => o,
                None => SemanticOptions::default(),
            };
            SemanticAnalyzer::new(options).analyze(result)
        } else {
            result
        };
        assert(builtin_diff_ok(builder_kind(self.settings()), self.settings().old, self.settings().new, rv));
        Ok(out)
    }

    fn format_output(&self, result: &DiffResult) -> (r: String)
        ensures
            r@ == builder_rendering(self.settings(), result@),
    {
        match self.output {
            OutputKind::Unified => {
                proof {
                    reveal_strlit("old");
                    reveal_strlit("new");
                }
                let old_label = match &self.old_label {
                    Some(l) => l.as_str(),
                    None => "old",
                };
                let new_label = match &self.new_label {
                    Some(l) => l.as_str(),
                    None => "new",
                };
                UnifiedFormatter::new(old_label, new_label).context(self.context).format(result)
            },
            OutputKind::Inline => InlineFormatter.format(result),
            OutputKind::Json => JsonFormatter.format(result),
            OutputKind::JsonPatch => JsonPatchFormatter.format(result),
        }
    }

    /// Runs the diff and renders the result in the builder's output kind.
    pub fn run(self) -> (r: Result<String, GudfError>)
        ensures
            exists|d: Result<DiffResult, GudfError>| #[trigger] execute_ok(self.settings(), d) && match d {
                Ok(x) => r matches Ok(s) && s@ == builder_rendering(self.settings(), x@),
                Err(e) => r == Err::<String, GudfError>(e),
            },
    {
        let result = self.execute();
        let ghost rv = result;
        match result {
            Ok(x) => {
                let s = self.format_output(&x);
                assert(execute_ok(self.settings(), rv));
                Ok(s)
            },
            Err(e) => {
                assert(execute_ok(self.settings(), rv));
                Err(e)
            },
        }
    }
}

} // verus!
