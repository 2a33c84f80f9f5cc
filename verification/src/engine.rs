//! The diff engine: a set of formats, annotators and an optional semantic pass.
use vstd::prelude::*;

use crate::annotations::{annotate_changes, annotated_all, Annotator};
use crate::error::GudfError;
use crate::format::{detect_format, detect_spec, Format, FormatKind, FormatKindView};
use crate::formats::code::{code_diff_ok, CodeFormat};
use crate::formats::cross::{cross_parse, diff_cross, CrossFormatKind};
use crate::formats::json::{json_text_diff_ok, parsed_diff_ok, JsonFormat};
use crate::formats::text::{text_diff_ok, TextFormat};
use crate::formats::toml::{toml_doc_json, TomlFormat};
use crate::formats::yaml::YamlFormat;
use crate::codec::serde_yaml_parse;
use crate::result::{changes_view, DiffResult, DiffResultView};
use crate::semantic::{semantic_changes, SemanticAnalyzer, SemanticOptions};
use crate::text::{debug_str, owned, push_str, str_debug};

verus! {

/// What `Debug` prints for a format kind.
pub open spec fn kind_debug(k: FormatKindView) -> Seq<char> {
    match k {
        FormatKindView::Text => "Text"@,
        FormatKindView::Json => "Json"@,
        FormatKindView::Toml => "Toml"@,
        FormatKindView::Yaml => "Yaml"@,
        FormatKindView::Code(l) => "Code("@ + str_debug(l) + ")"@,
    }
}

/// Prints a format kind as `Debug` does.
pub fn kind_debug_text(kind: &FormatKind) -> (r: String)
    ensures
        r@ == kind_debug(kind@),
{
    match kind {
        FormatKind::Text => owned("Text"),
        FormatKind::Json => owned("Json"),
        FormatKind::Toml => owned("Toml"),
        FormatKind::Yaml => owned("Yaml"),
        FormatKind::Code(l) => {
            let mut s = owned("Code(");
            let d = debug_str(l.as_str());
            push_str(&mut s, d.as_str());
            push_str(&mut s, ")");
            s
        },
    }
}

/// What the default engine gives for a kind: the text, JSON, TOML or YAML
/// diff, and an unsupported-format error naming the kind for code.
pub open spec fn builtin_diff_ok(kind: FormatKindView, old: Seq<char>, new: Seq<char>, r: Result<DiffResult, GudfError>) -> bool {
    match kind {
        FormatKindView::Text => text_diff_ok(old, new, r),
        FormatKindView::Json => json_text_diff_ok(old, new, r, FormatKindView::Json),
        FormatKindView::Toml => parsed_diff_ok(toml_doc_json(old), toml_doc_json(new), r, FormatKindView::Toml),
        FormatKindView::Yaml => parsed_diff_ok(serde_yaml_parse(old), serde_yaml_parse(new), r, FormatKindView::Yaml),
        FormatKindView::Code(_) => r matches Err(GudfError::UnsupportedFormat(m)) && m@ == kind_debug(kind),
    }
}

/// Diffs two documents as the default engine does (see [`builtin_diff_ok`]).
pub fn diff_builtin(kind: &FormatKind, old: &str, new: &str) -> (r: Result<DiffResult, GudfError>)
    ensures
        builtin_diff_ok(kind@, old@, new@, r),
{
    match kind {
        FormatKind::Text => TextFormat.diff(old, new),
        FormatKind::Json => JsonFormat.diff(old, new),
        FormatKind::Toml => TomlFormat.diff(old, new),
        FormatKind::Yaml => YamlFormat.diff(old, new),
        FormatKind::Code(_) => Err(GudfError::UnsupportedFormat(kind_debug_text(kind))),
    }
}

/// Some format of `fs` has kind `k`.
pub open spec fn has_format(fs: Seq<Box<dyn Format>>, k: FormatKindView) -> bool {
    exists|i: int| 0 <= i < fs.len() && #[trigger] fs[i].format_kind() == k
}

/// What diffing with a format kind gives: a code format's own diff for
/// code (see [`code_diff_ok`]), the default engine's diff otherwise.
pub open spec fn kind_diff_ok(kind: FormatKindView, old: Seq<char>, new: Seq<char>, r: Result<DiffResult, GudfError>) -> bool {
    match kind {
        FormatKindView::Code(l) => code_diff_ok(l, old, new, r),
        _ => builtin_diff_ok(kind, old, new, r),
    }
}

/// Diffs two documents with a format kind (see [`kind_diff_ok`]).
pub fn diff_with_kind(kind: &FormatKind, old: &str, new: &str) -> (r: Result<DiffResult, GudfError>)
    ensures
        kind_diff_ok(kind@, old@, new@, r),
{
    match kind {
        FormatKind::Code(lang) => CodeFormat::new(lang.as_str()).diff(old, new),
        _ => diff_builtin(kind, old, new),
    }
}

/// Format `i` is the first of `fs` with kind `k`.
pub open spec fn is_first_format(fs: Seq<Box<dyn Format>>, k: FormatKindView, i: int) -> bool {
    &&& 0 <= i < fs.len()
    &&& fs[i].format_kind() == k
    &&& forall|j: int| 0 <= j < i ==> #[trigger] fs[j].format_kind() != k
}

/// `r` is `raw` after annotation: the same error, or the same result with
/// every change passed through the annotators `anns` in order (see
/// [`annotated_all`]).
pub open spec fn post_processed(raw: Result<DiffResult, GudfError>, r: Result<DiffResult, GudfError>, anns: Seq<Box<dyn Annotator>>) -> bool {
    match raw {
        Err(e) => r == Err::<DiffResult, GudfError>(e),
        Ok(d) => r matches Ok(x) && x@.format == d@.format && x.stats == d.stats
            && x@.changes == annotated_all(d@.changes, anns),
    }
}

/// Runs diffs through the registered formats, then annotators.
pub struct DiffEngine {
    formats: Vec<Box<dyn Format>>,
    standard: bool,
    annotators: Vec<Box<dyn Annotator>>,
    semantic: Option<SemanticAnalyzer>,
}

impl DiffEngine {
    /// The registered formats, in order.
    pub closed spec fn formats(&self) -> Seq<Box<dyn Format>> {
        self.formats@
    }

    /// The formats are the standard ones of [`DiffEngine::new`]: text, JSON,
    /// TOML and YAML, in that order.
    pub closed spec fn is_standard(&self) -> bool {
        self.standard
    }

    /// The registered annotators, in order.
    pub closed spec fn annotators(&self) -> Seq<Box<dyn Annotator>> {
        self.annotators@
    }

    /// The number of annotators.
    pub closed spec fn annotator_count(&self) -> nat {
        self.annotators@.len()
    }

    /// The options of the semantic pass, if one is set.
    pub closed spec fn semantic_options(&self) -> Option<SemanticOptions> {
        match self.semantic {
            Some(a) => Some(a.options()),
            None => None,
        }
    }

    /// An engine with the text, JSON, TOML and YAML formats, no annotators
    /// and no semantic pass.
    pub fn new() -> (r: DiffEngine)
        ensures
            r.is_standard(),
            r.annotator_count() == 0,
            r.semantic_options() is None,
    {
        let mut formats: Vec<Box<dyn Format>> = Vec::new();
        formats.push(Box::new(TextFormat));
        formats.push(Box::new(JsonFormat));
        formats.push(Box::new(TomlFormat));
        formats.push(Box::new(YamlFormat));
        DiffEngine { formats, standard: true, annotators: Vec::new(), semantic: None }
    }

    /// An engine with exactly the given formats.
    pub fn with_formats(formats: Vec<Box<dyn Format>>) -> (r: DiffEngine)
        ensures
            r.formats() == formats@,
            !r.is_standard(),
            r.annotator_count() == 0,
            r.semantic_options() is None,
    {
        DiffEngine { formats, standard: false, annotators: Vec::new(), semantic: None }
    }

    /// Adds a format after the registered ones.
    pub fn register(&mut self, format: Box<dyn Format>)
        ensures
            final(self).formats() == old(self).formats().push(format),
            !final(self).is_standard(),
            final(self).annotators() == old(self).annotators(),
            final(self).semantic_options() == old(self).semantic_options(),
    {
        self.formats.push(format);
        self.standard = false;
    }

    /// The same engine with the given annotators in place of its own.
    pub fn with_annotators(self, annotators: Vec<Box<dyn Annotator>>) -> (r: DiffEngine)
        ensures
            r.formats() == self.formats(),
            r.is_standard() == self.is_standard(),
            r.annotators() == annotators@,
            r.semantic_options() == self.semantic_options(),
    {
        DiffEngine { formats: self.formats, standard: self.standard, annotators, semantic: self.semantic }
    }

    /// Adds an annotator after the registered ones.
    pub fn add_annotator(&mut self, annotator: Box<dyn Annotator>)
        ensures
            final(self).formats() == old(self).formats(),
            final(self).is_standard() == old(self).is_standard(),
            final(self).annotators() == old(self).annotators().push(annotator),
            final(self).semantic_options() == old(self).semantic_options(),
    {
        self.annotators.push(annotator);
    }

    /// The same engine with a semantic pass.
    pub fn with_semantic(self, analyzer: SemanticAnalyzer) -> (r: DiffEngine)
        ensures
            r.formats() == self.formats(),
            r.is_standard() == self.is_standard(),
            r.annotators() == self.annotators(),
            r.semantic_options() == Some(analyzer.options()),
    {
        DiffEngine { formats: self.formats, standard: self.standard, annotators: self.annotators, semantic: Some(analyzer) }
    }

    fn post_process(&self, result: &mut DiffResult)
        ensures
            post_processed(Ok(*old(result)), Ok(*final(result)), self.annotators()),
    {
        annotate_changes(result.changes.as_mut_slice(), self.annotators.as_slice());
    }

    /// Diffs with the standard formats, which this engine holds, without
    /// looking them up, then annotates.
    fn diff_standard(&self, kind: &FormatKind, old: &str, new: &str) -> (r: Result<DiffResult, GudfError>)
        requires
            self.is_standard(),
        ensures
            exists|raw: Result<DiffResult, GudfError>|
                #[trigger] builtin_diff_ok(kind@, old@, new@, raw) && post_processed(raw, r, self.annotators()),
    {
        match diff_builtin(kind, old, new) {
            Ok(d) => {
                let ghost rv = Ok::<DiffResult, GudfError>(d);
                let mut result = d;
                self.post_process(&mut result);
                assert(builtin_diff_ok(kind@, old@, new@, rv));
                Ok(result)
            },
            Err(e) => {
                let ghost rv = Err::<DiffResult, GudfError>(e);
                assert(builtin_diff_ok(kind@, old@, new@, rv));
                Err(e)
            },
        }
    }

    /// Diffs with the first registered format of the given kind, then
    /// annotates; an unsupported-format error naming the kind when no format
    /// has it. An engine with the standard formats diffs as
    /// [`builtin_diff_ok`] says.
    pub fn diff_as(&self, kind: FormatKind, old: &str, new: &str) -> (r: Result<DiffResult, GudfError>)
        ensures
            self.is_standard() ==> exists|raw: Result<DiffResult, GudfError>|
                #[trigger] builtin_diff_ok(kind@, old@, new@, raw) && post_processed(raw, r, self.annotators()),
            !self.is_standard() && !has_format(self.formats(), kind@)
                ==> (r matches Err(GudfError::UnsupportedFormat(m)) && m@ == kind_debug(kind@)),
            !self.is_standard() ==> forall|i: int| is_first_format(self.formats(), kind@, i) ==> exists|raw: Result<DiffResult, GudfError>|
                #[trigger] self.formats()[i].diff_result(old@, new@, raw)
                && post_processed(raw, r, self.annotators()),
    {
        if self.standard {
            return self.diff_standard(&kind, old, new);
        }
        let mut i: usize = 0;
        while i < self.formats.len()
            invariant
                !self.standard,
                i <= self.formats.len(),
                forall|j: int| 0 <= j < i ==> self.formats@[j].format_kind() != kind@,
            decreases self.formats.len() - i,
        {
            let k = self.formats[i].kind();
            if k.same_as(&kind) {
                let raw = self.formats[i].diff(old, new);
                match raw {
                    Ok(d) => {
                        let ghost rv = Ok::<DiffResult, GudfError>(d);
                        let mut result = d;
                        self.post_process(&mut result);
                        assert(self.formats()[i as int].diff_result(old@, new@, rv));
                        assert(forall|j: int| is_first_format(self.formats(), kind@, j) ==> j == i);
                        return Ok(result);
                    },
                    Err(e) => {
                        let ghost rv = Err::<DiffResult, GudfError>(e);
                        assert(self.formats()[i as int].diff_result(old@, new@, rv));
                        assert(forall|j: int| is_first_format(self.formats(), kind@, j) ==> j == i);
                        return Err(e);
                    },
                }
            }
            i = i + 1;
        }
        Err(GudfError::UnsupportedFormat(kind_debug_text(&kind)))
    }

    /// Diffs with the format guessed from the old document (see [`DiffEngine::diff_as`]).
    pub fn diff(&self, old: &str, new: &str) -> (r: Result<DiffResult, GudfError>)
        ensures
            self.is_standard() ==> exists|raw: Result<DiffResult, GudfError>|
                #[trigger] builtin_diff_ok(detect_spec(old@), old@, new@, raw) && post_processed(raw, r, self.annotators()),
            !self.is_standard() && !has_format(self.formats(), detect_spec(old@))
                ==> (r matches Err(GudfError::UnsupportedFormat(m)) && m@ == kind_debug(detect_spec(old@))),
            !self.is_standard() ==> forall|i: int| is_first_format(self.formats(), detect_spec(old@), i) ==> exists|raw: Result<DiffResult, GudfError>|
                #[trigger] self.formats()[i].diff_result(old@, new@, raw)
                && post_processed(raw, r, self.annotators()),
    {
        let kind = detect_format(old);
        self.diff_as(kind, old, new)
    }

    /// Diffs documents of two formats through JSON, then annotates.
    pub fn diff_cross(&self, old: &str, old_kind: CrossFormatKind, new: &str, new_kind: CrossFormatKind) -> (r: Result<DiffResult, GudfError>)
        ensures
            exists|raw: Result<DiffResult, GudfError>|
                #[trigger] parsed_diff_ok(cross_parse(old_kind, old@), cross_parse(new_kind, new@), raw, FormatKindView::Json)
                && post_processed(raw, r, self.annotators()),
    {
        match diff_cross(old, old_kind, new, new_kind) {
            Ok(d) => {
                let ghost rv = Ok::<DiffResult, GudfError>(d);
                let mut result = d;
                self.post_process(&mut result);
                assert(parsed_diff_ok(cross_parse(old_kind, old@), cross_parse(new_kind, new@), rv, FormatKindView::Json));
                Ok(result)
            },
            Err(e) => {
                let ghost rv = Err::<DiffResult, GudfError>(e);
                assert(parsed_diff_ok(cross_parse(old_kind, old@), cross_parse(new_kind, new@), rv, FormatKindView::Json));
                Err(e)
            },
        }
    }

    /// The result after the semantic pass, when one is set; else unchanged.
    pub fn analyze_semantic(&self, result: DiffResult) -> (r: DiffResult)
        ensures
            match self.semantic_options() {
                Some(o) => r@.changes == semantic_changes(result@.changes, o) && r@.format == result@.format,
                None => r@ == result@,
            },
    {
        match &self.semantic {
            Some(analyzer) => analyzer.analyze(result),
            None => result,
        }
    }
}

impl Default for DiffEngine {
    /// The engine of [`DiffEngine::new`].
    fn default() -> (r: DiffEngine)
        ensures
            r.is_standard(),
            r.annotator_count() == 0,
            r.semantic_options() is None,
    {
        DiffEngine::new()
    }
}

} // verus!
