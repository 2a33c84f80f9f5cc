//! Structural and line-based diffing of text, JSON, TOML, YAML and source code.
use vstd::prelude::*;

pub mod annotations;
pub mod builder;
pub mod codec;
pub mod dir;
pub mod engine;
pub mod error;
pub mod format;
pub mod formats;
pub mod merge;
pub mod mutation;
pub mod options;
pub mod output;
pub mod patch;
pub mod path;
pub mod pipeline;
pub mod rebuild;
pub mod result;
pub mod semantic;
pub mod text;
pub mod value;

pub use annotations::{
    annotate_changes, Annotation, AnnotationValue, Annotator, AstNodeAnnotator, PathDepthAnnotator,
    SensitiveFieldAnnotator, Severity,
};
pub use builder::{Gudf, OutputKind};
pub use engine::DiffEngine;
pub use error::GudfError;
pub use format::{detect_format, Format, FormatKind};
pub use formats::cross::{diff_cross, CrossFormatKind};
pub use merge::{merge, merge_json, Conflict, MergeResult, MergeStrategy};
pub use mutation::{ContentSha, ExprDiffBuilder, LogEntry, MutationChain, MutationState};
pub use output::OutputFormatter;
pub use patch::Patchable;
pub use pipeline::DiffPipeline;
pub use result::{Change, ChangeKind, DiffResult, DiffStats, Location};
pub use semantic::{SemanticAnalyzer, SemanticOptions};

use crate::engine::{builtin_diff_ok, diff_builtin};
use crate::format::detect_spec;
use crate::formats::code::{code_diff_ok, CodeFormat};
use crate::formats::json::{json_text_diff_ok, JsonFormat};
use crate::formats::text::{text_diff_ok, TextFormat};
use crate::formats::toml::{toml_doc_json, TomlFormat};
use crate::formats::yaml::YamlFormat;
use crate::formats::json::parsed_diff_ok;
use crate::format::FormatKindView;
use crate::codec::serde_yaml_parse;
use crate::patch::{outcome_matches, patch_outcome};
use crate::result::changes_view;

verus! {

/// Diffs two documents in the format guessed from the old one, as the
/// default engine does.
pub fn diff(old: &str, new: &str) -> (r: Result<DiffResult, GudfError>)
    ensures
        builtin_diff_ok(detect_spec(old@), old@, new@, r),
{
    let kind = detect_format(old);
    diff_builtin(&kind, old, new)
}

/// Diffs two documents line by line.
pub fn diff_text(old: &str, new: &str) -> (r: Result<DiffResult, GudfError>)
    ensures
        text_diff_ok(old@, new@, r),
{
    TextFormat.diff(old, new)
}

/// Diffs two JSON documents.
pub fn diff_json(old: &str, new: &str) -> (r: Result<DiffResult, GudfError>)
    ensures
        json_text_diff_ok(old@, new@, r, FormatKindView::Json),
{
    JsonFormat.diff(old, new)
}

/// Diffs two TOML documents.
pub fn diff_toml(old: &str, new: &str) -> (r: Result<DiffResult, GudfError>)
    ensures
        parsed_diff_ok(toml_doc_json(old@), toml_doc_json(new@), r, FormatKindView::Toml),
{
    TomlFormat.diff(old, new)
}

/// Diffs two YAML documents.
pub fn diff_yaml(old: &str, new: &str) -> (r: Result<DiffResult, GudfError>)
    ensures
        parsed_diff_ok(serde_yaml_parse(old@), serde_yaml_parse(new@), r, FormatKindView::Yaml),
{
    YamlFormat.diff(old, new)
}

/// Diffs two sources of the given language over their syntax trees.
pub fn diff_code(old: &str, new: &str, language: &str) -> (r: Result<DiffResult, GudfError>)
    ensures
        code_diff_ok(language@, old@, new@, r),
{
    CodeFormat::new(language).diff(old, new)
}

/// Applies changes to a document whose format is guessed from it.
pub fn patch(original: &str, changes: &[Change]) -> (r: Result<String, GudfError>)
    ensures
        outcome_matches(r, patch_outcome(detect_spec(original@), original@, changes_view(changes@))),
{
    patch::patch(original, changes)
}

/// Applies changes to a document of the given format.
pub fn patch_as(kind: FormatKind, original: &str, changes: &[Change]) -> (r: Result<String, GudfError>)
    ensures
        outcome_matches(r, patch_outcome(kind@, original@, changes_view(changes@))),
{
    patch::patch_as(kind, original, changes)
}

} // verus!
