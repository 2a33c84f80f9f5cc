//! The choices a command line makes from its words: merge strategy, input
//! format, output kind, and when two files are diffed across formats.
use vstd::prelude::*;

use crate::builder::OutputKind;
use crate::format::{FormatKind, FormatKindView};
use crate::formats::cross::{kind_of_lower_extension, CrossFormatKind};
use crate::merge::MergeStrategy;
use crate::text::{str_eq, unicode_lowercase};

verus! {

/// The merge strategy a word names: `ours`, `theirs` or `manual`.
pub open spec fn strategy_of_name(name: Seq<char>) -> Option<MergeStrategy> {
    if name == "ours"@ {
        Some(MergeStrategy::Ours)
    } else if name == "theirs"@ {
        Some(MergeStrategy::Theirs)
    } else if name == "manual"@ {
        Some(MergeStrategy::Manual)
    } else {
        None
    }
}

/// The merge strategy named by `name` (see [`strategy_of_name`]).
pub fn strategy_named(name: &str) -> (r: Option<MergeStrategy>)
    ensures
        r == strategy_of_name(name@),
{
    proof {
        reveal_strlit("ours");
        reveal_strlit("theirs");
        reveal_strlit("manual");
    }
    if str_eq(name, "ours") {
        Some(MergeStrategy::Ours)
    } else if str_eq(name, "theirs") {
        Some(MergeStrategy::Theirs)
    } else if str_eq(name, "manual") {
        Some(MergeStrategy::Manual)
    } else {
        None
    }
}

/// The input format a word names: `text`, `json`, `toml` or `yaml`.
pub open spec fn format_of_name(name: Seq<char>) -> Option<FormatKindView> {
    if name == "text"@ {
        Some(FormatKindView::Text)
    } else if name == "json"@ {
        Some(FormatKindView::Json)
    } else if name == "toml"@ {
        Some(FormatKindView::Toml)
    } else if name == "yaml"@ {
        Some(FormatKindView::Yaml)
    } else {
        None
    }
}

/// The input format named by `name` (see [`format_of_name`]).
pub fn format_named(name: &str) -> (r: Option<FormatKind>)
    ensures
        match r {
            Some(k) => format_of_name(name@) == Some(k@),
            None => format_of_name(name@) is None,
        },
{
    proof {
        reveal_strlit("text");
        reveal_strlit("json");
        reveal_strlit("toml");
        reveal_strlit("yaml");
    }
    if str_eq(name, "text") {
        Some(FormatKind::Text)
    } else if str_eq(name, "json") {
        Some(FormatKind::Json)
    } else if str_eq(name, "toml") {
        Some(FormatKind::Toml)
    } else if str_eq(name, "yaml") {
        Some(FormatKind::Yaml)
    } else {
        None
    }
}

/// The output kind a word names: `unified`, `inline` or `json-patch`.
pub open spec fn output_of_name(name: Seq<char>) -> Option<OutputKind> {
    if name == "unified"@ {
        Some(OutputKind::Unified)
    } else if name == "inline"@ {
        Some(OutputKind::Inline)
    } else if name == "json-patch"@ {
        Some(OutputKind::JsonPatch)
    } else {
        None
    }
}

/// The output kind named by `name` (see [`output_of_name`]).
pub fn output_named(name: &str) -> (r: Option<OutputKind>)
    ensures
        r == output_of_name(name@),
{
    proof {
        reveal_strlit("unified");
        reveal_strlit("inline");
        reveal_strlit("json-patch");
    }
    if str_eq(name, "unified") {
        Some(OutputKind::Unified)
    } else if str_eq(name, "inline") {
        Some(OutputKind::Inline)
    } else if str_eq(name, "json-patch") {
        Some(OutputKind::JsonPatch)
    } else {
        None
    }
}

/// The structured format of a lower-case extension: `json`, `toml`, `yaml` or `yml`.
pub open spec fn structured_of_extension(ext: Seq<char>) -> Option<FormatKindView> {
    if ext == "json"@ {
        Some(FormatKindView::Json)
    } else if ext == "toml"@ {
        Some(FormatKindView::Toml)
    } else if ext == "yaml"@ || ext == "yml"@ {
        Some(FormatKindView::Yaml)
    } else {
        None
    }
}

/// The format of a three-way merge: the one named, when it is `json`, `toml`
/// or `yaml`; else the one the base file's lower-case extension names; JSON
/// when neither names one.
pub open spec fn merge_format_of(format: Option<Seq<char>>, base_ext: Option<Seq<char>>) -> FormatKindView {
    let named = match format {
        Some(f) => if f == "json"@ || f == "toml"@ || f == "yaml"@ { format_of_name(f) } else { None },
        None => None,
    };
    match named {
        Some(k) => k,
        None => match base_ext {
            Some(e) => match structured_of_extension(e) {
                Some(k) => k,
                None => FormatKindView::Json,
            },
            None => FormatKindView::Json,
        },
    }
}

pub(crate) fn structured_kind(ext: &str) -> (r: Option<FormatKind>)
    ensures
        match r {
            Some(k) => structured_of_extension(ext@) == Some(k@),
            None => structured_of_extension(ext@) is None,
        },
{
    proof {
        reveal_strlit("json");
        reveal_strlit("toml");
        reveal_strlit("yaml");
        reveal_strlit("yml");
    }
    if str_eq(ext, "json") {
        Some(FormatKind::Json)
    } else if str_eq(ext, "toml") {
        Some(FormatKind::Toml)
    } else if str_eq(ext, "yaml") || str_eq(ext, "yml") {
        Some(FormatKind::Yaml)
    } else {
        None
    }
}

/// The format of a three-way merge (see [`merge_format_of`]); `base_ext` is
/// the base file's extension in lower case.
pub fn merge_format(format: Option<&str>, base_ext: Option<&str>) -> (r: FormatKind)
    ensures
        r@ == merge_format_of(
            match format { Some(f) => Some(f@), None => None },
            match base_ext { Some(e) => Some(e@), None => None },
        ),
{
    proof {
        reveal_strlit("json");
        reveal_strlit("toml");
        reveal_strlit("yaml");
    }
    match format {
        Some(f) => {
            if str_eq(f, "json") || str_eq(f, "toml") || str_eq(f, "yaml") {
                match format_named(f) {
                    Some(k) => return k,
                    None => {},
                }
            }
        },
        None => {},
    }
    match base_ext {
        Some(e) => match structured_kind(e) {
            Some(k) => k,
            None => FormatKind::Json,
        },
        None => FormatKind::Json,
    }
}

/// Two files are diffed across formats when asked, or when both have
/// extensions, the extensions differ, and each names a structured format.
pub open spec fn cross_mode(forced: bool, ext1: Option<Seq<char>>, ext2: Option<Seq<char>>) -> bool {
    forced || match (ext1, ext2) {
        (Some(a), Some(b)) => a != b && kind_of_lower_extension(unicode_lowercase(a)) is Some
            && kind_of_lower_extension(unicode_lowercase(b)) is Some,
        _ => false,
    }
}

/// Whether two files are diffed across formats (see [`cross_mode`]).
pub fn cross_format_mode(forced: bool, ext1: Option<&str>, ext2: Option<&str>) -> (r: bool)
    ensures
        r == cross_mode(
            forced,
            match ext1 { Some(e) => Some(e@), None => None },
            match ext2 { Some(e) => Some(e@), None => None },
        ),
{
    if forced {
        return true;
    }
    match (ext1, ext2) {
        (Some(a), Some(b)) => !str_eq(a, b) && CrossFormatKind::from_extension(a).is_some()
            && CrossFormatKind::from_extension(b).is_some(),
        _ => false,
    }
}

} // verus!
