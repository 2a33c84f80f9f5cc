//! Input formats and the `Format` trait.
use vstd::prelude::*;

use crate::codec::{parse_json_text, parse_toml_text, serde_json_parse, serde_yaml_mapping, toml_parse, yaml_mapping_probe};
use crate::error::GudfError;
use crate::result::DiffResult;
use crate::text::{
    contains_char, contains_seq, copy_string, ends_with, has_prefix, has_suffix, lines_of, lines_spec, starts_with, trim,
    unicode_trim,
};

verus! {

/// The format of a document.
#[derive(Debug, Clone, PartialEq, Eq)]
pub enum FormatKind {
    Text,
    Json,
    Toml,
    Yaml,
    Code(String),
}

/// The mathematical content of a [`FormatKind`].
pub enum FormatKindView {
    Text,
    Json,
    Toml,
    Yaml,
    Code(Seq<char>),
}

impl View for FormatKind {
    type V = FormatKindView;

    open spec fn view(&self) -> FormatKindView {
        match self {
            FormatKind::Text => FormatKindView::Text,
            FormatKind::Json => FormatKindView::Json,
            FormatKind::Toml => FormatKindView::Toml,
            FormatKind::Yaml => FormatKindView::Yaml,
            FormatKind::Code(s) => FormatKindView::Code(s@),
        }
    }
}

impl FormatKind {
    /// A copy of this kind.
    pub fn duplicate(&self) -> (r: FormatKind)
        ensures
            r@ == self@,
    {
        match self {
            FormatKind::Text => FormatKind::Text,
            FormatKind::Json => FormatKind::Json,
            FormatKind::Toml => FormatKind::Toml,
            FormatKind::Yaml => FormatKind::Yaml,
            FormatKind::Code(s) => FormatKind::Code(copy_string(s)),
        }
    }

    /// Whether two kinds are the same (same variant and, for code, the same language).
    pub fn same_as(&self, other: &FormatKind) -> (r: bool)
        ensures
            r == (self@ == other@),
    {
        match (self, other) {
            (FormatKind::Text, FormatKind::Text) => true,
            (FormatKind::Json, FormatKind::Json) => true,
            (FormatKind::Toml, FormatKind::Toml) => true,
            (FormatKind::Yaml, FormatKind::Yaml) => true,
            (FormatKind::Code(a), FormatKind::Code(b)) => crate::text::str_eq(a.as_str(), b.as_str()),
            _ => false,
        }
    }
}

/// A format that can diff two documents.
pub trait Format {
    /// The kind of documents this format reads.
    spec fn format_kind(&self) -> FormatKindView;

    /// `r` is a result this format's diff of `old` and `new` gives.
    spec fn diff_result(&self, old: Seq<char>, new: Seq<char>, r: Result<DiffResult, GudfError>) -> bool;

    /// The kind of documents this format reads.
    fn kind(&self) -> (r: FormatKind)
        ensures
            r@ == self.format_kind(),
    ;

    /// Diffs two documents of this format.
    fn diff(&self, old: &str, new: &str) -> (r: Result<DiffResult, GudfError>)
        ensures
            self.diff_result(old@, new@, r),
    ;
}

/// A line that looks like a YAML entry: once trimmed it is not empty, is not
/// a `#` comment, and holds `": "` or ends with `:`.
pub open spec fn is_entry_line(line: Seq<char>) -> bool {
    let l = unicode_trim(line);
    &&& l.len() > 0
    &&& l[0] != '#'
    &&& (contains_seq(l, ": "@) || has_suffix(l, ":"@))
}

/// The number of lines in `lines` that look like YAML entries.
pub open spec fn entry_line_count(lines: Seq<Seq<char>>) -> nat
    decreases lines.len(),
{
    if lines.len() == 0 {
        0
    } else {
        entry_line_count(lines.drop_last()) + if is_entry_line(lines.last()) { 1nat } else { 0nat }
    }
}

/// The format guessed for a document from its trimmed text `t`: JSON when
/// serde_json reads it; TOML when `toml` reads it and it holds `=`; YAML when
/// it is not empty, serde_yaml reads it as a mapping, and it starts with
/// `---` or has at least two lines that look like entries; else text.
pub open spec fn detect_spec(content: Seq<char>) -> FormatKindView {
    let t = unicode_trim(content);
    if serde_json_parse(t) is Some {
        FormatKindView::Json
    } else if toml_parse(t) is Some && t.contains('=') {
        FormatKindView::Toml
    } else if t.len() > 0 && serde_yaml_mapping(t) == Some(true)
        && (has_prefix(t, "---"@) || entry_line_count(lines_spec(t)) >= 2) {
        FormatKindView::Yaml
    } else {
        FormatKindView::Text
    }
}

fn entry_line(line: &str) -> (r: bool)
    ensures
        r == is_entry_line(line@),
{
    let l = trim(line);
    proof {
        reveal_strlit(": ");
        reveal_strlit(":");
    }
    let lv = crate::text::chars_of(l.as_str());
    if lv.len() == 0 {
        return false;
    }
    if lv[0] == '#' {
        return false;
    }
    crate::text::contains_str(l.as_str(), ": ") || ends_with(l.as_str(), ":")
}

/// Guesses the format of a document (see [`detect_spec`]).
pub fn detect_format(content: &str) -> (r: FormatKind)
    ensures
        r@ == detect_spec(content@),
{
    let trimmed = trim(content);
    let t = trimmed.as_str();
    if parse_json_text(t).is_ok() {
        return FormatKind::Json;
    }
    if parse_toml_text(t).is_ok() && contains_char(t, '=') {
        return FormatKind::Toml;
    }
    let tv = crate::text::chars_of(t);
    if tv.len() == 0 {
        return FormatKind::Text;
    }
    match yaml_mapping_probe(t) {
        Some(true) => {},
        _ => return FormatKind::Text,
    }
    proof { reveal_strlit("---"); }
    if starts_with(t, "---") {
        return FormatKind::Yaml;
    }
    let lines = lines_of(t);
    let ghost ls = lines_spec(t@);
    let mut count: usize = 0;
    let mut i: usize = 0;
    while i < lines.len()
        invariant
            i <= lines@.len(),
            lines@.len() == ls.len(),
            forall|k: int| 0 <= k < lines@.len() ==> #[trigger] lines@[k]@ == ls[k],
            count == entry_line_count(ls.take(i as int)),
            count <= i,
        decreases lines.len() - i,
    {
        assert(ls.take(i + 1).drop_last() =~= ls.take(i as int));
        if entry_line(lines[i].as_str()) {
            count = count + 1;
        }
        i = i + 1;
    }
    assert(ls.take(i as int) =~= ls);
    if count >= 2 {
        FormatKind::Yaml
    } else {
        FormatKind::Text
    }
}

} // verus!
