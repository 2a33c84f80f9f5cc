//! YAML documents, diffed as the JSON values serde_yaml reads them into.
use vstd::prelude::*;

use crate::codec::{parse_yaml_text, serde_yaml_parse};
use crate::error::GudfError;
use crate::format::{Format, FormatKind, FormatKindView};
use crate::formats::json::{diff_json_values, parsed_diff_ok};
use crate::result::DiffResult;

verus! {

/// Diffs YAML documents key by key.
pub struct YamlFormat;

impl Format for YamlFormat {
    open spec fn format_kind(&self) -> FormatKindView {
        FormatKindView::Yaml
    }

    open spec fn diff_result(&self, old: Seq<char>, new: Seq<char>, r: Result<DiffResult, GudfError>) -> bool {
        parsed_diff_ok(serde_yaml_parse(old), serde_yaml_parse(new), r, FormatKindView::Yaml)
    }

    fn kind(&self) -> (r: FormatKind) {
        FormatKind::Yaml
    }

    fn diff(&self, old: &str, new: &str) -> (r: Result<DiffResult, GudfError>) {
        let old_val = match parse_yaml_text(old) {
            Ok(v) => v,
            Err(e) => return Err(GudfError::ParseError(e)),
        };
        let new_val = match parse_yaml_text(new) {
            Ok(v) => v,
            Err(e) => return Err(GudfError::ParseError(e)),
        };
        let changes = diff_json_values(&old_val, &new_val);
        Ok(DiffResult::from_changes(changes, FormatKind::Yaml))
    }
}

} // verus!
