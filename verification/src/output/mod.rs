//! Rendering diff results as text.
use vstd::prelude::*;

use crate::result::{DiffResult, DiffResultView};

pub mod inline;
pub mod json;
pub mod json_patch;
pub mod unified;

verus! {

/// A way to render a diff result as text.
pub trait OutputFormatter {
    /// The text this formatter renders for a result.
    spec fn rendering(&self, result: DiffResultView) -> Seq<char>;

    /// Renders a diff result.
    fn format(&self, result: &DiffResult) -> (r: String)
        ensures
            r@ == self.rendering(result@),
    ;
}

} // verus!
