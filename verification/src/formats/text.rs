//! Line-by-line diff of plain text, computed by the `similar` crate.
use vstd::prelude::*;

use crate::error::GudfError;
use crate::format::{Format, FormatKind, FormatKindView};
use crate::text::{concat_all, lemma_line_cuts, line_cuts};
use crate::result::{changes_view, plain_change, stats_of, Change, ChangeKind, ChangeView, DiffResult, Location};

verus! {

/// The tag `similar` gives a line.
#[derive(Debug, Clone, Copy, PartialEq, Eq, Structural)]
pub enum LineTag {
    Equal,
    Delete,
    Insert,
}

/// What `similar::TextDiff::from_lines` yields for two texts, flattened over
/// its ops with `iter_changes`: each line (with its newline) and its tag.
pub uninterp spec fn similar_line_changes(old: Seq<char>, new: Seq<char>) -> Seq<(LineTag, Seq<char>)>;

/// The lines of the old text: those not inserted, concatenated.
pub open spec fn old_side(ops: Seq<(LineTag, Seq<char>)>) -> Seq<char>
    decreases ops.len(),
{
    if ops.len() == 0 {
        Seq::empty()
    } else {
        old_side(ops.drop_last()) + if ops.last().0 != LineTag::Insert { ops.last().1 } else { Seq::empty() }
    }
}

/// The lines of the new text: those not deleted, concatenated.
pub open spec fn new_side(ops: Seq<(LineTag, Seq<char>)>) -> Seq<char>
    decreases ops.len(),
{
    if ops.len() == 0 {
        Seq::empty()
    } else {
        new_side(ops.drop_last()) + if ops.last().0 != LineTag::Delete { ops.last().1 } else { Seq::empty() }
    }
}

/// The lines that `ops` takes from the old text: those not inserted.
pub open spec fn old_values(ops: Seq<(LineTag, Seq<char>)>) -> Seq<Seq<char>>
    decreases ops.len(),
{
    if ops.len() == 0 {
        Seq::empty()
    } else if ops.last().0 != LineTag::Insert {
        old_values(ops.drop_last()).push(ops.last().1)
    } else {
        old_values(ops.drop_last())
    }
}

/// The lines that `ops` takes from the new text: those not deleted.
pub open spec fn new_values(ops: Seq<(LineTag, Seq<char>)>) -> Seq<Seq<char>>
    decreases ops.len(),
{
    if ops.len() == 0 {
        Seq::empty()
    } else if ops.last().0 != LineTag::Delete {
        new_values(ops.drop_last()).push(ops.last().1)
    } else {
        new_values(ops.drop_last())
    }
}

/// Each side of `ops` lists the lines of its text as `similar` cuts them.
pub open spec fn cut_into_lines(old: Seq<char>, new: Seq<char>, ops: Seq<(LineTag, Seq<char>)>) -> bool {
    old_values(ops) == line_cuts(old) && new_values(ops) == line_cuts(new)
}

proof fn lemma_sides(ops: Seq<(LineTag, Seq<char>)>)
    ensures
        old_side(ops) == concat_all(old_values(ops)),
        new_side(ops) == concat_all(new_values(ops)),
    decreases ops.len(),
{
    if ops.len() > 0 {
        lemma_sides(ops.drop_last());
        if ops.last().0 != LineTag::Insert {
            assert(old_values(ops).drop_last() =~= old_values(ops.drop_last()));
        } else {
            assert(old_side(ops) =~= old_side(ops.drop_last()));
        }
        if ops.last().0 != LineTag::Delete {
            assert(new_values(ops).drop_last() =~= new_values(ops.drop_last()));
        } else {
            assert(new_side(ops) =~= new_side(ops.drop_last()));
        }
    }
}

/// The views of the line changes.
pub open spec fn line_ops_view(v: Seq<(LineTag, String)>) -> Seq<(LineTag, Seq<char>)> {
    v.map_values(|p: (LineTag, String)| (p.0, p.1@))
}

/// Diffs two texts line by line with `similar::TextDiff::from_lines` and lists
/// every change of every op (`iter_changes`). Claims that the result is what
/// `similar` gives, and that, as every diff does, the kept and deleted lines
/// are the lines of the old text and the kept and inserted lines those of the
/// new text, in order, each text cut into lines as `tokenize_lines` cuts it.
#[verifier::external_body]
fn similar_lines(old: &str, new: &str) -> (r: Vec<(LineTag, String)>)
    ensures
        line_ops_view(r@) == similar_line_changes(old@, new@),
        cut_into_lines(old@, new@, line_ops_view(r@)),
{
    let diff = similar::TextDiff::from_lines(old, new);
    let tag = |t: similar::ChangeTag| match t {
        similar::ChangeTag::Equal => LineTag::Equal,
        similar::ChangeTag::Delete => LineTag::Delete,
        similar::ChangeTag::Insert => LineTag::Insert,
    };
    diff.ops().iter().flat_map(|op| diff.iter_changes(op)).map(|c| (tag(c.tag()), c.value().to_string())).collect()
}

/// The number of lines of the new text reached after `ops`.
pub open spec fn new_lines(ops: Seq<(LineTag, Seq<char>)>) -> nat
    decreases ops.len(),
{
    if ops.len() == 0 {
        0
    } else {
        new_lines(ops.drop_last()) + if ops.last().0 != LineTag::Delete { 1nat } else { 0nat }
    }
}

/// The change for one line: kept lines are `Unchanged`, inserted lines
/// `Added`, deleted lines `Removed`; each is located at the new-text line
/// reached so far.
pub open spec fn line_change(op: (LineTag, Seq<char>), line: nat) -> ChangeView {
    let loc = Some(Location { line: line as usize, column: None });
    match op.0 {
        LineTag::Equal => plain_change(ChangeKind::Unchanged, None, Some(op.1), Some(op.1), loc),
        LineTag::Insert => plain_change(ChangeKind::Added, None, None, Some(op.1), loc),
        LineTag::Delete => plain_change(ChangeKind::Removed, None, Some(op.1), None, loc),
    }
}

/// The changes of a line diff.
pub open spec fn text_changes(ops: Seq<(LineTag, Seq<char>)>) -> Seq<ChangeView>
    decreases ops.len(),
{
    if ops.len() == 0 {
        Seq::empty()
    } else {
        text_changes(ops.drop_last()).push(line_change(ops.last(), new_lines(ops)))
    }
}

proof fn lemma_new_lines_bound(ops: Seq<(LineTag, Seq<char>)>)
    ensures
        new_lines(ops) <= ops.len(),
    decreases ops.len(),
{
    if ops.len() > 0 {
        lemma_new_lines_bound(ops.drop_last());
    }
}

/// The changes between two texts, line by line.
pub fn text_diff_changes(old: &str, new: &str) -> (r: Vec<Change>)
    ensures
        changes_view(r@) == text_changes(similar_line_changes(old@, new@)),
        rebuilt_text(changes_view(r@)) == new@,
        original_text(changes_view(r@)) == old@,
        cut_into_lines(old@, new@, similar_line_changes(old@, new@)),
{
    let ops = similar_lines(old, new);
    proof {
        lemma_rebuilt_text_changes(line_ops_view(ops@));
        lemma_original_text_changes(line_ops_view(ops@));
        lemma_sides(line_ops_view(ops@));
        lemma_line_cuts(old@);
        lemma_line_cuts(new@);
    }
    let ghost opsv = line_ops_view(ops@);
    let mut changes: Vec<Change> = Vec::new();
    let mut line: usize = 0;
    let mut i: usize = 0;
    while i < ops.len()
        invariant
            i <= ops.len(),
            opsv == line_ops_view(ops@),
            opsv.len() == ops@.len(),
            line == new_lines(opsv.take(i as int)),
            changes_view(changes@) == text_changes(opsv.take(i as int)),
        decreases ops.len() - i,
    {
        let ghost pre = opsv.take(i as int);
        proof {
            assert(opsv.take(i + 1).drop_last() =~= pre);
            assert(opsv[i as int] == (ops@[i as int].0, ops@[i as int].1@));
            lemma_new_lines_bound(pre);
        }
        let value = ops[i].1.clone();
        match ops[i].0 {
            LineTag::Equal => {
                line = line + 1;
                let c = Change::plain(ChangeKind::Unchanged, None, Some(value.clone()), Some(value), Some(Location { line, column: None }));
                changes.push(c);
            },
            LineTag::Insert => {
                line = line + 1;
                let c = Change::plain(ChangeKind::Added, None, None, Some(value), Some(Location { line, column: None }));
                changes.push(c);
            },
            LineTag::Delete => {
                let c = Change::plain(ChangeKind::Removed, None, Some(value), None, Some(Location { line, column: None }));
                changes.push(c);
            },
        }
        i = i + 1;
        assert(changes_view(changes@) =~= text_changes(opsv.take(i as int)));
    }
    assert(opsv.take(i as int) =~= opsv);
    changes
}

/// The result of diffing two texts line by line: always `Ok`, with one change
/// per line of the diff that `similar` computes, format text, and its
/// statistics; the changes rebuild the new text and start from the old one,
/// and each side lists the lines of its text.
pub open spec fn text_diff_ok(old: Seq<char>, new: Seq<char>, r: Result<DiffResult, GudfError>) -> bool {
    r matches Ok(d) && d@.changes == text_changes(similar_line_changes(old, new))
        && d@.format == FormatKindView::Text && stats_of(d@.changes, d.stats)
        && rebuilt_text(d@.changes) == new && original_text(d@.changes) == old
        && cut_into_lines(old, new, similar_line_changes(old, new))
}

/// Diffs plain text line by line.
pub struct TextFormat;

impl Format for TextFormat {
    open spec fn format_kind(&self) -> FormatKindView {
        FormatKindView::Text
    }

    open spec fn diff_result(&self, old: Seq<char>, new: Seq<char>, r: Result<DiffResult, GudfError>) -> bool {
        text_diff_ok(old, new, r)
    }

    fn kind(&self) -> (r: FormatKind) {
        FormatKind::Text
    }

    fn diff(&self, old: &str, new: &str) -> (r: Result<DiffResult, GudfError>) {
        let changes = text_diff_changes(old, new);
        Ok(DiffResult::from_changes(changes, FormatKind::Text))
    }
}

/// The text a list of changes rebuilds: the new value of every change that
/// is not a removal, in order.
pub open spec fn rebuilt_text(changes: Seq<ChangeView>) -> Seq<char>
    decreases changes.len(),
{
    if changes.len() == 0 {
        Seq::empty()
    } else {
        rebuilt_text(changes.drop_last()) + if changes.last().kind != ChangeKind::Removed {
            crate::text::opt_or_empty(changes.last().new_value)
        } else {
            Seq::empty()
        }
    }
}

proof fn lemma_rebuilt_text_changes(ops: Seq<(LineTag, Seq<char>)>)
    ensures
        rebuilt_text(text_changes(ops)) == new_side(ops),
    decreases ops.len(),
{
    if ops.len() > 0 {
        lemma_rebuilt_text_changes(ops.drop_last());
        assert(text_changes(ops).drop_last() =~= text_changes(ops.drop_last()));
    }
}

/// The text a list of changes started from: the old value of every change
/// that is not an addition, in order.
pub open spec fn original_text(changes: Seq<ChangeView>) -> Seq<char>
    decreases changes.len(),
{
    if changes.len() == 0 {
        Seq::empty()
    } else {
        original_text(changes.drop_last()) + if changes.last().kind != ChangeKind::Added {
            crate::text::opt_or_empty(changes.last().old_value)
        } else {
            Seq::empty()
        }
    }
}

proof fn lemma_original_text_changes(ops: Seq<(LineTag, Seq<char>)>)
    ensures
        original_text(text_changes(ops)) == old_side(ops),
    decreases ops.len(),
{
    if ops.len() > 0 {
        lemma_original_text_changes(ops.drop_last());
        assert(text_changes(ops).drop_last() =~= text_changes(ops.drop_last()));
    }
}

} // verus!
