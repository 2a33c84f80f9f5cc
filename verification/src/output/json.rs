//! JSON output with the library's own dot-notation paths (`a.b[0]`), and
//! line-numbered operations for line-based diffs.
use vstd::prelude::*;

use crate::output::json_patch::{pretty_or_empty, print_ops};
use crate::codec::{parse_json_text, serde_json_parse};
use crate::format::{FormatKind, FormatKindView};
use crate::output::OutputFormatter;
use crate::result::{changes_view, Change, ChangeKind, ChangeView, DiffResult, DiffResultView};
use crate::text::{
    decimal, join_range, join_spec, opt_or_empty, opt_str, opt_view, owned, push_decimal, trim_end_newlines, trim_newlines,
    views_of,
};
use crate::value::{array_view, json_string, lemma_array_view, object_of2, object_of3, JsonValue, JsonView};

verus! {

/// A value text read as JSON; a text that does not read is a string of its
/// own (without trailing newlines); no text is `null`.
pub open spec fn value_or_text(raw: Option<Seq<char>>) -> JsonView {
    match raw {
        None => JsonView::Null,
        Some(v) => match serde_json_parse(v) {
            Some(j) => j,
            None => JsonView::Str(trim_newlines(v)),
        },
    }
}

/// The line (from zero) of a line change: its location's line less one.
pub open spec fn text_line_of(c: ChangeView) -> nat {
    match c.location {
        Some(l) => if l.line > 0 { (l.line - 1) as nat } else { 0 },
        None => 0,
    }
}

/// A run of line changes of one kind, from its first line.
pub struct BlockView {
    pub kind: ChangeKind,
    pub start_line: nat,
    pub lines: Seq<Seq<char>>,
}

/// The text a line change contributes: the old value of a removal, the new
/// value of anything else, without trailing newlines.
pub open spec fn block_value(c: ChangeView) -> Seq<char> {
    trim_newlines(if c.kind == ChangeKind::Removed { opt_or_empty(c.old_value) } else { opt_or_empty(c.new_value) })
}

/// A block of one line.
pub open spec fn single_block(c: ChangeView) -> BlockView {
    BlockView { kind: c.kind, start_line: text_line_of(c), lines: seq![block_value(c)] }
}

/// A block with one more line.
pub open spec fn extended_block(b: BlockView, line: Seq<char>) -> BlockView {
    BlockView { kind: b.kind, start_line: b.start_line, lines: b.lines.push(line) }
}

/// The changed lines grouped into runs: unchanged lines are left out, and a
/// change of the same kind as the run before it joins that run.
pub open spec fn text_blocks(cs: Seq<ChangeView>) -> Seq<BlockView>
    decreases cs.len(),
{
    if cs.len() == 0 {
        Seq::empty()
    } else {
        let bs = text_blocks(cs.drop_last());
        let c = cs.last();
        if c.kind == ChangeKind::Unchanged {
            bs
        } else if bs.len() > 0 && bs.last().kind == c.kind {
            bs.update(bs.len() - 1, extended_block(bs.last(), block_value(c)))
        } else {
            bs.push(single_block(c))
        }
    }
}

/// An operation on a line: `{"line": line, "op": op, "value": value}`.
pub open spec fn line_op(op: Seq<char>, line: nat, value: JsonView) -> JsonView {
    JsonView::Object(seq![("line"@, JsonView::Number(decimal(line))), ("op"@, JsonView::Str(op)), ("value"@, value)])
}

/// Lines joined by newlines, as a JSON string.
pub open spec fn joined(lines: Seq<Seq<char>>) -> JsonView {
    JsonView::Str(join_spec(lines, "\n"@))
}

/// The operations for a run of removed lines followed by a run of added
/// lines: a `replace` of as many lines as both have, then a `remove` of the
/// removed lines left over or an `add` of the added lines left over.
pub open spec fn paired_ops(b: BlockView, n: BlockView) -> Seq<JsonView> {
    let paired = if b.lines.len() <= n.lines.len() { b.lines.len() } else { n.lines.len() };
    (if paired > 0 {
        seq![line_op("replace"@, b.start_line, JsonView::Object(seq![
            ("after"@, joined(n.lines.take(paired as int))), ("before"@, joined(b.lines.take(paired as int)))]))]
    } else {
        Seq::empty()
    }) + (if b.lines.len() > paired {
        seq![line_op("remove"@, b.start_line + paired, joined(b.lines.skip(paired as int)))]
    } else {
        Seq::empty()
    }) + (if n.lines.len() > paired {
        seq![line_op("add"@, n.start_line + paired, joined(n.lines.skip(paired as int)))]
    } else {
        Seq::empty()
    })
}

/// The operations for the runs from index `i` on: a removed run followed by
/// an added run pairs up; other removed runs are `remove`, added runs `add`,
/// and runs of other kinds give nothing.
pub open spec fn block_ops_from(bs: Seq<BlockView>, i: int) -> Seq<JsonView>
    decreases bs.len() - i,
{
    if i < 0 || i >= bs.len() {
        Seq::empty()
    } else if bs[i].kind == ChangeKind::Removed && i + 1 < bs.len() && bs[i + 1].kind == ChangeKind::Added {
        paired_ops(bs[i], bs[i + 1]) + block_ops_from(bs, i + 2)
    } else if bs[i].kind == ChangeKind::Removed {
        seq![line_op("remove"@, bs[i].start_line, joined(bs[i].lines))] + block_ops_from(bs, i + 1)
    } else if bs[i].kind == ChangeKind::Added {
        seq![line_op("add"@, bs[i].start_line, joined(bs[i].lines))] + block_ops_from(bs, i + 1)
    } else {
        block_ops_from(bs, i + 1)
    }
}

/// The operation for one change of a structured diff.
pub open spec fn structured_op(c: ChangeView) -> Option<JsonView> {
    let p = JsonView::Str(opt_or_empty(c.path));
    match c.kind {
        ChangeKind::Added => Some(JsonView::Object(seq![
            ("op"@, JsonView::Str("add"@)), ("path"@, p), ("value"@, value_or_text(c.new_value))])),
        ChangeKind::Removed => Some(JsonView::Object(seq![
            ("op"@, JsonView::Str("remove"@)), ("path"@, p), ("value"@, value_or_text(c.old_value))])),
        ChangeKind::Modified => Some(JsonView::Object(seq![
            ("op"@, JsonView::Str("replace"@)), ("path"@, p), ("value"@, JsonView::Object(seq![
                ("after"@, value_or_text(c.new_value)), ("before"@, value_or_text(c.old_value))]))])),
        ChangeKind::Moved => Some(JsonView::Object(seq![
            ("from"@, p), ("op"@, JsonView::Str("move"@)), ("path"@, JsonView::Str(opt_or_empty(c.new_value)))])),
        ChangeKind::Renamed => Some(JsonView::Object(seq![
            ("from"@, p), ("op"@, JsonView::Str("rename"@)), ("path"@, JsonView::Str(opt_or_empty(c.new_value)))])),
        ChangeKind::Unchanged => None,
    }
}

/// The operations of a structured diff, in order.
pub open spec fn structured_ops(cs: Seq<ChangeView>) -> Seq<JsonView>
    decreases cs.len(),
{
    if cs.len() == 0 {
        Seq::empty()
    } else {
        structured_ops(cs.drop_last()) + match structured_op(cs.last()) {
            Some(op) => seq![op],
            None => Seq::empty(),
        }
    }
}

/// The operations of a diff: line operations for text and code, path
/// operations otherwise.
pub open spec fn json_ops(result: DiffResultView) -> Seq<JsonView> {
    match result.format {
        FormatKindView::Text | FormatKindView::Code(_) => block_ops_from(text_blocks(result.changes), 0),
        _ => structured_ops(result.changes),
    }
}

struct TextBlock {
    kind: ChangeKind,
    start_line: usize,
    lines: Vec<String>,
}

impl TextBlock {
    spec fn view(&self) -> BlockView {
        BlockView { kind: self.kind, start_line: self.start_line as nat, lines: views_of(self.lines@) }
    }
}

spec fn blocks_view(bs: Seq<TextBlock>) -> Seq<BlockView> {
    bs.map_values(|b: TextBlock| b.view())
}

/// Renders diffs as JSON operations.
pub struct JsonFormatter;

fn parse_value(raw: &Option<String>) -> (r: JsonValue)
    ensures
        r@ == value_or_text(opt_view(*raw)),
{
    match raw {
        None => JsonValue::Null,
        Some(v) => match parse_json_text(v.as_str()) {
            Ok(j) => j,
            Err(_) => JsonValue::String(trim_end_newlines(v.as_str())),
        },
    }
}

fn line_number(n: usize, extra: usize) -> (r: JsonValue)
    ensures
        r@ == JsonView::Number(decimal(n as nat + extra as nat)),
{
    let mut s = String::new();
    push_decimal(&mut s, n as u128 + extra as u128);
    assert(s@ =~= decimal(n as nat + extra as nat));
    JsonValue::Number(s)
}

fn join_lines(lines: &Vec<String>, from: usize, to: usize) -> (r: JsonValue)
    requires
        from <= to <= lines.len(),
    ensures
        r@ == joined(views_of(lines@).subrange(from as int, to as int)),
{
    let s = join_range(lines, from, to, "\n");
    assert(views_of(lines@.subrange(from as int, to as int)) =~= views_of(lines@).subrange(from as int, to as int));
    JsonValue::String(s)
}

impl JsonFormatter {
    fn blocks_of(changes: &[Change]) -> (r: Vec<TextBlock>)
        ensures
            blocks_view(r@) == text_blocks(changes_view(changes@)),
    {
        let ghost cs = changes_view(changes@);
        let mut blocks: Vec<TextBlock> = Vec::new();
        let mut i: usize = 0;
        while i < changes.len()
            invariant
                i <= changes.len(),
                cs == changes_view(changes@),
                cs.len() == changes@.len(),
                blocks_view(blocks@) == text_blocks(cs.take(i as int)),
            decreases changes.len() - i,
        {
            proof {
                assert(cs.take(i + 1).drop_last() =~= cs.take(i as int));
                assert(cs[i as int] == changes@[i as int]@);
            }
            let ghost before = blocks_view(blocks@);
            let c = &changes[i];
            if c.kind != ChangeKind::Unchanged {
                let value = if c.kind == ChangeKind::Removed {
                    trim_end_newlines(opt_str(&c.old_value))
                } else {
                    trim_end_newlines(opt_str(&c.new_value))
                };
                let n = blocks.len();
                if n > 0 && blocks[n - 1].kind == c.kind {
                    let mut last = blocks.pop().unwrap();
                    let ghost lv = last.view();
                    let ghost vv = value@;
                    last.lines.push(value);
                    assert(views_of(last.lines@) =~= lv.lines.push(vv));
                    blocks.push(last);
                    assert(blocks_view(blocks@) =~= before.update(n - 1, extended_block(lv, vv)));
                } else {
                    let line = match c.location {
                        Some(l) => if l.line > 0 { l.line - 1 } else { 0 },
                        None => 0,
                    };
                    let ghost vv = value@;
                    let mut lines: Vec<String> = Vec::new();
                    lines.push(value);
                    let b = TextBlock { kind: c.kind, start_line: line, lines };
                    assert(b.view().lines =~= seq![vv]);
                    blocks.push(b);
                    assert(blocks_view(blocks@) =~= before.push(single_block(cs[i as int])));
                }
            }
            i = i + 1;
        }
        assert(cs.take(i as int) =~= cs);
        blocks
    }

    fn line_op_exec(op: &str, line: usize, extra: usize, value: JsonValue) -> (r: JsonValue)
        ensures
            r@ == line_op(op@, line as nat + extra as nat, value@),
    {
        object_of3("line", line_number(line, extra), "op", json_string(op), "value", value)
    }

    /// The line operations of a line-based diff (see [`block_ops_from`]).
    pub fn format_text(&self, result: &DiffResult) -> (r: Vec<JsonValue>)
        ensures
            array_view(r@) == block_ops_from(text_blocks(result@.changes), 0),
    {
        let blocks = Self::blocks_of(result.changes.as_slice());
        let ghost bs = blocks_view(blocks@);
        let mut ops: Vec<JsonValue> = Vec::new();
        let mut i: usize = 0;
        while i < blocks.len()
            invariant
                i <= blocks.len(),
                bs == blocks_view(blocks@),
                bs.len() == blocks@.len(),
                array_view(ops@) + block_ops_from(bs, i as int) == block_ops_from(bs, 0),
            decreases blocks.len() - i,
        {
            proof { lemma_array_view(ops@); }
            let ghost before = array_view(ops@);
            let b = &blocks[i];
            assert(bs[i as int] == b.view());
            if b.kind == ChangeKind::Removed && i + 1 < blocks.len() && blocks[i + 1].kind == ChangeKind::Added {
                let n = &blocks[i + 1];
                assert(bs[i + 1] == n.view());
                let rm = b.lines.len();
                let add = n.lines.len();
                let paired = if rm <= add { rm } else { add };
                if paired > 0 {
                    let value = object_of2("after", join_lines(&n.lines, 0, paired), "before", join_lines(&b.lines, 0, paired));
                    ops.push(Self::line_op_exec("replace", b.start_line, 0, value));
                }
                if rm > paired {
                    ops.push(Self::line_op_exec("remove", b.start_line, paired, join_lines(&b.lines, paired, rm)));
                }
                if add > paired {
                    ops.push(Self::line_op_exec("add", n.start_line, paired, join_lines(&n.lines, paired, add)));
                }
                proof {
                    lemma_array_view(ops@);
                    assert(views_of(b.lines@).subrange(0, paired as int) =~= views_of(b.lines@).take(paired as int));
                    assert(views_of(n.lines@).subrange(0, paired as int) =~= views_of(n.lines@).take(paired as int));
                    assert(views_of(b.lines@).subrange(paired as int, rm as int) =~= views_of(b.lines@).skip(paired as int));
                    assert(views_of(n.lines@).subrange(paired as int, add as int) =~= views_of(n.lines@).skip(paired as int));
                }
                assert(array_view(ops@) =~= before + paired_ops(bs[i as int], bs[i + 1]));
                i = i + 2;
            } else {
                if b.kind == ChangeKind::Removed {
                    ops.push(Self::line_op_exec("remove", b.start_line, 0, join_lines(&b.lines, 0, b.lines.len())));
                    assert(views_of(b.lines@).subrange(0, b.lines@.len() as int) =~= views_of(b.lines@));
                } else if b.kind == ChangeKind::Added {
                    ops.push(Self::line_op_exec("add", b.start_line, 0, join_lines(&b.lines, 0, b.lines.len())));
                    assert(views_of(b.lines@).subrange(0, b.lines@.len() as int) =~= views_of(b.lines@));
                }
                proof { lemma_array_view(ops@); }
                i = i + 1;
            }
        }
        ops
    }

    /// The path operations of a structured diff (see [`structured_ops`]).
    pub fn format_structured(&self, result: &DiffResult) -> (r: Vec<JsonValue>)
        ensures
            array_view(r@) == structured_ops(result@.changes),
    {
        let ghost cs = result@.changes;
        let mut ops: Vec<JsonValue> = Vec::new();
        let mut i: usize = 0;
        while i < result.changes.len()
            invariant
                i <= result.changes.len(),
                cs == changes_view(result.changes@),
                cs.len() == result.changes@.len(),
                array_view(ops@) == structured_ops(cs.take(i as int)),
            decreases result.changes.len() - i,
        {
            proof {
                assert(cs.take(i + 1).drop_last() =~= cs.take(i as int));
                assert(cs[i as int] == result.changes@[i as int]@);
                lemma_array_view(ops@);
            }
            let c = &result.changes[i];
            let path = opt_str(&c.path);
            match c.kind {
                ChangeKind::Added => {
                    ops.push(object_of3("op", json_string("add"), "path", json_string(path), "value", parse_value(&c.new_value)));
                },
                ChangeKind::Removed => {
                    ops.push(object_of3("op", json_string("remove"), "path", json_string(path), "value", parse_value(&c.old_value)));
                },
                ChangeKind::Modified => {
                    let value = object_of2("after", parse_value(&c.new_value), "before", parse_value(&c.old_value));
                    ops.push(object_of3("op", json_string("replace"), "path", json_string(path), "value", value));
                },
                ChangeKind::Moved => {
                    ops.push(object_of3("from", json_string(path), "op", json_string("move"), "path", json_string(opt_str(&c.new_value))));
                },
                ChangeKind::Renamed => {
                    ops.push(object_of3("from", json_string(path), "op", json_string("rename"), "path", json_string(opt_str(&c.new_value))));
                },
                ChangeKind::Unchanged => {},
            }
            proof { lemma_array_view(ops@); }
            assert(array_view(ops@) =~= structured_ops(cs.take(i + 1)));
            i = i + 1;
        }
        assert(cs.take(i as int) =~= cs);
        ops
    }
}

impl OutputFormatter for JsonFormatter {
    open spec fn rendering(&self, result: DiffResultView) -> Seq<char> {
        pretty_or_empty(json_ops(result))
    }

    fn format(&self, result: &DiffResult) -> (r: String) {
        let ops = match result.format {
            FormatKind::Text | FormatKind::Code(_) => self.format_text(result),
            _ => self.format_structured(result),
        };
        print_ops(ops)
    }
}

} // verus!
