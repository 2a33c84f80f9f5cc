//! Unified diff output (`--- a`, `+++ b`, `@@ -a,b +c,d @@` hunks), as git
//! writes it.
use vstd::prelude::*;

use crate::output::OutputFormatter;
use crate::result::{changes_view, Change, ChangeKind, ChangeView, DiffResult, DiffResultView};
use crate::text::{decimal, ends_with, has_suffix, opt_or_empty, opt_str, owned, push_decimal, push_str, trim_end_newlines, trim_newlines};

verus! {

/// Settings of hunk building.
#[derive(Debug, Clone, Copy, PartialEq, Eq, Structural)]
pub struct HunkConfig {
    /// Lines of context around each change.
    pub context_lines: usize,
}

impl Default for HunkConfig {
    /// Three lines of context.
    fn default() -> (r: HunkConfig)
        ensures
            r.context_lines == 3,
    {
        HunkConfig { context_lines: 3 }
    }
}

/// The role of a line in a hunk.
#[derive(Debug, Clone, Copy, PartialEq, Eq, Structural)]
pub enum HunkLineKind {
    Context,
    Add,
    Remove,
}

/// One line of a hunk: its text without the trailing newline, and whether
/// the line had no newline at all.
#[derive(Debug, Clone)]
pub struct HunkLine {
    pub kind: HunkLineKind,
    pub text: String,
    pub missing_newline: bool,
}

/// The mathematical content of a [`HunkLine`].
pub struct HunkLineView {
    pub kind: HunkLineKind,
    pub text: Seq<char>,
    pub missing_newline: bool,
}

impl View for HunkLine {
    type V = HunkLineView;

    open spec fn view(&self) -> HunkLineView {
        HunkLineView { kind: self.kind, text: self.text@, missing_newline: self.missing_newline }
    }
}

/// A hunk: where it starts and how many lines it spans on each side, and its lines.
#[derive(Debug, Clone)]
pub struct Hunk {
    pub old_start: usize,
    pub old_count: usize,
    pub new_start: usize,
    pub new_count: usize,
    pub lines: Vec<HunkLine>,
}

/// The mathematical content of a [`Hunk`].
pub struct HunkView {
    pub old_start: nat,
    pub old_count: nat,
    pub new_start: nat,
    pub new_count: nat,
    pub lines: Seq<HunkLineView>,
}

impl View for Hunk {
    type V = HunkView;

    open spec fn view(&self) -> HunkView {
        HunkView {
            old_start: self.old_start as nat,
            old_count: self.old_count as nat,
            new_start: self.new_start as nat,
            new_count: self.new_count as nat,
            lines: self.lines@.map_values(|l: HunkLine| l@),
        }
    }
}

/// The views of a list of hunks.
pub open spec fn hunks_view(hs: Seq<Hunk>) -> Seq<HunkView> {
    hs.map_values(|h: Hunk| h@)
}

/// A line of the diff before it is cut into hunks: its role, its text, and
/// its line numbers (from one) on the old and new side.
pub struct LineEntry {
    pub kind: HunkLineKind,
    pub text: String,
    pub old_line: Option<usize>,
    pub new_line: Option<usize>,
}

/// The mathematical content of a [`LineEntry`].
pub struct EntryView {
    pub kind: HunkLineKind,
    pub text: Seq<char>,
    pub old_line: Option<nat>,
    pub new_line: Option<nat>,
}

/// The line number as a natural number.
pub open spec fn line_nat(l: Option<usize>) -> Option<nat> {
    match l {
        Some(x) => Some(x as nat),
        None => None,
    }
}

impl View for LineEntry {
    type V = EntryView;

    open spec fn view(&self) -> EntryView {
        EntryView { kind: self.kind, text: self.text@, old_line: line_nat(self.old_line), new_line: line_nat(self.new_line) }
    }
}

/// The views of a list of entries.
pub open spec fn entries_view(es: Seq<LineEntry>) -> Seq<EntryView> {
    es.map_values(|e: LineEntry| e@)
}

/// A context line, numbered on both sides.
pub open spec fn context_entry(text: Seq<char>, o: nat, n: nat) -> EntryView {
    EntryView { kind: HunkLineKind::Context, text, old_line: Some(o), new_line: Some(n) }
}

/// A removed line, numbered on the old side.
pub open spec fn remove_entry(text: Seq<char>, o: nat) -> EntryView {
    EntryView { kind: HunkLineKind::Remove, text, old_line: Some(o), new_line: None }
}

/// An added line, numbered on the new side.
pub open spec fn add_entry(text: Seq<char>, n: nat) -> EntryView {
    EntryView { kind: HunkLineKind::Add, text, old_line: None, new_line: Some(n) }
}

/// The lines of a line-based diff, with the count of old and new lines so
/// far: an unchanged line is context, an addition adds, a removal removes,
/// and any other change removes its old value and adds its new one.
pub open spec fn text_entries(cs: Seq<ChangeView>) -> (Seq<EntryView>, nat, nat)
    decreases cs.len(),
{
    if cs.len() == 0 {
        (Seq::empty(), 0, 0)
    } else {
        let p = text_entries(cs.drop_last());
        let c = cs.last();
        let ov = opt_or_empty(c.old_value);
        let nv = opt_or_empty(c.new_value);
        match c.kind {
            ChangeKind::Unchanged => (p.0.push(context_entry(ov, p.1 + 1, p.2 + 1)), p.1 + 1, p.2 + 1),
            ChangeKind::Added => (p.0.push(add_entry(nv, p.2 + 1)), p.1, p.2 + 1),
            ChangeKind::Removed => (p.0.push(remove_entry(ov, p.1 + 1)), p.1 + 1, p.2),
            _ => (p.0.push(remove_entry(ov, p.1 + 1)).push(add_entry(nv, p.2 + 1)), p.1 + 1, p.2 + 1),
        }
    }
}

/// `path: value` and a newline.
pub open spec fn path_line(path: Seq<char>, value: Seq<char>) -> Seq<char> {
    path + ": "@ + value + "\n"@
}

/// The added line of a move or rename: `new_path: value (<how> from path)`.
pub open spec fn relocated_line(new_path: Seq<char>, value: Seq<char>, how: Seq<char>, path: Seq<char>) -> Seq<char> {
    new_path + ": "@ + value + " ("@ + how + " from "@ + path + ")\n"@
}

/// The lines of a structured diff, one `path: value` line per side of each
/// change, with the count of old and new lines so far. A move or rename
/// removes `path: old` and adds `new_path: old (moved from path)` (or
/// `renamed from`), its new value being the new path.
pub open spec fn structured_entries(cs: Seq<ChangeView>) -> (Seq<EntryView>, nat, nat)
    decreases cs.len(),
{
    if cs.len() == 0 {
        (Seq::empty(), 0, 0)
    } else {
        let p = structured_entries(cs.drop_last());
        let c = cs.last();
        let path = opt_or_empty(c.path);
        let ov = opt_or_empty(c.old_value);
        let nv = opt_or_empty(c.new_value);
        match c.kind {
            ChangeKind::Added => (p.0.push(add_entry(path_line(path, nv), p.2 + 1)), p.1, p.2 + 1),
            ChangeKind::Removed => (p.0.push(remove_entry(path_line(path, ov), p.1 + 1)), p.1 + 1, p.2),
            ChangeKind::Modified => (
                p.0.push(remove_entry(path_line(path, ov), p.1 + 1)).push(add_entry(path_line(path, nv), p.2 + 1)),
                p.1 + 1,
                p.2 + 1,
            ),
            ChangeKind::Unchanged => (p.0.push(context_entry(path_line(path, ov), p.1 + 1, p.2 + 1)), p.1 + 1, p.2 + 1),
            ChangeKind::Moved => (
                p.0.push(remove_entry(path_line(path, ov), p.1 + 1)).push(add_entry(relocated_line(nv, ov, "moved"@, path), p.2 + 1)),
                p.1 + 1,
                p.2 + 1,
            ),
            ChangeKind::Renamed => (
                p.0.push(remove_entry(path_line(path, ov), p.1 + 1)).push(add_entry(relocated_line(nv, ov, "renamed"@, path), p.2 + 1)),
                p.1 + 1,
                p.2 + 1,
            ),
        }
    }
}

/// The ranges after taking in the changed entry at `idx`: its range is
/// `ctx` entries either side, clipped to the entries; it joins the last
/// range when it overlaps or touches it.
pub open spec fn merge_range(rs: Seq<(int, int)>, idx: int, len: int, ctx: int) -> Seq<(int, int)> {
    let start = if idx >= ctx { idx - ctx } else { 0 };
    let end = if idx + ctx <= len - 1 { idx + ctx } else { len - 1 };
    if rs.len() > 0 && start <= rs.last().1 + 1 {
        rs.update(rs.len() - 1, (rs.last().0, end))
    } else {
        rs.push((start, end))
    }
}

/// The hunk ranges (first and last entry, inclusive) over the first `n` entries.
pub open spec fn hunk_ranges(es: Seq<EntryView>, ctx: int, n: int) -> Seq<(int, int)>
    decreases n,
{
    if n <= 0 {
        Seq::empty()
    } else {
        let rs = hunk_ranges(es, ctx, n - 1);
        if es[n - 1].kind == HunkLineKind::Context {
            rs
        } else {
            merge_range(rs, n - 1, es.len() as int, ctx)
        }
    }
}

/// The first old line number among entries `s..=e`, else 1.
pub open spec fn first_old_line(es: Seq<EntryView>, s: int, e: int) -> nat
    decreases e - s + 1,
{
    if s > e {
        1
    } else {
        match es[s].old_line {
            Some(l) => l,
            None => first_old_line(es, s + 1, e),
        }
    }
}

/// The first new line number among entries `s..=e`, else 1.
pub open spec fn first_new_line(es: Seq<EntryView>, s: int, e: int) -> nat
    decreases e - s + 1,
{
    if s > e {
        1
    } else {
        match es[s].new_line {
            Some(l) => l,
            None => first_new_line(es, s + 1, e),
        }
    }
}

/// The number of entries among `s..=e` that are not of kind `k`.
pub open spec fn count_not(es: Seq<EntryView>, s: int, e: int, k: HunkLineKind) -> nat
    decreases e - s + 1,
{
    if s > e {
        0
    } else {
        count_not(es, s, e - 1, k) + if es[e].kind != k { 1nat } else { 0nat }
    }
}

/// The hunk line for an entry.
pub open spec fn hunk_line(en: EntryView) -> HunkLineView {
    HunkLineView {
        kind: en.kind,
        text: trim_newlines(en.text),
        missing_newline: !has_suffix(en.text, "\n"@) && en.text.len() > 0,
    }
}

/// The hunk over entries `s..=e`.
pub open spec fn hunk_of(es: Seq<EntryView>, s: int, e: int) -> HunkView {
    HunkView {
        old_start: first_old_line(es, s, e),
        old_count: count_not(es, s, e, HunkLineKind::Add),
        new_start: first_new_line(es, s, e),
        new_count: count_not(es, s, e, HunkLineKind::Remove),
        lines: es.subrange(s, e + 1).map_values(|en: EntryView| hunk_line(en)),
    }
}

/// The hunks of a list of entries with `ctx` lines of context.
pub open spec fn hunks_of(es: Seq<EntryView>, ctx: int) -> Seq<HunkView> {
    hunk_ranges(es, ctx, es.len() as int).map_values(|r: (int, int)| hunk_of(es, r.0, r.1))
}

/// The marker of a line's role.
pub open spec fn line_prefix(k: HunkLineKind) -> Seq<char> {
    match k {
        HunkLineKind::Context => " "@,
        HunkLineKind::Add => "+"@,
        HunkLineKind::Remove => "-"@,
    }
}

/// A rendered hunk line, followed by git's marker when it had no newline.
pub open spec fn line_text(l: HunkLineView) -> Seq<char> {
    line_prefix(l.kind) + l.text + "\n"@ + if l.missing_newline { "\\ No newline at end of file\n"@ } else { Seq::empty() }
}

/// The rendered lines of a hunk.
pub open spec fn lines_text(ls: Seq<HunkLineView>) -> Seq<char>
    decreases ls.len(),
{
    if ls.len() == 0 {
        Seq::empty()
    } else {
        lines_text(ls.drop_last()) + line_text(ls.last())
    }
}

/// The `@@ -a,b +c,d @@` header of a hunk.
pub open spec fn hunk_header(h: HunkView) -> Seq<char> {
    "@@ -"@ + decimal(h.old_start) + ","@ + decimal(h.old_count) + " +"@ + decimal(h.new_start) + ","@
        + decimal(h.new_count) + " @@\n"@
}

/// The rendered hunks.
pub open spec fn hunks_text(hs: Seq<HunkView>) -> Seq<char>
    decreases hs.len(),
{
    if hs.len() == 0 {
        Seq::empty()
    } else {
        hunks_text(hs.drop_last()) + hunk_header(hs.last()) + lines_text(hs.last().lines)
    }
}

/// The `---`/`+++` header and the hunks; nothing when there are no hunks.
pub open spec fn render_spec(old_name: Seq<char>, new_name: Seq<char>, hs: Seq<HunkView>) -> Seq<char> {
    if hs.len() == 0 {
        Seq::empty()
    } else {
        "--- "@ + old_name + "\n"@ + "+++ "@ + new_name + "\n"@ + hunks_text(hs)
    }
}

/// Some change other than an unchanged entry has a path.
pub open spec fn has_paths(cs: Seq<ChangeView>) -> bool {
    exists|i: int| 0 <= i < cs.len() && cs[i].path is Some && cs[i].kind != ChangeKind::Unchanged
}

/// Every entry is context.
pub open spec fn all_context(es: Seq<EntryView>) -> bool {
    forall|i: int| 0 <= i < es.len() ==> es[i].kind == HunkLineKind::Context
}

/// The unified text of a line-based diff: nothing when no line changed.
pub open spec fn text_rendering(old_name: Seq<char>, new_name: Seq<char>, ctx: usize, cs: Seq<ChangeView>) -> Seq<char> {
    let es = text_entries(cs).0;
    if es.len() == 0 || all_context(es) {
        Seq::empty()
    } else {
        render_spec(old_name, new_name, hunks_of(es, ctx as int))
    }
}

/// The unified text of a structured diff: nothing when every change is unchanged.
pub open spec fn structured_rendering(old_name: Seq<char>, new_name: Seq<char>, ctx: usize, cs: Seq<ChangeView>) -> Seq<char> {
    if forall|i: int| 0 <= i < cs.len() ==> cs[i].kind == ChangeKind::Unchanged {
        Seq::empty()
    } else {
        render_spec(old_name, new_name, hunks_of(structured_entries(cs).0, ctx as int))
    }
}

/// The unified text of a diff: structured when some change has a path, else line-based.
pub open spec fn unified_rendering(old_name: Seq<char>, new_name: Seq<char>, ctx: usize, cs: Seq<ChangeView>) -> Seq<char> {
    if has_paths(cs) {
        structured_rendering(old_name, new_name, ctx, cs)
    } else {
        text_rendering(old_name, new_name, ctx, cs)
    }
}

/// Renders diffs as git-style unified diffs.
pub struct UnifiedFormatter {
    pub old_name: String,
    pub new_name: String,
    pub context_lines: usize,
}

impl Default for UnifiedFormatter {
    /// Names `a` and `b`, three lines of context.
    fn default() -> (r: UnifiedFormatter)
        ensures
            r.old_name@ == "a"@,
            r.new_name@ == "b"@,
            r.context_lines == 3,
    {
        UnifiedFormatter::new("a", "b")
    }
}

fn entry_exec(kind: HunkLineKind, text: String, old_line: Option<usize>, new_line: Option<usize>) -> (r: LineEntry)
    ensures
        r@ == (EntryView { kind, text: text@, old_line: line_nat(old_line), new_line: line_nat(new_line) }),
{
    LineEntry { kind, text, old_line, new_line }
}

fn path_line_exec(path: &str, value: &str) -> (r: String)
    ensures
        r@ == path_line(path@, value@),
{
    let mut s = owned(path);
    push_str(&mut s, ": ");
    push_str(&mut s, value);
    push_str(&mut s, "\n");
    s
}

fn relocated_line_exec(new_path: &str, value: &str, how: &str, path: &str) -> (r: String)
    ensures
        r@ == relocated_line(new_path@, value@, how@, path@),
{
    let mut s = owned(new_path);
    push_str(&mut s, ": ");
    push_str(&mut s, value);
    push_str(&mut s, " (");
    push_str(&mut s, how);
    push_str(&mut s, " from ");
    push_str(&mut s, path);
    push_str(&mut s, ")\n");
    s
}

impl UnifiedFormatter {
    /// A formatter with the given file names and three lines of context.
    pub fn new(old_name: &str, new_name: &str) -> (r: UnifiedFormatter)
        ensures
            r.old_name@ == old_name@,
            r.new_name@ == new_name@,
            r.context_lines == 3,
    {
        UnifiedFormatter { old_name: owned(old_name), new_name: owned(new_name), context_lines: 3 }
    }

    /// The same formatter with `lines` lines of context.
    pub fn context(self, lines: usize) -> (r: UnifiedFormatter)
        ensures
            r.old_name@ == self.old_name@,
            r.new_name@ == self.new_name@,
            r.context_lines == lines,
    {
        UnifiedFormatter { old_name: self.old_name, new_name: self.new_name, context_lines: lines }
    }

    /// The entries of a line-based diff (see [`text_entries`]).
    pub fn text_entries_of(changes: &[Change]) -> (r: Vec<LineEntry>)
        ensures
            entries_view(r@) == text_entries(changes_view(changes@)).0,
    {
        let ghost cs = changes_view(changes@);
        let mut entries: Vec<LineEntry> = Vec::new();
        let mut old_line: usize = 0;
        let mut new_line: usize = 0;
        let mut i: usize = 0;
        while i < changes.len()
            invariant
                i <= changes.len(),
                cs == changes_view(changes@),
                cs.len() == changes@.len(),
                old_line <= i,
                new_line <= i,
                entries_view(entries@) == text_entries(cs.take(i as int)).0,
                old_line as nat == text_entries(cs.take(i as int)).1,
                new_line as nat == text_entries(cs.take(i as int)).2,
            decreases changes.len() - i,
        {
            proof {
                assert(cs.take(i + 1).drop_last() =~= cs.take(i as int));
                assert(cs[i as int] == changes@[i as int]@);
            }
            let ghost before = entries_view(entries@);
            let c = &changes[i];
            let ov = owned(opt_str(&c.old_value));
            let nv = owned(opt_str(&c.new_value));
            match c.kind {
                ChangeKind::Unchanged => {
                    old_line = old_line + 1;
                    new_line = new_line + 1;
                    entries.push(entry_exec(HunkLineKind::Context, ov, Some(old_line), Some(new_line)));
                    assert(entries_view(entries@) =~= before.push(context_entry(ov@, old_line as nat, new_line as nat)));
                },
                ChangeKind::Added => {
                    new_line = new_line + 1;
                    entries.push(entry_exec(HunkLineKind::Add, nv, None, Some(new_line)));
                    assert(entries_view(entries@) =~= before.push(add_entry(nv@, new_line as nat)));
                },
                ChangeKind::Removed => {
                    old_line = old_line + 1;
                    entries.push(entry_exec(HunkLineKind::Remove, ov, Some(old_line), None));
                    assert(entries_view(entries@) =~= before.push(remove_entry(ov@, old_line as nat)));
                },
                _ => {
                    old_line = old_line + 1;
                    new_line = new_line + 1;
                    let ghost ovv = ov@;
                    let ghost nvv = nv@;
                    entries.push(entry_exec(HunkLineKind::Remove, ov, Some(old_line), None));
                    entries.push(entry_exec(HunkLineKind::Add, nv, None, Some(new_line)));
                    assert(entries_view(entries@) =~= before.push(remove_entry(ovv, old_line as nat)).push(add_entry(nvv, new_line as nat)));
                },
            }
            i = i + 1;
        }
        assert(cs.take(i as int) =~= cs);
        entries
    }

    /// The entries of a structured diff (see [`structured_entries`]).
    pub fn structured_entries_of(changes: &[Change]) -> (r: Vec<LineEntry>)
        ensures
            entries_view(r@) == structured_entries(changes_view(changes@)).0,
    {
        let ghost cs = changes_view(changes@);
        let mut entries: Vec<LineEntry> = Vec::new();
        let mut old_line: usize = 0;
        let mut new_line: usize = 0;
        let mut i: usize = 0;
        while i < changes.len()
            invariant
                i <= changes.len(),
                cs == changes_view(changes@),
                cs.len() == changes@.len(),
                old_line <= i,
                new_line <= i,
                entries_view(entries@) == structured_entries(cs.take(i as int)).0,
                old_line as nat == structured_entries(cs.take(i as int)).1,
                new_line as nat == structured_entries(cs.take(i as int)).2,
            decreases changes.len() - i,
        {
            proof {
                assert(cs.take(i + 1).drop_last() =~= cs.take(i as int));
                assert(cs[i as int] == changes@[i as int]@);
            }
            let ghost before = entries_view(entries@);
            let c = &changes[i];
            let path = opt_str(&c.path);
            let ov = opt_str(&c.old_value);
            let nv = opt_str(&c.new_value);
            match c.kind {
                ChangeKind::Added => {
                    new_line = new_line + 1;
                    let t = path_line_exec(path, nv);
                    entries.push(entry_exec(HunkLineKind::Add, t, None, Some(new_line)));
                    assert(entries_view(entries@) =~= before.push(add_entry(path_line(path@, nv@), new_line as nat)));
                },
                ChangeKind::Removed => {
                    old_line = old_line + 1;
                    let t = path_line_exec(path, ov);
                    entries.push(entry_exec(HunkLineKind::Remove, t, Some(old_line), None));
                    assert(entries_view(entries@) =~= before.push(remove_entry(path_line(path@, ov@), old_line as nat)));
                },
                ChangeKind::Modified => {
                    old_line = old_line + 1;
                    new_line = new_line + 1;
                    let t1 = path_line_exec(path, ov);
                    let t2 = path_line_exec(path, nv);
                    entries.push(entry_exec(HunkLineKind::Remove, t1, Some(old_line), None));
                    entries.push(entry_exec(HunkLineKind::Add, t2, None, Some(new_line)));
                    assert(entries_view(entries@) =~= before.push(remove_entry(path_line(path@, ov@), old_line as nat))
                        .push(add_entry(path_line(path@, nv@), new_line as nat)));
                },
                ChangeKind::Unchanged => {
                    old_line = old_line + 1;
                    new_line = new_line + 1;
                    let t = path_line_exec(path, ov);
                    entries.push(entry_exec(HunkLineKind::Context, t, Some(old_line), Some(new_line)));
                    assert(entries_view(entries@) =~= before.push(context_entry(path_line(path@, ov@), old_line as nat, new_line as nat)));
                },
                ChangeKind::Moved => {
                    old_line = old_line + 1;
                    new_line = new_line + 1;
                    let t1 = path_line_exec(path, ov);
                    let t2 = relocated_line_exec(nv, ov, "moved", path);
                    entries.push(entry_exec(HunkLineKind::Remove, t1, Some(old_line), None));
                    entries.push(entry_exec(HunkLineKind::Add, t2, None, Some(new_line)));
                    assert(entries_view(entries@) =~= before.push(remove_entry(path_line(path@, ov@), old_line as nat))
                        .push(add_entry(relocated_line(nv@, ov@, "moved"@, path@), new_line as nat)));
                },
                ChangeKind::Renamed => {
                    old_line = old_line + 1;
                    new_line = new_line + 1;
                    let t1 = path_line_exec(path, ov);
                    let t2 = relocated_line_exec(nv, ov, "renamed", path);
                    entries.push(entry_exec(HunkLineKind::Remove, t1, Some(old_line), None));
                    entries.push(entry_exec(HunkLineKind::Add, t2, None, Some(new_line)));
                    assert(entries_view(entries@) =~= before.push(remove_entry(path_line(path@, ov@), old_line as nat))
                        .push(add_entry(relocated_line(nv@, ov@, "renamed"@, path@), new_line as nat)));
                },
            }
            i = i + 1;
        }
        assert(cs.take(i as int) =~= cs);
        entries
    }
}

/// The views of a list of ranges.
pub open spec fn ranges_view(rs: Seq<(usize, usize)>) -> Seq<(int, int)> {
    rs.map_values(|r: (usize, usize)| (r.0 as int, r.1 as int))
}

/// The views of a list of hunk lines.
pub open spec fn hunk_lines_view(ls: Seq<HunkLine>) -> Seq<HunkLineView> {
    ls.map_values(|l: HunkLine| l@)
}

proof fn lemma_first_old_line_step(es: Seq<EntryView>, s: int, e: int)
    requires
        s <= e,
        es[s].old_line is None,
    ensures
        first_old_line(es, s, e) == first_old_line(es, s + 1, e),
{
}

proof fn lemma_first_new_line_step(es: Seq<EntryView>, s: int, e: int)
    requires
        s <= e,
        es[s].new_line is None,
    ensures
        first_new_line(es, s, e) == first_new_line(es, s + 1, e),
{
}

impl UnifiedFormatter {
    fn hunk_over(entries: &Vec<LineEntry>, s: usize, e: usize) -> (h: Hunk)
        requires
            s <= e < entries.len(),
        ensures
            h@ == hunk_of(entries_view(entries@), s as int, e as int),
    {
        let ghost es = entries_view(entries@);
        let mut old_start: usize = 1;
        let mut k: usize = s;
        while k <= e
            invariant_except_break
                old_start == 1,
            invariant
                s <= k <= e + 1,
                e < entries.len(),
                es == entries_view(entries@),
                es.len() == entries@.len(),
                first_old_line(es, s as int, e as int) == first_old_line(es, k as int, e as int),
            ensures
                old_start as nat == first_old_line(es, s as int, e as int),
            decreases e + 1 - k,
        {
            assert(es[k as int] == entries@[k as int]@);
            match entries[k].old_line {
                Some(l) => {
                    old_start = l;
                    break;
                },
                None => {
                    proof { lemma_first_old_line_step(es, k as int, e as int); }
                    k = k + 1;
                },
            }
        }
        let mut new_start: usize = 1;
        let mut k: usize = s;
        while k <= e
            invariant_except_break
                new_start == 1,
            invariant
                s <= k <= e + 1,
                e < entries.len(),
                es == entries_view(entries@),
                es.len() == entries@.len(),
                first_new_line(es, s as int, e as int) == first_new_line(es, k as int, e as int),
            ensures
                new_start as nat == first_new_line(es, s as int, e as int),
            decreases e + 1 - k,
        {
            assert(es[k as int] == entries@[k as int]@);
            match entries[k].new_line {
                Some(l) => {
                    new_start = l;
                    break;
                },
                None => {
                    proof { lemma_first_new_line_step(es, k as int, e as int); }
                    k = k + 1;
                },
            }
        }
        let mut old_count: usize = 0;
        let mut new_count: usize = 0;
        let mut lines: Vec<HunkLine> = Vec::new();
        let mut k: usize = s;
        while k <= e
            invariant
                s <= k <= e + 1,
                e < entries.len(),
                es == entries_view(entries@),
                es.len() == entries@.len(),
                old_count <= k - s,
                new_count <= k - s,
                old_count as nat == count_not(es, s as int, k - 1, HunkLineKind::Add),
                new_count as nat == count_not(es, s as int, k - 1, HunkLineKind::Remove),
                hunk_lines_view(lines@) == es.subrange(s as int, k as int).map_values(|en: EntryView| hunk_line(en)),
            decreases e + 1 - k,
        {
            assert(es[k as int] == entries@[k as int]@);
            let en = &entries[k];
            if en.kind != HunkLineKind::Add {
                old_count = old_count + 1;
            }
            if en.kind != HunkLineKind::Remove {
                new_count = new_count + 1;
            }
            let has_newline = ends_with(en.text.as_str(), "\n");
            let empty = crate::text::str_eq(en.text.as_str(), "");
            proof {
                reveal_strlit("");
                if en.text@.len() == 0 {
                    assert(en.text@ =~= ""@);
                }
            }
            let line = HunkLine { kind: en.kind, text: trim_end_newlines(en.text.as_str()), missing_newline: !has_newline && !empty };
            let ghost before = hunk_lines_view(lines@);
            lines.push(line);
            assert(hunk_lines_view(lines@) =~= before.push(hunk_line(es[k as int])));
            assert(es.subrange(s as int, k + 1).map_values(|en: EntryView| hunk_line(en))
                =~= es.subrange(s as int, k as int).map_values(|en: EntryView| hunk_line(en)).push(hunk_line(es[k as int])));
            k = k + 1;
        }
        let h = Hunk { old_start, old_count, new_start, new_count, lines };
        assert(h@.lines =~= hunk_lines_view(lines@));
        h
    }

    /// Cuts entries into hunks with this formatter's context (see [`hunks_of`]).
    pub fn build_hunks(&self, entries: &Vec<LineEntry>) -> (r: Vec<Hunk>)
        ensures
            hunks_view(r@) == hunks_of(entries_view(entries@), self.context_lines as int),
    {
        let ghost es = entries_view(entries@);
        let ghost ctx = self.context_lines as int;
        let len = entries.len();
        let c = self.context_lines;
        let mut ranges: Vec<(usize, usize)> = Vec::new();
        let mut i: usize = 0;
        while i < len
            invariant
                i <= len == entries.len(),
                es == entries_view(entries@),
                es.len() == len,
                ctx == c as int,
                ranges_view(ranges@) == hunk_ranges(es, ctx, i as int),
                forall|k: int| 0 <= k < ranges@.len() ==> (#[trigger] ranges@[k]).0 <= ranges@[k].1 < len && ranges@[k].0 < i,
            decreases len - i,
        {
            assert(es[i as int] == entries@[i as int]@);
            if entries[i].kind != HunkLineKind::Context {
                let start = if i >= c { i - c } else { 0 };
                let end = if c <= len - 1 - i { i + c } else { len - 1 };
                let n = ranges.len();
                let ghost before = ranges_view(ranges@);
                if n > 0 {
                    assert(ranges@[n - 1].1 < len);
                }
                if n > 0 && start <= ranges[n - 1].1 + 1 {
                    let first = ranges[n - 1].0;
                    ranges.set(n - 1, (first, end));
                    assert(ranges_view(ranges@) =~= before.update(n - 1, (first as int, end as int)));
                } else {
                    ranges.push((start, end));
                    assert(ranges_view(ranges@) =~= before.push((start as int, end as int)));
                }
            }
            i = i + 1;
        }
        let mut hunks: Vec<Hunk> = Vec::new();
        let mut j: usize = 0;
        while j < ranges.len()
            invariant
                j <= ranges.len(),
                es == entries_view(entries@),
                es.len() == entries@.len(),
                ranges_view(ranges@) == hunk_ranges(es, ctx, es.len() as int),
                forall|k: int| 0 <= k < ranges@.len() ==> (#[trigger] ranges@[k]).0 <= ranges@[k].1 < entries@.len(),
                hunks_view(hunks@) == hunk_ranges(es, ctx, es.len() as int).take(j as int).map_values(|r: (int, int)| hunk_of(es, r.0, r.1)),
            decreases ranges.len() - j,
        {
            let (s, e) = ranges[j];
            let h = Self::hunk_over(entries, s, e);
            let ghost before = hunks_view(hunks@);
            hunks.push(h);
            assert(hunks_view(hunks@) =~= before.push(hunk_of(es, s as int, e as int)));
            assert(hunk_ranges(es, ctx, es.len() as int).take(j + 1).map_values(|r: (int, int)| hunk_of(es, r.0, r.1))
                =~= hunk_ranges(es, ctx, es.len() as int).take(j as int).map_values(|r: (int, int)| hunk_of(es, r.0, r.1))
                    .push(hunk_of(es, s as int, e as int)));
            j = j + 1;
        }
        assert(hunk_ranges(es, ctx, es.len() as int).take(j as int) =~= hunk_ranges(es, ctx, es.len() as int));
        hunks
    }

    fn push_hunk(out: &mut String, h: &Hunk)
        ensures
            final(out)@ == old(out)@ + hunk_header(h@) + lines_text(h@.lines),
    {
        push_str(out, "@@ -");
        push_decimal(out, h.old_start as u128);
        push_str(out, ",");
        push_decimal(out, h.old_count as u128);
        push_str(out, " +");
        push_decimal(out, h.new_start as u128);
        push_str(out, ",");
        push_decimal(out, h.new_count as u128);
        push_str(out, " @@\n");
        let ghost head = out@;
        assert(head =~= old(out)@ + hunk_header(h@));
        let mut k: usize = 0;
        while k < h.lines.len()
            invariant
                k <= h.lines.len(),
                out@ == head + lines_text(h@.lines.take(k as int)),
                h@.lines.len() == h.lines@.len(),
            decreases h.lines.len() - k,
        {
            let l = &h.lines[k];
            let ghost before = out@;
            match l.kind {
                HunkLineKind::Context => push_str(out, " "),
                HunkLineKind::Add => push_str(out, "+"),
                HunkLineKind::Remove => push_str(out, "-"),
            }
            push_str(out, l.text.as_str());
            push_str(out, "\n");
            if l.missing_newline {
                push_str(out, "\\ No newline at end of file\n");
            }
            assert(h@.lines[k as int] == l@);
            assert(h@.lines.take(k + 1).drop_last() =~= h@.lines.take(k as int));
            assert(out@ =~= before + line_text(l@));
            k = k + 1;
        }
        assert(h@.lines.take(k as int) =~= h@.lines);
    }

    /// Renders hunks under the `---`/`+++` header (see [`render_spec`]).
    pub fn render_hunks(&self, hunks: &[Hunk]) -> (r: String)
        ensures
            r@ == render_spec(self.old_name@, self.new_name@, hunks_view(hunks@)),
    {
        let mut out = String::new();
        if hunks.len() == 0 {
            assert(out@ =~= Seq::<char>::empty());
            return out;
        }
        push_str(&mut out, "--- ");
        push_str(&mut out, self.old_name.as_str());
        push_str(&mut out, "\n");
        push_str(&mut out, "+++ ");
        push_str(&mut out, self.new_name.as_str());
        push_str(&mut out, "\n");
        let ghost head = out@;
        let ghost hv = hunks_view(hunks@);
        let mut j: usize = 0;
        while j < hunks.len()
            invariant
                j <= hunks.len(),
                hv == hunks_view(hunks@),
                hv.len() == hunks@.len(),
                out@ == head + hunks_text(hv.take(j as int)),
            decreases hunks.len() - j,
        {
            let ghost before = out@;
            Self::push_hunk(&mut out, &hunks[j]);
            assert(hv.take(j + 1).drop_last() =~= hv.take(j as int));
            assert(hv[j as int] == hunks@[j as int]@);
            assert(out@ =~= head + hunks_text(hv.take(j + 1)));
            j = j + 1;
        }
        assert(hv.take(j as int) =~= hv);
        assert(out@ =~= render_spec(self.old_name@, self.new_name@, hv));
        out
    }

    /// The unified text of a line-based diff (see [`text_rendering`]).
    pub fn format_text(&self, result: &DiffResult) -> (r: String)
        ensures
            r@ == text_rendering(self.old_name@, self.new_name@, self.context_lines, result@.changes),
    {
        let entries = Self::text_entries_of(result.changes.as_slice());
        let ghost es = entries_view(entries@);
        let mut all_ctx = true;
        let mut i: usize = 0;
        while i < entries.len()
            invariant
                i <= entries.len(),
                es == entries_view(entries@),
                es.len() == entries@.len(),
                all_ctx == forall|k: int| 0 <= k < i ==> es[k].kind == HunkLineKind::Context,
            decreases entries.len() - i,
        {
            assert(es[i as int] == entries@[i as int]@);
            if entries[i].kind != HunkLineKind::Context {
                all_ctx = false;
            }
            i = i + 1;
        }
        if entries.len() == 0 || all_ctx {
            return String::new();
        }
        let hunks = self.build_hunks(&entries);
        self.render_hunks(hunks.as_slice())
    }

    /// The unified text of a structured diff (see [`structured_rendering`]).
    pub fn format_structured(&self, result: &DiffResult) -> (r: String)
        ensures
            r@ == structured_rendering(self.old_name@, self.new_name@, self.context_lines, result@.changes),
    {
        let ghost cs = result@.changes;
        let mut significant = false;
        let mut i: usize = 0;
        while i < result.changes.len()
            invariant
                i <= result.changes.len(),
                cs == changes_view(result.changes@),
                cs.len() == result.changes@.len(),
                significant == exists|k: int| 0 <= k < i && cs[k].kind != ChangeKind::Unchanged,
            decreases result.changes.len() - i,
        {
            assert(cs[i as int] == result.changes@[i as int]@);
            if result.changes[i].kind != ChangeKind::Unchanged {
                significant = true;
            }
            i = i + 1;
        }
        if !significant {
            return String::new();
        }
        let entries = Self::structured_entries_of(result.changes.as_slice());
        let hunks = self.build_hunks(&entries);
        self.render_hunks(hunks.as_slice())
    }
}

impl OutputFormatter for UnifiedFormatter {
    open spec fn rendering(&self, result: DiffResultView) -> Seq<char> {
        unified_rendering(self.old_name@, self.new_name@, self.context_lines, result.changes)
    }

    fn format(&self, result: &DiffResult) -> (r: String) {
        let ghost cs = result@.changes;
        let mut paths = false;
        let mut i: usize = 0;
        while i < result.changes.len()
            invariant
                i <= result.changes.len(),
                cs == changes_view(result.changes@),
                cs.len() == result.changes@.len(),
                paths == exists|k: int| 0 <= k < i && cs[k].path is Some && cs[k].kind != ChangeKind::Unchanged,
            decreases result.changes.len() - i,
        {
            assert(cs[i as int] == result.changes@[i as int]@);
            if result.changes[i].path.is_some() && result.changes[i].kind != ChangeKind::Unchanged {
                paths = true;
            }
            i = i + 1;
        }
        if paths {
            self.format_structured(result)
        } else {
            self.format_text(result)
        }
    }
}


/// The hunk lines that are not of kind `k`.
pub open spec fn lines_not(ls: Seq<HunkLineView>, k: HunkLineKind) -> nat {
    ls.filter(|l: HunkLineView| l.kind != k).len()
}

proof fn lemma_count_not_lines(es: Seq<EntryView>, s: int, e: int, k: HunkLineKind)
    requires
        0 <= s <= e + 1,
        e < es.len(),
    ensures
        count_not(es, s, e, k) == lines_not(es.subrange(s, e + 1).map_values(|en: EntryView| hunk_line(en)), k),
    decreases e - s + 1,
{
    let ls = es.subrange(s, e + 1).map_values(|en: EntryView| hunk_line(en));
    if s > e {
        assert(ls =~= Seq::<HunkLineView>::empty());
        assert(ls.filter(|l: HunkLineView| l.kind != k) =~= Seq::<HunkLineView>::empty()) by {
            ls.lemma_filter_len(|l: HunkLineView| l.kind != k);
        }
    } else {
        lemma_count_not_lines(es, s, e - 1, k);
        let ls0 = es.subrange(s, e).map_values(|en: EntryView| hunk_line(en));
        assert(ls =~= ls0.push(hunk_line(es[e])));
        ls0.lemma_filter_push(hunk_line(es[e]), |l: HunkLineView| l.kind != k);
    }
}

/// A hunk's counts are those of its lines: on the old side the lines that
/// are context or removals, on the new side those that are context or
/// additions.
pub proof fn law_hunk_counts_match_lines(es: Seq<EntryView>, s: int, e: int)
    requires
        0 <= s <= e < es.len(),
    ensures
        hunk_of(es, s, e).old_count == lines_not(hunk_of(es, s, e).lines, HunkLineKind::Add),
        hunk_of(es, s, e).new_count == lines_not(hunk_of(es, s, e).lines, HunkLineKind::Remove),
        hunk_of(es, s, e).lines.len() == e - s + 1,
{
    lemma_count_not_lines(es, s, e, HunkLineKind::Add);
    lemma_count_not_lines(es, s, e, HunkLineKind::Remove);
}

proof fn lemma_hunk_ranges_valid(es: Seq<EntryView>, ctx: int, n: int)
    requires
        ctx >= 0,
        n <= es.len(),
    ensures
        forall|k: int| 0 <= k < hunk_ranges(es, ctx, n).len() ==> 0 <= (#[trigger] hunk_ranges(es, ctx, n)[k]).0
            <= hunk_ranges(es, ctx, n)[k].1 < es.len() && hunk_ranges(es, ctx, n)[k].0 < n,
    decreases n,
{
    if n > 0 {
        lemma_hunk_ranges_valid(es, ctx, n - 1);
        let rs = hunk_ranges(es, ctx, n - 1);
        let out = hunk_ranges(es, ctx, n);
        if es[n - 1].kind != HunkLineKind::Context {
            let idx = n - 1;
            let len = es.len() as int;
            let start = if idx >= ctx { idx - ctx } else { 0 };
            let end = if idx + ctx <= len - 1 { idx + ctx } else { len - 1 };
            assert(out == merge_range(rs, idx, len, ctx));
            if rs.len() > 0 && start <= rs.last().1 + 1 {
                assert(rs.last() == rs[rs.len() - 1]);
                assert forall|k: int| 0 <= k < out.len() implies 0 <= (#[trigger] out[k]).0 <= out[k].1 < es.len()
                    && out[k].0 < n by {
                    if k < rs.len() - 1 {
                        assert(out[k] == rs[k]);
                    }
                }
            } else {
                assert forall|k: int| 0 <= k < out.len() implies 0 <= (#[trigger] out[k]).0 <= out[k].1 < es.len()
                    && out[k].0 < n by {
                    if k < rs.len() {
                        assert(out[k] == rs[k]);
                    }
                }
            }
        }
    }
}

/// Every hunk the formatter cuts counts, on the old side, its context and
/// removed lines and, on the new side, its context and added lines, so its
/// `@@` header agrees with its body.
pub proof fn law_hunk_headers_agree_with_lines(es: Seq<EntryView>, ctx: int)
    requires
        ctx >= 0,
    ensures
        forall|i: int| 0 <= i < hunks_of(es, ctx).len() ==> (#[trigger] hunks_of(es, ctx)[i]).old_count
            == lines_not(hunks_of(es, ctx)[i].lines, HunkLineKind::Add) && hunks_of(es, ctx)[i].new_count
            == lines_not(hunks_of(es, ctx)[i].lines, HunkLineKind::Remove),
{
    lemma_hunk_ranges_valid(es, ctx, es.len() as int);
    assert forall|i: int| 0 <= i < hunks_of(es, ctx).len() implies (#[trigger] hunks_of(es, ctx)[i]).old_count
        == lines_not(hunks_of(es, ctx)[i].lines, HunkLineKind::Add) && hunks_of(es, ctx)[i].new_count
        == lines_not(hunks_of(es, ctx)[i].lines, HunkLineKind::Remove) by {
        let r = hunk_ranges(es, ctx, es.len() as int)[i];
        law_hunk_counts_match_lines(es, r.0, r.1);
    }
}

} // verus!
