//! Compact inline output: one marked line per change and a summary.
use vstd::prelude::*;

use crate::output::OutputFormatter;
use crate::result::{changes_view, ChangeKind, ChangeView, DiffResult, DiffResultView, DiffStats};
use crate::text::{decimal, opt_or_empty, opt_str, push_decimal, push_str, trim_end_newlines, trim_newlines};

verus! {

/// The inline lines of one change: `[+] value` for an addition, `[-] value`
/// for a removal, `[~] path: old -> new` for a modification with a path (a
/// `[-]` and a `[+]` line without one), and the old value indented by four
/// spaces for an unchanged entry, `[M] path -> new path` for a move and
/// `[R] path -> new path` for a rename; values lose their trailing newlines,
/// except in the `[~]` form.
pub open spec fn inline_change(c: ChangeView) -> Seq<char> {
    let ov = opt_or_empty(c.old_value);
    let nv = opt_or_empty(c.new_value);
    match c.kind {
        ChangeKind::Added => "[+] "@ + trim_newlines(nv) + "\n"@,
        ChangeKind::Removed => "[-] "@ + trim_newlines(ov) + "\n"@,
        ChangeKind::Modified => match c.path {
            Some(p) => "[~] "@ + p + ": "@ + ov + " -> "@ + nv + "\n"@,
            None => "[-] "@ + trim_newlines(ov) + "\n"@ + "[+] "@ + trim_newlines(nv) + "\n"@,
        },
        ChangeKind::Unchanged => "    "@ + trim_newlines(ov) + "\n"@,
        ChangeKind::Moved => "[M] "@ + opt_or_empty(c.path) + " -> "@ + nv + "\n"@,
        ChangeKind::Renamed => "[R] "@ + opt_or_empty(c.path) + " -> "@ + nv + "\n"@,
    }
}

/// The inline lines of a list of changes.
pub open spec fn inline_changes(cs: Seq<ChangeView>) -> Seq<char>
    decreases cs.len(),
{
    if cs.len() == 0 {
        Seq::empty()
    } else {
        inline_changes(cs.drop_last()) + inline_change(cs.last())
    }
}

/// The summary line after a blank line.
pub open spec fn inline_summary(st: DiffStats) -> Seq<char> {
    "\n"@ + decimal(st.additions as nat) + " addition(s), "@ + decimal(st.deletions as nat) + " deletion(s), "@
        + decimal(st.modifications as nat) + " modification(s)\n"@
}

/// Renders diffs compactly, one marked line per change.
pub struct InlineFormatter;

fn push_marked(out: &mut String, marker: &str, value: &str)
    ensures
        final(out)@ == old(out)@ + marker@ + trim_newlines(value@) + "\n"@,
{
    push_str(out, marker);
    let v = trim_end_newlines(value);
    push_str(out, v.as_str());
    push_str(out, "\n");
}

impl OutputFormatter for InlineFormatter {
    open spec fn rendering(&self, result: DiffResultView) -> Seq<char> {
        inline_changes(result.changes) + inline_summary(result.stats)
    }

    fn format(&self, result: &DiffResult) -> (r: String) {
        let ghost cs = result@.changes;
        let mut out = String::new();
        let mut i: usize = 0;
        while i < result.changes.len()
            invariant
                i <= result.changes.len(),
                cs == changes_view(result.changes@),
                cs.len() == result.changes@.len(),
                out@ == inline_changes(cs.take(i as int)),
            decreases result.changes.len() - i,
        {
            proof {
                assert(cs.take(i + 1).drop_last() =~= cs.take(i as int));
                assert(cs[i as int] == result.changes@[i as int]@);
            }
            let ghost before = out@;
            let c = &result.changes[i];
            let ov = opt_str(&c.old_value);
            let nv = opt_str(&c.new_value);
            match c.kind {
                ChangeKind::Added => push_marked(&mut out, "[+] ", nv),
                ChangeKind::Removed => push_marked(&mut out, "[-] ", ov),
                ChangeKind::Modified => match &c.path {
                    Some(p) => {
                        push_str(&mut out, "[~] ");
                        push_str(&mut out, p.as_str());
                        push_str(&mut out, ": ");
                        push_str(&mut out, ov);
                        push_str(&mut out, " -> ");
                        push_str(&mut out, nv);
                        push_str(&mut out, "\n");
                    },
                    None => {
                        push_marked(&mut out, "[-] ", ov);
                        push_marked(&mut out, "[+] ", nv);
                    },
                },
                ChangeKind::Unchanged => push_marked(&mut out, "    ", ov),
                ChangeKind::Moved | ChangeKind::Renamed => {
                    push_str(&mut out, if c.kind == ChangeKind::Moved { "[M] " } else { "[R] " });
                    push_str(&mut out, opt_str(&c.path));
                    push_str(&mut out, " -> ");
                    push_str(&mut out, nv);
                    push_str(&mut out, "\n");
                },
            }
            assert(out@ =~= before + inline_change(cs[i as int]));
            i = i + 1;
        }
        assert(cs.take(i as int) =~= cs);
        let ghost body = out@;
        push_str(&mut out, "\n");
        push_decimal(&mut out, result.stats.additions as u128);
        push_str(&mut out, " addition(s), ");
        push_decimal(&mut out, result.stats.deletions as u128);
        push_str(&mut out, " deletion(s), ");
        push_decimal(&mut out, result.stats.modifications as u128);
        push_str(&mut out, " modification(s)\n");
        assert(out@ =~= body + inline_summary(result.stats));
        out
    }
}

} // verus!
