//! A chain of mutations of one document: every state kept with its SHA-1
//! content hash, with undo and redo, composition, and git-like expressions
//! (`HEAD~2`, `@1`, `ORIG`, a hash prefix) to name states.
use vstd::prelude::*;

use sha1::{Digest, Sha1};

use crate::dir::{extension_of, path_extension};
use crate::engine::{diff_with_kind, kind_diff_ok};
use crate::options::{structured_kind, structured_of_extension};
use crate::error::GudfError;
use crate::format::{FormatKind, FormatKindView};
use crate::formats::text::{original_text, rebuilt_text};
use crate::output::unified::UnifiedFormatter;
use crate::output::OutputFormatter;
use crate::patch::{outcome_matches, patch_as, patch_outcome, PatchOutcome};
use crate::result::{changes_view, copy_changes, stats_of, Change, ChangeKind, ChangeView, DiffResult, DiffResultView, DiffStats};
use crate::text::{
    chars_of, eq_ignore_ascii, eq_ignore_ascii_case, has_prefix, hex_byte, opt_or_empty, opt_view, owned, parse_usize_range,
    parse_usize_spec, push_hex_byte, push_str, string_from_range, starts_with, to_lowercase, trim, unicode_lowercase, unicode_trim,
};

verus! {

/// The SHA-1 digest of a text's UTF-8 bytes.
pub uninterp spec fn sha1_digest(text: Seq<char>) -> Seq<u8>;

/// Hashes a text's UTF-8 bytes with `sha1::Sha1` (`new`, `update`,
/// `finalize`). Claims only that the digest is the SHA-1 of the text.
#[verifier::external_body]
fn sha1_of(content: &str) -> (r: [u8; 20])
    ensures
        r@ == sha1_digest(content@),
{
    let mut hasher = Sha1::new();
    hasher.update(content.as_bytes());
    hasher.finalize().into()
}

/// The lowercase hex text of some bytes, two digits a byte.
pub open spec fn hex_text(bytes: Seq<u8>) -> Seq<char>
    decreases bytes.len(),
{
    if bytes.len() == 0 {
        Seq::empty()
    } else {
        hex_text(bytes.drop_last()) + hex_byte(bytes.last())
    }
}

proof fn lemma_hex_text_len(bytes: Seq<u8>)
    ensures
        hex_text(bytes).len() == 2 * bytes.len(),
    decreases bytes.len(),
{
    if bytes.len() > 0 {
        lemma_hex_text_len(bytes.drop_last());
    }
}

/// The SHA-1 hash of a document state, as git names its objects.
#[derive(Debug, Clone, PartialEq, Eq, Hash)]
pub struct ContentSha([u8; 20]);

impl ContentSha {
    /// The digest bytes.
    pub closed spec fn digest(&self) -> Seq<u8> {
        self.0@
    }

    /// The hash of a text.
    pub fn from_content(content: &str) -> (r: ContentSha)
        ensures
            r.digest() == sha1_digest(content@),
    {
        ContentSha(sha1_of(content))
    }

    /// The 40 hex digits of the hash.
    pub fn full(&self) -> (r: String)
        ensures
            r@ == hex_text(self.digest()),
            r@.len() == 40,
    {
        let mut s = String::new();
        let mut i: usize = 0;
        while i < 20
            invariant
                i <= 20,
                self.0@.len() == 20,
                s@ == hex_text(self.0@.take(i as int)),
            decreases 20 - i,
        {
            push_hex_byte(&mut s, self.0[i]);
            assert(self.0@.take(i + 1).drop_last() =~= self.0@.take(i as int));
            i = i + 1;
        }
        assert(self.0@.take(20) =~= self.0@);
        proof { lemma_hex_text_len(self.0@); }
        s
    }

    /// The first 7 hex digits of the hash.
    pub fn short(&self) -> (r: String)
        ensures
            r@ == hex_text(self.digest()).take(7),
    {
        let full = self.full();
        let v = chars_of(full.as_str());
        string_from_range(&v, 0, 7)
    }

    /// Whether the hex text of the hash starts with `prefix`.
    pub fn matches_prefix(&self, prefix: &str) -> (r: bool)
        ensures
            r == has_prefix(hex_text(self.digest()), prefix@),
    {
        let full = self.full();
        starts_with(full.as_str(), prefix)
    }

    /// The digest bytes.
    pub fn as_bytes(&self) -> (r: &[u8; 20])
        ensures
            r@ == self.digest(),
    {
        &self.0
    }

    /// The text a hash is shown as: its short form.
    pub fn display(&self) -> (r: String)
        ensures
            r@ == hex_text(self.digest()).take(7),
    {
        self.short()
    }

    /// A copy of this hash.
    pub fn duplicate(&self) -> (r: ContentSha)
        ensures
            r.digest() == self.digest(),
    {
        ContentSha(self.0)
    }
}

/// A state reached by one mutation.
#[derive(Debug, Clone)]
pub struct MutationState {
    /// The document after the mutation.
    pub document: String,
    /// The hash of the document.
    pub sha: ContentSha,
    /// The diff that was applied to reach it.
    pub diff: DiffResult,
}

/// The mathematical content of a [`MutationState`].
pub struct StateView {
    pub document: Seq<char>,
    pub sha: Seq<u8>,
    pub diff: DiffResultView,
}

impl View for MutationState {
    type V = StateView;

    open spec fn view(&self) -> StateView {
        StateView { document: self.document@, sha: self.sha.digest(), diff: self.diff@ }
    }
}

/// The views of a list of states.
pub open spec fn states_view(s: Seq<MutationState>) -> Seq<StateView> {
    s.map_values(|x: MutationState| x@)
}

/// A state's hash is the hash of its document.
pub open spec fn state_hashed(s: StateView) -> bool {
    s.sha == sha1_digest(s.document)
}

/// One entry of the log of a chain.
#[derive(Debug, Clone)]
pub struct LogEntry {
    /// The step (0 is the original).
    pub step: usize,
    /// The hash of the document at this step.
    pub sha: ContentSha,
    /// The statistics of the diff applied at this step (none for the original).
    pub stats: Option<DiffStats>,
}

/// The mathematical content of a [`MutationChain`]: the original document,
/// the format, the states reached (step 1 on) and the undone states (the last
/// undone last).
pub struct ChainView {
    pub original: Seq<char>,
    pub format: FormatKindView,
    pub states: Seq<StateView>,
    pub redo: Seq<StateView>,
}

/// The document at `step` (0 is the original), if there is one.
pub open spec fn doc_at(v: ChainView, step: int) -> Option<Seq<char>> {
    if step == 0 {
        Some(v.original)
    } else if 1 <= step <= v.states.len() {
        Some(v.states[step - 1].document)
    } else {
        None
    }
}

/// The current document: that of the last state, or the original.
pub open spec fn current_doc(v: ChainView) -> Seq<char> {
    if v.states.len() == 0 { v.original } else { v.states.last().document }
}

/// The chain after one undo: the last state moves to the redo stack.
pub open spec fn undo_spec(v: ChainView) -> ChainView {
    if v.states.len() == 0 {
        v
    } else {
        ChainView { original: v.original, format: v.format, states: v.states.drop_last(), redo: v.redo.push(v.states.last()) }
    }
}

/// The chain after one redo: the last undone state comes back.
pub open spec fn redo_spec(v: ChainView) -> ChainView {
    if v.redo.len() == 0 {
        v
    } else {
        ChainView { original: v.original, format: v.format, states: v.states.push(v.redo.last()), redo: v.redo.drop_last() }
    }
}

/// The chain after `n` undos (fewer when the states run out).
pub open spec fn undo_n_spec(v: ChainView, n: nat) -> ChainView
    decreases n,
{
    if n == 0 { v } else { undo_n_spec(undo_spec(v), (n - 1) as nat) }
}

/// The chain after `n` redos (fewer when the redo stack runs out).
pub open spec fn redo_n_spec(v: ChainView, n: nat) -> ChainView
    decreases n,
{
    if n == 0 { v } else { redo_n_spec(redo_spec(v), (n - 1) as nat) }
}

/// A chain of mutations of one document.
#[derive(Debug, Clone)]
pub struct MutationChain {
    original: String,
    original_sha: ContentSha,
    format: FormatKind,
    states: Vec<MutationState>,
    redo_stack: Vec<MutationState>,
}

impl View for MutationChain {
    type V = ChainView;

    closed spec fn view(&self) -> ChainView {
        ChainView {
            original: self.original@,
            format: self.format@,
            states: states_view(self.states@),
            redo: states_view(self.redo_stack@),
        }
    }
}

impl MutationChain {
    /// The chain is well formed: every hash is the hash of its document.
    pub closed spec fn inv(&self) -> bool {
        &&& self.original_sha.digest() == sha1_digest(self.original@)
        &&& forall|i: int| 0 <= i < self.states@.len() ==> state_hashed(#[trigger] self.states@[i]@)
        &&& forall|i: int| 0 <= i < self.redo_stack@.len() ==> state_hashed(#[trigger] self.redo_stack@[i]@)
    }

    /// A chain that starts from `original`, of the given format.
    pub fn new(original: &str, format: FormatKind) -> (r: MutationChain)
        ensures
            r@.original == original@,
            r@.format == format@,
            r@.states.len() == 0,
            r@.redo.len() == 0,
            r.inv(),
    {
        let original = owned(original);
        let original_sha = ContentSha::from_content(original.as_str());
        MutationChain { original, original_sha, format, states: Vec::new(), redo_stack: Vec::new() }
    }

    /// The current document (after all mutations, or the original).
    pub fn current(&self) -> (r: &str)
        ensures
            r@ == current_doc(self@),
    {
        if self.states.len() == 0 {
            self.original.as_str()
        } else {
            self.states[self.states.len() - 1].document.as_str()
        }
    }

    /// The original document.
    pub fn original(&self) -> (r: &str)
        ensures
            r@ == self@.original,
    {
        self.original.as_str()
    }

    /// The document at `step` (0 is the original).
    pub fn at(&self, step: usize) -> (r: Option<&str>)
        ensures
            match doc_at(self@, step as int) {
                Some(d) => r matches Some(x) && x@ == d,
                None => r is None,
            },
    {
        if step == 0 {
            Some(self.original.as_str())
        } else if step - 1 < self.states.len() {
            Some(self.states[step - 1].document.as_str())
        } else {
            None
        }
    }

    /// The diff applied at `step` (none for the original).
    pub fn diff_at(&self, step: usize) -> (r: Option<&DiffResult>)
        ensures
            1 <= step <= self@.states.len() ==> (r matches Some(d) && d@ == self@.states[step - 1].diff),
            !(1 <= step <= self@.states.len()) ==> r is None,
    {
        if step == 0 {
            None
        } else if step - 1 < self.states.len() {
            Some(&self.states[step - 1].diff)
        } else {
            None
        }
    }

    /// The number of mutations applied.
    pub fn len(&self) -> (r: usize)
        ensures
            r == self@.states.len(),
    {
        self.states.len()
    }

    /// Whether no mutation has been applied.
    pub fn is_empty(&self) -> (r: bool)
        ensures
            r == (self@.states.len() == 0),
    {
        self.states.len() == 0
    }

    /// The states reached, in order.
    pub fn states(&self) -> (r: &[MutationState])
        ensures
            states_view(r@) == self@.states,
    {
        self.states.as_slice()
    }

    /// Every document from the original to the current one.
    pub fn history(&self) -> (r: Vec<&str>)
        ensures
            r@.len() == self@.states.len() + 1,
            forall|i: int| 0 <= i < r@.len() ==> doc_at(self@, i) == Some(#[trigger] r@[i]@),
    {
        let mut h: Vec<&str> = Vec::new();
        h.push(self.original.as_str());
        let mut i: usize = 0;
        while i < self.states.len()
            invariant
                i <= self.states.len(),
                h@.len() == i + 1,
                forall|k: int| 0 <= k < h@.len() ==> doc_at(self@, k) == Some(#[trigger] h@[k]@),
            decreases self.states.len() - i,
        {
            h.push(self.states[i].document.as_str());
            i = i + 1;
        }
        h
    }

    /// Every applied diff, in order.
    pub fn diffs(&self) -> (r: Vec<&DiffResult>)
        ensures
            r@.len() == self@.states.len(),
            forall|i: int| 0 <= i < r@.len() ==> (#[trigger] r@[i])@ == self@.states[i].diff,
    {
        let mut d: Vec<&DiffResult> = Vec::new();
        let mut i: usize = 0;
        while i < self.states.len()
            invariant
                i <= self.states.len(),
                d@.len() == i,
                forall|k: int| 0 <= k < i ==> (#[trigger] d@[k])@ == self@.states[k].diff,
            decreases self.states.len() - i,
        {
            d.push(&self.states[i].diff);
            i = i + 1;
        }
        d
    }

    /// The hash of the original document.
    pub fn original_sha(&self) -> (r: &ContentSha)
        requires
            self.inv(),
        ensures
            r.digest() == sha1_digest(self@.original),
    {
        &self.original_sha
    }

    /// The hash of the current document.
    pub fn current_sha(&self) -> (r: &ContentSha)
        requires
            self.inv(),
        ensures
            r.digest() == sha1_digest(current_doc(self@)),
    {
        if self.states.len() == 0 {
            &self.original_sha
        } else {
            assert(state_hashed(self.states@[self.states.len() - 1]@));
            &self.states[self.states.len() - 1].sha
        }
    }

    /// The hash of the document at `step` (0 is the original).
    pub fn sha_at(&self, step: usize) -> (r: Option<&ContentSha>)
        requires
            self.inv(),
        ensures
            match doc_at(self@, step as int) {
                Some(d) => r matches Some(s) && s.digest() == sha1_digest(d),
                None => r is None,
            },
    {
        if step == 0 {
            Some(&self.original_sha)
        } else if step - 1 < self.states.len() {
            assert(state_hashed(self.states@[step - 1]@));
            Some(&self.states[step - 1].sha)
        } else {
            None
        }
    }

    /// The hashes of every document from the original to the current one.
    pub fn shas(&self) -> (r: Vec<&ContentSha>)
        requires
            self.inv(),
        ensures
            r@.len() == self@.states.len() + 1,
            forall|i: int| 0 <= i < r@.len() ==> (doc_at(self@, i) matches Some(d) && (#[trigger] r@[i]).digest() == sha1_digest(d)),
    {
        let mut v: Vec<&ContentSha> = Vec::new();
        v.push(&self.original_sha);
        let mut i: usize = 0;
        while i < self.states.len()
            invariant
                i <= self.states.len(),
                v@.len() == i + 1,
                forall|k: int| 0 <= k < self.states@.len() ==> state_hashed(#[trigger] self.states@[k]@),
                self.original_sha.digest() == sha1_digest(self.original@),
                forall|k: int| 0 <= k < v@.len() ==> (doc_at(self@, k) matches Some(d) && (#[trigger] v@[k]).digest() == sha1_digest(d)),
            decreases self.states.len() - i,
        {
            assert(state_hashed(self.states@[i as int]@));
            v.push(&self.states[i].sha);
            i = i + 1;
        }
        v
    }

    // ── Undo and redo ──────────────────────────────────────────────────

    /// Undoes the last mutation, keeping it for redo; `false` when there is none.
    pub fn undo(&mut self) -> (r: bool)
        requires
            old(self).inv(),
        ensures
            final(self).inv(),
            r == (old(self)@.states.len() > 0),
            final(self)@ == undo_spec(old(self)@),
    {
        match self.states.pop() {
            Some(state) => {
                self.redo_stack.push(state);
                assert(self@.states =~= undo_spec(old(self)@).states);
                assert(self@.redo =~= undo_spec(old(self)@).redo);
                true
            },
            None => false,
        }
    }

    /// Redoes the last undone mutation; `false` when there is none.
    pub fn redo(&mut self) -> (r: bool)
        requires
            old(self).inv(),
        ensures
            final(self).inv(),
            r == (old(self)@.redo.len() > 0),
            final(self)@ == redo_spec(old(self)@),
    {
        match self.redo_stack.pop() {
            Some(state) => {
                self.states.push(state);
                assert(self@.states =~= redo_spec(old(self)@).states);
                assert(self@.redo =~= redo_spec(old(self)@).redo);
                true
            },
            None => false,
        }
    }

    /// Undoes up to `n` mutations; returns how many were undone.
    pub fn undo_n(&mut self, n: usize) -> (r: usize)
        requires
            old(self).inv(),
        ensures
            final(self).inv(),
            r as int == if n <= old(self)@.states.len() { n as int } else { old(self)@.states.len() as int },
            final(self)@ == undo_n_spec(old(self)@, n as nat),
    {
        let ghost start = self@;
        let mut count: usize = 0;
        while count < n
            invariant_except_break
                count <= n,
                count <= start.states.len(),
                self@ == undo_n_spec(start, count as nat),
                self.inv(),
            ensures
                count as int == if n <= start.states.len() { n as int } else { start.states.len() as int },
                self@ == undo_n_spec(start, n as nat),
                self.inv(),
            decreases n - count,
        {
            proof { lemma_undo_n_len(start, count as nat); }
            if self.undo() {
                proof { lemma_undo_n_step(start, count as nat); }
                count = count + 1;
            } else {
                proof { lemma_undo_n_stuck(start, count as nat, n as nat); }
                break;
            }
        }
        count
    }

    /// Redoes up to `n` mutations; returns how many were redone.
    pub fn redo_n(&mut self, n: usize) -> (r: usize)
        requires
            old(self).inv(),
        ensures
            final(self).inv(),
            r as int == if n <= old(self)@.redo.len() { n as int } else { old(self)@.redo.len() as int },
            final(self)@ == redo_n_spec(old(self)@, n as nat),
    {
        let ghost start = self@;
        let mut count: usize = 0;
        while count < n
            invariant_except_break
                count <= n,
                count <= start.redo.len(),
                self@ == redo_n_spec(start, count as nat),
                self.inv(),
            ensures
                count as int == if n <= start.redo.len() { n as int } else { start.redo.len() as int },
                self@ == redo_n_spec(start, n as nat),
                self.inv(),
            decreases n - count,
        {
            proof { lemma_redo_n_len(start, count as nat); }
            if self.redo() {
                proof { lemma_redo_n_step(start, count as nat); }
                count = count + 1;
            } else {
                proof { lemma_redo_n_stuck(start, count as nat, n as nat); }
                break;
            }
        }
        count
    }

    /// Redoes every undone mutation; returns how many.
    pub fn redo_all(&mut self) -> (r: usize)
        requires
            old(self).inv(),
        ensures
            final(self).inv(),
            r == old(self)@.redo.len(),
            final(self)@ == redo_n_spec(old(self)@, old(self)@.redo.len()),
    {
        let n = self.redo_stack.len();
        self.redo_n(n)
    }

    /// Whether there is a mutation to undo.
    pub fn can_undo(&self) -> (r: bool)
        ensures
            r == (self@.states.len() > 0),
    {
        self.states.len() > 0
    }

    /// Whether there is a mutation to redo.
    pub fn can_redo(&self) -> (r: bool)
        ensures
            r == (self@.redo.len() > 0),
    {
        self.redo_stack.len() > 0
    }

    /// The number of mutations that can be redone.
    pub fn redo_len(&self) -> (r: usize)
        ensures
            r == self@.redo.len(),
    {
        self.redo_stack.len()
    }

    /// Undoes back to `step` (0 is the original); nothing when the chain is
    /// not past it.
    pub fn rewind(&mut self, step: usize)
        requires
            old(self).inv(),
        ensures
            final(self).inv(),
            final(self)@ == undo_n_spec(old(self)@, if old(self)@.states.len() > step { (old(self)@.states.len() - step) as nat } else { 0 }),
    {
        let ghost start = self@;
        let ghost target: nat = if start.states.len() > step { (start.states.len() - step) as nat } else { 0 };
        let ghost mut done: nat = 0;
        while self.states.len() > step
            invariant
                done <= target,
                self.inv(),
                self@ == undo_n_spec(start, done),
                self@.states.len() == start.states.len() - done,
                start.states.len() > step ==> target == start.states.len() - step,
                start.states.len() <= step ==> done == 0,
            decreases self@.states.len(),
        {
            proof { lemma_undo_n_len(start, done); }
            let ok = self.undo();
            proof {
                lemma_undo_n_step(start, done);
                done = done + 1;
            }
        }
    }
}

/// What applying a diff's changes to `base` comes to: the rebuilt text for
/// text and code, else the patched document.
pub open spec fn apply_outcome(base: Seq<char>, format: FormatKindView, cs: Seq<ChangeView>) -> PatchOutcome {
    match format {
        FormatKindView::Text | FormatKindView::Code(_) => PatchOutcome::Done(rebuilt_text(cs)),
        _ => patch_outcome(format, base, cs),
    }
}

/// `e` is the error that a failed outcome `o` describes.
pub open spec fn outcome_error(e: GudfError, o: PatchOutcome) -> bool {
    match o {
        PatchOutcome::Done(_) => false,
        PatchOutcome::Unreadable => e is ParseError,
        PatchOutcome::PathFailed(m) => e matches GudfError::PatchError(x) && x@ == m,
        PatchOutcome::Unprintable => e is PatchError,
    }
}

/// The chain with a new state for `doc` reached by `diff`; nothing left to redo.
pub open spec fn mutated(v: ChainView, doc: Seq<char>, diff: DiffResultView) -> ChainView {
    ChainView {
        original: v.original,
        format: v.format,
        states: v.states.push(StateView { document: doc, sha: sha1_digest(doc), diff }),
        redo: Seq::empty(),
    }
}

/// What composing all mutations gives: an empty diff when there are none,
/// else the diff of the original and the current document in the chain's
/// format (see [`kind_diff_ok`]).
pub open spec fn compose_ok(v: ChainView, r: Result<DiffResult, GudfError>) -> bool {
    if v.states.len() == 0 {
        r matches Ok(d) && d@.changes.len() == 0 && d@.format == v.format && stats_of(d@.changes, d.stats)
    } else {
        kind_diff_ok(v.format, v.original, current_doc(v), r)
    }
}

/// What the diff between the documents at two steps gives: the diff in the
/// chain's format (see [`kind_diff_ok`]); a patch error for a step that does
/// not exist.
pub open spec fn compose_range_ok(v: ChainView, from: int, to: int, r: Result<DiffResult, GudfError>) -> bool {
    match (doc_at(v, from), doc_at(v, to)) {
        (Some(a), Some(b)) => kind_diff_ok(v.format, a, b, r),
        _ => r matches Err(GudfError::PatchError(_)),
    }
}

/// Two diff results that say the same: both succeed with the same changes,
/// format and statistics, or both fail.
pub open spec fn same_diff(r1: Result<DiffResult, GudfError>, r2: Result<DiffResult, GudfError>) -> bool {
    match (r1, r2) {
        (Ok(x), Ok(y)) => x@ == y@ && x.stats == y.stats,
        (Err(_), Err(_)) => true,
        _ => false,
    }
}

proof fn lemma_stats_determined(cs: Seq<ChangeView>, a: DiffStats, b: DiffStats)
    requires
        stats_of(cs, a),
        stats_of(cs, b),
    ensures
        a == b,
{
}

proof fn lemma_kind_diff_determined(
    kind: FormatKindView,
    old: Seq<char>,
    new: Seq<char>,
    r1: Result<DiffResult, GudfError>,
    r2: Result<DiffResult, GudfError>,
)
    requires
        kind_diff_ok(kind, old, new, r1),
        kind_diff_ok(kind, old, new, r2),
    ensures
        same_diff(r1, r2),
{
    match (r1, r2) {
        (Ok(x), Ok(y)) => {
            lemma_stats_determined(x@.changes, x.stats, y.stats);
            assert(x@ =~~= y@);
        },
        _ => {},
    }
}

/// Composing a chain gives one diff: two results of `compose` say the same.
/// So what `squash` stores is what `compose` gives.
pub proof fn law_compose_is_determined(v: ChainView, r1: Result<DiffResult, GudfError>, r2: Result<DiffResult, GudfError>)
    requires
        compose_ok(v, r1),
        compose_ok(v, r2),
    ensures
        same_diff(r1, r2),
{
    if v.states.len() == 0 {
        let x = r1.unwrap();
        let y = r2.unwrap();
        lemma_stats_determined(x@.changes, x.stats, y.stats);
        assert(x@.changes =~= y@.changes);
        assert(x@ =~~= y@);
    } else {
        lemma_kind_diff_determined(v.format, v.original, current_doc(v), r1, r2);
    }
}

/// The sum of one statistic over some states.
pub open spec fn stat_sum(states: Seq<StateView>, f: spec_fn(DiffStats) -> usize) -> nat
    decreases states.len(),
{
    if states.len() == 0 {
        0
    } else {
        stat_sum(states.drop_last(), f) + f(states.last().diff.stats) as nat
    }
}

/// Every sum of statistics over the states fits in a `usize`.
pub open spec fn stat_sums_fit(states: Seq<StateView>) -> bool {
    &&& stat_sum(states, |s: DiffStats| s.additions) <= usize::MAX
    &&& stat_sum(states, |s: DiffStats| s.deletions) <= usize::MAX
    &&& stat_sum(states, |s: DiffStats| s.modifications) <= usize::MAX
    &&& stat_sum(states, |s: DiffStats| s.moves) <= usize::MAX
    &&& stat_sum(states, |s: DiffStats| s.renames) <= usize::MAX
}

proof fn lemma_stat_sum_prefix(states: Seq<StateView>, f: spec_fn(DiffStats) -> usize, i: int)
    requires
        0 <= i <= states.len(),
    ensures
        stat_sum(states.take(i), f) <= stat_sum(states, f),
    decreases states.len() - i,
{
    if i < states.len() {
        lemma_stat_sum_prefix(states, f, i + 1);
        assert(states.take(i + 1).drop_last() =~= states.take(i));
    } else {
        assert(states.take(i) =~= states);
    }
}

/// The text the changes rebuild: the new value of every change that is not
/// a removal (see [`rebuilt_text`]).
pub fn reconstruct_text(changes: &[Change]) -> (r: String)
    ensures
        r@ == rebuilt_text(changes_view(changes@)),
{
    let ghost cs = changes_view(changes@);
    let mut out = String::new();
    let mut i: usize = 0;
    while i < changes.len()
        invariant
            i <= changes.len(),
            cs == changes_view(changes@),
            cs.len() == changes@.len(),
            out@ == rebuilt_text(cs.take(i as int)),
        decreases changes.len() - i,
    {
        proof {
            assert(cs.take(i + 1).drop_last() =~= cs.take(i as int));
            assert(cs[i as int] == changes@[i as int]@);
        }
        let ghost before = out@;
        if changes[i].kind != ChangeKind::Removed {
            match &changes[i].new_value {
                Some(v) => push_str(&mut out, v.as_str()),
                None => {},
            }
        }
        assert(out@ =~= rebuilt_text(cs.take(i + 1)));
        i = i + 1;
    }
    assert(cs.take(i as int) =~= cs);
    out
}

/// Applies a diff's changes to `base` (see [`apply_outcome`]).
pub fn apply_diff(base: &str, format: &FormatKind, diff: &DiffResult) -> (r: Result<String, GudfError>)
    ensures
        outcome_matches(r, apply_outcome(base@, format@, diff@.changes)),
{
    match format {
        FormatKind::Text | FormatKind::Code(_) => Ok(reconstruct_text(diff.changes.as_slice())),
        _ => patch_as(format.duplicate(), base, diff.changes.as_slice()),
    }
}

/// The format of a chain read from a file: the structured format its
/// extension names (in any case), else text.
pub open spec fn chain_format_of(path: Seq<char>) -> FormatKindView {
    match structured_of_extension(unicode_lowercase(path_extension(path))) {
        Some(k) => k,
        None => FormatKindView::Text,
    }
}

/// The format of a chain read from the file at `path` (see [`chain_format_of`]).
pub fn format_from_extension(path: &str) -> (r: FormatKind)
    ensures
        r@ == chain_format_of(path@),
{
    let ext = extension_of(path);
    let lower = to_lowercase(ext.as_str());
    match structured_kind(lower.as_str()) {
        Some(k) => k,
        None => FormatKind::Text,
    }
}

impl MutationChain {
    fn push_state(&mut self, document: String, diff: DiffResult)
        requires
            old(self).inv(),
        ensures
            final(self).inv(),
            final(self)@ == mutated(old(self)@, document@, diff@),
    {
        let sha = ContentSha::from_content(document.as_str());
        self.redo_stack.clear();
        let ghost dv = document@;
        self.states.push(MutationState { document, sha, diff });
        assert(self@.states =~= mutated(old(self)@, dv, diff@).states);
        assert(self@.redo =~= Seq::<StateView>::empty());
    }

    /// Applies `diff` to the current document as the next mutation, which
    /// clears what could be redone; returns the new document.
    pub fn mutate(&mut self, diff: &DiffResult) -> (r: Result<&str, GudfError>)
        requires
            old(self).inv(),
        ensures
            final(self).inv(),
            match apply_outcome(current_doc(old(self)@), old(self)@.format, diff@.changes) {
                PatchOutcome::Done(d) => r matches Ok(x) && x@ == d && final(self)@ == mutated(old(self)@, d, diff@),
                o => r matches Err(e) && outcome_error(e, o) && final(self)@ == old(self)@,
            },
    {
        let document = match apply_diff(self.current(), &self.format, diff) {
            Ok(d) => d,
            Err(e) => return Err(e),
        };
        let ghost dv = document@;
        self.push_state(document, diff.duplicate());
        let n = self.states.len();
        assert(states_view(self.states@).len() == self.states@.len());
        assert(states_view(self.states@)[n - 1] == self.states@[n - 1]@);
        Ok(self.states[n - 1].document.as_str())
    }

    /// Diffs the current document against `new_content` in this chain's
    /// format (see [`kind_diff_ok`]), and applies that diff as the next
    /// mutation; returns the new document.
    pub fn mutate_to(&mut self, new_content: &str) -> (r: Result<&str, GudfError>)
        requires
            old(self).inv(),
        ensures
            final(self).inv(),
            exists|d: Result<DiffResult, GudfError>|
                #[trigger] kind_diff_ok(old(self)@.format, current_doc(old(self)@), new_content@, d) && match d {
                    Err(e) => r == Err::<&str, GudfError>(e) && final(self)@ == old(self)@,
                    Ok(x) => match apply_outcome(current_doc(old(self)@), old(self)@.format, x@.changes) {
                        PatchOutcome::Done(doc) => r matches Ok(s) && s@ == doc && final(self)@ == mutated(old(self)@, doc, x@),
                        o => r matches Err(e) && outcome_error(e, o) && final(self)@ == old(self)@,
                    },
                },
    {
        let d = diff_with_kind(&self.format, self.current(), new_content);
        let ghost dv = d;
        proof {
            assert(kind_diff_ok(old(self)@.format, current_doc(old(self)@), new_content@, dv));
        }
        match d {
            Err(e) => Err(e),
            Ok(x) => self.mutate(&x),
        }
    }

    /// Applies raw changes to the current document as the next mutation (a
    /// diff of this chain's format over them), which clears what could be
    /// redone; returns the new document.
    pub fn apply(&mut self, changes: &[Change]) -> (r: Result<&str, GudfError>)
        requires
            old(self).inv(),
        ensures
            final(self).inv(),
            match apply_outcome(current_doc(old(self)@), old(self)@.format, changes_view(changes@)) {
                PatchOutcome::Done(d) => r matches Ok(x) && x@ == d
                    && final(self)@ == mutated(old(self)@, d, final(self)@.states.last().diff)
                    && final(self)@.states.last().diff.changes == changes_view(changes@)
                    && final(self)@.states.last().diff.format == old(self)@.format
                    && stats_of(changes_view(changes@), final(self)@.states.last().diff.stats),
                o => r matches Err(e) && outcome_error(e, o) && final(self)@ == old(self)@,
            },
    {
        let diff = DiffResult::from_changes(copy_changes(changes), self.format.duplicate());
        let document = match apply_diff(self.current(), &self.format, &diff) {
            Ok(d) => d,
            Err(e) => return Err(e),
        };
        self.push_state(document, diff);
        let n = self.states.len();
        assert(states_view(self.states@).len() == self.states@.len());
        assert(states_view(self.states@)[n - 1] == self.states@[n - 1]@);
        Ok(self.states[n - 1].document.as_str())
    }

    /// The diff from the original to the current document (see [`compose_ok`]).
    pub fn compose(&self) -> (r: Result<DiffResult, GudfError>)
        ensures
            compose_ok(self@, r),
    {
        if self.states.len() == 0 {
            return Ok(DiffResult::from_changes(Vec::new(), self.format.duplicate()));
        }
        diff_with_kind(&self.format, self.original.as_str(), self.current())
    }

    /// The diff between the documents at two steps in the chain's format (see
    /// [`compose_range_ok`]).
    pub fn compose_range(&self, from: usize, to: usize) -> (r: Result<DiffResult, GudfError>)
        ensures
            compose_range_ok(self@, from as int, to as int, r),
    {
        let from_doc = match self.at(from) {
            Some(d) => d,
            None => return Err(GudfError::PatchError(step_missing(from))),
        };
        let to_doc = match self.at(to) {
            Some(d) => d,
            None => return Err(GudfError::PatchError(step_missing(to))),
        };
        diff_with_kind(&self.format, from_doc, to_doc)
    }

    /// Replaces all mutations by one from the original to the current
    /// document, and clears what could be redone.
    pub fn squash(&mut self) -> (r: Result<&DiffResult, GudfError>)
        requires
            old(self).inv(),
        ensures
            final(self).inv(),
            exists|c: Result<DiffResult, GudfError>| #[trigger] compose_ok(old(self)@, c) && match c {
                Ok(d) => r matches Ok(x) && x@ == d@ && final(self)@ == ChainView {
                    original: old(self)@.original,
                    format: old(self)@.format,
                    states: seq![StateView { document: current_doc(old(self)@), sha: sha1_digest(current_doc(old(self)@)), diff: d@ }],
                    redo: Seq::empty(),
                },
                Err(e) => r == Err::<&DiffResult, GudfError>(e) && final(self)@ == old(self)@,
            },
    {
        let composed = self.compose();
        let ghost cv = composed;
        match composed {
            Err(e) => {
                assert(compose_ok(old(self)@, cv));
                Err(e)
            },
            Ok(d) => {
                let ghost dv = d@;
                let document = owned(self.current());
                let sha = ContentSha::from_content(document.as_str());
                self.states.clear();
                self.redo_stack.clear();
                self.states.push(MutationState { document, sha, diff: d });
                assert(self@.states =~= seq![StateView { document: current_doc(old(self)@), sha: sha1_digest(current_doc(old(self)@)), diff: dv }]);
                assert(self@.redo =~= Seq::<StateView>::empty());
                assert(compose_ok(old(self)@, cv));
                Ok(&self.states[0].diff)
            },
        }
    }

    /// The sums of each statistic over all mutations.
    pub fn total_stats(&self) -> (r: DiffStats)
        requires
            stat_sums_fit(self@.states),
        ensures
            r.additions == stat_sum(self@.states, |s: DiffStats| s.additions),
            r.deletions == stat_sum(self@.states, |s: DiffStats| s.deletions),
            r.modifications == stat_sum(self@.states, |s: DiffStats| s.modifications),
            r.moves == stat_sum(self@.states, |s: DiffStats| s.moves),
            r.renames == stat_sum(self@.states, |s: DiffStats| s.renames),
    {
        let ghost sv = self@.states;
        let mut total = DiffStats { additions: 0, deletions: 0, modifications: 0, moves: 0, renames: 0 };
        let mut i: usize = 0;
        while i < self.states.len()
            invariant
                i <= self.states.len(),
                sv == self@.states,
                sv.len() == self.states@.len(),
                stat_sums_fit(sv),
                total.additions == stat_sum(sv.take(i as int), |s: DiffStats| s.additions),
                total.deletions == stat_sum(sv.take(i as int), |s: DiffStats| s.deletions),
                total.modifications == stat_sum(sv.take(i as int), |s: DiffStats| s.modifications),
                total.moves == stat_sum(sv.take(i as int), |s: DiffStats| s.moves),
                total.renames == stat_sum(sv.take(i as int), |s: DiffStats| s.renames),
            decreases self.states.len() - i,
        {
            proof {
                assert(sv.take(i + 1).drop_last() =~= sv.take(i as int));
                assert(sv[i as int] == self.states@[i as int]@);
                lemma_stat_sum_prefix(sv, |s: DiffStats| s.additions, i + 1);
                lemma_stat_sum_prefix(sv, |s: DiffStats| s.deletions, i + 1);
                lemma_stat_sum_prefix(sv, |s: DiffStats| s.modifications, i + 1);
                lemma_stat_sum_prefix(sv, |s: DiffStats| s.moves, i + 1);
                lemma_stat_sum_prefix(sv, |s: DiffStats| s.renames, i + 1);
            }
            let st = self.states[i].diff.stats;
            total.additions = total.additions + st.additions;
            total.deletions = total.deletions + st.deletions;
            total.modifications = total.modifications + st.modifications;
            total.moves = total.moves + st.moves;
            total.renames = total.renames + st.renames;
            i = i + 1;
        }
        assert(sv.take(i as int) =~= sv);
        total
    }
}

/// The message for a step that does not exist.
pub open spec fn step_missing_message(step: usize) -> Seq<char> {
    "Step "@ + crate::text::decimal(step as nat) + " does not exist"@
}

fn step_missing(step: usize) -> (r: String)
    ensures
        r@ == step_missing_message(step),
{
    let mut m = owned("Step ");
    crate::text::push_decimal(&mut m, step as u128);
    push_str(&mut m, " does not exist");
    m
}

/// The steps among the first `n` whose hash's hex text starts with `prefix`.
pub open spec fn sha_matches(v: ChainView, prefix: Seq<char>, n: int) -> Seq<int>
    decreases n,
{
    if n <= 0 {
        Seq::empty()
    } else {
        sha_matches(v, prefix, n - 1) + match doc_at(v, n - 1) {
            Some(d) => if has_prefix(hex_text(sha1_digest(d)), prefix) { seq![n - 1] } else { Seq::empty() },
            None => Seq::empty(),
        }
    }
}

/// The state whose hash starts with `prefix`, when exactly one does.
pub open spec fn find_spec(v: ChainView, prefix: Seq<char>) -> Option<(int, Seq<char>)> {
    let m = sha_matches(v, prefix, v.states.len() as int + 1);
    if m.len() == 1 {
        match doc_at(v, m[0]) {
            Some(d) => Some((m[0], d)),
            None => None,
        }
    } else {
        None
    }
}

/// The state `n` steps before the current one, if there are that many.
pub open spec fn back_spec(v: ChainView, n: nat) -> Option<(int, Seq<char>)> {
    if n > v.states.len() {
        None
    } else {
        match doc_at(v, v.states.len() - n) {
            Some(d) => Some((v.states.len() - n, d)),
            None => None,
        }
    }
}

/// Every character of `s` is `^`.
pub open spec fn all_carets(s: Seq<char>) -> bool {
    forall|i: int| 0 <= i < s.len() ==> s[i] == '^'
}

/// The state an expression names, read from its trimmed text `t`:
/// `ORIG` (any case) is the original; `@N` is step N; `HEAD` (any case) is the
/// current state; `HEAD~N` or `head~N` is N steps back (nothing when N does
/// not read); `HEAD^^…` is as many steps back as there are carets; anything
/// else is looked up as a hash prefix.
pub open spec fn resolve_spec(v: ChainView, expr: Seq<char>) -> Option<(int, Seq<char>)> {
    let t = unicode_trim(expr);
    let h = t.skip(4);
    if eq_ignore_ascii(t, "ORIG"@) {
        Some((0, v.original))
    } else if t.len() > 0 && t[0] == '@' && parse_usize_spec(t.drop_first()) is Some {
        let step = parse_usize_spec(t.drop_first())->0;
        match doc_at(v, step as int) {
            Some(d) => Some((step as int, d)),
            None => None,
        }
    } else if eq_ignore_ascii(t, "HEAD"@) {
        Some((v.states.len() as int, current_doc(v)))
    } else if (has_prefix(t, "HEAD"@) || has_prefix(t, "head"@)) && h.len() > 0 && h[0] == '~' {
        match parse_usize_spec(h.drop_first()) {
            Some(n) => back_spec(v, n),
            None => None,
        }
    } else if (has_prefix(t, "HEAD"@) || has_prefix(t, "head"@)) && h.len() > 0 && all_carets(h) {
        back_spec(v, h.len())
    } else {
        find_spec(v, t)
    }
}

/// The message for an expression that names no state.
pub open spec fn unresolved_message(expr: Seq<char>) -> Seq<char> {
    "Cannot resolve expression: '"@ + expr + "'"@
}

/// What the diff between two expressions gives: the diff in the chain's
/// format of the states they name; a patch error when either names none.
pub open spec fn diff_expr_ok(v: ChainView, from: Seq<char>, to: Seq<char>, r: Result<DiffResult, GudfError>) -> bool {
    match (resolve_spec(v, from), resolve_spec(v, to)) {
        (Some(a), Some(b)) => kind_diff_ok(v.format, a.1, b.1, r),
        (None, _) => r matches Err(GudfError::PatchError(m)) && m@ == unresolved_message(from),
        (Some(_), None) => r matches Err(GudfError::PatchError(m)) && m@ == unresolved_message(to),
    }
}

proof fn lemma_sha_matches_bound(v: ChainView, prefix: Seq<char>, n: int)
    ensures
        sha_matches(v, prefix, n).len() <= if n < 0 { 0 } else { n },
        forall|k: int| 0 <= k < sha_matches(v, prefix, n).len() ==> 0 <= #[trigger] sha_matches(v, prefix, n)[k] < n,
    decreases n,
{
    if n > 0 {
        lemma_sha_matches_bound(v, prefix, n - 1);
    }
}

/// The steps of the chain, the original (step 0) included, whose hash's hex
/// text starts with `prefix`.
pub open spec fn matching_steps(v: ChainView, prefix: Seq<char>) -> Set<int> {
    Set::new(|k: int| 0 <= k <= v.states.len() && has_prefix(hex_text(sha1_digest(doc_at(v, k)->Some_0)), prefix))
}

proof fn lemma_sha_matches_set(v: ChainView, prefix: Seq<char>, n: int)
    requires
        0 <= n <= v.states.len() + 1,
    ensures
        forall|i: int, j: int|
            0 <= i < j < sha_matches(v, prefix, n).len() ==> sha_matches(v, prefix, n)[i] < sha_matches(v, prefix, n)[j],
        forall|i: int| 0 <= i < sha_matches(v, prefix, n).len() ==> 0 <= #[trigger] sha_matches(v, prefix, n)[i] < n,
        forall|k: int| #[trigger] sha_matches(v, prefix, n).contains(k) <==> 0 <= k < n && matching_steps(v, prefix).contains(k),
    decreases n,
{
    if n > 0 {
        lemma_sha_matches_set(v, prefix, n - 1);
        let m0 = sha_matches(v, prefix, n - 1);
        let m = sha_matches(v, prefix, n);
        assert forall|k: int| #[trigger] m.contains(k) <==> 0 <= k < n && matching_steps(v, prefix).contains(k) by {
            if m.contains(k) {
                let i = choose|i: int| 0 <= i < m.len() && m[i] == k;
                if i < m0.len() {
                    assert(m0[i] == k);
                    assert(m0.contains(k));
                }
            }
            if 0 <= k < n && matching_steps(v, prefix).contains(k) {
                if k < n - 1 {
                    assert(m0.contains(k));
                    let i = choose|i: int| 0 <= i < m0.len() && m0[i] == k;
                    assert(m[i] == k);
                } else {
                    assert(m[m.len() - 1] == k);
                }
            }
        }
    }
}

/// `find_by_sha` finds a state exactly when one step alone of the chain, the
/// original included, has a hash starting with the prefix: it is that step,
/// with its document; when none or several do, it finds nothing.
pub proof fn law_find_by_sha_unique_match(v: ChainView, prefix: Seq<char>)
    ensures
        forall|k: int|
            find_spec(v, prefix) == Some((k, doc_at(v, k)->Some_0)) <==> #[trigger] matching_steps(v, prefix) == set![k],
        find_spec(v, prefix) is None <==> !exists|k: int| matching_steps(v, prefix) == set![k],
{
    let n = v.states.len() as int + 1;
    let m = sha_matches(v, prefix, n);
    lemma_sha_matches_set(v, prefix, n);
    assert(m.no_duplicates()) by {
        assert forall|i: int, j: int| 0 <= i < m.len() && 0 <= j < m.len() && i != j implies m[i] != m[j] by {
            if i < j {
                assert(m[i] < m[j]);
            } else {
                assert(m[j] < m[i]);
            }
        }
    }
    m.unique_seq_to_set();
    assert(m.to_set() =~= matching_steps(v, prefix)) by {
        assert forall|k: int| m.to_set().contains(k) <==> matching_steps(v, prefix).contains(k) by {
            if matching_steps(v, prefix).contains(k) {
                assert(m.contains(k));
            }
        }
    }
    if m.len() == 1 {
        assert(matching_steps(v, prefix) =~= set![m[0]]) by {
            assert(m.contains(m[0]));
            assert forall|k: int| matching_steps(v, prefix).contains(k) implies k == m[0] by {
                assert(m.contains(k));
            }
        }
        assert(0 <= m[0] < n);
        assert forall|k: int| find_spec(v, prefix) == Some((k, doc_at(v, k)->Some_0)) <==> #[trigger] matching_steps(v, prefix) == set![k] by {
            if matching_steps(v, prefix) == set![k] {
                assert(set![k].contains(m[0]));
            }
        }
    } else {
        assert forall|k: int| !(#[trigger] matching_steps(v, prefix) == set![k]) by {
            if matching_steps(v, prefix) == set![k] {
                assert(set![k].len() == 1);
            }
        }
    }
}

impl MutationChain {
    /// The state whose hash starts with `prefix`, when exactly one does (see [`find_spec`]).
    pub fn find_by_sha(&self, prefix: &str) -> (r: Option<(usize, &str)>)
        requires
            self.inv(),
        ensures
            match find_spec(self@, prefix@) {
                Some(p) => r matches Some(x) && x.0 as int == p.0 && x.1@ == p.1,
                None => r is None,
            },
    {
        let n = self.states.len();
        let mut count: usize = 0;
        let mut first: usize = 0;
        proof {
            lemma_sha_matches_bound(self@, prefix@, 0);
            lemma_sha_matches_bound(self@, prefix@, 1);
        }
        if self.original_sha.matches_prefix(prefix) {
            count = 1;
        }
        assert(count > 0 ==> sha_matches(self@, prefix@, 1)[0] == 0);
        let mut i: usize = 0;
        while i < n
            invariant
                n == self@.states.len(),
                i <= n,
                self.inv(),
                count as int == if sha_matches(self@, prefix@, i + 1).len() <= 2 { sha_matches(self@, prefix@, i + 1).len() as int } else { 2 },
                count > 0 ==> first as int == sha_matches(self@, prefix@, i + 1)[0],
            decreases n - i,
        {
            proof {
                lemma_sha_matches_bound(self@, prefix@, i + 1);
                lemma_sha_matches_bound(self@, prefix@, i + 2);
            }
            let ghost before = sha_matches(self@, prefix@, i + 1);
            let step = i + 1;
            let sha = self.sha_at(step);
            match sha {
                Some(s) => {
                    if s.matches_prefix(prefix) {
                        if count == 0 {
                            first = step;
                        }
                        if count < 2 {
                            count = count + 1;
                        }
                    }
                },
                None => {},
            }
            assert(count > 0 ==> sha_matches(self@, prefix@, i + 2)[0] == if before.len() > 0 { before[0] } else { step as int });
            i = i + 1;
        }
        if count == 1 {
            match self.at(first) {
                Some(d) => Some((first, d)),
                None => None,
            }
        } else {
            None
        }
    }

    /// The log of every state, from the original: step, hash, and the
    /// statistics of the diff that reached it.
    pub fn log(&self) -> (r: Vec<LogEntry>)
        requires
            self.inv(),
        ensures
            r@.len() == self@.states.len() + 1,
            forall|i: int| 0 <= i < r@.len() ==> #[trigger] r@[i].step == i,
            forall|i: int| 0 <= i < r@.len() ==> (doc_at(self@, i) matches Some(d) && (#[trigger] r@[i]).sha.digest() == sha1_digest(d)),
            r@[0].stats is None,
            forall|i: int| 1 <= i < r@.len() ==> (#[trigger] r@[i]).stats == Some(self@.states[i - 1].diff.stats),
    {
        let mut entries: Vec<LogEntry> = Vec::new();
        entries.push(LogEntry { step: 0, sha: self.original_sha.duplicate(), stats: None });
        let mut i: usize = 0;
        while i < self.states.len()
            invariant
                i <= self.states.len(),
                self.inv(),
                entries@.len() == i + 1,
                forall|k: int| 0 <= k < entries@.len() ==> #[trigger] entries@[k].step == k,
                forall|k: int| 0 <= k < entries@.len() ==> (doc_at(self@, k) matches Some(d) && (#[trigger] entries@[k]).sha.digest() == sha1_digest(d)),
                entries@[0].stats is None,
                forall|k: int| 1 <= k < entries@.len() ==> (#[trigger] entries@[k]).stats == Some(self@.states[k - 1].diff.stats),
            decreases self.states.len() - i,
        {
            assert(states_view(self.states@)[i as int] == self.states@[i as int]@);
            assert(state_hashed(self.states@[i as int]@));
            entries.push(LogEntry { step: i + 1, sha: self.states[i].sha.duplicate(), stats: Some(self.states[i].diff.stats) });
            i = i + 1;
        }
        entries
    }

    fn back(&self, n: usize) -> (r: Option<(usize, &str)>)
        ensures
            match back_spec(self@, n as nat) {
                Some(p) => r matches Some(x) && x.0 as int == p.0 && x.1@ == p.1,
                None => r is None,
            },
    {
        if n > self.states.len() {
            return None;
        }
        let target = self.states.len() - n;
        match self.at(target) {
            Some(d) => Some((target, d)),
            None => None,
        }
    }

    /// The state an expression names (see [`resolve_spec`]).
    pub fn resolve(&self, expr: &str) -> (r: Option<(usize, &str)>)
        requires
            self.inv(),
        ensures
            match resolve_spec(self@, expr@) {
                Some(p) => r matches Some(x) && x.0 as int == p.0 && x.1@ == p.1,
                None => r is None,
            },
    {
        let trimmed = trim(expr);
        let t = trimmed.as_str();
        let tv = chars_of(t);
        proof {
            reveal_strlit("ORIG");
            reveal_strlit("HEAD");
            reveal_strlit("head");
        }
        if eq_ignore_ascii_case(t, "ORIG") {
            return Some((0, self.original.as_str()));
        }
        if tv.len() > 0 && tv[0] == '@' {
            assert(tv@.subrange(1, tv@.len() as int) =~= tv@.drop_first());
            match parse_usize_range(&tv, 1, tv.len()) {
                Some(step) => {
                    return match self.at(step) {
                        Some(d) => Some((step, d)),
                        None => None,
                    };
                },
                None => {},
            }
        }
        if eq_ignore_ascii_case(t, "HEAD") {
            return Some((self.states.len(), self.current()));
        }
        if starts_with(t, "HEAD") || starts_with(t, "head") {
            let ghost h = tv@.skip(4);
            if tv.len() > 4 && tv[4] == '~' {
                assert(tv@.subrange(5, tv@.len() as int) =~= h.drop_first());
                return match parse_usize_range(&tv, 5, tv.len()) {
                    Some(n) => self.back(n),
                    None => None,
                };
            }
            if tv.len() > 4 {
                let mut carets = true;
                let mut k: usize = 4;
                while k < tv.len()
                    invariant
                        4 <= k <= tv.len(),
                        tv@ == t@,
                        h == tv@.skip(4),
                        carets == forall|j: int| 4 <= j < k ==> tv@[j] == '^',
                    decreases tv.len() - k,
                {
                    if tv[k] != '^' {
                        carets = false;
                    }
                    k = k + 1;
                }
                assert(carets == all_carets(h)) by {
                    if carets {
                        assert forall|j: int| 0 <= j < h.len() implies h[j] == '^' by {
                            assert(h[j] == tv@[j + 4]);
                        }
                    } else {
                        let j = choose|j: int| 4 <= j < tv@.len() && tv@[j] != '^';
                        assert(h[j - 4] == tv@[j]);
                    }
                }
                if carets {
                    return self.back(tv.len() - 4);
                }
            }
        }
        self.find_by_sha(t)
    }

    /// The state an expression names, or a patch error naming the expression.
    pub fn resolve_or_err(&self, expr: &str) -> (r: Result<(usize, &str), GudfError>)
        requires
            self.inv(),
        ensures
            match resolve_spec(self@, expr@) {
                Some(p) => r matches Ok(x) && x.0 as int == p.0 && x.1@ == p.1,
                None => r matches Err(GudfError::PatchError(m)) && m@ == unresolved_message(expr@),
            },
    {
        match self.resolve(expr) {
            Some(p) => Ok(p),
            None => {
                let mut m = owned("Cannot resolve expression: '");
                push_str(&mut m, expr);
                push_str(&mut m, "'");
                Err(GudfError::PatchError(m))
            },
        }
    }

    /// The diff between the states two expressions name (see [`diff_expr_ok`]).
    pub fn diff_expr(&self, from: &str, to: &str) -> (r: Result<DiffResult, GudfError>)
        requires
            self.inv(),
        ensures
            diff_expr_ok(self@, from@, to@, r),
    {
        let (from_step, _) = match self.resolve_or_err(from) {
            Ok(p) => p,
            Err(e) => return Err(e),
        };
        let (to_step, _) = match self.resolve_or_err(to) {
            Ok(p) => p,
            Err(e) => return Err(e),
        };
        self.compose_range(from_step, to_step)
    }

    /// A builder for the unified diff between two expressions, with three
    /// lines of context.
    pub fn unified<'a>(&'a self, from: &str, to: &str) -> (r: ExprDiffBuilder<'a>)
        ensures
            r.chain() == self,
            r.from()@ == from@,
            r.to()@ == to@,
            r.context_lines() == 3,
    {
        ExprDiffBuilder { chain: self, from: owned(from), to: owned(to), context_lines: 3 }
    }

    /// The diff between two expressions, rendered by `formatter`.
    pub fn format_expr(&self, from: &str, to: &str, formatter: &dyn OutputFormatter) -> (r: Result<String, GudfError>)
        requires
            self.inv(),
        ensures
            exists|d: Result<DiffResult, GudfError>| #[trigger] diff_expr_ok(self@, from@, to@, d) && match d {
                Ok(x) => r matches Ok(s) && s@ == formatter.rendering(x@),
                Err(e) => r == Err::<String, GudfError>(e),
            },
    {
        let d = self.diff_expr(from, to);
        let ghost dv = d;
        match d {
            Ok(x) => {
                let s = formatter.format(&x);
                assert(diff_expr_ok(self@, from@, to@, dv));
                Ok(s)
            },
            Err(e) => {
                assert(diff_expr_ok(self@, from@, to@, dv));
                Err(e)
            },
        }
    }
}

/// Renders the diff between two expressions of a chain.
pub struct ExprDiffBuilder<'a> {
    chain: &'a MutationChain,
    from: String,
    to: String,
    context_lines: usize,
}

/// The header label for an expression: the expression and, when it names a
/// state, the short hash of that state in parentheses.
pub open spec fn label_spec(v: ChainView, expr: Seq<char>) -> Seq<char> {
    match resolve_spec(v, expr) {
        Some(p) => match doc_at(v, p.0) {
            Some(d) => expr + " ("@ + hex_text(sha1_digest(d)).take(7) + ")"@,
            None => expr,
        },
        None => expr,
    }
}

impl<'a> ExprDiffBuilder<'a> {
    /// The chain.
    pub closed spec fn chain(&self) -> &'a MutationChain {
        self.chain
    }

    /// The expression of the old side.
    pub closed spec fn from(&self) -> String {
        self.from
    }

    /// The expression of the new side.
    pub closed spec fn to(&self) -> String {
        self.to
    }

    /// The lines of context.
    pub closed spec fn context_lines(&self) -> usize {
        self.context_lines
    }

    /// The same builder with `lines` lines of context.
    pub fn context(self, lines: usize) -> (r: ExprDiffBuilder<'a>)
        ensures
            r.chain() == self.chain(),
            r.from() == self.from(),
            r.to() == self.to(),
            r.context_lines() == lines,
    {
        ExprDiffBuilder { chain: self.chain, from: self.from, to: self.to, context_lines: lines }
    }

    /// The diff between the two expressions.
    pub fn diff(&self) -> (r: Result<DiffResult, GudfError>)
        requires
            self.chain().inv(),
        ensures
            diff_expr_ok(self.chain()@, self.from()@, self.to()@, r),
    {
        self.chain.diff_expr(self.from.as_str(), self.to.as_str())
    }

    fn label(&self, expr: &str) -> (r: String)
        requires
            self.chain().inv(),
        ensures
            r@ == label_spec(self.chain()@, expr@),
    {
        match self.chain.resolve(expr) {
            Some((step, _)) => match self.chain.sha_at(step) {
                Some(sha) => {
                    let mut s = owned(expr);
                    push_str(&mut s, " (");
                    let short = sha.short();
                    push_str(&mut s, short.as_str());
                    push_str(&mut s, ")");
                    s
                },
                None => owned(expr),
            },
            None => owned(expr),
        }
    }

    /// The unified diff between the two expressions, labelled with the
    /// expressions and short hashes.
    pub fn render(&self) -> (r: Result<String, GudfError>)
        requires
            self.chain().inv(),
        ensures
            exists|d: Result<DiffResult, GudfError>| #[trigger] diff_expr_ok(self.chain()@, self.from()@, self.to()@, d) && match d {
                Ok(x) => r matches Ok(s) && s@ == crate::output::unified::unified_rendering(
                    label_spec(self.chain()@, self.from()@), label_spec(self.chain()@, self.to()@), self.context_lines(), x@.changes),
                Err(e) => r == Err::<String, GudfError>(e),
            },
    {
        let d = self.diff();
        let ghost dv = d;
        match d {
            Ok(x) => {
                let from_label = self.label(self.from.as_str());
                let to_label = self.label(self.to.as_str());
                let formatter = UnifiedFormatter::new(from_label.as_str(), to_label.as_str()).context(self.context_lines);
                let s = formatter.format(&x);
                assert(diff_expr_ok(self.chain()@, self.from()@, self.to()@, dv));
                Ok(s)
            },
            Err(e) => {
                assert(diff_expr_ok(self.chain()@, self.from()@, self.to()@, dv));
                Err(e)
            },
        }
    }

    /// The diff between the two expressions, rendered by `formatter`.
    pub fn render_with(&self, formatter: &dyn OutputFormatter) -> (r: Result<String, GudfError>)
        requires
            self.chain().inv(),
        ensures
            exists|d: Result<DiffResult, GudfError>| #[trigger] diff_expr_ok(self.chain()@, self.from()@, self.to()@, d) && match d {
                Ok(x) => r matches Ok(s) && s@ == formatter.rendering(x@),
                Err(e) => r == Err::<String, GudfError>(e),
            },
    {
        let d = self.diff();
        let ghost dv = d;
        match d {
            Ok(x) => {
                let s = formatter.format(&x);
                assert(diff_expr_ok(self.chain()@, self.from()@, self.to()@, dv));
                Ok(s)
            },
            Err(e) => {
                assert(diff_expr_ok(self.chain()@, self.from()@, self.to()@, dv));
                Err(e)
            },
        }
    }
}

/// Redo undoes an undo: after undoing a mutation, redoing gives back the chain.
pub proof fn law_redo_after_undo(v: ChainView)
    requires
        v.states.len() > 0,
    ensures
        redo_spec(undo_spec(v)) == v,
{
    assert(undo_spec(v).redo.last() == v.states.last());
    assert(v.states.drop_last().push(v.states.last()) =~= v.states);
    assert(v.redo.push(v.states.last()).drop_last() =~= v.redo);
}

/// Undo undoes a redo: after redoing a mutation, undoing gives back the chain.
pub proof fn law_undo_after_redo(v: ChainView)
    requires
        v.redo.len() > 0,
    ensures
        undo_spec(redo_spec(v)) == v,
{
    assert(v.redo.drop_last().push(v.redo.last()) =~= v.redo);
    assert(v.states.push(v.redo.last()).drop_last() =~= v.states);
}

/// The timeline of a chain: its states, then the undone states from the
/// first one that would be redone.
pub open spec fn timeline(v: ChainView) -> Seq<StateView> {
    v.states + v.redo.reverse()
}

/// Undo and redo move between states and the redo stack without losing or
/// reordering any, and keep the original and the format.
pub proof fn law_undo_redo_keep_timeline(v: ChainView)
    ensures
        timeline(undo_spec(v)) == timeline(v),
        timeline(redo_spec(v)) == timeline(v),
        undo_spec(v).original == v.original && undo_spec(v).format == v.format,
        redo_spec(v).original == v.original && redo_spec(v).format == v.format,
{
    if v.states.len() > 0 {
        assert(timeline(undo_spec(v)) =~= timeline(v));
    }
    if v.redo.len() > 0 {
        assert(timeline(redo_spec(v)) =~= timeline(v));
    }
}

/// A mutation makes its document current, hashes it, and leaves nothing to redo.
pub proof fn law_mutation_is_current(v: ChainView, doc: Seq<char>, diff: DiffResultView)
    ensures
        current_doc(mutated(v, doc, diff)) == doc,
        mutated(v, doc, diff).states.len() == v.states.len() + 1,
        mutated(v, doc, diff).redo.len() == 0,
        state_hashed(mutated(v, doc, diff).states.last()),
        forall|s: int| 0 <= s <= v.states.len() ==> doc_at(mutated(v, doc, diff), s) == doc_at(v, s),
{
}

/// On a text or code chain, a mutation's document is the text its changes
/// rebuild, whatever the current document is.
pub proof fn law_text_mutation_rebuilds(base: Seq<char>, format: FormatKindView, cs: Seq<ChangeView>)
    requires
        format is Text || format is Code,
    ensures
        apply_outcome(base, format, cs) == PatchOutcome::Done(rebuilt_text(cs)),
{
}

/// On a text chain with at least one mutation, the composed diff rebuilds
/// the current document and starts from the original one.
pub proof fn law_text_compose_rebuilds_current(v: ChainView, r: Result<DiffResult, GudfError>)
    requires
        v.format is Text,
        v.states.len() > 0,
        compose_ok(v, r),
    ensures
        r matches Ok(d) && rebuilt_text(d@.changes) == current_doc(v) && original_text(d@.changes) == v.original,
{
}

/// Rewinding to a step leaves that many states (or all, when there are
/// fewer) and the documents up to it unchanged.
pub proof fn law_rewind_keeps_prefix(v: ChainView, step: nat)
    ensures
        ({
            let r = undo_n_spec(v, if v.states.len() > step { (v.states.len() - step) as nat } else { 0 });
            &&& r.states.len() == if v.states.len() > step { step } else { v.states.len() }
            &&& forall|s: int| 0 <= s <= r.states.len() ==> doc_at(r, s) == doc_at(v, s)
            &&& timeline(r) == timeline(v)
        }),
{
    let n: nat = if v.states.len() > step { (v.states.len() - step) as nat } else { 0 };
    lemma_undo_n_prefix(v, n);
}

proof fn lemma_undo_n_prefix(v: ChainView, n: nat)
    ensures
        undo_n_spec(v, n).states.len() == if n <= v.states.len() { v.states.len() - n } else { 0 },
        forall|s: int| 0 <= s <= undo_n_spec(v, n).states.len() ==> doc_at(undo_n_spec(v, n), s) == doc_at(v, s),
        timeline(undo_n_spec(v, n)) == timeline(v),
        undo_n_spec(v, n).original == v.original,
    decreases n,
{
    if n > 0 {
        law_undo_redo_keep_timeline(v);
        lemma_undo_n_prefix(undo_spec(v), (n - 1) as nat);
        assert forall|s: int| 0 <= s <= undo_spec(v).states.len() implies doc_at(undo_spec(v), s) == doc_at(v, s) by {
            if s >= 1 && v.states.len() > 0 {
                assert(undo_spec(v).states[s - 1] == v.states[s - 1]);
            }
        }
    }
}

proof fn lemma_undo_n_len(v: ChainView, n: nat)
    ensures
        undo_n_spec(v, n).states.len() == if n <= v.states.len() { v.states.len() - n } else { 0 },
        undo_n_spec(v, n).original == v.original,
        undo_n_spec(v, n).format == v.format,
    decreases n,
{
    if n > 0 {
        lemma_undo_n_len(undo_spec(v), (n - 1) as nat);
    }
}

proof fn lemma_undo_n_step(v: ChainView, n: nat)
    ensures
        undo_n_spec(v, n + 1) == undo_spec(undo_n_spec(v, n)),
    decreases n,
{
    assert(undo_n_spec(v, n + 1) == undo_n_spec(undo_spec(v), n));
    if n > 0 {
        lemma_undo_n_step(undo_spec(v), (n - 1) as nat);
        assert(undo_n_spec(v, n) == undo_n_spec(undo_spec(v), (n - 1) as nat));
    } else {
        assert(undo_n_spec(undo_spec(v), 0) == undo_spec(v));
    }
}

proof fn lemma_undo_n_stuck(v: ChainView, n: nat, m: nat)
    requires
        n <= m,
        undo_n_spec(v, n).states.len() == 0,
    ensures
        undo_n_spec(v, m) == undo_n_spec(v, n),
    decreases m - n,
{
    if n < m {
        lemma_undo_n_step(v, n);
        assert(undo_spec(undo_n_spec(v, n)) == undo_n_spec(v, n));
        lemma_undo_n_stuck(v, n + 1, m);
    }
}

proof fn lemma_redo_n_len(v: ChainView, n: nat)
    ensures
        redo_n_spec(v, n).redo.len() == if n <= v.redo.len() { v.redo.len() - n } else { 0 },
    decreases n,
{
    if n > 0 {
        lemma_redo_n_len(redo_spec(v), (n - 1) as nat);
    }
}

proof fn lemma_redo_n_step(v: ChainView, n: nat)
    ensures
        redo_n_spec(v, n + 1) == redo_spec(redo_n_spec(v, n)),
    decreases n,
{
    assert(redo_n_spec(v, n + 1) == redo_n_spec(redo_spec(v), n));
    if n > 0 {
        lemma_redo_n_step(redo_spec(v), (n - 1) as nat);
        assert(redo_n_spec(v, n) == redo_n_spec(redo_spec(v), (n - 1) as nat));
    } else {
        assert(redo_n_spec(redo_spec(v), 0) == redo_spec(v));
    }
}

proof fn lemma_redo_n_stuck(v: ChainView, n: nat, m: nat)
    requires
        n <= m,
        redo_n_spec(v, n).redo.len() == 0,
    ensures
        redo_n_spec(v, m) == redo_n_spec(v, n),
    decreases m - n,
{
    if n < m {
        lemma_redo_n_step(v, n);
        assert(redo_spec(redo_n_spec(v, n)) == redo_n_spec(v, n));
        lemma_redo_n_stuck(v, n + 1, m);
    }
}

/// The state an expression names is the one at its step.
pub proof fn lemma_resolved_state(v: ChainView, expr: Seq<char>)
    ensures
        resolve_spec(v, expr) matches Some(p) ==> doc_at(v, p.0) == Some(p.1),
{
    let t = unicode_trim(expr);
    if !eq_ignore_ascii(t, "ORIG"@) && !(t.len() > 0 && t[0] == '@' && parse_usize_spec(t.drop_first()) is Some)
        && eq_ignore_ascii(t, "HEAD"@) {
        if v.states.len() > 0 {
            assert(v.states.last() == v.states[v.states.len() - 1]);
        }
    }
}

/// The diff between two expressions is the diff between the steps they
/// resolve to (see [`compose_range_ok`]): both succeed with the same diff or
/// both fail.
pub proof fn law_diff_expr_is_compose_range(
    v: ChainView,
    from: Seq<char>,
    to: Seq<char>,
    r1: Result<DiffResult, GudfError>,
    r2: Result<DiffResult, GudfError>,
)
    requires
        resolve_spec(v, from) is Some,
        resolve_spec(v, to) is Some,
        diff_expr_ok(v, from, to, r1),
        compose_range_ok(v, resolve_spec(v, from).unwrap().0, resolve_spec(v, to).unwrap().0, r2),
    ensures
        same_diff(r1, r2),
{
    lemma_resolved_state(v, from);
    lemma_resolved_state(v, to);
    let a = resolve_spec(v, from).unwrap();
    let b = resolve_spec(v, to).unwrap();
    lemma_kind_diff_determined(v.format, a.1, b.1, r1, r2);
}

} // verus!
