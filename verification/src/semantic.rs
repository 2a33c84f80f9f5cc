//! Semantic post-processing of a diff: a removal and an addition of the same
//! value become one move (different parents) or one rename (same parent).
use vstd::prelude::*;

use crate::result::{changes_view, copy_annotations, count_kind, stats_of, Change, ChangeKind, ChangeView, DiffResult};
use crate::text::{lemma_last_index_of, last_index_of, opt_str, before_last, copy_opt_string, opt_or_empty, opt_view, owned, rsplit_once_spec, str_eq};

verus! {

/// Which kinds of pairs the analyzer looks for.
#[derive(Debug, Clone, Copy, PartialEq, Eq, Structural)]
pub struct SemanticOptions {
    /// Pair a removal and an addition under different parents into a move.
    pub move_detection: bool,
    /// Pair a removal and an addition under the same parent into a rename.
    pub rename_detection: bool,
}

impl Default for SemanticOptions {
    /// Both detections on.
    fn default() -> (r: SemanticOptions)
        ensures
            r.move_detection && r.rename_detection,
    {
        SemanticOptions { move_detection: true, rename_detection: true }
    }
}

/// The parent of a dotted path: the text before its last `.`, if it has one.
pub open spec fn parent_of(path: Seq<char>) -> Option<Seq<char>> {
    match rsplit_once_spec(path, '.') {
        Some(p) => Some(p.0),
        None => None,
    }
}

/// Two paths are siblings when both have a parent and it is the same.
pub open spec fn siblings(a: Seq<char>, b: Seq<char>) -> bool {
    parent_of(a) is Some && parent_of(a) == parent_of(b)
}

/// The addition at `a` can pair with the removal at `r`: it is an addition
/// not yet paired, its new value is the removal's old value, its path differs,
/// and the detection for siblings (renames) or non-siblings (moves) is on.
pub open spec fn can_pair(cs: Seq<ChangeView>, r: int, a: int, used: Set<int>, opts: SemanticOptions) -> bool {
    let rp = opt_or_empty(cs[r].path);
    let ap = opt_or_empty(cs[a].path);
    &&& cs[a].kind == ChangeKind::Added
    &&& !used.contains(a)
    &&& opt_or_empty(cs[r].old_value) == opt_or_empty(cs[a].new_value)
    &&& rp != ap
    &&& if siblings(rp, ap) { opts.rename_detection } else { opts.move_detection }
}

/// The first index from `a` on whose addition can pair with the removal at `r`.
pub open spec fn first_partner(cs: Seq<ChangeView>, r: int, used: Set<int>, opts: SemanticOptions, a: int) -> Option<int>
    decreases cs.len() - a,
{
    if a < 0 || a >= cs.len() {
        None
    } else if can_pair(cs, r, a, used, opts) {
        Some(a)
    } else {
        first_partner(cs, r, used, opts, a + 1)
    }
}

/// The pairs chosen among the first `n` changes, removal by removal in order:
/// each removal with a non-empty old value takes the first addition that can
/// pair with it. Gives the partner of each paired removal and the set of
/// paired additions.
pub open spec fn pairing(cs: Seq<ChangeView>, opts: SemanticOptions, n: int) -> (Map<int, int>, Set<int>)
    decreases n,
{
    if n <= 0 {
        (Map::empty(), Set::empty())
    } else {
        let prev = pairing(cs, opts, n - 1);
        let r = n - 1;
        if cs[r].kind == ChangeKind::Removed && opt_or_empty(cs[r].old_value).len() > 0 {
            match first_partner(cs, r, prev.1, opts, 0) {
                Some(a) => (prev.0.insert(r, a), prev.1.insert(a)),
                None => prev,
            }
        } else {
            prev
        }
    }
}

/// The change that replaces the removal at `r` paired with the addition at
/// `a`: a rename when their paths are siblings, else a move, from the removal's
/// path (its old value kept) to the addition's path (as the new value).
pub open spec fn paired_change(cs: Seq<ChangeView>, r: int, a: int) -> ChangeView {
    let rp = opt_or_empty(cs[r].path);
    let ap = opt_or_empty(cs[a].path);
    ChangeView {
        kind: if siblings(rp, ap) { ChangeKind::Renamed } else { ChangeKind::Moved },
        path: Some(rp),
        old_value: Some(opt_or_empty(cs[r].old_value)),
        new_value: Some(ap),
        location: cs[r].location,
        annotations: cs[r].annotations,
    }
}

/// The first `n` changes after pairing: paired additions dropped, paired
/// removals replaced, the rest kept in order.
pub open spec fn semantic_output(cs: Seq<ChangeView>, partner: Map<int, int>, used: Set<int>, n: int) -> Seq<ChangeView>
    decreases n,
{
    if n <= 0 {
        Seq::empty()
    } else {
        semantic_output(cs, partner, used, n - 1) + if used.contains(n - 1) {
            Seq::empty()
        } else if partner.contains_key(n - 1) {
            seq![paired_change(cs, n - 1, partner[n - 1])]
        } else {
            seq![cs[n - 1]]
        }
    }
}

/// The changes after the semantic pass.
pub open spec fn semantic_changes(cs: Seq<ChangeView>, opts: SemanticOptions) -> Seq<ChangeView> {
    let p = pairing(cs, opts, cs.len() as int);
    semantic_output(cs, p.0, p.1, cs.len() as int)
}

proof fn lemma_first_partner(cs: Seq<ChangeView>, r: int, used: Set<int>, opts: SemanticOptions, a: int)
    requires
        0 <= a,
    ensures
        first_partner(cs, r, used, opts, a) matches Some(b) ==> a <= b < cs.len() && can_pair(cs, r, b, used, opts),
        first_partner(cs, r, used, opts, a) is None ==> forall|b: int| a <= b < cs.len() ==> !can_pair(cs, r, b, used, opts),
    decreases cs.len() - a,
{
    if a < cs.len() && !can_pair(cs, r, a, used, opts) {
        lemma_first_partner(cs, r, used, opts, a + 1);
    }
}

/// What the pairing of the first `n` changes holds: partners only of removals
/// before `n`, each an addition; paired additions are those partners, and no
/// two removals share one.
proof fn lemma_pairing(cs: Seq<ChangeView>, opts: SemanticOptions, n: int)
    requires
        0 <= n <= cs.len(),
    ensures
        forall|k: int| #[trigger] pairing(cs, opts, n).0.contains_key(k) ==> 0 <= k < n
            && cs[k].kind == ChangeKind::Removed
            && 0 <= pairing(cs, opts, n).0[k] < cs.len()
            && cs[pairing(cs, opts, n).0[k]].kind == ChangeKind::Added
            && pairing(cs, opts, n).1.contains(pairing(cs, opts, n).0[k]),
        forall|a: int| #[trigger] pairing(cs, opts, n).1.contains(a) ==> 0 <= a < cs.len() && cs[a].kind == ChangeKind::Added,
        pairing(cs, opts, n).1.finite(),
    decreases n,
{
    if n > 0 {
        lemma_pairing(cs, opts, n - 1);
        let prev = pairing(cs, opts, n - 1);
        let r = n - 1;
        if cs[r].kind == ChangeKind::Removed && opt_or_empty(cs[r].old_value).len() > 0 {
            lemma_first_partner(cs, r, prev.1, opts, 0);
        }
    }
}

/// The number of members of `s` below `n`.
pub open spec fn count_below(s: Set<int>, n: int) -> nat
    decreases n,
{
    if n <= 0 {
        0
    } else {
        count_below(s, n - 1) + if s.contains(n - 1) { 1nat } else { 0nat }
    }
}

/// The number of removal/addition pairs the semantic pass finds.
pub open spec fn pair_count(cs: Seq<ChangeView>, opts: SemanticOptions) -> nat {
    count_below(pairing(cs, opts, cs.len() as int).0.dom(), cs.len() as int)
}

proof fn lemma_count_below_insert(s: Set<int>, x: int, n: int)
    requires
        !s.contains(x),
    ensures
        count_below(s.insert(x), n) == count_below(s, n) + if 0 <= x < n { 1nat } else { 0nat },
    decreases n,
{
    if n > 0 {
        lemma_count_below_insert(s, x, n - 1);
    }
}

proof fn lemma_pairing_balanced(cs: Seq<ChangeView>, opts: SemanticOptions, n: int)
    requires
        0 <= n <= cs.len(),
    ensures
        count_below(pairing(cs, opts, n).1, cs.len() as int) == count_below(pairing(cs, opts, n).0.dom(), cs.len() as int),
    decreases n,
{
    if n > 0 {
        lemma_pairing_balanced(cs, opts, n - 1);
        lemma_pairing(cs, opts, n - 1);
        let prev = pairing(cs, opts, n - 1);
        let r = n - 1;
        if cs[r].kind == ChangeKind::Removed && opt_or_empty(cs[r].old_value).len() > 0 {
            lemma_first_partner(cs, r, prev.1, opts, 0);
            if let Some(a) = first_partner(cs, r, prev.1, opts, 0) {
                lemma_count_below_insert(prev.1, a, cs.len() as int);
                lemma_count_below_insert(prev.0.dom(), r, cs.len() as int);
                assert(prev.0.insert(r, a).dom() =~= prev.0.dom().insert(r));
            }
        }
    }
}

proof fn lemma_semantic_output_counts(cs: Seq<ChangeView>, opts: SemanticOptions, n: int)
    requires
        0 <= n <= cs.len(),
    ensures
        ({
            let p = pairing(cs, opts, cs.len() as int);
            let out = semantic_output(cs, p.0, p.1, n);
            let pre = cs.take(n);
            &&& count_kind(out, ChangeKind::Added) + count_below(p.1, n) == count_kind(pre, ChangeKind::Added)
            &&& count_kind(out, ChangeKind::Removed) + count_below(p.0.dom(), n) == count_kind(pre, ChangeKind::Removed)
            &&& count_kind(out, ChangeKind::Moved) + count_kind(out, ChangeKind::Renamed)
                == count_kind(pre, ChangeKind::Moved) + count_kind(pre, ChangeKind::Renamed) + count_below(p.0.dom(), n)
            &&& count_kind(out, ChangeKind::Modified) == count_kind(pre, ChangeKind::Modified)
            &&& count_kind(out, ChangeKind::Unchanged) == count_kind(pre, ChangeKind::Unchanged)
            &&& out.len() + count_below(p.1, n) == n
        }),
    decreases n,
{
    let p = pairing(cs, opts, cs.len() as int);
    if n > 0 {
        lemma_semantic_output_counts(cs, opts, n - 1);
        lemma_pairing(cs, opts, cs.len() as int);
        assert(cs.take(n).drop_last() =~= cs.take(n - 1));
        let k = n - 1;
        let prev_out = semantic_output(cs, p.0, p.1, n - 1);
        if p.1.contains(k) {
            assert(!p.0.contains_key(k));
            assert(semantic_output(cs, p.0, p.1, n) =~= prev_out);
        } else if p.0.contains_key(k) {
            let c = paired_change(cs, k, p.0[k]);
            assert(semantic_output(cs, p.0, p.1, n).drop_last() =~= prev_out);
            assert(semantic_output(cs, p.0, p.1, n).last() == c);
        } else {
            assert(semantic_output(cs, p.0, p.1, n).drop_last() =~= prev_out);
            assert(semantic_output(cs, p.0, p.1, n).last() == cs[k]);
        }
    } else {
        assert(cs.take(0) =~= Seq::<ChangeView>::empty());
    }
}

/// The semantic pass turns each pair it finds into one move or rename: there
/// are as many fewer additions and removals, as many more moves and renames,
/// as many fewer changes in all, and as many modified and unchanged entries.
pub proof fn law_semantic_counts(cs: Seq<ChangeView>, opts: SemanticOptions)
    ensures
        ({
            let out = semantic_changes(cs, opts);
            let k = pair_count(cs, opts);
            &&& count_kind(out, ChangeKind::Added) + k == count_kind(cs, ChangeKind::Added)
            &&& count_kind(out, ChangeKind::Removed) + k == count_kind(cs, ChangeKind::Removed)
            &&& count_kind(out, ChangeKind::Moved) + count_kind(out, ChangeKind::Renamed)
                == count_kind(cs, ChangeKind::Moved) + count_kind(cs, ChangeKind::Renamed) + k
            &&& count_kind(out, ChangeKind::Modified) == count_kind(cs, ChangeKind::Modified)
            &&& count_kind(out, ChangeKind::Unchanged) == count_kind(cs, ChangeKind::Unchanged)
            &&& out.len() + k == cs.len()
        }),
{
    lemma_semantic_output_counts(cs, opts, cs.len() as int);
    lemma_pairing_balanced(cs, opts, cs.len() as int);
    assert(cs.take(cs.len() as int) =~= cs);
}

proof fn lemma_pairing_disabled(cs: Seq<ChangeView>, opts: SemanticOptions, n: int)
    requires
        !opts.move_detection,
        !opts.rename_detection,
        0 <= n <= cs.len(),
    ensures
        pairing(cs, opts, n).0 == Map::<int, int>::empty(),
        pairing(cs, opts, n).1 == Set::<int>::empty(),
    decreases n,
{
    if n > 0 {
        lemma_pairing_disabled(cs, opts, n - 1);
        lemma_first_partner(cs, n - 1, Set::empty(), opts, 0);
    }
}

proof fn lemma_output_unpaired(cs: Seq<ChangeView>, n: int)
    requires
        0 <= n <= cs.len(),
    ensures
        semantic_output(cs, Map::empty(), Set::empty(), n) == cs.take(n),
    decreases n,
{
    if n > 0 {
        lemma_output_unpaired(cs, n - 1);
        assert(cs.take(n) =~= cs.take(n - 1).push(cs[n - 1]));
    } else {
        assert(cs.take(0) =~= Seq::<ChangeView>::empty());
    }
}

/// With both detections off, the semantic pass changes nothing.
pub proof fn law_semantic_disabled_is_identity(cs: Seq<ChangeView>, opts: SemanticOptions)
    requires
        !opts.move_detection,
        !opts.rename_detection,
    ensures
        semantic_changes(cs, opts) == cs,
{
    lemma_pairing_disabled(cs, opts, cs.len() as int);
    lemma_output_unpaired(cs, cs.len() as int);
    assert(cs.take(cs.len() as int) =~= cs);
}

/// Analyses a diff result for moves and renames.
pub struct SemanticAnalyzer {
    options: SemanticOptions,
}


impl SemanticAnalyzer {
    /// The options this analyzer was made with.
    pub closed spec fn options(&self) -> SemanticOptions {
        self.options
    }

    /// An analyzer with the given options.
    pub fn new(options: SemanticOptions) -> (r: SemanticAnalyzer)
        ensures
            r.options() == options,
    {
        SemanticAnalyzer { options }
    }

    /// An analyzer that detects both moves and renames.
    pub fn with_defaults() -> (r: SemanticAnalyzer)
        ensures
            r.options().move_detection && r.options().rename_detection,
    {
        SemanticAnalyzer { options: SemanticOptions { move_detection: true, rename_detection: true } }
    }

    /// Whether two paths are siblings (see [`siblings`]).
    pub fn are_siblings(path_a: &str, path_b: &str) -> (r: bool)
        ensures
            r == siblings(path_a@, path_b@),
    {
        let pa = before_last(path_a, '.');
        let pb = before_last(path_b, '.');
        match (pa, pb) {
            (Some(a), Some(b)) => str_eq(a.as_str(), b.as_str()),
            _ => false,
        }
    }

    fn pairs_with(&self, changes: &Vec<Change>, r: usize, a: usize, used: &Vec<bool>) -> (res: bool)
        requires
            r < changes.len(),
            a < changes.len(),
            used@.len() == changes.len(),
        ensures
            res == can_pair(changes_view(changes@), r as int, a as int, Set::new(|k: int| 0 <= k < used@.len() && used@[k]), self.options),
    {
        if changes[a].kind != ChangeKind::Added || used[a] {
            return false;
        }
        let rv = opt_str(&changes[r].old_value);
        let av = opt_str(&changes[a].new_value);
        if !str_eq(rv, av) {
            return false;
        }
        let rp = opt_str(&changes[r].path);
        let ap = opt_str(&changes[a].path);
        if str_eq(rp, ap) {
            return false;
        }
        if Self::are_siblings(rp, ap) {
            self.options.rename_detection
        } else {
            self.options.move_detection
        }
    }

    /// Replaces each removal paired with an addition by one move or rename and
    /// drops the paired additions (see [`semantic_changes`]).
    pub fn detect_moves_and_renames(&self, changes: &mut Vec<Change>)
        ensures
            changes_view(final(changes)@) == semantic_changes(changes_view(old(changes)@), self.options()),
    {
        let ghost cs = changes_view(changes@);
        let ghost opts = self.options;
        let n = changes.len();
        let mut used: Vec<bool> = Vec::new();
        let mut partner: Vec<Option<usize>> = Vec::new();
        let mut k: usize = 0;
        while k < n
            invariant
                k <= n == changes.len(),
                used@.len() == k,
                partner@.len() == k,
                forall|j: int| 0 <= j < k ==> !used@[j] && partner@[j] is None,
            decreases n - k,
        {
            used.push(false);
            partner.push(None);
            k = k + 1;
        }
        proof {
            assert(pairing(cs, opts, 0).1 =~= Set::new(|j: int| 0 <= j < used@.len() && used@[j]));
        }
        let mut r: usize = 0;
        while r < n
            invariant
                r <= n == changes.len(),
                cs == changes_view(changes@),
                cs.len() == n,
                opts == self.options,
                used@.len() == n,
                partner@.len() == n,
                pairing(cs, opts, r as int).1 == Set::new(|j: int| 0 <= j < used@.len() && used@[j]),
                forall|j: int| 0 <= j < n ==> #[trigger] partner@[j] == (if pairing(cs, opts, r as int).0.contains_key(j) {
                    Some(pairing(cs, opts, r as int).0[j] as usize)
                } else {
                    None
                }),
            decreases n - r,
        {
            proof {
                lemma_pairing(cs, opts, r as int);
                lemma_pairing(cs, opts, r + 1);
            }
            let ghost prev = pairing(cs, opts, r as int);
            proof { reveal_strlit(""); }
            let old_value = opt_str(&changes[r].old_value);
            let is_candidate = changes[r].kind == ChangeKind::Removed && !str_eq(old_value, "");
            assert(cs[r as int] == changes@[r as int]@);
            assert(is_candidate ==> old_value@.len() > 0) by {
                if old_value@.len() == 0 {
                    assert(old_value@ =~= ""@);
                }
            }
            if is_candidate {
                let mut a: usize = 0;
                let mut found: Option<usize> = None;
                while a < n
                    invariant_except_break
                        found is None,
                        first_partner(cs, r as int, prev.1, opts, 0) == first_partner(cs, r as int, prev.1, opts, a as int),
                    invariant
                        a <= n == changes.len(),
                        r < n,
                        cs == changes_view(changes@),
                        opts == self.options,
                        used@.len() == n,
                        prev.1 == Set::new(|j: int| 0 <= j < used@.len() && used@[j]),
                    ensures
                        found matches Some(b) ==> b < n && first_partner(cs, r as int, prev.1, opts, 0) == Some(b as int),
                        found is None ==> first_partner(cs, r as int, prev.1, opts, 0) is None,
                    decreases n - a,
                {
                    if self.pairs_with(changes, r, a, &used) {
                        found = Some(a);
                        break;
                    }
                    a = a + 1;
                }
                match found {
                    Some(a) => {
                        proof {
                            let v = opt_or_empty(cs[r as int].old_value);
                            if v.len() == 0 {
                                assert(v =~= Seq::<char>::empty());
                            }
                            assert(cs[r as int].kind == ChangeKind::Removed);
                            assert(v.len() > 0);
                            assert(first_partner(cs, r as int, prev.1, opts, 0) == Some(a as int));
                            assert(pairing(cs, opts, r + 1) == (prev.0.insert(r as int, a as int), prev.1.insert(a as int)));
                        }
                        used.set(a, true);
                        partner.set(r, Some(a));
                        assert(pairing(cs, opts, r + 1).1 =~= Set::new(|j: int| 0 <= j < used@.len() && used@[j]));
                    },
                    None => {
                        proof {
                            let v = opt_or_empty(cs[r as int].old_value);
                            if v.len() == 0 {
                                assert(v =~= Seq::<char>::empty());
                            }
                            assert(pairing(cs, opts, r + 1) == prev);
                        }
                        assert(pairing(cs, opts, r + 1).1 =~= Set::new(|j: int| 0 <= j < used@.len() && used@[j]));
                    },
                }
            } else {
                assert(opt_or_empty(cs[r as int].old_value).len() == 0 ==> opt_or_empty(cs[r as int].old_value) =~= Seq::<char>::empty());
                assert(pairing(cs, opts, r + 1) == prev);
            }
            r = r + 1;
        }
        let ghost p = pairing(cs, opts, n as int);
        proof {
            lemma_pairing(cs, opts, n as int);
        }
        let mut out: Vec<Change> = Vec::new();
        let mut i: usize = 0;
        while i < n
            invariant
                i <= n == changes.len(),
                cs == changes_view(changes@),
                cs.len() == n,
                used@.len() == n,
                partner@.len() == n,
                p == pairing(cs, opts, n as int),
                p.1 == Set::new(|j: int| 0 <= j < used@.len() && used@[j]),
                forall|j: int| 0 <= j < n ==> #[trigger] partner@[j] == (if p.0.contains_key(j) {
                    Some(p.0[j] as usize)
                } else {
                    None
                }),
                forall|j: int| #[trigger] p.0.contains_key(j) ==> 0 <= p.0[j] < n,
                changes_view(out@) == semantic_output(cs, p.0, p.1, i as int),
            decreases n - i,
        {
            let ghost before = changes_view(out@);
            if used[i] {
                assert(changes_view(out@) =~= before + Seq::<ChangeView>::empty());
            } else {
                match partner[i] {
                    Some(a) => {
                        let rp = opt_str(&changes[i].path);
                        let ap = opt_str(&changes[a].path);
                        let kind = if Self::are_siblings(rp, ap) { ChangeKind::Renamed } else { ChangeKind::Moved };
                        let c = Change {
                            kind,
                            path: Some(owned(rp)),
                            old_value: Some(owned(opt_str(&changes[i].old_value))),
                            new_value: Some(owned(ap)),
                            location: changes[i].location,
                            annotations: copy_annotations(&changes[i].annotations),
                        };
                        out.push(c);
                        assert(cs[a as int] == changes@[a as int]@);
                        assert(changes_view(out@) =~= before + seq![paired_change(cs, i as int, a as int)]);
                    },
                    None => {
                        out.push(changes[i].duplicate());
                        assert(changes_view(out@) =~= before + seq![cs[i as int]]);
                    },
                }
            }
            i = i + 1;
        }
        *changes = out;
    }

    /// The result with moves and renames detected, and its statistics counted again.
    pub fn analyze(&self, result: DiffResult) -> (r: DiffResult)
        ensures
            r@.changes == semantic_changes(result@.changes, self.options()),
            r@.format == result@.format,
            stats_of(r@.changes, r.stats),
    {
        let DiffResult { changes, format, stats: _ } = result;
        let mut changes = changes;
        self.detect_moves_and_renames(&mut changes);
        DiffResult::from_changes(changes, format)
    }
}


/// A path's parent is `p` exactly when the path is `p`, a `.`, and a last
/// key that holds no `.`.
pub proof fn law_parent_is_text_before_last_dot(path: Seq<char>, p: Seq<char>)
    ensures
        parent_of(path) == Some(p) <==> exists|x: Seq<char>| path == p + seq!['.'] + x && !x.contains('.'),
{
    lemma_last_index_of(path, '.');
    if parent_of(path) == Some(p) {
        let i = last_index_of(path, '.')->Some_0;
        let x = path.subrange(i + 1, path.len() as int);
        assert(path =~= p + seq!['.'] + x);
        assert(!x.contains('.')) by {
            if x.contains('.') {
                let k = choose|k: int| 0 <= k < x.len() && x[k] == '.';
                assert(path[i + 1 + k] == '.');
            }
        }
    }
    if exists|x: Seq<char>| path == p + seq!['.'] + x && !x.contains('.') {
        let x = choose|x: Seq<char>| path == p + seq!['.'] + x && !x.contains('.');
        let n = p.len() as int;
        assert(path[n] == '.');
        match last_index_of(path, '.') {
            Some(i) => {
                if i < n {
                    assert(path[n] != '.');
                } else if i > n {
                    assert(x[i - n - 1] == path[i]);
                    assert(x.contains('.'));
                }
                assert(path.subrange(0, n) =~= p);
            },
            None => {
                assert(path[n] != '.');
            },
        }
    }
}

/// Two paths are siblings exactly when they are the same parent path, a
/// `.`, and each a last key without `.`; a removal and an addition whose
/// paths have different parents (or none) pair as a move, not a rename.
pub proof fn law_siblings_share_parent(a: Seq<char>, b: Seq<char>)
    ensures
        siblings(a, b) <==> exists|p: Seq<char>, x: Seq<char>, y: Seq<char>|
            a == p + seq!['.'] + x && b == p + seq!['.'] + y && !x.contains('.') && !y.contains('.'),
{
    if siblings(a, b) {
        let p = parent_of(a)->Some_0;
        law_parent_is_text_before_last_dot(a, p);
        law_parent_is_text_before_last_dot(b, p);
        let x = choose|x: Seq<char>| a == p + seq!['.'] + x && !x.contains('.');
        let y = choose|y: Seq<char>| b == p + seq!['.'] + y && !y.contains('.');
        assert(a == p + seq!['.'] + x && b == p + seq!['.'] + y && !x.contains('.') && !y.contains('.'));
    }
    if exists|p: Seq<char>, x: Seq<char>, y: Seq<char>|
        a == p + seq!['.'] + x && b == p + seq!['.'] + y && !x.contains('.') && !y.contains('.') {
        let (p, x, y) = choose|p: Seq<char>, x: Seq<char>, y: Seq<char>|
            a == p + seq!['.'] + x && b == p + seq!['.'] + y && !x.contains('.') && !y.contains('.');
        law_parent_is_text_before_last_dot(a, p);
        law_parent_is_text_before_last_dot(b, p);
    }
}

/// A paired removal and addition becomes a rename when their paths share a
/// parent path before their last `.`, and a move otherwise.
pub proof fn law_pair_kind_by_parent(cs: Seq<ChangeView>, r: int, a: int)
    ensures
        paired_change(cs, r, a).kind == ChangeKind::Renamed <==> exists|p: Seq<char>, x: Seq<char>, y: Seq<char>|
            opt_or_empty(cs[r].path) == p + seq!['.'] + x && opt_or_empty(cs[a].path) == p + seq!['.'] + y
                && !x.contains('.') && !y.contains('.'),
        paired_change(cs, r, a).kind == ChangeKind::Renamed || paired_change(cs, r, a).kind == ChangeKind::Moved,
{
    law_siblings_share_parent(opt_or_empty(cs[r].path), opt_or_empty(cs[a].path));
}

} // verus!
