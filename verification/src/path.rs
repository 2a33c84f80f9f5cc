//! Paths into structured documents.
//!
//! Paths use dot notation for object keys and bracket notation for array indices:
//! `key.nested`, `items[0].name`, and `obj["my.key"][0].name` for keys that
//! hold `.` or `[`.
use vstd::prelude::*;

use crate::text::{
    all_digits, chars_of, decimal, digit_char, digit_value, digits_value, is_digit,
    parse_usize_range, parse_usize_spec, push_decimal, push_str, replace_char, replace_char_exec,
    string_from_range, unsigned_digits,
};

verus! {

/// A segment of a parsed path.
#[derive(Debug, Clone, PartialEq, Eq)]
pub enum PathSegment {
    Key(String),
    Index(usize),
}

/// The mathematical content of a [`PathSegment`].
pub enum SegmentView {
    Key(Seq<char>),
    Index(usize),
}

impl View for PathSegment {
    type V = SegmentView;

    open spec fn view(&self) -> SegmentView {
        match self {
            PathSegment::Key(k) => SegmentView::Key(k@),
            PathSegment::Index(i) => SegmentView::Index(*i),
        }
    }
}

/// The views of a list of segments.
pub open spec fn segments_view(s: Seq<PathSegment>) -> Seq<SegmentView> {
    s.map_values(|x: PathSegment| x@)
}

/// The index of the first `c` in `s`, or `s.len()` when there is none.
pub open spec fn first_index(s: Seq<char>, c: char) -> nat
    decreases s.len(),
{
    if s.len() == 0 {
        0
    } else if s[0] == c {
        0
    } else {
        1 + first_index(s.drop_first(), c)
    }
}

/// The index of the first `a` or `b` in `s`, or `s.len()` when there is none.
pub open spec fn first_index2(s: Seq<char>, a: char, b: char) -> nat
    decreases s.len(),
{
    if s.len() == 0 {
        0
    } else if s[0] == a || s[0] == b {
        0
    } else {
        1 + first_index2(s.drop_first(), a, b)
    }
}

/// `first_index` is the position `e` when no `c` comes before it and `e` is
/// the end or holds `c`.
pub proof fn lemma_first_index_at(s: Seq<char>, c: char, e: int)
    requires
        0 <= e <= s.len(),
        forall|k: int| 0 <= k < e ==> s[k] != c,
        e == s.len() || s[e] == c,
    ensures
        first_index(s, c) == e,
    decreases s.len(),
{
    if s.len() > 0 && e > 0 {
        let t = s.drop_first();
        assert forall|k: int| 0 <= k < e - 1 implies t[k] != c by {
            assert(t[k] == s[k + 1]);
        }
        lemma_first_index_at(t, c, e - 1);
    }
}

/// `first_index2` is the position `e` when no `a` or `b` comes before it and
/// `e` is the end or holds one of them.
pub proof fn lemma_first_index2_at(s: Seq<char>, a: char, b: char, e: int)
    requires
        0 <= e <= s.len(),
        forall|k: int| 0 <= k < e ==> s[k] != a && s[k] != b,
        e == s.len() || s[e] == a || s[e] == b,
    ensures
        first_index2(s, a, b) == e,
    decreases s.len(),
{
    if s.len() > 0 && e > 0 {
        let t = s.drop_first();
        assert forall|k: int| 0 <= k < e - 1 implies t[k] != a && t[k] != b by {
            assert(t[k] == s[k + 1]);
        }
        lemma_first_index2_at(t, a, b, e - 1);
    }
}

/// `s` with the first `n` characters consumed, or all of them when `n` is past the end.
pub open spec fn after(s: Seq<char>, n: int) -> Seq<char> {
    if n <= s.len() { s.skip(n) } else { Seq::empty() }
}

/// The segments that [`parse_path`] reads from `s`:
/// - `.` separates keys and is skipped;
/// - `["key"]` is a quoted key (read up to the next `"`);
/// - `[n]` is an index (a segment is added only when the text parses as a `usize`);
/// - otherwise a key runs up to the next `.` or `[`.
pub open spec fn parse_seq(s: Seq<char>) -> Seq<SegmentView>
    decreases s.len(),
{
    if s.len() == 0 {
        Seq::empty()
    } else if s[0] == '.' {
        parse_seq(s.drop_first())
    } else if s[0] == '[' {
        let r = s.drop_first();
        if r.len() > 0 && r[0] == '"' {
            let body = r.drop_first();
            let e = first_index(body, '"') as int;
            let rest = after(body, e + 1);
            let rest2 = if rest.len() > 0 && rest[0] == ']' { rest.drop_first() } else { rest };
            seq![SegmentView::Key(body.take(e))] + parse_seq(rest2)
        } else {
            let e = first_index(r, ']') as int;
            let rest = after(r, e + 1);
            match parse_usize_spec(r.take(e)) {
                Some(n) => seq![SegmentView::Index(n as usize)] + parse_seq(rest),
                None => parse_seq(rest),
            }
        }
    } else {
        let e = first_index2(s, '.', '[') as int;
        proof {
            lemma_first_index2_bound(s, '.', '[');
        }
        if e == 0 {
            Seq::empty()
        } else {
            seq![SegmentView::Key(s.take(e))] + parse_seq(s.skip(e))
        }
    }
}

pub proof fn lemma_first_index_bound(s: Seq<char>, c: char)
    ensures
        first_index(s, c) <= s.len(),
        forall|k: int| 0 <= k < first_index(s, c) ==> s[k] != c,
        first_index(s, c) < s.len() ==> s[first_index(s, c) as int] == c,
    decreases s.len(),
{
    if s.len() > 0 && s[0] != c {
        let t = s.drop_first();
        lemma_first_index_bound(t, c);
        assert forall|k: int| 0 <= k < first_index(s, c) implies s[k] != c by {
            if k > 0 {
                assert(s[k] == t[k - 1]);
            }
        }
    }
}

pub proof fn lemma_first_index2_bound(s: Seq<char>, a: char, b: char)
    ensures
        first_index2(s, a, b) <= s.len(),
        s.len() > 0 && s[0] != a && s[0] != b ==> first_index2(s, a, b) > 0,
    decreases s.len(),
{
    if s.len() > 0 && s[0] != a && s[0] != b {
        lemma_first_index2_bound(s.drop_first(), a, b);
    }
}

/// Index of the first `c` at or after `from` in `v`, or `v.len()`.
fn scan_to(v: &Vec<char>, from: usize, c: char) -> (e: usize)
    requires
        from <= v.len(),
    ensures
        from <= e <= v.len(),
        e - from == first_index(v@.skip(from as int), c),
{
    let mut e = from;
    while e < v.len() && v[e] != c
        invariant
            from <= e <= v.len(),
            forall|k: int| from <= k < e ==> v@[k] != c,
        decreases v.len() - e,
    {
        e = e + 1;
    }
    proof {
        let s = v@.skip(from as int);
        assert forall|k: int| 0 <= k < e - from implies s[k] != c by {
            assert(s[k] == v@[from + k]);
        }
        lemma_first_index_at(s, c, e - from);
    }
    e
}

/// Index of the first `a` or `b` at or after `from` in `v`, or `v.len()`.
fn scan_to2(v: &Vec<char>, from: usize, a: char, b: char) -> (e: usize)
    requires
        from <= v.len(),
    ensures
        from <= e <= v.len(),
        e - from == first_index2(v@.skip(from as int), a, b),
{
    let mut e = from;
    while e < v.len() && v[e] != a && v[e] != b
        invariant
            from <= e <= v.len(),
            forall|k: int| from <= k < e ==> v@[k] != a && v@[k] != b,
        decreases v.len() - e,
    {
        e = e + 1;
    }
    proof {
        let s = v@.skip(from as int);
        assert forall|k: int| 0 <= k < e - from implies s[k] != a && s[k] != b by {
            assert(s[k] == v@[from + k]);
        }
        lemma_first_index2_at(s, a, b, e - from);
    }
    e
}

/// Parses a dotted path into segments: dot-separated keys (`a.b.c`), array
/// indices (`a[0].b`) and bracket-quoted keys (`a["my.key"].b`).
#[verifier::spinoff_prover]
#[verifier::rlimit(40)]
pub fn parse_path(path: &str) -> (segments: Vec<PathSegment>)
    ensures
        segments_view(segments@) == parse_seq(path@),
{
    let v = chars_of(path);
    let len = v.len();
    let mut segments: Vec<PathSegment> = Vec::new();
    let mut i: usize = 0;
    assert(v@.skip(0) =~= v@);
    assert(segments_view(segments@) + parse_seq(v@) =~= parse_seq(v@));
    while i < len
        invariant
            i <= len == v.len(),
            v@ == path@,
            segments_view(segments@) + parse_seq(v@.skip(i as int)) == parse_seq(path@),
        decreases len - i,
    {
        let ghost s = v@.skip(i as int);
        let ghost before = segments_view(segments@);
        assert(s[0] == v@[i as int]);
        if v[i] == '.' {
            assert(s.drop_first() =~= v@.skip(i + 1));
            i = i + 1;
        } else if v[i] == '[' {
            let ghost r = s.drop_first();
            assert(r =~= v@.skip(i + 1));
            i = i + 1;
            if i < len && v[i] == '"' {
                let ghost body = r.drop_first();
                assert(body =~= v@.skip(i + 1));
                i = i + 1;
                let start = i;
                let e = scan_to(&v, start, '"');
                proof { lemma_first_index_bound(body, '"'); }
                let key = string_from_range(&v, start, e);
                assert(key@ =~= body.take(e - start));
                i = e;
                if i < len {
                    i = i + 1;
                }
                assert(after(body, e - start + 1) =~= v@.skip(i as int));
                let ghost rest = v@.skip(i as int);
                if i < len && v[i] == ']' {
                    assert(rest[0] == v@[i as int]);
                    assert(rest.drop_first() =~= v@.skip(i + 1));
                    i = i + 1;
                }
                segments.push(PathSegment::Key(key));
                assert(segments_view(segments@) =~= before + seq![SegmentView::Key(body.take(e - start))]);
                assert(segments_view(segments@) + parse_seq(v@.skip(i as int)) =~= before + parse_seq(s));
            } else {
                let start = i;
                let e = scan_to(&v, start, ']');
                proof { lemma_first_index_bound(r, ']'); }
                assert(r.take(e - start) =~= v@.subrange(start as int, e as int));
                let parsed = parse_usize_range(&v, start, e);
                i = e;
                if i < len {
                    i = i + 1;
                }
                assert(after(r, e - start + 1) =~= v@.skip(i as int));
                match parsed {
                    Some(n) => {
                        segments.push(PathSegment::Index(n));
                        assert(segments_view(segments@) =~= before + seq![SegmentView::Index(n)]);
                        assert(segments_view(segments@) + parse_seq(v@.skip(i as int)) =~= before + parse_seq(s));
                    },
                    None => {},
                }
            }
        } else {
            let start = i;
            let e = scan_to2(&v, start, '.', '[');
            proof { lemma_first_index2_bound(s, '.', '['); }
            let key = string_from_range(&v, start, e);
            assert(key@ =~= s.take(e - start));
            assert(s.skip(e - start) =~= v@.skip(e as int));
            i = e;
            segments.push(PathSegment::Key(key));
            assert(segments_view(segments@) =~= before + seq![SegmentView::Key(s.take(e - start))]);
            assert(segments_view(segments@) + parse_seq(v@.skip(i as int)) =~= before + parse_seq(s));
        }
    }
    assert(v@.skip(i as int) =~= Seq::<char>::empty());
    assert(segments_view(segments@) + Seq::<SegmentView>::empty() =~= segments_view(segments@));
    segments
}

/// A key needs bracket-quoting when it holds `.` or `[`.
pub open spec fn needs_quoting_spec(key: Seq<char>) -> bool {
    key.contains('.') || key.contains('[')
}

/// The bracket-quoted form `["key"]`.
pub open spec fn quoted(key: Seq<char>) -> Seq<char> {
    seq!['[', '"'] + key + seq!['"', ']']
}

/// The text one segment contributes to a path; `first` is true for the
/// first segment, the only one a plain key is not preceded by `.` in.
pub open spec fn segment_text(seg: SegmentView, first: bool) -> Seq<char> {
    match seg {
        SegmentView::Key(k) => if needs_quoting_spec(k) {
            quoted(k)
        } else if first {
            k
        } else {
            seq!['.'] + k
        },
        SegmentView::Index(n) => seq!['['] + decimal(n as nat) + seq![']'],
    }
}

/// The path text for `segs`, whose first segment is first in the path when `first`.
pub open spec fn build_from(segs: Seq<SegmentView>, first: bool) -> Seq<char>
    decreases segs.len(),
{
    if segs.len() == 0 {
        Seq::empty()
    } else {
        segment_text(segs[0], first) + build_from(segs.drop_first(), false)
    }
}

/// What [`build_path`] produces for `segs`.
pub open spec fn build_spec(segs: Seq<SegmentView>) -> Seq<char> {
    build_from(segs, true)
}

pub proof fn lemma_build_from_push(segs: Seq<SegmentView>, seg: SegmentView, first: bool)
    ensures
        build_from(segs.push(seg), first) == build_from(segs, first) + segment_text(seg, first && segs.len() == 0),
    decreases segs.len(),
{
    if segs.len() == 0 {
        assert(segs.push(seg).drop_first() =~= Seq::<SegmentView>::empty());
        assert(segs.push(seg)[0] == seg);
        assert(build_from(Seq::<SegmentView>::empty(), false) =~= Seq::<char>::empty());
        assert(segment_text(seg, first) + Seq::<char>::empty() =~= segment_text(seg, first));
        assert(build_from(segs, first) =~= Seq::<char>::empty());
        assert(build_from(segs.push(seg), first) =~= segment_text(seg, first));
    } else {
        lemma_build_from_push(segs.drop_first(), seg, false);
        assert(segs.push(seg).drop_first() =~= segs.drop_first().push(seg));
        assert(build_from(segs.push(seg), first) =~= segment_text(segs[0], first) + (build_from(segs.drop_first(), false) + segment_text(seg, false)));
    }
}

/// Whether `key` needs bracket-quoting in a path (it holds `.` or `[`).
pub fn needs_quoting(key: &str) -> (r: bool)
    ensures
        r == needs_quoting_spec(key@),
{
    crate::text::contains_char(key, '.') || crate::text::contains_char(key, '[')
}

fn push_quoted(s: &mut String, key: &str)
    ensures
        final(s)@ == old(s)@ + quoted(key@),
{
    s.push('[');
    s.push('"');
    push_str(s, key);
    s.push('"');
    s.push(']');
    assert(final(s)@ =~= old(s)@ + quoted(key@));
}

/// Builds a path string from segments, bracket-quoting keys that hold `.` or `[`.
pub fn build_path(segments: &[PathSegment]) -> (r: String)
    ensures
        r@ == build_spec(segments_view(segments@)),
{
    let mut result = String::new();
    let mut i: usize = 0;
    while i < segments.len()
        invariant
            i <= segments.len(),
            result@ == build_from(segments_view(segments@.take(i as int)), true),
        decreases segments.len() - i,
    {
        let ghost pre = segments_view(segments@.take(i as int));
        proof {
            lemma_build_from_push(pre, segments@[i as int]@, true);
            assert(segments_view(segments@.take(i + 1)) =~= pre.push(segments@[i as int]@));
        }
        match &segments[i] {
            PathSegment::Key(key) => {
                if needs_quoting(key.as_str()) {
                    push_quoted(&mut result, key.as_str());
                } else {
                    if i > 0 {
                        result.push('.');
                    }
                    push_str(&mut result, key.as_str());
                    assert(result@ =~= build_from(pre, true) + segment_text(segments@[i as int]@, i == 0));
                }
            },
            PathSegment::Index(idx) => {
                result.push('[');
                push_decimal(&mut result, *idx as u128);
                result.push(']');
                assert(result@ =~= build_from(pre, true) + segment_text(segments@[i as int]@, i == 0));
            },
        }
        i = i + 1;
    }
    assert(segments@.take(i as int) =~= segments@);
    result
}

/// `key` with `~` escaped as `~0` and then `/` as `~1` (RFC 6901).
pub open spec fn pointer_escape(key: Seq<char>) -> Seq<char> {
    replace_char(replace_char(key, '~', "~0"@), '/', "~1"@)
}

/// The JSON Pointer text for a list of segments.
pub open spec fn pointer_of(segs: Seq<SegmentView>) -> Seq<char>
    decreases segs.len(),
{
    if segs.len() == 0 {
        Seq::empty()
    } else {
        pointer_of(segs.drop_last()) + seq!['/'] + match segs.last() {
            SegmentView::Key(k) => pointer_escape(k),
            SegmentView::Index(n) => decimal(n as nat),
        }
    }
}

/// What [`to_json_pointer`] gives: empty for the root (`""` or `$`),
/// otherwise `/` before each parsed segment.
pub open spec fn json_pointer_spec(path: Seq<char>) -> Seq<char> {
    if path.len() == 0 || path == "$"@ {
        Seq::empty()
    } else {
        pointer_of(parse_seq(path))
    }
}

/// Converts a path to a JSON Pointer (RFC 6901): `items[0].name` becomes
/// `/items/0/name`; the root (empty or `$`) becomes the empty text.
pub fn to_json_pointer(path: &str) -> (r: String)
    ensures
        r@ == json_pointer_spec(path@),
{
    let pv = chars_of(path);
    if pv.len() == 0 || (pv.len() == 1 && pv[0] == '$') {
        proof {
            reveal_strlit("$");
            if pv.len() == 1 {
                assert(path@ =~= "$"@);
            }
        }
        return String::new();
    }
    proof {
        reveal_strlit("$");
        assert(path@ != "$"@);
    }
    let segments = parse_path(path);
    let mut result = String::new();
    let mut i: usize = 0;
    while i < segments.len()
        invariant
            i <= segments.len(),
            result@ == pointer_of(segments_view(segments@.take(i as int))),
        decreases segments.len() - i,
    {
        let ghost pre = segments_view(segments@.take(i as int));
        assert(segments_view(segments@.take(i + 1)).drop_last() =~= pre);
        result.push('/');
        match &segments[i] {
            PathSegment::Key(key) => {
                let a = replace_char_exec(key.as_str(), '~', "~0");
                let b = replace_char_exec(a.as_str(), '/', "~1");
                push_str(&mut result, b.as_str());
            },
            PathSegment::Index(idx) => {
                push_decimal(&mut result, *idx as u128);
            },
        }
        i = i + 1;
        assert(result@ =~= pointer_of(segments_view(segments@.take(i as int))));
    }
    assert(segments@.take(i as int) =~= segments@);
    result
}

/// The text of `key` inside a path: `["key"]` when it needs quoting, else the key itself.
pub open spec fn format_key_spec(key: Seq<char>) -> Seq<char> {
    if needs_quoting_spec(key) { quoted(key) } else { key }
}

/// Formats a key for inclusion in a path, bracket-quoting it if needed.
pub fn format_key(key: &str) -> (r: String)
    ensures
        r@ == format_key_spec(key@),
{
    let mut r = String::new();
    if needs_quoting(key) {
        push_quoted(&mut r, key);
        assert(r@ =~= quoted(key@));
    } else {
        push_str(&mut r, key);
        assert(r@ =~= key@);
    }
    r
}

/// The path with `key` appended: `path["key"]` when the key needs quoting,
/// the key alone on an empty path, else `path.key`.
pub open spec fn append_key_spec(path: Seq<char>, key: Seq<char>) -> Seq<char> {
    if needs_quoting_spec(key) {
        path + quoted(key)
    } else if path.len() == 0 {
        key
    } else {
        path + seq!['.'] + key
    }
}

/// Appends a key to a path, bracket-quoting it if needed.
pub fn append_key(path: &str, key: &str) -> (r: String)
    ensures
        r@ == append_key_spec(path@, key@),
{
    let mut r = String::new();
    if needs_quoting(key) {
        push_str(&mut r, path);
        push_quoted(&mut r, key);
        assert(r@ =~= path@ + quoted(key@));
    } else if path.is_empty() {
        push_str(&mut r, key);
        assert(r@ =~= key@);
    } else {
        push_str(&mut r, path);
        r.push('.');
        push_str(&mut r, key);
        assert(r@ =~= path@ + seq!['.'] + key@);
    }
    r
}

/// The path with `[index]` appended.
pub open spec fn append_index_spec(path: Seq<char>, index: usize) -> Seq<char> {
    path + seq!['['] + decimal(index as nat) + seq![']']
}

/// Appends an array index to a path.
pub fn append_index(path: &str, index: usize) -> (r: String)
    ensures
        r@ == append_index_spec(path@, index),
{
    let mut r = String::new();
    push_str(&mut r, path);
    r.push('[');
    push_decimal(&mut r, index as u128);
    r.push(']');
    assert(r@ =~= path@ + seq!['['] + decimal(index as nat) + seq![']']);
    r
}

// ── The parse/build round trip ─────────────────────────────────────────

/// A segment that survives a round trip through a path string: a key is
/// non-empty, and a key that is bracket-quoted holds no `"`.
pub open spec fn segment_round_trips(seg: SegmentView) -> bool {
    match seg {
        SegmentView::Key(k) => k.len() > 0 && (needs_quoting_spec(k) ==> !k.contains('"')),
        SegmentView::Index(_) => true,
    }
}

proof fn lemma_decimal_digits(n: nat)
    ensures
        decimal(n).len() > 0,
        all_digits(decimal(n)),
        digits_value(decimal(n)) == n,
        decimal(n)[0] != '+',
    decreases n,
{
    if n >= 10 {
        lemma_decimal_digits(n / 10);
        let d = decimal(n);
        assert(d.drop_last() =~= decimal(n / 10));
        assert forall|i: int| 0 <= i < d.len() implies is_digit(#[trigger] d[i]) by {
            if i < d.len() - 1 {
                assert(d[i] == decimal(n / 10)[i]);
            }
        }
        assert(digit_value(digit_char(n % 10)) == n % 10);
        assert(d.last() == digit_char(n % 10));
        assert(digits_value(d) == digits_value(decimal(n / 10)) * 10 + digit_value(d.last()));
        assert((n / 10) * 10 + n % 10 == n) by (nonlinear_arith);
        assert(digits_value(d) == n);
    } else {
        assert(digit_value(digit_char(n)) == n);
        assert(decimal(n).drop_last() =~= Seq::<char>::empty());
        assert(digits_value(decimal(n)) == digits_value(Seq::<char>::empty()) * 10 + digit_value(digit_char(n)));
    }
}

proof fn lemma_build_from_start(segs: Seq<SegmentView>)
    ensures
        build_from(segs, false).len() == 0 || build_from(segs, false)[0] == '.' || build_from(segs, false)[0] == '[',
{
    if segs.len() > 0 {
        let t = segment_text(segs[0], false);
        assert(t.len() > 0);
        assert((t + build_from(segs.drop_first(), false))[0] == t[0]);
    }
}

/// Parsing the text of a segment followed by the rest of a path reads that
/// segment and then parses the rest.
#[verifier::spinoff_prover]
#[verifier::rlimit(40)]
proof fn lemma_parse_segment(seg: SegmentView, first: bool, tail: Seq<char>)
    requires
        segment_round_trips(seg),
        tail.len() == 0 || tail[0] == '.' || tail[0] == '[',
    ensures
        parse_seq(segment_text(seg, first) + tail) == seq![seg] + parse_seq(tail),
{
    match seg {
        SegmentView::Index(n) => {
            let d = decimal(n as nat);
            lemma_decimal_digits(n as nat);
            let s = segment_text(seg, first) + tail;
            let r = s.drop_first();
            assert(r =~= d + (seq![']'] + tail));
            assert(r[0] == d[0]);
            assert(is_digit(d[0]));
            assert forall|k: int| 0 <= k < d.len() implies r[k] != ']' by {
                assert(r[k] == d[k]);
                assert(is_digit(d[k]));
            }
            assert(r[d.len() as int] == ']');
            lemma_first_index_at(r, ']', d.len() as int);
            assert(r.take(d.len() as int) =~= d);
            assert(unsigned_digits(d) =~= d);
            assert(parse_usize_spec(d) == Some(n as nat));
            assert(s[0] == '[');
            assert(r[0] != '"');
            assert(after(r, d.len() as int + 1) =~= tail);
            assert(parse_seq(s) == seq![SegmentView::Index(n)] + parse_seq(tail));
            assert(seg == SegmentView::Index(n));
            assert(s == segment_text(seg, first) + tail);
            assert(seq![SegmentView::Index(n)] == seq![seg]);
            assert(parse_seq(segment_text(seg, first) + tail) == seq![seg] + parse_seq(tail));
        },
        SegmentView::Key(k) => {
            if needs_quoting_spec(k) {
                let s = quoted(k) + tail;
                let body = s.drop_first().drop_first();
                assert(body =~= k + (seq!['"', ']'] + tail));
                assert forall|j: int| 0 <= j < k.len() implies body[j] != '"' by {
                    assert(body[j] == k[j]);
                }
                assert(body[k.len() as int] == '"');
                lemma_first_index_at(body, '"', k.len() as int);
                assert(body.take(k.len() as int) =~= k);
                let rest = after(body, k.len() as int + 1);
                assert(rest =~= seq![']'] + tail);
                assert(rest.drop_first() =~= tail);
                assert(s[0] == '[' && s.drop_first()[0] == '"');
                assert(parse_seq(s) == seq![SegmentView::Key(k)] + parse_seq(tail));
            } else {
                let s = k + tail;
                assert forall|j: int| 0 <= j < k.len() implies s[j] != '.' && s[j] != '[' by {
                    assert(s[j] == k[j]);
                }
                if tail.len() > 0 {
                    assert(s[k.len() as int] == tail[0]);
                }
                lemma_first_index2_at(s, '.', '[', k.len() as int);
                assert(s.take(k.len() as int) =~= k);
                assert(s.skip(k.len() as int) =~= tail);
                assert(s[0] == k[0]);
                assert(s[0] != '.' && s[0] != '[');
                assert(parse_seq(s) == seq![SegmentView::Key(k)] + parse_seq(tail));
                if !first {
                    assert((seq!['.'] + k + tail).drop_first() =~= s);
                    assert((seq!['.'] + k) + tail =~= seq!['.'] + k + tail);
                    assert(parse_seq(seq!['.'] + k + tail) == parse_seq(s));
                }
            }
        },
    }
}

proof fn lemma_parse_build_from(segs: Seq<SegmentView>, first: bool)
    requires
        forall|i: int| 0 <= i < segs.len() ==> segment_round_trips(#[trigger] segs[i]),
    ensures
        parse_seq(build_from(segs, first)) == segs,
    decreases segs.len(),
{
    if segs.len() > 0 {
        let rest = segs.drop_first();
        assert forall|i: int| 0 <= i < rest.len() implies segment_round_trips(#[trigger] rest[i]) by {
            assert(rest[i] == segs[i + 1]);
        }
        lemma_parse_build_from(rest, false);
        lemma_build_from_start(rest);
        assert(segment_round_trips(segs[0]));
        lemma_parse_segment(segs[0], first, build_from(rest, false));
        assert(seq![segs[0]] + rest =~= segs);
    }
}

/// Parsing the path built from segments gives those segments back, for
/// segments that round-trip (keys non-empty; quoted keys without `"`).
pub proof fn law_parse_build_round_trip(segs: Seq<SegmentView>)
    requires
        forall|i: int| 0 <= i < segs.len() ==> segment_round_trips(#[trigger] segs[i]),
    ensures
        parse_seq(build_spec(segs)) == segs,
{
    lemma_parse_build_from(segs, true);
}

} // verus!
