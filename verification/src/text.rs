//! Character-level string helpers shared by the formatters, path handling
//! and the patchers: each is stated over `Seq<char>`.
use vstd::prelude::*;
use vstd::string::*;

verus! {

pub assume_specification[ std::string::String::push ](s: &mut std::string::String, ch: char)
    ensures
        final(s)@ == old(s)@.push(ch),
;

/// The characters of `s`, in order.
pub fn chars_of(s: &str) -> (v: Vec<char>)
    ensures
        v@ == s@,
{
    let mut v: Vec<char> = Vec::new();
    for c in it: s.chars()
        invariant
            v@ == it.seq().take(it.index() as int),
            it.seq() == s@,
    {
        v.push(c);
    }
    v
}

/// A `String` holding exactly the characters `v[from..to]`.
pub fn string_from_range(v: &Vec<char>, from: usize, to: usize) -> (s: String)
    requires
        from <= to <= v.len(),
    ensures
        s@ == v@.subrange(from as int, to as int),
{
    let mut s = String::new();
    let mut i: usize = from;
    while i < to
        invariant
            from <= i <= to <= v.len(),
            s@ == v@.subrange(from as int, i as int),
        decreases to - i,
    {
        s.push(v[i]);
        i = i + 1;
        assert(s@ =~= v@.subrange(from as int, i as int));
    }
    s
}

/// Appends `t` to `s`.
pub fn push_str(s: &mut String, t: &str)
    ensures
        final(s)@ == old(s)@ + t@,
{
    s.append(t);
}

/// A fresh copy of `s`.
pub fn copy_string(s: &String) -> (r: String)
    ensures
        r@ == s@,
{
    s.clone()
}

/// A fresh `String` with the characters of `s`.
pub fn owned(s: &str) -> (r: String)
    ensures
        r@ == s@,
{
    s.to_owned()
}

/// A fresh copy of an optional string.
pub fn copy_opt_string(s: &Option<String>) -> (r: Option<String>)
    ensures
        opt_view(r) == opt_view(*s),
{
    match s {
        Some(x) => Some(x.clone()),
        None => None,
    }
}

/// The view of an optional string.
pub open spec fn opt_view(s: Option<String>) -> Option<Seq<char>> {
    match s {
        Some(x) => Some(x@),
        None => None,
    }
}

/// The view of an optional string, with `None` read as the empty text
/// (what `as_deref().unwrap_or("")` gives).
pub open spec fn opt_or_empty(s: Option<Seq<char>>) -> Seq<char> {
    match s {
        Some(x) => x,
        None => Seq::empty(),
    }
}

/// Equality of two strings by their characters.
pub fn str_eq(a: &str, b: &str) -> (r: bool)
    ensures
        r == (a@ == b@),
{
    let av = chars_of(a);
    let bv = chars_of(b);
    if av.len() != bv.len() {
        return false;
    }
    let mut i: usize = 0;
    while i < av.len()
        invariant
            i <= av.len() == bv.len(),
            av@ == a@,
            bv@ == b@,
            av@.take(i as int) == bv@.take(i as int),
        decreases av.len() - i,
    {
        if av[i] != bv[i] {
            assert(a@[i as int] != b@[i as int]);
            return false;
        }
        i = i + 1;
        assert(av@.take(i as int) =~= av@.take(i - 1).push(av@[i - 1]));
        assert(bv@.take(i as int) =~= bv@.take(i - 1).push(bv@[i - 1]));
    }
    assert(av@ =~= av@.take(i as int));
    assert(bv@ =~= bv@.take(i as int));
    true
}

/// `p` is a prefix of `s`.
pub open spec fn has_prefix(s: Seq<char>, p: Seq<char>) -> bool {
    p.len() <= s.len() && s.subrange(0, p.len() as int) == p
}

/// `p` is a suffix of `s`.
pub open spec fn has_suffix(s: Seq<char>, p: Seq<char>) -> bool {
    p.len() <= s.len() && s.subrange(s.len() - p.len(), s.len() as int) == p
}

/// `p` occurs in `s` at position `i`.
pub open spec fn occurs_at(s: Seq<char>, p: Seq<char>, i: int) -> bool {
    0 <= i && i + p.len() <= s.len() && s.subrange(i, i + p.len()) == p
}

/// `p` occurs somewhere in `s` (what `str::contains` answers for a text pattern).
pub open spec fn contains_seq(s: Seq<char>, p: Seq<char>) -> bool {
    exists|i: int| occurs_at(s, p, i)
}

fn occurs_at_exec(s: &Vec<char>, p: &Vec<char>, i: usize) -> (r: bool)
    requires
        i + p.len() <= s.len(),
    ensures
        r == occurs_at(s@, p@, i as int),
{
    let mut j: usize = 0;
    while j < p.len()
        invariant
            j <= p.len(),
            i + p.len() <= s.len(),
            forall|k: int| 0 <= k < j ==> s@[i + k] == p@[k],
        decreases p.len() - j,
    {
        if s[i + j] != p[j] {
            assert(s@.subrange(i as int, i + p.len())[j as int] != p@[j as int]);
            return false;
        }
        j = j + 1;
    }
    assert(s@.subrange(i as int, i + p.len()) =~= p@);
    true
}

/// Whether `s` starts with `p`.
pub fn starts_with(s: &str, p: &str) -> (r: bool)
    ensures
        r == has_prefix(s@, p@),
{
    let sv = chars_of(s);
    let pv = chars_of(p);
    if pv.len() > sv.len() {
        return false;
    }
    occurs_at_exec(&sv, &pv, 0)
}

/// Whether `s` ends with `p`.
pub fn ends_with(s: &str, p: &str) -> (r: bool)
    ensures
        r == has_suffix(s@, p@),
{
    let sv = chars_of(s);
    let pv = chars_of(p);
    if pv.len() > sv.len() {
        return false;
    }
    occurs_at_exec(&sv, &pv, sv.len() - pv.len())
}

/// Whether the text `p` occurs in `s`.
pub fn contains_str(s: &str, p: &str) -> (r: bool)
    ensures
        r == contains_seq(s@, p@),
{
    let sv = chars_of(s);
    let pv = chars_of(p);
    if pv.len() > sv.len() {
        assert forall|i: int| !occurs_at(s@, p@, i) by {}
        return false;
    }
    let limit = sv.len() - pv.len();
    let mut i: usize = 0;
    while i < limit
        invariant
            pv.len() <= sv.len(),
            limit == sv.len() - pv.len(),
            i <= limit,
            sv@ == s@,
            pv@ == p@,
            forall|k: int| 0 <= k < i ==> !occurs_at(s@, p@, k),
        decreases limit - i,
    {
        if occurs_at_exec(&sv, &pv, i) {
            return true;
        }
        i = i + 1;
    }
    if occurs_at_exec(&sv, &pv, limit) {
        return true;
    }
    assert forall|k: int| !occurs_at(s@, p@, k) by {
        if 0 <= k && k + p@.len() <= s@.len() {
            assert(k <= limit);
        }
    }
    false
}

/// Whether the character `c` occurs in `s`.
pub fn contains_char(s: &str, c: char) -> (r: bool)
    ensures
        r == s@.contains(c),
{
    let sv = chars_of(s);
    let mut i: usize = 0;
    while i < sv.len()
        invariant
            i <= sv.len(),
            sv@ == s@,
            forall|k: int| 0 <= k < i ==> sv@[k] != c,
        decreases sv.len() - i,
    {
        if sv[i] == c {
            assert(s@[i as int] == c);
            return true;
        }
        i = i + 1;
    }
    false
}

/// The text of an optional string, empty when there is none.
pub fn opt_str(s: &Option<String>) -> (r: &str)
    ensures
        r@ == opt_or_empty(opt_view(*s)),
{
    match s {
        Some(t) => t.as_str(),
        None => {
            proof { reveal_strlit(""); }
            ""
        },
    }
}

/// `s` with every trailing `'\n'` removed (what `trim_end_matches('\n')` gives).
pub open spec fn trim_newlines(s: Seq<char>) -> Seq<char>
    decreases s.len(),
{
    if s.len() > 0 && s.last() == '\n' {
        trim_newlines(s.drop_last())
    } else {
        s
    }
}

/// Removes every trailing `'\n'` from `s`.
pub fn trim_end_newlines(s: &str) -> (r: String)
    ensures
        r@ == trim_newlines(s@),
{
    let sv = chars_of(s);
    let mut end: usize = sv.len();
    assert(sv@.take(end as int) =~= s@);
    while end > 0 && sv[end - 1] == '\n'
        invariant
            end <= sv.len(),
            sv@ == s@,
            trim_newlines(sv@.take(end as int)) == trim_newlines(s@),
        decreases end,
    {
        assert(sv@.take(end as int).drop_last() =~= sv@.take(end - 1));
        end = end - 1;
    }
    assert(sv@.take(end as int) =~= sv@.subrange(0, end as int));
    string_from_range(&sv, 0, end)
}

/// The number of occurrences of `c` in `s`.
pub open spec fn count_char(s: Seq<char>, c: char) -> nat
    decreases s.len(),
{
    if s.len() == 0 {
        0
    } else {
        count_char(s.drop_last(), c) + if s.last() == c { 1nat } else { 0nat }
    }
}

/// A count never exceeds the length.
pub proof fn lemma_count_char_bound(s: Seq<char>, c: char)
    ensures
        count_char(s, c) <= s.len(),
    decreases s.len(),
{
    if s.len() > 0 {
        lemma_count_char_bound(s.drop_last(), c);
    }
}

/// Counts the occurrences of `c` in `s` (what `s.matches(c).count()` gives).
pub fn count_char_exec(s: &str, c: char) -> (n: usize)
    ensures
        n == count_char(s@, c),
{
    let sv = chars_of(s);
    let mut n: usize = 0;
    let mut i: usize = 0;
    while i < sv.len()
        invariant
            i <= sv.len(),
            sv@ == s@,
            n == count_char(sv@.take(i as int), c),
            n <= i,
        decreases sv.len() - i,
    {
        assert(sv@.take(i + 1).drop_last() =~= sv@.take(i as int));
        if sv[i] == c {
            n = n + 1;
        }
        i = i + 1;
    }
    assert(sv@.take(i as int) =~= sv@);
    n
}

/// `s` with each `c` replaced by `r` (what `str::replace(c, r)` gives).
pub open spec fn replace_char(s: Seq<char>, c: char, r: Seq<char>) -> Seq<char>
    decreases s.len(),
{
    if s.len() == 0 {
        Seq::empty()
    } else {
        replace_char(s.drop_last(), c, r) + if s.last() == c { r } else { seq![s.last()] }
    }
}

/// Replaces every `c` in `s` by the text `r`.
pub fn replace_char_exec(s: &str, c: char, r: &str) -> (out: String)
    ensures
        out@ == replace_char(s@, c, r@),
{
    let sv = chars_of(s);
    let mut out = String::new();
    let mut i: usize = 0;
    while i < sv.len()
        invariant
            i <= sv.len(),
            sv@ == s@,
            out@ == replace_char(sv@.take(i as int), c, r@),
        decreases sv.len() - i,
    {
        assert(sv@.take(i + 1).drop_last() =~= sv@.take(i as int));
        if sv[i] == c {
            out.append(r);
        } else {
            out.push(sv[i]);
            assert(seq![sv@[i as int]] =~= Seq::<char>::empty().push(sv@[i as int]));
        }
        i = i + 1;
    }
    assert(sv@.take(i as int) =~= sv@);
    out
}

/// The decimal digit for `d < 10`.
pub open spec fn digit_char(d: nat) -> char {
    if d == 0 { '0' }
    else if d == 1 { '1' }
    else if d == 2 { '2' }
    else if d == 3 { '3' }
    else if d == 4 { '4' }
    else if d == 5 { '5' }
    else if d == 6 { '6' }
    else if d == 7 { '7' }
    else if d == 8 { '8' }
    else { '9' }
}

/// The decimal text of `n`, without sign or leading zeros (what `to_string` gives).
pub open spec fn decimal(n: nat) -> Seq<char>
    decreases n,
{
    if n < 10 {
        seq![digit_char(n)]
    } else {
        decimal(n / 10).push(digit_char(n % 10))
    }
}

fn digit_char_exec(d: u128) -> (c: char)
    requires
        d < 10,
    ensures
        c == digit_char(d as nat),
{
    if d == 0 { '0' }
    else if d == 1 { '1' }
    else if d == 2 { '2' }
    else if d == 3 { '3' }
    else if d == 4 { '4' }
    else if d == 5 { '5' }
    else if d == 6 { '6' }
    else if d == 7 { '7' }
    else if d == 8 { '8' }
    else { '9' }
}

/// Appends the decimal text of `n` to `s`.
pub fn push_decimal(s: &mut String, n: u128)
    ensures
        final(s)@ == old(s)@ + decimal(n as nat),
    decreases n,
{
    if n < 10 {
        s.push(digit_char_exec(n));
        assert(old(s)@.push(digit_char(n as nat)) =~= old(s)@ + decimal(n as nat));
    } else {
        push_decimal(s, n / 10);
        s.push(digit_char_exec(n % 10));
        assert(old(s)@ + decimal(n as nat) =~= old(s)@ + decimal((n / 10) as nat) + seq![digit_char((n % 10) as nat)]);
    }
}

/// The decimal text of `n`.
pub fn decimal_string(n: usize) -> (s: String)
    ensures
        s@ == decimal(n as nat),
{
    let mut s = String::new();
    push_decimal(&mut s, n as u128);
    assert(Seq::<char>::empty() + decimal(n as nat) =~= decimal(n as nat));
    s
}

/// The decimal text of a signed integer: a `-` before a negative one.
pub open spec fn signed_decimal(i: int) -> Seq<char> {
    if i < 0 { seq!['-'] + decimal((-i) as nat) } else { decimal(i as nat) }
}

/// The decimal text of `i` (what `to_string` gives).
pub fn signed_decimal_string(i: i64) -> (s: String)
    ensures
        s@ == signed_decimal(i as int),
{
    let mut s = String::new();
    if i < 0 {
        s.push('-');
        let m: u64 = (0i128 - i as i128) as u64;
        push_decimal(&mut s, m as u128);
        assert(s@ =~= seq!['-'] + decimal((-i) as nat));
    } else {
        push_decimal(&mut s, i as u128);
        assert(s@ =~= decimal(i as nat));
    }
    s
}

/// `a` comes strictly before `b` in lexicographic order by code point (the
/// order of `str` and `String`).
pub open spec fn lex_lt(a: Seq<char>, b: Seq<char>) -> bool
    decreases a.len(),
{
    if a.len() == 0 {
        b.len() > 0
    } else if b.len() == 0 {
        false
    } else if a[0] != b[0] {
        (a[0] as int) < (b[0] as int)
    } else {
        lex_lt(a.drop_first(), b.drop_first())
    }
}

/// Whether `a` comes strictly before `b` (see [`lex_lt`]).
pub fn str_lt(a: &str, b: &str) -> (r: bool)
    ensures
        r == lex_lt(a@, b@),
{
    let av = chars_of(a);
    let bv = chars_of(b);
    let mut i: usize = 0;
    assert(av@.skip(0) =~= av@);
    assert(bv@.skip(0) =~= bv@);
    while i < av.len() && i < bv.len()
        invariant
            i <= av.len(),
            i <= bv.len(),
            av@ == a@,
            bv@ == b@,
            lex_lt(av@.skip(i as int), bv@.skip(i as int)) == lex_lt(a@, b@),
        decreases av.len() - i,
    {
        let x = av[i];
        let y = bv[i];
        assert(av@.skip(i as int)[0] == x);
        assert(bv@.skip(i as int)[0] == y);
        if x != y {
            return x < y;
        }
        assert(av@.skip(i as int).drop_first() =~= av@.skip(i + 1));
        assert(bv@.skip(i as int).drop_first() =~= bv@.skip(i + 1));
        i = i + 1;
    }
    i == av.len() && i < bv.len()
}

/// `lex_lt` is a strict total order: irreflexive, transitive, and any two
/// different texts are ordered one way.
pub proof fn lemma_lex_lt_order(a: Seq<char>, b: Seq<char>, c: Seq<char>)
    ensures
        !lex_lt(a, a),
        lex_lt(a, b) ==> !lex_lt(b, a),
        lex_lt(a, b) && lex_lt(b, c) ==> lex_lt(a, c),
        a != b ==> lex_lt(a, b) || lex_lt(b, a),
    decreases a.len(),
{
    if a.len() > 0 {
        lemma_lex_lt_order(a.drop_first(), a.drop_first(), a.drop_first());
        if b.len() > 0 {
            if c.len() > 0 {
                lemma_lex_lt_order(a.drop_first(), b.drop_first(), c.drop_first());
            } else {
                lemma_lex_lt_order(a.drop_first(), b.drop_first(), b.drop_first());
            }
            if a[0] != b[0] {
                assert((a[0] as int) != (b[0] as int));
            }
            if a != b && a[0] == b[0] {
                assert(a.drop_first() != b.drop_first()) by {
                    if a.drop_first() == b.drop_first() {
                        assert(a =~= seq![a[0]] + a.drop_first());
                        assert(b =~= seq![b[0]] + b.drop_first());
                    }
                }
            }
        }
    } else {
        if b.len() == 0 {
            assert(a =~= b);
        }
    }
}

/// `c` is an ASCII digit.
pub open spec fn is_digit(c: char) -> bool {
    '0' <= c && c <= '9'
}

/// The value of a digit character.
pub open spec fn digit_value(c: char) -> nat {
    (c as int - '0' as int) as nat
}

/// The value of a string of digits.
pub open spec fn digits_value(s: Seq<char>) -> nat
    decreases s.len(),
{
    if s.len() == 0 {
        0
    } else {
        digits_value(s.drop_last()) * 10 + digit_value(s.last())
    }
}

/// All characters of `s` are ASCII digits.
pub open spec fn all_digits(s: Seq<char>) -> bool {
    forall|i: int| 0 <= i < s.len() ==> is_digit(#[trigger] s[i])
}

/// `s` without one leading `+`.
pub open spec fn unsigned_digits(s: Seq<char>) -> Seq<char> {
    if s.len() > 0 && s[0] == '+' { s.drop_first() } else { s }
}

/// What `str::parse::<usize>` gives for the text `s`: an optional `+`, then
/// one or more digits whose value fits in a `usize`.
pub open spec fn parse_usize_spec(s: Seq<char>) -> Option<nat> {
    let d = unsigned_digits(s);
    if d.len() > 0 && all_digits(d) && digits_value(d) <= usize::MAX {
        Some(digits_value(d))
    } else {
        None
    }
}

proof fn lemma_digits_value_monotone(s: Seq<char>, i: int)
    requires
        0 <= i <= s.len(),
        all_digits(s),
    ensures
        digits_value(s.take(i)) <= digits_value(s),
    decreases s.len() - i,
{
    if i < s.len() {
        lemma_digits_value_monotone(s, i + 1);
        assert(s.take(i + 1).drop_last() =~= s.take(i));
        assert(is_digit(s[i]));
    } else {
        assert(s.take(i) =~= s);
    }
}

/// Parses `v[from..to]` as `str::parse::<usize>` would.
pub fn parse_usize_range(v: &Vec<char>, from: usize, to: usize) -> (r: Option<usize>)
    requires
        from <= to <= v.len(),
    ensures
        r matches Some(n) ==> parse_usize_spec(v@.subrange(from as int, to as int)) == Some(n as nat),
        r is None ==> parse_usize_spec(v@.subrange(from as int, to as int)) is None,
{
    let ghost s = v@.subrange(from as int, to as int);
    let mut start = from;
    if start < to && v[start] == '+' {
        start = start + 1;
    }
    let ghost d = v@.subrange(start as int, to as int);
    assert(d =~= unsigned_digits(s));
    if start == to {
        assert(d.len() == 0);
        return None;
    }
    let mut acc: usize = 0;
    let mut i: usize = start;
    while i < to
        invariant
            from <= start < to <= v.len(),
            start <= i <= to,
            d == v@.subrange(start as int, to as int),
            d == unsigned_digits(v@.subrange(from as int, to as int)),
            all_digits(d.take(i - start)),
            acc as nat == digits_value(d.take(i - start)),
        decreases to - i,
    {
        let c = v[i];
        if !('0' <= c && c <= '9') {
            assert(d[i - start] == c);
            assert(!is_digit(d[i - start]));
            assert(!all_digits(d));
            return None;
        }
        let dv = (c as u32 - '0' as u32) as usize;
        assert(d.take(i - start + 1).drop_last() =~= d.take(i - start));
        if acc > (usize::MAX - dv) / 10 {
            proof {
                assert(all_digits(d.take(i - start + 1)));
                assert(digits_value(d.take(i - start + 1)) == acc * 10 + dv) by (nonlinear_arith)
                    requires
                        digits_value(d.take(i - start + 1)) == digits_value(d.take(i - start)) * 10 + digit_value(c),
                        acc as nat == digits_value(d.take(i - start)),
                        dv == digit_value(c),
                ;
                assert(acc * 10 + dv > usize::MAX) by (nonlinear_arith)
                    requires acc > (usize::MAX - dv) / 10, dv < 10,
                ;
                if all_digits(d) {
                    lemma_digits_value_monotone(d, i - start + 1);
                }
            }
            return None;
        }
        proof {
            assert(acc * 10 + dv <= usize::MAX) by (nonlinear_arith)
                requires acc <= (usize::MAX - dv) / 10, dv < 10,
            ;
        }
        acc = acc * 10 + dv;
        i = i + 1;
    }
    assert(d.take(i - start) =~= d);
    Some(acc)
}

/// ASCII lowercase of one character.
pub open spec fn ascii_lower(c: char) -> char {
    if 'A' <= c && c <= 'Z' { ((c as u32) + 32) as char } else { c }
}

fn ascii_lower_exec(c: char) -> (r: char)
    ensures
        r == ascii_lower(c),
{
    if 'A' <= c && c <= 'Z' {
        let b: u8 = c as u8;
        let l: u8 = b + 32;
        assert(b as u32 == c as u32);
        l as char
    } else {
        c
    }
}

/// `a` and `b` are equal up to ASCII case.
pub open spec fn eq_ignore_ascii(a: Seq<char>, b: Seq<char>) -> bool {
    a.len() == b.len() && forall|i: int| 0 <= i < a.len() ==> ascii_lower(#[trigger] a[i]) == ascii_lower(b[i])
}

/// Whether `a` and `b` are equal up to ASCII case.
pub fn eq_ignore_ascii_case(a: &str, b: &str) -> (r: bool)
    ensures
        r == eq_ignore_ascii(a@, b@),
{
    let av = chars_of(a);
    let bv = chars_of(b);
    if av.len() != bv.len() {
        return false;
    }
    let mut i: usize = 0;
    while i < av.len()
        invariant
            i <= av.len() == bv.len(),
            av@ == a@,
            bv@ == b@,
            forall|k: int| 0 <= k < i ==> ascii_lower(#[trigger] a@[k]) == ascii_lower(b@[k]),
        decreases av.len() - i,
    {
        if ascii_lower_exec(av[i]) != ascii_lower_exec(bv[i]) {
            return false;
        }
        i = i + 1;
    }
    true
}

/// Unicode lowercase mapping of a text, as `str::to_lowercase` computes it.
pub uninterp spec fn unicode_lowercase(s: Seq<char>) -> Seq<char>;

/// Calls `str::to_lowercase` (std), which maps each character to its Unicode
/// lowercase. The contract only names the result.
#[verifier::external_body]
pub(crate) fn to_lowercase(s: &str) -> (r: String)
    ensures
        r@ == unicode_lowercase(s@),
{
    s.to_lowercase()
}

/// What `Debug` prints for a text: the text in double quotes, with
/// backslash escapes where std's `escape_debug` gives them.
pub uninterp spec fn str_debug(s: Seq<char>) -> Seq<char>;

/// Prints a text with std's `Debug` for `str` (`format!("{:?}")`). The
/// contract only names the result.
#[verifier::external_body]
pub(crate) fn debug_str(s: &str) -> (r: String)
    ensures
        r@ == str_debug(s@),
{
    format!("{:?}", s)
}

/// Unicode `White_Space` trimming of both ends, as `str::trim` computes it.
pub uninterp spec fn unicode_trim(s: Seq<char>) -> Seq<char>;

/// Calls `str::trim` (std), which strips leading and trailing Unicode
/// whitespace. The contract only names the result.
#[verifier::external_body]
pub(crate) fn trim(s: &str) -> (r: String)
    ensures
        r@ == unicode_trim(s@),
{
    s.trim().to_string()
}

/// The lowercase hexadecimal digit of `d < 16`.
pub open spec fn hex_char(d: nat) -> char {
    if d < 10 { digit_char(d) }
    else if d == 10 { 'a' }
    else if d == 11 { 'b' }
    else if d == 12 { 'c' }
    else if d == 13 { 'd' }
    else if d == 14 { 'e' }
    else { 'f' }
}

/// Two lowercase hex digits of a byte (what `format!("{b:02x}")` gives).
pub open spec fn hex_byte(b: u8) -> Seq<char> {
    seq![hex_char((b / 16) as nat), hex_char((b % 16) as nat)]
}

fn hex_char_exec(d: u8) -> (c: char)
    requires
        d < 16,
    ensures
        c == hex_char(d as nat),
{
    if d < 10 { digit_char_exec(d as u128) }
    else if d == 10 { 'a' }
    else if d == 11 { 'b' }
    else if d == 12 { 'c' }
    else if d == 13 { 'd' }
    else if d == 14 { 'e' }
    else { 'f' }
}

/// Appends the two hex digits of `b`.
pub fn push_hex_byte(s: &mut String, b: u8)
    ensures
        final(s)@ == old(s)@ + hex_byte(b),
{
    s.push(hex_char_exec(b / 16));
    s.push(hex_char_exec(b % 16));
    assert(final(s)@ =~= old(s)@ + hex_byte(b));
}

/// The pieces of `s` between occurrences of `c` (what `str::split(c)` yields):
/// there is always at least one piece.
pub open spec fn split_on(s: Seq<char>, c: char) -> Seq<Seq<char>>
    decreases s.len(),
{
    if s.len() == 0 {
        seq![Seq::empty()]
    } else {
        let prev = split_on(s.drop_last(), c);
        if s.last() == c {
            prev.push(Seq::empty())
        } else {
            prev.update(prev.len() - 1, prev.last().push(s.last()))
        }
    }
}

pub proof fn lemma_split_on_nonempty(s: Seq<char>, c: char)
    ensures
        split_on(s, c).len() >= 1,
    decreases s.len(),
{
    if s.len() > 0 {
        lemma_split_on_nonempty(s.drop_last(), c);
    }
}

/// Joining the pieces of `s` between occurrences of `c` with `c` gives `s`
/// back, so different texts have different pieces.
pub proof fn lemma_join_split(s: Seq<char>, c: char)
    ensures
        join_spec(split_on(s, c), seq![c]) == s,
    decreases s.len(),
{
    if s.len() > 0 {
        let s0 = s.drop_last();
        let prev = split_on(s0, c);
        lemma_join_split(s0, c);
        lemma_split_on_nonempty(s0, c);
        if s.last() == c {
            assert(prev.push(Seq::empty()).drop_last() =~= prev);
            assert(s0 + seq![c] + Seq::<char>::empty() =~= s);
        } else {
            let q = prev.update(prev.len() - 1, prev.last().push(s.last()));
            if prev.len() == 1 {
                assert(s0 == prev[0]);
                assert(prev.last().push(s.last()) =~= s);
            } else {
                assert(q.drop_last() =~= prev.drop_last());
                assert(join_spec(prev.drop_last(), seq![c]) + seq![c] + prev.last().push(s.last()) =~= s0.push(s.last()));
                assert(s0.push(s.last()) =~= s);
            }
        }
    }
}

/// Splits `s` at every `c`.
pub fn split_char(s: &str, c: char) -> (parts: Vec<String>)
    ensures
        parts@.len() == split_on(s@, c).len(),
        forall|i: int| 0 <= i < parts@.len() ==> #[trigger] parts@[i]@ == split_on(s@, c)[i],
{
    let sv = chars_of(s);
    let mut parts: Vec<String> = Vec::new();
    let mut start: usize = 0;
    let mut i: usize = 0;
    while i < sv.len()
        invariant
            start <= i <= sv.len(),
            sv@ == s@,
            parts@.len() + 1 == split_on(sv@.take(i as int), c).len(),
            forall|k: int| 0 <= k < parts@.len() ==> #[trigger] parts@[k]@ == split_on(sv@.take(i as int), c)[k],
            split_on(sv@.take(i as int), c).last() == sv@.subrange(start as int, i as int),
        decreases sv.len() - i,
    {
        proof {
            lemma_split_on_nonempty(sv@.take(i as int), c);
            assert(sv@.take(i + 1).drop_last() =~= sv@.take(i as int));
        }
        if sv[i] == c {
            let piece = string_from_range(&sv, start, i);
            parts.push(piece);
            start = i + 1;
            assert(sv@.subrange(start as int, i + 1) =~= Seq::<char>::empty());
        } else {
            assert(sv@.subrange(start as int, i + 1) =~= sv@.subrange(start as int, i as int).push(sv@[i as int]));
        }
        i = i + 1;
    }
    let piece = string_from_range(&sv, start, i);
    parts.push(piece);
    assert(sv@.take(i as int) =~= sv@);
    parts
}

/// The position of the last `c` in `s`, if any.
pub open spec fn last_index_of(s: Seq<char>, c: char) -> Option<int>
    decreases s.len(),
{
    if s.len() == 0 {
        None
    } else if s.last() == c {
        Some(s.len() - 1)
    } else {
        last_index_of(s.drop_last(), c)
    }
}

pub proof fn lemma_last_index_of(s: Seq<char>, c: char)
    ensures
        last_index_of(s, c) matches Some(i) ==> 0 <= i < s.len() && s[i] == c
            && forall|k: int| i < k < s.len() ==> s[k] != c,
        last_index_of(s, c) is None ==> forall|k: int| 0 <= k < s.len() ==> s[k] != c,
    decreases s.len(),
{
    if s.len() == 0 {
    } else if s.last() == c {
        assert(last_index_of(s, c) == Some(s.len() - 1));
    } else {
        lemma_last_index_of(s.drop_last(), c);
        assert(last_index_of(s, c) == last_index_of(s.drop_last(), c));
        assert forall|k: int| 0 <= k < s.len() - 1 implies #[trigger] s[k] == s.drop_last()[k] by {}
    }
}

/// What `str::rsplit_once(c)` gives: the text before and after the last `c`.
pub open spec fn rsplit_once_spec(s: Seq<char>, c: char) -> Option<(Seq<char>, Seq<char>)> {
    match last_index_of(s, c) {
        Some(i) => Some((s.subrange(0, i), s.subrange(i + 1, s.len() as int))),
        None => None,
    }
}

/// The text before the last `c` in `s`, if `s` holds one.
pub fn before_last(s: &str, c: char) -> (r: Option<String>)
    ensures
        opt_view(r) == (match rsplit_once_spec(s@, c) {
            Some(p) => Some(p.0),
            None => None,
        }),
{
    let sv = chars_of(s);
    let mut i: usize = sv.len();
    assert(sv@.take(i as int) =~= s@);
    while i > 0
        invariant
            i <= sv.len(),
            sv@ == s@,
            last_index_of(sv@.take(i as int), c) == last_index_of(s@, c),
        decreases i,
    {
        assert(sv@.take(i as int).drop_last() =~= sv@.take(i - 1));
        if sv[i - 1] == c {
            assert(sv@.take(i as int).last() == c);
            return Some(string_from_range(&sv, 0, i - 1));
        }
        i = i - 1;
    }
    None
}

/// What `str::lines()` yields: pieces split at `'\n'`, each with one trailing
/// `'\r'` removed, and no final empty piece after a trailing newline.
pub open spec fn lines_spec(s: Seq<char>) -> Seq<Seq<char>> {
    let pieces = split_on(s, '\n');
    let kept = if s.len() == 0 || s.last() == '\n' { pieces.drop_last() } else { pieces };
    kept.map_values(|l: Seq<char>| strip_cr(l))
}

/// `l` without one trailing `'\r'`.
pub open spec fn strip_cr(l: Seq<char>) -> Seq<char> {
    if l.len() > 0 && l.last() == '\r' { l.drop_last() } else { l }
}

/// Splits `s` into lines as `str::lines()` does.
pub fn lines_of(s: &str) -> (out: Vec<String>)
    ensures
        out@.len() == lines_spec(s@).len(),
        forall|i: int| 0 <= i < out@.len() ==> #[trigger] out@[i]@ == lines_spec(s@)[i],
{
    let pieces = split_char(s, '\n');
    let sv = chars_of(s);
    let drop_last = sv.len() == 0 || sv[sv.len() - 1] == '\n';
    let n = if drop_last { pieces.len() - 1 } else { pieces.len() };
    proof {
        lemma_split_on_nonempty(s@, '\n');
    }
    let mut out: Vec<String> = Vec::new();
    let mut i: usize = 0;
    while i < n
        invariant
            i <= n <= pieces@.len(),
            pieces@.len() == split_on(s@, '\n').len(),
            forall|k: int| 0 <= k < pieces@.len() ==> #[trigger] pieces@[k]@ == split_on(s@, '\n')[k],
            n == lines_spec(s@).len(),
            out@.len() == i,
            forall|k: int| 0 <= k < i ==> #[trigger] out@[k]@ == lines_spec(s@)[k],
        decreases n - i,
    {
        let pv = chars_of(pieces[i].as_str());
        let end = if pv.len() > 0 && pv[pv.len() - 1] == '\r' { pv.len() - 1 } else { pv.len() };
        let line = string_from_range(&pv, 0, end);
        proof {
            assert(pv@.subrange(0, end as int) =~= strip_cr(split_on(s@, '\n')[i as int]));
        }
        out.push(line);
        i = i + 1;
    }
    out
}

/// The concatenation of `parts` separated by `sep` (what `join(sep)` gives).
pub open spec fn join_spec(parts: Seq<Seq<char>>, sep: Seq<char>) -> Seq<char>
    decreases parts.len(),
{
    if parts.len() == 0 {
        Seq::empty()
    } else if parts.len() == 1 {
        parts[0]
    } else {
        join_spec(parts.drop_last(), sep) + sep + parts.last()
    }
}

/// The lines of `s` as `similar` cuts them (`tokenize_lines`): a line ends
/// after `'\n'`, after `"\r\n"`, or after a `'\r'` that no `'\n'` follows.
/// Each line keeps its ending; a last line without one is kept as well.
pub open spec fn line_cuts(s: Seq<char>) -> Seq<Seq<char>>
    decreases s.len(),
{
    if s.len() == 0 {
        Seq::empty()
    } else {
        let p = line_cuts(s.drop_last());
        let c = s.last();
        if p.len() > 0 && p.last().len() > 0 && p.last().last() != '\n' && (p.last().last() != '\r' || c == '\n') {
            p.update(p.len() - 1, p.last().push(c))
        } else {
            p.push(seq![c])
        }
    }
}

/// The texts of `parts`, one after another.
pub open spec fn concat_all(parts: Seq<Seq<char>>) -> Seq<char>
    decreases parts.len(),
{
    if parts.len() == 0 {
        Seq::empty()
    } else {
        concat_all(parts.drop_last()) + parts.last()
    }
}

/// The lines of a text, put back one after another, give the text; there
/// are at most as many lines as characters.
pub proof fn lemma_line_cuts(s: Seq<char>)
    ensures
        concat_all(line_cuts(s)) == s,
        line_cuts(s).len() <= s.len(),
    decreases s.len(),
{
    if s.len() > 0 {
        let s0 = s.drop_last();
        let p = line_cuts(s0);
        lemma_line_cuts(s0);
        let c = s.last();
        if p.len() > 0 && p.last().len() > 0 && p.last().last() != '\n' && (p.last().last() != '\r' || c == '\n') {
            let q = p.update(p.len() - 1, p.last().push(c));
            assert(q.drop_last() =~= p.drop_last());
            assert(concat_all(q) =~= concat_all(p).push(c));
        } else {
            assert(p.push(seq![c]).drop_last() =~= p);
        }
        assert(s0.push(c) =~= s);
    }
}

/// Cuts a text into lines (see [`line_cuts`]).
pub fn cut_lines(s: &str) -> (out: Vec<String>)
    ensures
        views_of(out@) == line_cuts(s@),
{
    let v = chars_of(s);
    let mut out: Vec<String> = Vec::new();
    let mut prev: char = '\n';
    let mut i: usize = 0;
    while i < v.len()
        invariant
            i <= v.len(),
            v@ == s@,
            views_of(out@) == line_cuts(v@.take(i as int)),
            out@.len() > 0 ==> out@.last()@.len() > 0 && out@.last()@.last() == prev,
            out@.len() == 0 ==> prev == '\n',
        decreases v.len() - i,
    {
        let ghost before = views_of(out@);
        proof {
            assert(v@.take(i + 1).drop_last() =~= v@.take(i as int));
        }
        let c = v[i];
        if out.len() > 0 && prev != '\n' && (prev != '\r' || c == '\n') {
            let n = out.len();
            match out.pop() {
                Some(t) => {
                    let mut t = t;
                    t.push(c);
                    out.push(t);
                    assert(views_of(out@) =~= before.update(n - 1, before.last().push(c)));
                },
                None => {},
            }
        } else {
            let mut t = String::new();
            t.push(c);
            assert(t@ =~= seq![c]);
            out.push(t);
            assert(views_of(out@) =~= before.push(seq![c]));
        }
        prev = c;
        i = i + 1;
    }
    assert(v@.take(i as int) =~= v@);
    out
}

/// The texts of `parts`, one after another (see [`concat_all`]).
pub fn concat_strings(parts: &Vec<String>) -> (r: String)
    ensures
        r@ == concat_all(views_of(parts@)),
{
    let mut r = String::new();
    let mut i: usize = 0;
    while i < parts.len()
        invariant
            i <= parts.len(),
            r@ == concat_all(views_of(parts@.take(i as int))),
        decreases parts.len() - i,
    {
        proof {
            assert(views_of(parts@.take(i + 1)).drop_last() =~= views_of(parts@.take(i as int)));
        }
        push_str(&mut r, parts[i].as_str());
        i = i + 1;
    }
    assert(parts@.take(i as int) =~= parts@);
    r
}

/// The views of a list of strings.
pub open spec fn views_of(v: Seq<String>) -> Seq<Seq<char>> {
    v.map_values(|s: String| s@)
}

/// Joins `parts[from..to]` with `sep`.
pub fn join_range(parts: &Vec<String>, from: usize, to: usize, sep: &str) -> (r: String)
    requires
        from <= to <= parts.len(),
    ensures
        r@ == join_spec(views_of(parts@.subrange(from as int, to as int)), sep@),
{
    let mut r = String::new();
    let mut i: usize = from;
    while i < to
        invariant
            from <= i <= to <= parts.len(),
            r@ == join_spec(views_of(parts@.subrange(from as int, i as int)), sep@),
        decreases to - i,
    {
        assert(views_of(parts@.subrange(from as int, i + 1)).drop_last() =~= views_of(parts@.subrange(from as int, i as int)));
        if i > from {
            r.append(sep);
        } else {
            assert(views_of(parts@.subrange(from as int, i + 1)) =~= seq![parts@[i as int]@]);
        }
        r.append(parts[i].as_str());
        i = i + 1;
    }
    r
}

/// Every text of `q` comes strictly before every later one (see [`lex_lt`]).
pub open spec fn strictly_sorted(q: Seq<Seq<char>>) -> bool {
    forall|i: int, j: int| 0 <= i < j < q.len() ==> lex_lt(#[trigger] q[i], #[trigger] q[j])
}

/// Two strictly sorted sequences of texts with the same elements are equal.
pub proof fn lemma_sorted_unique(a: Seq<Seq<char>>, b: Seq<Seq<char>>)
    requires
        strictly_sorted(a),
        strictly_sorted(b),
        a.to_set() == b.to_set(),
    ensures
        a == b,
    decreases a.len(),
{
    if a.len() == 0 {
        if b.len() > 0 {
            assert(b.to_set().contains(b[0]));
        }
        assert(a =~= b);
    } else {
        assert(a.to_set().contains(a[0]));
        assert(b.len() > 0);
        assert(b.to_set().contains(b[0]));
        let i = choose|i: int| 0 <= i < a.len() && a[i] == b[0];
        let j = choose|j: int| 0 <= j < b.len() && b[j] == a[0];
        if a[0] != b[0] {
            assert(i > 0 && j > 0);
            assert(lex_lt(a[0], a[i]));
            assert(lex_lt(b[0], b[j]));
            lemma_lex_lt_order(a[0], b[0], a[0]);
        }
        let ta = a.drop_first();
        let tb = b.drop_first();
        assert(strictly_sorted(ta)) by {
            assert forall|x: int, y: int| 0 <= x < y < ta.len() implies lex_lt(#[trigger] ta[x], #[trigger] ta[y]) by {
                assert(ta[x] == a[x + 1] && ta[y] == a[y + 1]);
            }
        }
        assert(strictly_sorted(tb)) by {
            assert forall|x: int, y: int| 0 <= x < y < tb.len() implies lex_lt(#[trigger] tb[x], #[trigger] tb[y]) by {
                assert(tb[x] == b[x + 1] && tb[y] == b[y + 1]);
            }
        }
        assert(ta.to_set() =~= tb.to_set()) by {
            assert forall|p: Seq<char>| ta.to_set().contains(p) implies tb.to_set().contains(p) by {
                let x = choose|x: int| 0 <= x < ta.len() && ta[x] == p;
                assert(a.to_set().contains(p));
                let y = choose|y: int| 0 <= y < b.len() && b[y] == p;
                assert(ta[x] == a[x + 1]);
                lemma_lex_lt_order(a[0], a[0], a[0]);
                if y == 0 {
                    assert(lex_lt(a[0], a[x + 1]));
                }
                assert(tb[y - 1] == b[y]);
            }
            assert forall|p: Seq<char>| tb.to_set().contains(p) implies ta.to_set().contains(p) by {
                let y = choose|y: int| 0 <= y < tb.len() && tb[y] == p;
                assert(b.to_set().contains(p));
                let x = choose|x: int| 0 <= x < a.len() && a[x] == p;
                assert(tb[y] == b[y + 1]);
                lemma_lex_lt_order(b[0], b[0], b[0]);
                if x == 0 {
                    assert(lex_lt(b[0], b[y + 1]));
                }
                assert(ta[x - 1] == a[x]);
            }
        }
        lemma_sorted_unique(ta, tb);
        assert(a =~= b) by {
            assert forall|k: int| 0 <= k < a.len() implies a[k] == b[k] by {
                if k > 0 {
                    assert(a[k] == ta[k - 1] && b[k] == tb[k - 1]);
                }
            }
        }
    }
}

} // verus!
