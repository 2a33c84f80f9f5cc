//! Directory diffs: classifying each file present on either side, diffing
//! the changed ones with the format their extension names, and rendering the
//! whole as one git-style diff. Walking and reading the directories is left
//! to the caller, which hands over what it found for each file.
use vstd::prelude::*;

use crate::engine::{diff_with_kind, kind_diff_ok};
use crate::error::GudfError;
use crate::format::{Format, FormatKind, FormatKindView};

use crate::output::unified::{unified_rendering, UnifiedFormatter};
use crate::output::OutputFormatter;
use crate::result::{DiffResult, DiffResultView};
use crate::text::{
    chars_of, copy_string, decimal, last_index_of, lemma_join_split, lemma_lex_lt_order, lex_lt, owned, push_decimal,
    push_str, split_char, split_on, str_eq, str_lt, string_from_range, to_lowercase, unicode_lowercase,
};

verus! {

/// What happened to a file between the two directories.
#[derive(Debug, Clone, Copy, PartialEq, Eq, Structural)]
pub enum FileStatus {
    Added,
    Removed,
    Modified,
    Unchanged,
    Binary,
}

/// One file of a directory diff: its path relative to the directories, its
/// status, and the diff of a modified file (none when it could not be diffed).
#[derive(Debug)]
pub struct FileDiffEntry {
    pub path: String,
    pub status: FileStatus,
    pub diff: Option<DiffResult>,
}

/// Counts of files by status.
#[derive(Debug, Clone, Copy, PartialEq, Eq, Structural)]
pub struct DirDiffSummary {
    pub files_added: usize,
    pub files_removed: usize,
    pub files_modified: usize,
    pub files_unchanged: usize,
    pub files_binary: usize,
}

impl Default for DirDiffSummary {
    /// All counts zero.
    fn default() -> (r: DirDiffSummary)
        ensures
            r == (DirDiffSummary { files_added: 0, files_removed: 0, files_modified: 0, files_unchanged: 0, files_binary: 0 }),
    {
        DirDiffSummary { files_added: 0, files_removed: 0, files_modified: 0, files_unchanged: 0, files_binary: 0 }
    }
}

/// The result of diffing two directories.
#[derive(Debug)]
pub struct DirDiffResult {
    pub file_results: Vec<FileDiffEntry>,
    pub summary: DirDiffSummary,
}

/// What was found for a file on one side.
#[derive(Debug)]
pub enum FileInput {
    /// No such file.
    Missing,
    /// The file holds a zero byte among its first 8 KiB.
    Binary,
    /// The file's content, when it reads as UTF-8 text.
    Text(String),
    /// The file is there but does not read as UTF-8 text.
    Unreadable,
}

/// A file is binary when a zero byte is among its first 8192 bytes.
pub open spec fn binary_bytes(bytes: Seq<u8>) -> bool {
    exists|i: int| 0 <= i < bytes.len() && i < 8192 && bytes[i] == 0
}

/// Whether some bytes look binary (see [`binary_bytes`]).
pub fn is_binary(bytes: &[u8]) -> (r: bool)
    ensures
        r == binary_bytes(bytes@),
{
    let n = if bytes.len() < 8192 { bytes.len() } else { 8192 };
    let mut i: usize = 0;
    while i < n
        invariant
            i <= n <= bytes.len(),
            n <= 8192,
            n == bytes.len() || n == 8192,
            forall|k: int| 0 <= k < i ==> bytes@[k] != 0,
        decreases n - i,
    {
        if bytes[i] == 0 {
            return true;
        }
        i = i + 1;
    }
    false
}

/// The last component of a `/`-separated path.
pub open spec fn file_name_of(path: Seq<char>) -> Seq<char> {
    match last_index_of(path, '/') {
        Some(i) => path.skip(i + 1),
        None => path,
    }
}

/// The extension of a path: what follows the last `.` of its file name, when
/// that `.` is not the name's first character; else empty.
pub open spec fn path_extension(path: Seq<char>) -> Seq<char> {
    let name = file_name_of(path);
    match last_index_of(name, '.') {
        Some(i) => if i > 0 { name.skip(i + 1) } else { Seq::empty() },
        None => Seq::empty(),
    }
}

/// The language named by a lower-case extension, if any.
pub open spec fn language_of_extension(ext: Seq<char>) -> Option<Seq<char>> {
    if ext == "rs"@ { Some("rust"@) }
    else if ext == "py"@ { Some("python"@) }
    else if ext == "js"@ { Some("javascript"@) }
    else if ext == "ts"@ { Some("typescript"@) }
    else if ext == "tsx"@ { Some("tsx"@) }
    else if ext == "go"@ { Some("go"@) }
    else if ext == "java"@ { Some("java"@) }
    else if ext == "c"@ || ext == "h"@ { Some("c"@) }
    else if ext == "cpp"@ || ext == "cc"@ || ext == "cxx"@ || ext == "hpp"@ { Some("cpp"@) }
    else if ext == "cs"@ { Some("c-sharp"@) }
    else if ext == "rb"@ { Some("ruby"@) }
    else if ext == "php"@ { Some("php"@) }
    else if ext == "swift"@ { Some("swift"@) }
    else if ext == "scala"@ { Some("scala"@) }
    else if ext == "zig"@ { Some("zig"@) }
    else if ext == "lua"@ { Some("lua"@) }
    else if ext == "dart"@ { Some("dart"@) }
    else if ext == "ex"@ || ext == "exs"@ { Some("elixir"@) }
    else if ext == "erl"@ { Some("erlang"@) }
    else if ext == "hs"@ { Some("haskell"@) }
    else if ext == "ml"@ { Some("ocaml"@) }
    else if ext == "html"@ || ext == "htm"@ { Some("html"@) }
    else if ext == "css"@ { Some("css"@) }
    else if ext == "sh"@ || ext == "bash"@ { Some("bash"@) }
    else if ext == "r"@ { Some("r"@) }
    else if ext == "hcl"@ || ext == "tf"@ { Some("hcl"@) }
    else { None }
}

/// The format a lower-case extension names: JSON, TOML, YAML, the code of a
/// known language, else text.
pub open spec fn kind_of_extension(ext: Seq<char>) -> FormatKindView {
    if ext == "json"@ {
        FormatKindView::Json
    } else if ext == "toml"@ {
        FormatKindView::Toml
    } else if ext == "yaml"@ || ext == "yml"@ {
        FormatKindView::Yaml
    } else {
        match language_of_extension(ext) {
            Some(l) => FormatKindView::Code(l),
            None => FormatKindView::Text,
        }
    }
}

fn language_for_extension(ext: &str) -> (r: Option<&'static str>)
    ensures
        match language_of_extension(ext@) {
            Some(l) => r matches Some(x) && x@ == l,
            None => r is None,
        },
{
    if str_eq(ext, "rs") { Some("rust") }
    else if str_eq(ext, "py") { Some("python") }
    else if str_eq(ext, "js") { Some("javascript") }
    else if str_eq(ext, "ts") { Some("typescript") }
    else if str_eq(ext, "tsx") { Some("tsx") }
    else if str_eq(ext, "go") { Some("go") }
    else if str_eq(ext, "java") { Some("java") }
    else if str_eq(ext, "c") || str_eq(ext, "h") { Some("c") }
    else if str_eq(ext, "cpp") || str_eq(ext, "cc") || str_eq(ext, "cxx") || str_eq(ext, "hpp") { Some("cpp") }
    else if str_eq(ext, "cs") { Some("c-sharp") }
    else if str_eq(ext, "rb") { Some("ruby") }
    else if str_eq(ext, "php") { Some("php") }
    else if str_eq(ext, "swift") { Some("swift") }
    else if str_eq(ext, "scala") { Some("scala") }
    else if str_eq(ext, "zig") { Some("zig") }
    else if str_eq(ext, "lua") { Some("lua") }
    else if str_eq(ext, "dart") { Some("dart") }
    else if str_eq(ext, "ex") || str_eq(ext, "exs") { Some("elixir") }
    else if str_eq(ext, "erl") { Some("erlang") }
    else if str_eq(ext, "hs") { Some("haskell") }
    else if str_eq(ext, "ml") { Some("ocaml") }
    else if str_eq(ext, "html") || str_eq(ext, "htm") { Some("html") }
    else if str_eq(ext, "css") { Some("css") }
    else if str_eq(ext, "sh") || str_eq(ext, "bash") { Some("bash") }
    else if str_eq(ext, "r") { Some("r") }
    else if str_eq(ext, "hcl") || str_eq(ext, "tf") { Some("hcl") }
    else { None }
}

pub(crate) fn extension_of(path: &str) -> (r: String)
    ensures
        r@ == path_extension(path@),
{
    let v = chars_of(path);
    let mut start: usize = v.len();
    while start > 0 && v[start - 1] != '/'
        invariant
            start <= v.len(),
            v@ == path@,
            forall|k: int| start <= k < v.len() ==> v@[k] != '/',
        decreases start,
    {
        start = start - 1;
    }
    proof { lemma_last_index(path@, '/', start as int); }
    let ghost name = file_name_of(path@);
    assert(name =~= v@.subrange(start as int, v.len() as int));
    let mut dot: usize = v.len();
    while dot > start && v[dot - 1] != '.'
        invariant
            start <= dot <= v.len(),
            v@ == path@,
            forall|k: int| dot <= k < v.len() ==> v@[k] != '.',
        decreases dot,
    {
        dot = dot - 1;
    }
    proof {
        lemma_last_index(name, '.', (dot - start) as int);
    }
    if dot - start > 1 {
        let r = string_from_range(&v, dot, v.len());
        assert(r@ =~= name.skip((dot - start) as int));
        r
    } else {
        String::new()
    }
}

/// Where the last `c` in `s` is when every character from `k` on differs
/// from `c` and `s[k - 1]` is `c` (or `k` is zero).
proof fn lemma_last_index(s: Seq<char>, c: char, k: int)
    requires
        0 <= k <= s.len(),
        forall|j: int| k <= j < s.len() ==> s[j] != c,
        k > 0 ==> s[k - 1] == c,
    ensures
        k > 0 ==> last_index_of(s, c) == Some(k - 1),
        k == 0 ==> last_index_of(s, c) is None,
    decreases s.len(),
{
    if s.len() > 0 && s.len() > k {
        lemma_last_index(s.drop_last(), c, k);
    }
}

/// The format a path's extension names, in any case (see [`kind_of_extension`]).
pub fn format_from_extension(path: &str) -> (r: FormatKind)
    ensures
        r@ == kind_of_extension(unicode_lowercase(path_extension(path@))),
{
    let ext = extension_of(path);
    let lower = to_lowercase(ext.as_str());
    let e = lower.as_str();
    if str_eq(e, "json") {
        FormatKind::Json
    } else if str_eq(e, "toml") {
        FormatKind::Toml
    } else if str_eq(e, "yaml") || str_eq(e, "yml") {
        FormatKind::Yaml
    } else {
        match language_for_extension(e) {
            Some(l) => FormatKind::Code(owned(l)),
            None => FormatKind::Text,
        }
    }
}

/// The status of a file from what was found on each side: binary when
/// either side is; added or removed when it is on one side only; unchanged or
/// modified when both read as text; none when both are there and one side
/// does not read.
pub open spec fn file_status(old: FileInput, new: FileInput) -> Option<FileStatus> {
    match (old, new) {
        (FileInput::Missing, FileInput::Missing) => None,
        (FileInput::Missing, FileInput::Binary) => Some(FileStatus::Binary),
        (FileInput::Missing, _) => Some(FileStatus::Added),
        (FileInput::Binary, FileInput::Missing) => Some(FileStatus::Binary),
        (_, FileInput::Missing) => Some(FileStatus::Removed),
        (FileInput::Binary, _) => Some(FileStatus::Binary),
        (_, FileInput::Binary) => Some(FileStatus::Binary),
        (FileInput::Text(a), FileInput::Text(b)) => if a@ == b@ { Some(FileStatus::Unchanged) } else { Some(FileStatus::Modified) },
        _ => None,
    }
}

/// `e` is the entry for a file at `path` (see [`file_status`]): its status,
/// and for a modified file the diff of its two contents in the format its
/// extension names, when that diff succeeds.
pub open spec fn entry_of(path: Seq<char>, old: FileInput, new: FileInput, e: FileDiffEntry) -> bool {
    match file_status(old, new) {
        None => false,
        Some(st) => e.path@ == path && e.status == st && (st == FileStatus::Modified
            ==> (match (old, new) {
                (FileInput::Text(a), FileInput::Text(b)) => exists|d: Result<DiffResult, GudfError>|
                    #[trigger] kind_diff_ok(kind_of_extension(unicode_lowercase(path_extension(path))), a@, b@, d)
                    && match d {
                        Ok(x) => e.diff matches Some(y) && y@ == x@,
                        Err(_) => e.diff is None,
                    },
                _ => false,
            })) && (st != FileStatus::Modified ==> e.diff is None),
    }
}

/// The entry for one file (see [`entry_of`]); none when there is no status.
pub fn file_entry(path: &str, old: &FileInput, new: &FileInput) -> (r: Option<FileDiffEntry>)
    ensures
        file_status(*old, *new) is None ==> r is None,
        file_status(*old, *new) is Some ==> (r matches Some(e) && entry_of(path@, *old, *new, e)),
{
    let status = match (old, new) {
        (FileInput::Missing, FileInput::Missing) => return None,
        (FileInput::Missing, FileInput::Binary) => FileStatus::Binary,
        (FileInput::Missing, _) => FileStatus::Added,
        (FileInput::Binary, FileInput::Missing) => FileStatus::Binary,
        (_, FileInput::Missing) => FileStatus::Removed,
        (FileInput::Binary, _) => FileStatus::Binary,
        (_, FileInput::Binary) => FileStatus::Binary,
        (FileInput::Text(a), FileInput::Text(b)) => {
            if str_eq(a.as_str(), b.as_str()) {
                FileStatus::Unchanged
            } else {
                let kind = format_from_extension(path);
                let d = diff_with_kind(&kind, a.as_str(), b.as_str());
                let ghost dv = d;
                let diff = match d {
                    Ok(x) => Some(x),
                    Err(_) => None,
                };
                assert(kind_diff_ok(kind@, a@, b@, dv));
                return Some(FileDiffEntry { path: owned(path), status: FileStatus::Modified, diff });
            }
        },
        _ => return None,
    };
    Some(FileDiffEntry { path: owned(path), status, diff: None })
}

/// A file found under either directory: its path relative to the
/// directory, and what was found for it on each side.
#[derive(Debug)]
pub struct DirFile {
    pub path: String,
    pub old: FileInput,
    pub new: FileInput,
}

/// The texts of some strings.
pub open spec fn texts_of(v: Seq<String>) -> Seq<Seq<char>> {
    v.map_values(|s: String| s@)
}

/// `a` comes before `b` as a sequence of components: at the first component
/// where they differ by [`lex_lt`], and a proper prefix first.
pub open spec fn parts_lt(a: Seq<Seq<char>>, b: Seq<Seq<char>>) -> bool
    decreases a.len(),
{
    if a.len() == 0 {
        b.len() > 0
    } else if b.len() == 0 {
        false
    } else if a[0] != b[0] {
        lex_lt(a[0], b[0])
    } else {
        parts_lt(a.drop_first(), b.drop_first())
    }
}

/// `parts_lt` is a strict total order.
pub proof fn lemma_parts_lt_order(a: Seq<Seq<char>>, b: Seq<Seq<char>>, c: Seq<Seq<char>>)
    ensures
        !parts_lt(a, a),
        parts_lt(a, b) ==> !parts_lt(b, a),
        parts_lt(a, b) && parts_lt(b, c) ==> parts_lt(a, c),
        a != b ==> parts_lt(a, b) || parts_lt(b, a),
    decreases a.len(),
{
    if a.len() > 0 {
        lemma_parts_lt_order(a.drop_first(), a.drop_first(), a.drop_first());
        if b.len() > 0 {
            lemma_lex_lt_order(a[0], b[0], a[0]);
            if c.len() > 0 {
                lemma_parts_lt_order(a.drop_first(), b.drop_first(), c.drop_first());
                lemma_lex_lt_order(a[0], b[0], c[0]);
                lemma_lex_lt_order(b[0], c[0], a[0]);
                lemma_lex_lt_order(c[0], a[0], b[0]);
            } else {
                lemma_parts_lt_order(a.drop_first(), b.drop_first(), b.drop_first());
            }
            if a != b && a[0] == b[0] {
                assert(a.drop_first() != b.drop_first()) by {
                    if a.drop_first() == b.drop_first() {
                        assert(a =~= seq![a[0]] + a.drop_first());
                        assert(b =~= seq![b[0]] + b.drop_first());
                    }
                }
            }
        }
    } else {
        if b.len() == 0 {
            assert(a =~= b);
        }
    }
}

/// `a` comes before `b` as a file path: compared component by component,
/// the components being the pieces between `/`.
pub open spec fn path_lt(a: Seq<char>, b: Seq<char>) -> bool {
    parts_lt(split_on(a, '/'), split_on(b, '/'))
}

/// `path_lt` is a strict total order on texts.
pub proof fn lemma_path_lt_order(a: Seq<char>, b: Seq<char>, c: Seq<char>)
    ensures
        !path_lt(a, a),
        path_lt(a, b) ==> !path_lt(b, a),
        path_lt(a, b) && path_lt(b, c) ==> path_lt(a, c),
        a != b ==> path_lt(a, b) || path_lt(b, a),
{
    lemma_parts_lt_order(split_on(a, '/'), split_on(b, '/'), split_on(c, '/'));
    lemma_join_split(a, '/');
    lemma_join_split(b, '/');
}

/// Every path of `q` comes strictly before every later one (see [`path_lt`]).
pub open spec fn paths_sorted(q: Seq<Seq<char>>) -> bool {
    forall|i: int, j: int| 0 <= i < j < q.len() ==> path_lt(#[trigger] q[i], #[trigger] q[j])
}

/// Whether the path `a` comes strictly before the path `b` (see [`path_lt`]).
pub fn path_before(a: &str, b: &str) -> (r: bool)
    ensures
        r == path_lt(a@, b@),
{
    let pa = split_char(a, '/');
    let pb = split_char(b, '/');
    let ghost sa = split_on(a@, '/');
    let ghost sb = split_on(b@, '/');
    let mut i: usize = 0;
    assert(sa.skip(0) =~= sa);
    assert(sb.skip(0) =~= sb);
    while i < pa.len() && i < pb.len()
        invariant
            i <= pa.len(),
            i <= pb.len(),
            pa@.len() == sa.len(),
            pb@.len() == sb.len(),
            forall|k: int| 0 <= k < pa@.len() ==> #[trigger] pa@[k]@ == sa[k],
            forall|k: int| 0 <= k < pb@.len() ==> #[trigger] pb@[k]@ == sb[k],
            parts_lt(sa.skip(i as int), sb.skip(i as int)) == path_lt(a@, b@),
        decreases pa.len() - i,
    {
        assert(sa.skip(i as int)[0] == pa@[i as int]@);
        assert(sb.skip(i as int)[0] == pb@[i as int]@);
        if !str_eq(pa[i].as_str(), pb[i].as_str()) {
            return str_lt(pa[i].as_str(), pb[i].as_str());
        }
        assert(sa.skip(i as int).drop_first() =~= sa.skip(i + 1));
        assert(sb.skip(i as int).drop_first() =~= sb.skip(i + 1));
        i = i + 1;
    }
    i == pa.len() && i < pb.len()
}

/// Adds a path to a list of distinct paths in path order, keeping it so.
fn insert_path(paths: &mut Vec<String>, p: &String)
    requires
        paths_sorted(texts_of(old(paths)@)),
    ensures
        paths_sorted(texts_of(final(paths)@)),
        texts_of(final(paths)@).to_set() == texts_of(old(paths)@).to_set().insert(p@),
{
    let ghost before = texts_of(paths@);
    let mut k: usize = 0;
    while k < paths.len() && path_before(paths[k].as_str(), p.as_str())
        invariant
            k <= paths.len(),
            before == texts_of(paths@),
            forall|j: int| 0 <= j < k ==> path_lt(#[trigger] before[j], p@),
        decreases paths.len() - k,
    {
        k = k + 1;
    }
    if k < paths.len() && str_eq(paths[k].as_str(), p.as_str()) {
        assert(before.to_set().insert(p@) =~= before.to_set()) by {
            assert(before[k as int] == p@);
        }
        return;
    }
    proof {
        if k < before.len() {
            lemma_path_lt_order(before[k as int], p@, before[k as int]);
            assert(path_lt(p@, before[k as int]));
        }
    }
    paths.insert(k, copy_string(p));
    let ghost after = texts_of(paths@);
    assert(after =~= before.insert(k as int, p@));
    assert(paths_sorted(after)) by {
        assert forall|x: int, y: int| 0 <= x < y < after.len() implies path_lt(#[trigger] after[x], #[trigger] after[y]) by {
            if y < k {
            } else if y == k {
            } else if x < k {
                lemma_path_lt_order(before[x], p@, before[y - 1]);
            } else if x == k {
                if y - 1 > k {
                    lemma_path_lt_order(p@, before[k as int], before[y - 1]);
                }
            } else {
                assert(after[x] == before[x - 1] && after[y] == before[y - 1]);
            }
        }
    }
    assert(after.to_set() =~= before.to_set().insert(p@)) by {
        assert forall|x: Seq<char>| after.to_set().contains(x) <==> before.to_set().insert(p@).contains(x) by {
            if after.to_set().contains(x) {
                let i = choose|i: int| 0 <= i < after.len() && after[i] == x;
                if i < k {
                    assert(before[i] == x);
                } else if i > k {
                    assert(before[i - 1] == x);
                }
            }
            if before.to_set().contains(x) {
                let i = choose|i: int| 0 <= i < before.len() && before[i] == x;
                if i < k {
                    assert(after[i] == x);
                } else {
                    assert(after[i + 1] == x);
                }
            }
            if x == p@ {
                assert(after[k as int] == x);
            }
        }
    }
}

fn insert_all(paths: &mut Vec<String>, more: &Vec<String>)
    requires
        paths_sorted(texts_of(old(paths)@)),
    ensures
        paths_sorted(texts_of(final(paths)@)),
        texts_of(final(paths)@).to_set() == texts_of(old(paths)@).to_set().union(texts_of(more@).to_set()),
{
    let ghost start = texts_of(paths@).to_set();
    let mut i: usize = 0;
    while i < more.len()
        invariant
            i <= more.len(),
            paths_sorted(texts_of(paths@)),
            texts_of(paths@).to_set() == start.union(texts_of(more@.take(i as int)).to_set()),
        decreases more.len() - i,
    {
        insert_path(paths, &more[i]);
        proof {
            assert(texts_of(more@.take(i + 1)) =~= texts_of(more@.take(i as int)).push(more@[i as int]@));
            texts_of(more@.take(i as int)).lemma_push_to_set_commute(more@[i as int]@);
            assert(texts_of(paths@).to_set() =~= start.union(texts_of(more@.take(i + 1)).to_set()));
        }
        i = i + 1;
    }
    assert(more@.take(i as int) =~= more@);
}

/// The paths found under either directory, each once, in increasing path
/// order: component by component, as file paths are ordered.
pub fn union_paths(old: &Vec<String>, new: &Vec<String>) -> (r: Vec<String>)
    ensures
        paths_sorted(texts_of(r@)),
        texts_of(r@).to_set() == texts_of(old@).to_set().union(texts_of(new@).to_set()),
{
    let mut r: Vec<String> = Vec::new();
    assert(texts_of(r@).to_set() =~= Set::<Seq<char>>::empty());
    insert_all(&mut r, old);
    insert_all(&mut r, new);
    r
}

/// `es` are the entries of the files that have a status, in their order.
pub open spec fn entries_of(files: Seq<DirFile>, es: Seq<FileDiffEntry>) -> bool
    decreases files.len(),
{
    if files.len() == 0 {
        es.len() == 0
    } else {
        let f = files.last();
        match file_status(f.old, f.new) {
            None => entries_of(files.drop_last(), es),
            Some(_) => es.len() > 0 && entry_of(f.path@, f.old, f.new, es.last())
                && entries_of(files.drop_last(), es.drop_last()),
        }
    }
}

/// Diffs the files of two directories, given in the order they are to be
/// reported: one entry per file that has a status, and the counts by status.
pub fn diff_files(files: &Vec<DirFile>) -> (r: DirDiffResult)
    ensures
        entries_of(files@, r.file_results@),
        r.summary.files_added == count_status(r.file_results@, FileStatus::Added),
        r.summary.files_removed == count_status(r.file_results@, FileStatus::Removed),
        r.summary.files_modified == count_status(r.file_results@, FileStatus::Modified),
        r.summary.files_unchanged == count_status(r.file_results@, FileStatus::Unchanged),
        r.summary.files_binary == count_status(r.file_results@, FileStatus::Binary),
{
    let mut out: Vec<FileDiffEntry> = Vec::new();
    let mut i: usize = 0;
    while i < files.len()
        invariant
            i <= files.len(),
            entries_of(files@.take(i as int), out@),
        decreases files.len() - i,
    {
        let f = &files[i];
        let ghost before = out@;
        assert(files@.take(i + 1).drop_last() =~= files@.take(i as int));
        assert(files@.take(i + 1).last() == files@[i as int]);
        match file_entry(f.path.as_str(), &f.old, &f.new) {
            Some(e) => {
                out.push(e);
                assert(out@.drop_last() =~= before);
            },
            None => {},
        }
        i = i + 1;
    }
    assert(files@.take(i as int) =~= files@);
    summarize(out)
}

/// The number of entries of status `s`.
pub open spec fn count_status(es: Seq<FileDiffEntry>, s: FileStatus) -> nat
    decreases es.len(),
{
    if es.len() == 0 {
        0
    } else {
        count_status(es.drop_last(), s) + if es.last().status == s { 1nat } else { 0nat }
    }
}

proof fn lemma_count_status_bound(es: Seq<FileDiffEntry>, s: FileStatus)
    ensures
        count_status(es, s) <= es.len(),
    decreases es.len(),
{
    if es.len() > 0 {
        lemma_count_status_bound(es.drop_last(), s);
    }
}

/// A directory diff over the given entries, with their counts by status.
pub fn summarize(file_results: Vec<FileDiffEntry>) -> (r: DirDiffResult)
    ensures
        r.file_results@ == file_results@,
        r.summary.files_added == count_status(file_results@, FileStatus::Added),
        r.summary.files_removed == count_status(file_results@, FileStatus::Removed),
        r.summary.files_modified == count_status(file_results@, FileStatus::Modified),
        r.summary.files_unchanged == count_status(file_results@, FileStatus::Unchanged),
        r.summary.files_binary == count_status(file_results@, FileStatus::Binary),
{
    let mut s = DirDiffSummary { files_added: 0, files_removed: 0, files_modified: 0, files_unchanged: 0, files_binary: 0 };
    let mut i: usize = 0;
    while i < file_results.len()
        invariant
            i <= file_results.len(),
            s.files_added == count_status(file_results@.take(i as int), FileStatus::Added),
            s.files_removed == count_status(file_results@.take(i as int), FileStatus::Removed),
            s.files_modified == count_status(file_results@.take(i as int), FileStatus::Modified),
            s.files_unchanged == count_status(file_results@.take(i as int), FileStatus::Unchanged),
            s.files_binary == count_status(file_results@.take(i as int), FileStatus::Binary),
        decreases file_results.len() - i,
    {
        let ghost pre = file_results@.take(i as int);
        proof {
            assert(file_results@.take(i + 1).drop_last() =~= pre);
            lemma_count_status_bound(pre, FileStatus::Added);
            lemma_count_status_bound(pre, FileStatus::Removed);
            lemma_count_status_bound(pre, FileStatus::Modified);
            lemma_count_status_bound(pre, FileStatus::Unchanged);
            lemma_count_status_bound(pre, FileStatus::Binary);
        }
        match file_results[i].status {
            FileStatus::Added => s.files_added = s.files_added + 1,
            FileStatus::Removed => s.files_removed = s.files_removed + 1,
            FileStatus::Modified => s.files_modified = s.files_modified + 1,
            FileStatus::Unchanged => s.files_unchanged = s.files_unchanged + 1,
            FileStatus::Binary => s.files_binary = s.files_binary + 1,
        }
        i = i + 1;
    }
    assert(file_results@.take(i as int) =~= file_results@);
    DirDiffResult { file_results, summary: s }
}

/// The text of one entry: a `diff --git` header, then `new file`, `deleted
/// file`, the unified diff of a modified file, or `Binary files differ`;
/// nothing for an unchanged file.
pub open spec fn entry_text(e: FileDiffEntry) -> Seq<char> {
    let p = e.path@;
    let header = "diff --git a/"@ + p + " b/"@ + p + "\n"@;
    match e.status {
        FileStatus::Added => header + "new file\n"@ + "--- /dev/null\n+++ b/"@ + p + "\n"@,
        FileStatus::Removed => header + "deleted file\n"@ + "--- a/"@ + p + "\n+++ /dev/null\n"@,
        FileStatus::Modified => header + match e.diff {
            Some(d) => unified_rendering("a/"@ + p, "b/"@ + p, 3, d@.changes),
            None => Seq::empty(),
        },
        FileStatus::Binary => "diff --git a/"@ + p + " b/"@ + p + "\nBinary files differ\n"@,
        FileStatus::Unchanged => Seq::empty(),
    }
}

/// The texts of a list of entries.
pub open spec fn entries_text(es: Seq<FileDiffEntry>) -> Seq<char>
    decreases es.len(),
{
    if es.len() == 0 {
        Seq::empty()
    } else {
        entries_text(es.drop_last()) + entry_text(es.last())
    }
}

/// The summary line: files changed (added, removed and modified), then each count.
pub open spec fn dir_summary_text(s: DirDiffSummary) -> Seq<char> {
    "\n"@ + decimal(s.files_added as nat + s.files_removed as nat + s.files_modified as nat) + " file(s) changed: "@
        + decimal(s.files_added as nat) + " added, "@ + decimal(s.files_removed as nat) + " removed, "@
        + decimal(s.files_modified as nat) + " modified, "@ + decimal(s.files_unchanged as nat) + " unchanged, "@
        + decimal(s.files_binary as nat) + " binary\n"@
}

fn header_of(path: &str) -> (r: String)
    ensures
        r@ == "diff --git a/"@ + path@ + " b/"@ + path@,
{
    let mut s = owned("diff --git a/");
    push_str(&mut s, path);
    push_str(&mut s, " b/");
    push_str(&mut s, path);
    s
}

/// Renders a directory diff as one git-style diff with a summary.
pub fn format_dir_diff(result: &DirDiffResult) -> (r: String)
    ensures
        r@ == entries_text(result.file_results@) + dir_summary_text(result.summary),
{
    let mut out = String::new();
    let mut i: usize = 0;
    while i < result.file_results.len()
        invariant
            i <= result.file_results.len(),
            out@ == entries_text(result.file_results@.take(i as int)),
        decreases result.file_results.len() - i,
    {
        assert(result.file_results@.take(i + 1).drop_last() =~= result.file_results@.take(i as int));
        let ghost before = out@;
        let e = &result.file_results[i];
        let p = e.path.as_str();
        match e.status {
            FileStatus::Added => {
                let h = header_of(p);
                push_str(&mut out, h.as_str());
                push_str(&mut out, "\n");
                push_str(&mut out, "new file\n");
                push_str(&mut out, "--- /dev/null\n+++ b/");
                push_str(&mut out, p);
                push_str(&mut out, "\n");
            },
            FileStatus::Removed => {
                let h = header_of(p);
                push_str(&mut out, h.as_str());
                push_str(&mut out, "\n");
                push_str(&mut out, "deleted file\n");
                push_str(&mut out, "--- a/");
                push_str(&mut out, p);
                push_str(&mut out, "\n+++ /dev/null\n");
            },
            FileStatus::Modified => {
                let h = header_of(p);
                push_str(&mut out, h.as_str());
                push_str(&mut out, "\n");
                match &e.diff {
                    Some(d) => {
                        let mut a = owned("a/");
                        push_str(&mut a, p);
                        let mut b = owned("b/");
                        push_str(&mut b, p);
                        let formatter = UnifiedFormatter::new(a.as_str(), b.as_str());
                        let text = formatter.format(d);
                        push_str(&mut out, text.as_str());
                    },
                    None => {},
                }
            },
            FileStatus::Binary => {
                let h = header_of(p);
                push_str(&mut out, h.as_str());
                push_str(&mut out, "\nBinary files differ\n");
            },
            FileStatus::Unchanged => {},
        }
        assert(out@ =~= before + entry_text(result.file_results@[i as int]));
        i = i + 1;
    }
    assert(result.file_results@.take(i as int) =~= result.file_results@);
    let ghost body = out@;
    let s = result.summary;
    push_str(&mut out, "\n");
    push_decimal(&mut out, s.files_added as u128 + s.files_removed as u128 + s.files_modified as u128);
    push_str(&mut out, " file(s) changed: ");
    push_decimal(&mut out, s.files_added as u128);
    push_str(&mut out, " added, ");
    push_decimal(&mut out, s.files_removed as u128);
    push_str(&mut out, " removed, ");
    push_decimal(&mut out, s.files_modified as u128);
    push_str(&mut out, " modified, ");
    push_decimal(&mut out, s.files_unchanged as u128);
    push_str(&mut out, " unchanged, ");
    push_decimal(&mut out, s.files_binary as u128);
    push_str(&mut out, " binary\n");
    assert(out@ =~= body + dir_summary_text(s));
    out
}

} // verus!
