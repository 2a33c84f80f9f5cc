//! Source code, diffed node by node over the syntax trees that tree-sitter
//! builds; a text diff when a source cannot be parsed.
use vstd::prelude::*;

use tree_sitter_bash::LANGUAGE as BASH_GRAMMAR;
use tree_sitter_c::LANGUAGE as C_GRAMMAR;
use tree_sitter_c_sharp::LANGUAGE as CSHARP_GRAMMAR;
use tree_sitter_cpp::LANGUAGE as CPP_GRAMMAR;
use tree_sitter_css::LANGUAGE as CSS_GRAMMAR;
use tree_sitter_elixir::LANGUAGE as ELIXIR_GRAMMAR;
use tree_sitter_erlang::LANGUAGE as ERLANG_GRAMMAR;
use tree_sitter_go::LANGUAGE as GO_GRAMMAR;
use tree_sitter_haskell::LANGUAGE as HASKELL_GRAMMAR;
use tree_sitter_hcl::LANGUAGE as HCL_GRAMMAR;
use tree_sitter_java::LANGUAGE as JAVA_GRAMMAR;
use tree_sitter_javascript::LANGUAGE as JAVASCRIPT_GRAMMAR;
use tree_sitter_json::LANGUAGE as JSON_GRAMMAR;
use tree_sitter_ocaml::LANGUAGE_OCAML as OCAML_GRAMMAR;
use tree_sitter_ocaml::LANGUAGE_OCAML_INTERFACE as OCAML_INTERFACE_GRAMMAR;
use tree_sitter_python::LANGUAGE as PYTHON_GRAMMAR;
use tree_sitter_ruby::LANGUAGE as RUBY_GRAMMAR;
use tree_sitter_rust::LANGUAGE as RUST_GRAMMAR;
use tree_sitter_scala::LANGUAGE as SCALA_GRAMMAR;
use tree_sitter_swift::LANGUAGE as SWIFT_GRAMMAR;
use tree_sitter_typescript::LANGUAGE_TSX as TSX_GRAMMAR;
use tree_sitter_typescript::LANGUAGE_TYPESCRIPT as TYPESCRIPT_GRAMMAR;
use tree_sitter_yaml::LANGUAGE as YAML_GRAMMAR;
use tree_sitter_zig::LANGUAGE as ZIG_GRAMMAR;

use crate::error::GudfError;
use crate::format::{Format, FormatKind, FormatKindView};
use crate::formats::text::{text_diff_ok, TextFormat};
use crate::result::{changes_view, plain_change, stats_of, Change, ChangeKind, ChangeView, DiffResult, Location};
use crate::text::{copy_string, debug_str, owned, push_str, str_debug, str_eq};

verus! {

#[verifier::external_type_specification]
#[verifier::external_body]
pub struct ExTreeSitterLanguage(tree_sitter::Language);

#[verifier::external_type_specification]
#[verifier::external_body]
pub struct ExTreeSitterNode<'tree>(tree_sitter::Node<'tree>);

/// The tree-sitter grammars this library is built with.
#[derive(Debug, Clone, Copy, PartialEq, Eq, Structural)]
pub enum Grammar {
    Bash,
    C,
    CSharp,
    Cpp,
    Css,
    Elixir,
    Erlang,
    Go,
    Haskell,
    Hcl,
    Java,
    JavaScript,
    Json,
    OCaml,
    OCamlInterface,
    Python,
    Ruby,
    Rust,
    Scala,
    Swift,
    TypeScript,
    Tsx,
    Yaml,
    Zig,
}

/// A node of a syntax tree: its kind, the source text it spans, the row and
/// column (both from zero) where it starts, and all its children in order.
#[derive(Debug)]
pub struct SyntaxNode {
    pub kind: String,
    pub text: String,
    pub row: usize,
    pub column: usize,
    pub children: Vec<SyntaxNode>,
}

/// The mathematical content of a [`SyntaxNode`].
pub struct SyntaxView {
    pub kind: Seq<char>,
    pub text: Seq<char>,
    pub row: usize,
    pub column: usize,
    pub children: Seq<SyntaxView>,
}

/// The view of a node.
pub open spec fn syntax_view(n: SyntaxNode) -> SyntaxView
    decreases n,
{
    SyntaxView { kind: n.kind@, text: n.text@, row: n.row, column: n.column, children: syntax_children_view(n.children@) }
}

/// The views of a list of nodes.
pub open spec fn syntax_children_view(s: Seq<SyntaxNode>) -> Seq<SyntaxView>
    decreases s,
{
    if s.len() == 0 {
        Seq::empty()
    } else {
        syntax_children_view(s.drop_last()).push(syntax_view(s.last()))
    }
}

impl View for SyntaxNode {
    type V = SyntaxView;

    open spec fn view(&self) -> SyntaxView {
        syntax_view(*self)
    }
}

proof fn lemma_syntax_children_view(s: Seq<SyntaxNode>)
    ensures
        syntax_children_view(s).len() == s.len(),
        forall|i: int| 0 <= i < s.len() ==> #[trigger] syntax_children_view(s)[i] == syntax_view(s[i]),
    decreases s.len(),
{
    if s.len() > 0 {
        lemma_syntax_children_view(s.drop_last());
    }
}

/// The syntax tree that tree-sitter builds for a source with a grammar
/// (`Parser::set_language`, then `Parser::parse` with no old tree); `None`
/// when either step fails.
pub uninterp spec fn tree_sitter_tree(grammar: Grammar, source: Seq<char>) -> Option<SyntaxView>;

/// The message of the error `Parser::set_language` gives for a grammar;
/// `None` when it accepts the grammar.
pub uninterp spec fn tree_sitter_language_error(grammar: Grammar) -> Option<Seq<char>>;

#[verifier::external_body]
fn grammar_language(grammar: Grammar) -> tree_sitter::Language {
    let f = match grammar {
        Grammar::Bash => BASH_GRAMMAR, Grammar::C => C_GRAMMAR, Grammar::CSharp => CSHARP_GRAMMAR,
        Grammar::Cpp => CPP_GRAMMAR, Grammar::Css => CSS_GRAMMAR, Grammar::Elixir => ELIXIR_GRAMMAR,
        Grammar::Erlang => ERLANG_GRAMMAR, Grammar::Go => GO_GRAMMAR, Grammar::Haskell => HASKELL_GRAMMAR, Grammar::Hcl => HCL_GRAMMAR,
        Grammar::Java => JAVA_GRAMMAR, Grammar::JavaScript => JAVASCRIPT_GRAMMAR, Grammar::Json => JSON_GRAMMAR,
        Grammar::OCaml => OCAML_GRAMMAR, Grammar::OCamlInterface => OCAML_INTERFACE_GRAMMAR,
        Grammar::Python => PYTHON_GRAMMAR, Grammar::Ruby => RUBY_GRAMMAR, Grammar::Rust => RUST_GRAMMAR, Grammar::Scala => SCALA_GRAMMAR, Grammar::Swift => SWIFT_GRAMMAR,
        Grammar::TypeScript => TYPESCRIPT_GRAMMAR, Grammar::Tsx => TSX_GRAMMAR, Grammar::Yaml => YAML_GRAMMAR,
        Grammar::Zig => ZIG_GRAMMAR,
    };
    f.into()
}

#[verifier::external_body]
fn from_tree_sitter(node: tree_sitter::Node, source: &str) -> SyntaxNode {
    SyntaxNode {
        kind: node.kind().to_string(),
        text: source[node.byte_range()].to_string(),
        row: node.start_position().row,
        column: node.start_position().column,
        children: (0..node.child_count()).filter_map(|i| node.child(i)).map(|c| from_tree_sitter(c, source)).collect(),
    }
}

/// Loads a grammar into a new `tree_sitter::Parser` with `set_language`.
/// Claims only that the error, if any, is the one tree-sitter gives for the grammar.
#[verifier::external_body]
fn load_grammar(grammar: Grammar) -> (r: Result<(), String>)
    ensures
        match tree_sitter_language_error(grammar) {
            Some(e) => r matches Err(m) && m@ == e,
            None => r is Ok,
        },
{
    tree_sitter::Parser::new().set_language(&grammar_language(grammar)).map_err(|e| e.to_string())
}

/// Parses a source with tree-sitter (`Parser::new`, `set_language`, `parse`)
/// and reads the whole tree from its root node. Claims only that the result is
/// the tree tree-sitter builds, `None` when it builds none.
#[verifier::external_body]
fn parse_with_grammar(grammar: Grammar, source: &str) -> (r: Option<SyntaxNode>)
    ensures
        match r {
            Some(t) => tree_sitter_tree(grammar, source@) == Some(t@),
            None => tree_sitter_tree(grammar, source@) is None,
        },
{
    let mut parser = tree_sitter::Parser::new();
    parser.set_language(&grammar_language(grammar)).ok()?;
    let tree = parser.parse(source, None)?;
    Some(from_tree_sitter(tree.root_node(), source))
}

/// The language identifiers this library knows, in order. The library is
/// built with the grammars of these languages only: Dart, HTML, Lua, PHP, R
/// and Regex, which the directory diff also names by
/// extension, have no grammar here, so they select none and their sources
/// are diffed as text.
pub open spec fn supported_language_names() -> Seq<Seq<char>> {
    seq![
        "bash"@, "sh"@, "c"@, "c-sharp"@, "csharp"@, "cs"@, "cpp"@, "c++"@, "css"@,
        "elixir"@, "ex"@, "erlang"@, "erl"@, "go"@, "haskell"@, "hs"@, "hcl"@, "terraform"@, "tf"@,
        "java"@, "javascript"@, "js"@, "json"@, "ocaml"@, "ml"@, "ocaml-interface"@, "mli"@,
        "python"@, "py"@, "ruby"@, "rb"@, "rust"@, "rs"@, "scala"@,
        "swift"@, "typescript"@, "ts"@, "tsx"@, "yaml"@, "yml"@, "zig"@
    ]
}

/// The grammar a language identifier selects, among those this library is
/// built with; `None` for any other identifier.
pub open spec fn grammar_of_name(name: Seq<char>) -> Option<Grammar> {
    if name == "bash"@ || name == "sh"@ { Some(Grammar::Bash) }
    else if name == "c"@ { Some(Grammar::C) }
    else if name == "c-sharp"@ || name == "csharp"@ || name == "cs"@ { Some(Grammar::CSharp) }
    else if name == "cpp"@ || name == "c++"@ { Some(Grammar::Cpp) }
    else if name == "css"@ { Some(Grammar::Css) }
    else if name == "elixir"@ || name == "ex"@ { Some(Grammar::Elixir) }
    else if name == "erlang"@ || name == "erl"@ { Some(Grammar::Erlang) }
    else if name == "go"@ { Some(Grammar::Go) }
    else if name == "haskell"@ || name == "hs"@ { Some(Grammar::Haskell) }
    else if name == "hcl"@ || name == "terraform"@ || name == "tf"@ { Some(Grammar::Hcl) }
    else if name == "java"@ { Some(Grammar::Java) }
    else if name == "javascript"@ || name == "js"@ { Some(Grammar::JavaScript) }
    else if name == "json"@ { Some(Grammar::Json) }
    else if name == "ocaml"@ || name == "ml"@ { Some(Grammar::OCaml) }
    else if name == "ocaml-interface"@ || name == "mli"@ { Some(Grammar::OCamlInterface) }
    else if name == "python"@ || name == "py"@ { Some(Grammar::Python) }
    else if name == "ruby"@ || name == "rb"@ { Some(Grammar::Ruby) }
    else if name == "rust"@ || name == "rs"@ { Some(Grammar::Rust) }
    else if name == "scala"@ { Some(Grammar::Scala) }
    else if name == "swift"@ { Some(Grammar::Swift) }
    else if name == "typescript"@ || name == "ts"@ { Some(Grammar::TypeScript) }
    else if name == "tsx"@ { Some(Grammar::Tsx) }
    else if name == "yaml"@ || name == "yml"@ { Some(Grammar::Yaml) }
    else if name == "zig"@ { Some(Grammar::Zig) }
    else { None }
}

/// The listed language identifiers are exactly those that select a grammar,
/// so a parser is refused as unsupported exactly for an unlisted one.
#[verifier::spinoff_prover]
#[verifier::rlimit(80)]
pub proof fn law_listed_languages_have_grammars(name: Seq<char>)
    ensures
        supported_language_names().contains(name) <==> grammar_of_name(name) is Some,
{
    let list = supported_language_names();
    assert(list.len() == 41);
    assert(list[0] == "bash"@);
    assert(list[1] == "sh"@);
    assert(list[2] == "c"@);
    assert(list[3] == "c-sharp"@);
    assert(list[4] == "csharp"@);
    assert(list[5] == "cs"@);
    assert(list[6] == "cpp"@);
    assert(list[7] == "c++"@);
    assert(list[8] == "css"@);
    assert(list[9] == "elixir"@);
    assert(list[10] == "ex"@);
    assert(list[11] == "erlang"@);
    assert(list[12] == "erl"@);
    assert(list[13] == "go"@);
    assert(list[14] == "haskell"@);
    assert(list[15] == "hs"@);
    assert(list[16] == "hcl"@);
    assert(list[17] == "terraform"@);
    assert(list[18] == "tf"@);
    assert(list[19] == "java"@);
    assert(list[20] == "javascript"@);
    assert(list[21] == "js"@);
    assert(list[22] == "json"@);
    assert(list[23] == "ocaml"@);
    assert(list[24] == "ml"@);
    assert(list[25] == "ocaml-interface"@);
    assert(list[26] == "mli"@);
    assert(list[27] == "python"@);
    assert(list[28] == "py"@);
    assert(list[29] == "ruby"@);
    assert(list[30] == "rb"@);
    assert(list[31] == "rust"@);
    assert(list[32] == "rs"@);
    assert(list[33] == "scala"@);
    assert(list[34] == "swift"@);
    assert(list[35] == "typescript"@);
    assert(list[36] == "ts"@);
    assert(list[37] == "tsx"@);
    assert(list[38] == "yaml"@);
    assert(list[39] == "yml"@);
    assert(list[40] == "zig"@);
    if grammar_of_name(name) is Some {
        if name == "bash"@ {
            assert(list[0] == name);
        }
        if name == "sh"@ {
            assert(list[1] == name);
        }
        if name == "c"@ {
            assert(list[2] == name);
        }
        if name == "c-sharp"@ {
            assert(list[3] == name);
        }
        if name == "csharp"@ {
            assert(list[4] == name);
        }
        if name == "cs"@ {
            assert(list[5] == name);
        }
        if name == "cpp"@ {
            assert(list[6] == name);
        }
        if name == "c++"@ {
            assert(list[7] == name);
        }
        if name == "css"@ {
            assert(list[8] == name);
        }
        if name == "elixir"@ {
            assert(list[9] == name);
        }
        if name == "ex"@ {
            assert(list[10] == name);
        }
        if name == "erlang"@ {
            assert(list[11] == name);
        }
        if name == "erl"@ {
            assert(list[12] == name);
        }
        if name == "go"@ {
            assert(list[13] == name);
        }
        if name == "haskell"@ {
            assert(list[14] == name);
        }
        if name == "hs"@ {
            assert(list[15] == name);
        }
        if name == "hcl"@ {
            assert(list[16] == name);
        }
        if name == "terraform"@ {
            assert(list[17] == name);
        }
        if name == "tf"@ {
            assert(list[18] == name);
        }
        if name == "java"@ {
            assert(list[19] == name);
        }
        if name == "javascript"@ {
            assert(list[20] == name);
        }
        if name == "js"@ {
            assert(list[21] == name);
        }
        if name == "json"@ {
            assert(list[22] == name);
        }
        if name == "ocaml"@ {
            assert(list[23] == name);
        }
        if name == "ml"@ {
            assert(list[24] == name);
        }
        if name == "ocaml-interface"@ {
            assert(list[25] == name);
        }
        if name == "mli"@ {
            assert(list[26] == name);
        }
        if name == "python"@ {
            assert(list[27] == name);
        }
        if name == "py"@ {
            assert(list[28] == name);
        }
        if name == "ruby"@ {
            assert(list[29] == name);
        }
        if name == "rb"@ {
            assert(list[30] == name);
        }
        if name == "rust"@ {
            assert(list[31] == name);
        }
        if name == "rs"@ {
            assert(list[32] == name);
        }
        if name == "scala"@ {
            assert(list[33] == name);
        }
        if name == "swift"@ {
            assert(list[34] == name);
        }
        if name == "typescript"@ {
            assert(list[35] == name);
        }
        if name == "ts"@ {
            assert(list[36] == name);
        }
        if name == "tsx"@ {
            assert(list[37] == name);
        }
        if name == "yaml"@ {
            assert(list[38] == name);
        }
        if name == "yml"@ {
            assert(list[39] == name);
        }
        if name == "zig"@ {
            assert(list[40] == name);
        }
    }
    if list.contains(name) {
        let i = choose|i: int| 0 <= i < list.len() && list[i] == name;
        if i == 0 {
            assert(name == "bash"@);
        }
        if i == 1 {
            assert(name == "sh"@);
        }
        if i == 2 {
            assert(name == "c"@);
        }
        if i == 3 {
            assert(name == "c-sharp"@);
        }
        if i == 4 {
            assert(name == "csharp"@);
        }
        if i == 5 {
            assert(name == "cs"@);
        }
        if i == 6 {
            assert(name == "cpp"@);
        }
        if i == 7 {
            assert(name == "c++"@);
        }
        if i == 8 {
            assert(name == "css"@);
        }
        if i == 9 {
            assert(name == "elixir"@);
        }
        if i == 10 {
            assert(name == "ex"@);
        }
        if i == 11 {
            assert(name == "erlang"@);
        }
        if i == 12 {
            assert(name == "erl"@);
        }
        if i == 13 {
            assert(name == "go"@);
        }
        if i == 14 {
            assert(name == "haskell"@);
        }
        if i == 15 {
            assert(name == "hs"@);
        }
        if i == 16 {
            assert(name == "hcl"@);
        }
        if i == 17 {
            assert(name == "terraform"@);
        }
        if i == 18 {
            assert(name == "tf"@);
        }
        if i == 19 {
            assert(name == "java"@);
        }
        if i == 20 {
            assert(name == "javascript"@);
        }
        if i == 21 {
            assert(name == "js"@);
        }
        if i == 22 {
            assert(name == "json"@);
        }
        if i == 23 {
            assert(name == "ocaml"@);
        }
        if i == 24 {
            assert(name == "ml"@);
        }
        if i == 25 {
            assert(name == "ocaml-interface"@);
        }
        if i == 26 {
            assert(name == "mli"@);
        }
        if i == 27 {
            assert(name == "python"@);
        }
        if i == 28 {
            assert(name == "py"@);
        }
        if i == 29 {
            assert(name == "ruby"@);
        }
        if i == 30 {
            assert(name == "rb"@);
        }
        if i == 31 {
            assert(name == "rust"@);
        }
        if i == 32 {
            assert(name == "rs"@);
        }
        if i == 33 {
            assert(name == "scala"@);
        }
        if i == 34 {
            assert(name == "swift"@);
        }
        if i == 35 {
            assert(name == "typescript"@);
        }
        if i == 36 {
            assert(name == "ts"@);
        }
        if i == 37 {
            assert(name == "tsx"@);
        }
        if i == 38 {
            assert(name == "yaml"@);
        }
        if i == 39 {
            assert(name == "yml"@);
        }
        if i == 40 {
            assert(name == "zig"@);
        }
    }
}

/// The grammar a language identifier selects (see [`grammar_of_name`]).
pub fn grammar_for(name: &str) -> (r: Option<Grammar>)
    ensures
        r == grammar_of_name(name@),
{
    if str_eq(name, "bash") || str_eq(name, "sh") { Some(Grammar::Bash) }
    else if str_eq(name, "c") { Some(Grammar::C) }
    else if str_eq(name, "c-sharp") || str_eq(name, "csharp") || str_eq(name, "cs") { Some(Grammar::CSharp) }
    else if str_eq(name, "cpp") || str_eq(name, "c++") { Some(Grammar::Cpp) }
    else if str_eq(name, "css") { Some(Grammar::Css) }
    else if str_eq(name, "elixir") || str_eq(name, "ex") { Some(Grammar::Elixir) }
    else if str_eq(name, "erlang") || str_eq(name, "erl") { Some(Grammar::Erlang) }
    else if str_eq(name, "go") { Some(Grammar::Go) }
    else if str_eq(name, "haskell") || str_eq(name, "hs") { Some(Grammar::Haskell) }
    else if str_eq(name, "hcl") || str_eq(name, "terraform") || str_eq(name, "tf") { Some(Grammar::Hcl) }
    else if str_eq(name, "java") { Some(Grammar::Java) }
    else if str_eq(name, "javascript") || str_eq(name, "js") { Some(Grammar::JavaScript) }
    else if str_eq(name, "json") { Some(Grammar::Json) }
    else if str_eq(name, "ocaml") || str_eq(name, "ml") { Some(Grammar::OCaml) }
    else if str_eq(name, "ocaml-interface") || str_eq(name, "mli") { Some(Grammar::OCamlInterface) }
    else if str_eq(name, "python") || str_eq(name, "py") { Some(Grammar::Python) }
    else if str_eq(name, "ruby") || str_eq(name, "rb") { Some(Grammar::Ruby) }
    else if str_eq(name, "rust") || str_eq(name, "rs") { Some(Grammar::Rust) }
    else if str_eq(name, "scala") { Some(Grammar::Scala) }
    else if str_eq(name, "swift") { Some(Grammar::Swift) }
    else if str_eq(name, "typescript") || str_eq(name, "ts") { Some(Grammar::TypeScript) }
    else if str_eq(name, "tsx") { Some(Grammar::Tsx) }
    else if str_eq(name, "yaml") || str_eq(name, "yml") { Some(Grammar::Yaml) }
    else if str_eq(name, "zig") { Some(Grammar::Zig) }
    else { None }
}

/// The line (from one) shown for a node starting on `row` (from zero).
pub open spec fn line_of_row(row: usize) -> usize {
    if row < usize::MAX { (row + 1) as usize } else { row }
}

/// Where a node starts, as a change shows it.
pub open spec fn node_location(n: SyntaxView) -> Option<Location> {
    Some(Location { line: line_of_row(n.row), column: Some(n.column) })
}

/// The change for a node replaced by another.
pub open spec fn node_modified(o: SyntaxView, n: SyntaxView) -> ChangeView {
    plain_change(ChangeKind::Modified, Some(o.kind), Some(o.text), Some(n.text), node_location(o))
}

/// The change for a child present only in the old tree.
pub open spec fn node_removed(o: SyntaxView) -> ChangeView {
    plain_change(ChangeKind::Removed, Some(o.kind), Some(o.text), None, node_location(o))
}

/// The change for a child present only in the new tree.
pub open spec fn node_added(n: SyntaxView) -> ChangeView {
    plain_change(ChangeKind::Added, Some(n.kind), None, Some(n.text), node_location(n))
}

/// The changes between two nodes: none when their texts are equal; one
/// `Modified` change when their kinds differ or either has no children; else
/// the changes of their children, position by position up to the longer list,
/// a child with no counterpart being `Removed` or `Added`.
pub open spec fn node_changes(o: SyntaxView, n: SyntaxView) -> Seq<ChangeView>
    decreases o, 0nat,
{
    if o.text == n.text {
        Seq::empty()
    } else if o.kind != n.kind || o.children.len() == 0 || n.children.len() == 0 {
        seq![node_modified(o, n)]
    } else {
        children_changes(o.children, n.children, if o.children.len() >= n.children.len() { o.children.len() } else { n.children.len() })
    }
}

/// The changes for the first `k` positions of two lists of children.
pub open spec fn children_changes(oc: Seq<SyntaxView>, nc: Seq<SyntaxView>, k: nat) -> Seq<ChangeView>
    decreases oc, k,
{
    if k == 0 {
        Seq::empty()
    } else {
        let i = k - 1;
        children_changes(oc, nc, (k - 1) as nat) + if i < oc.len() && i < nc.len() {
            node_changes(oc[i], nc[i])
        } else if i < oc.len() {
            seq![node_removed(oc[i])]
        } else if i < nc.len() {
            seq![node_added(nc[i])]
        } else {
            Seq::empty()
        }
    }
}

fn node_location_exec(n: &SyntaxNode) -> (r: Option<Location>)
    ensures
        r == node_location(n@),
{
    let line = if n.row < usize::MAX { n.row + 1 } else { n.row };
    Some(Location { line, column: Some(n.column) })
}

/// Appends to `changes` the changes between two syntax trees.
#[verifier::loop_isolation(false)]
pub fn diff_nodes(old_node: &SyntaxNode, new_node: &SyntaxNode, changes: &mut Vec<Change>)
    ensures
        changes_view(final(changes)@) == changes_view(old(changes)@) + node_changes(old_node@, new_node@),
    decreases old_node,
{
    let ghost start = changes_view(changes@);
    proof {
        lemma_syntax_children_view(old_node.children@);
        lemma_syntax_children_view(new_node.children@);
    }
    if str_eq(old_node.text.as_str(), new_node.text.as_str()) {
        assert(changes_view(changes@) =~= start + node_changes(old_node@, new_node@));
        return;
    }
    if !str_eq(old_node.kind.as_str(), new_node.kind.as_str()) || old_node.children.len() == 0
        || new_node.children.len() == 0 {
        let c = Change::plain(
            ChangeKind::Modified,
            Some(copy_string(&old_node.kind)),
            Some(copy_string(&old_node.text)),
            Some(copy_string(&new_node.text)),
            node_location_exec(old_node),
        );
        changes.push(c);
        assert(changes_view(changes@) =~= start + node_changes(old_node@, new_node@));
        return;
    }
    let oc = &old_node.children;
    let nc = &new_node.children;
    let ghost ocv = syntax_children_view(oc@);
    let ghost ncv = syntax_children_view(nc@);
    let max_len = if oc.len() >= nc.len() { oc.len() } else { nc.len() };
    let mut i: usize = 0;
    while i < max_len
        invariant
            i <= max_len,
            max_len == if oc.len() >= nc.len() { oc.len() } else { nc.len() },
            changes_view(changes@) == start + children_changes(ocv, ncv, i as nat),
        decreases max_len - i,
    {
        let ghost before = changes_view(changes@);
        if i < oc.len() && i < nc.len() {
            proof {
                assert(decreases_to!(*old_node => old_node.children@[i as int]));
            }
            diff_nodes(&oc[i], &nc[i], changes);
        } else if i < oc.len() {
            let c = Change::plain(
                ChangeKind::Removed,
                Some(copy_string(&oc[i].kind)),
                Some(copy_string(&oc[i].text)),
                None,
                node_location_exec(&oc[i]),
            );
            changes.push(c);
            assert(changes_view(changes@) =~= before + seq![node_removed(ocv[i as int])]);
        } else {
            let c = Change::plain(
                ChangeKind::Added,
                Some(copy_string(&nc[i].kind)),
                None,
                Some(copy_string(&nc[i].text)),
                node_location_exec(&nc[i]),
            );
            changes.push(c);
            assert(changes_view(changes@) =~= before + seq![node_added(ncv[i as int])]);
        }
        i = i + 1;
        assert(changes_view(changes@) =~= start + children_changes(ocv, ncv, i as nat));
    }
    assert(changes_view(changes@) =~= start + node_changes(old_node@, new_node@));
}

/// Texts as `Debug` prints them, separated by `, `.
pub open spec fn debug_items(s: Seq<Seq<char>>) -> Seq<char>
    decreases s.len(),
{
    if s.len() == 0 {
        Seq::empty()
    } else if s.len() == 1 {
        str_debug(s[0])
    } else {
        debug_items(s.drop_last()) + ", "@ + str_debug(s.last())
    }
}

/// The message for a language identifier that selects no grammar: it names
/// the identifier and lists the known ones as `Debug` prints a list.
pub open spec fn unsupported_language_message(name: Seq<char>) -> Seq<char> {
    "Language not supported: "@ + name + ". Supported: ["@ + debug_items(supported_language_names()) + "]"@
}

fn unsupported_message(name: &str) -> (r: String)
    ensures
        r@ == unsupported_language_message(name@),
{
    let names = CodeFormat::supported_languages();
    let ghost ns = supported_language_names();
    let mut m = owned("Language not supported: ");
    push_str(&mut m, name);
    push_str(&mut m, ". Supported: [");
    let ghost head = m@;
    let mut i: usize = 0;
    while i < names.len()
        invariant
            i <= names.len(),
            names@.len() == ns.len(),
            forall|k: int| 0 <= k < names@.len() ==> #[trigger] names@[k]@ == ns[k],
            m@ == head + debug_items(ns.take(i as int)),
        decreases names.len() - i,
    {
        assert(ns.take(i + 1).drop_last() =~= ns.take(i as int));
        assert(ns.take(i + 1).last() == ns[i as int]);
        if i > 0 {
            push_str(&mut m, ", ");
        } else {
            assert(ns.take(0) =~= Seq::<Seq<char>>::empty());
            assert(ns.take(1)[0] == ns[0]);
        }
        let d = debug_str(names[i]);
        push_str(&mut m, d.as_str());
        i = i + 1;
    }
    assert(ns.take(i as int) =~= ns);
    push_str(&mut m, "]");
    m
}

/// The tree a source of a language parses to: `None` when the identifier
/// selects no grammar, tree-sitter refuses the grammar, or it builds no tree.
pub open spec fn code_tree(language: Seq<char>, source: Seq<char>) -> Option<SyntaxView> {
    match grammar_of_name(language) {
        Some(g) => if tree_sitter_language_error(g) is None { tree_sitter_tree(g, source) } else { None },
        None => None,
    }
}

/// Diffs source code of one language over its syntax trees.
pub struct CodeFormat {
    language: String,
}

impl CodeFormat {
    /// The language identifier this format was made with.
    pub closed spec fn language(&self) -> Seq<char> {
        self.language@
    }

    /// A format for the language `language` (an identifier such as `rust` or `py`).
    pub fn new(language: &str) -> (r: CodeFormat)
        ensures
            r.language() == language@,
    {
        CodeFormat { language: owned(language) }
    }

    /// The language identifiers this library knows (see [`supported_language_names`]).
    pub fn supported_languages() -> (r: Vec<&'static str>)
        ensures
            r@.len() == supported_language_names().len(),
            forall|i: int| 0 <= i < r@.len() ==> #[trigger] r@[i]@ == supported_language_names()[i],
    {
        let r = vec![
            "bash", "sh", "c", "c-sharp", "csharp", "cs", "cpp", "c++", "css",
            "elixir", "ex", "erlang", "erl", "go", "haskell", "hs", "hcl", "terraform", "tf",
            "java", "javascript", "js", "json", "ocaml", "ml", "ocaml-interface", "mli",
            "python", "py", "ruby", "rb", "rust", "rs", "scala",
            "swift", "typescript", "ts", "tsx", "yaml", "yml", "zig",
        ];
        r
    }

    /// The grammar to parse this language with: an unsupported-format error
    /// when the identifier selects no grammar, a parse error when tree-sitter
    /// refuses the grammar.
    pub fn get_parser(&self) -> (r: Result<Grammar, GudfError>)
        ensures
            match grammar_of_name(self.language()) {
                None => r matches Err(GudfError::UnsupportedFormat(m)) && m@ == unsupported_language_message(self.language()),
                Some(g) => match tree_sitter_language_error(g) {
                    Some(e) => r matches Err(GudfError::ParseError(m)) && m@ == e,
                    None => r == Ok::<Grammar, GudfError>(g),
                },
            },
    {
        match grammar_for(self.language.as_str()) {
            None => {
                Err(GudfError::UnsupportedFormat(unsupported_message(self.language.as_str())))
            },
            Some(g) => match load_grammar(g) {
                Ok(()) => Ok(g),
                Err(e) => Err(GudfError::ParseError(e)),
            },
        }
    }

    /// Parses a source of this language into its syntax tree.
    pub fn parse(&self, source: &str) -> (r: Result<SyntaxNode, GudfError>)
        ensures
            r is Ok <==> code_tree(self.language(), source@) is Some,
            r matches Ok(t) ==> code_tree(self.language(), source@) == Some(t@),
    {
        let g = match self.get_parser() {
            Ok(g) => g,
            Err(e) => return Err(e),
        };
        match parse_with_grammar(g, source) {
            Some(t) => Ok(t),
            None => Err(GudfError::ParseError(owned("Failed to parse source"))),
        }
    }
}

/// The result of diffing two sources of a language: the node changes over
/// their syntax trees when both parse, else a text diff.
pub open spec fn code_diff_ok(language: Seq<char>, old: Seq<char>, new: Seq<char>, r: Result<DiffResult, GudfError>) -> bool {
    match (code_tree(language, old), code_tree(language, new)) {
        (Some(a), Some(b)) => r matches Ok(d) && d@.changes == node_changes(a, b)
            && d@.format == FormatKindView::Code(language) && stats_of(d@.changes, d.stats),
        _ => text_diff_ok(old, new, r),
    }
}

impl Format for CodeFormat {
    open spec fn format_kind(&self) -> FormatKindView {
        FormatKindView::Code(self.language())
    }

    open spec fn diff_result(&self, old: Seq<char>, new: Seq<char>, r: Result<DiffResult, GudfError>) -> bool {
        code_diff_ok(self.language(), old, new, r)
    }

    fn kind(&self) -> (r: FormatKind) {
        FormatKind::Code(copy_string(&self.language))
    }

    fn diff(&self, old: &str, new: &str) -> (r: Result<DiffResult, GudfError>) {
        let old_tree = match self.parse(old) {
            Ok(t) => t,
            Err(_) => return TextFormat.diff(old, new),
        };
        let new_tree = match self.parse(new) {
            Ok(t) => t,
            Err(_) => return TextFormat.diff(old, new),
        };
        let mut changes: Vec<Change> = Vec::new();
        diff_nodes(&old_tree, &new_tree, &mut changes);
        assert(changes_view(changes@) =~= node_changes(old_tree@, new_tree@));
        Ok(DiffResult::from_changes(changes, FormatKind::Code(copy_string(&self.language))))
    }
}

/// A source that parses, diffed against itself, has no changes.
pub proof fn law_identical_source_no_changes(language: Seq<char>, source: Seq<char>, r: Result<DiffResult, GudfError>)
    requires
        code_tree(language, source) is Some,
        code_diff_ok(language, source, source, r),
    ensures
        r matches Ok(d) && d@.changes.len() == 0 && d.stats.additions == 0 && d.stats.deletions == 0
            && d.stats.modifications == 0,
{
}

} // verus!
