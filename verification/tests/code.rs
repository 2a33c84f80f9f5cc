use gudf::format::{Format, FormatKind};
use gudf::formats::code::CodeFormat;

#[test]
fn test_identical_code() {
    let format = CodeFormat::new("rust");
    let code = "fn main() { let x = 1; }\n";
    let result = format.diff(code, code).unwrap();
    assert_eq!(result.stats.additions, 0);
    assert_eq!(result.stats.deletions, 0);
    assert_eq!(result.stats.modifications, 0);
}

#[test]
fn test_modified_code() {
    let format = CodeFormat::new("rust");
    let old = "fn main() { let x = 1; }\n";
    let new = "fn main() { let x = 2; }\n";
    let result = format.diff(old, new).unwrap();
    assert!(result.stats.modifications > 0);
}

#[test]
fn test_unsupported_language_fallback() {
    let format = CodeFormat::new("cobol");
    let result = format.diff("hello\n", "world\n").unwrap();
    assert_eq!(result.format, FormatKind::Text);
}

#[test]
fn test_javascript_diff() {
    let format = CodeFormat::new("javascript");
    let old = "const x = 1;\n";
    let new = "const x = 2;\n";
    let result = format.diff(old, new).unwrap();
    assert!(result.stats.modifications > 0);
}

#[test]
fn test_python_diff() {
    let format = CodeFormat::new("python");
    let old = "x = 1\n";
    let new = "x = 2\n";
    let result = format.diff(old, new).unwrap();
    assert!(result.stats.modifications > 0);
}

#[test]
fn test_go_diff() {
    let format = CodeFormat::new("go");
    let old = "package main\nfunc main() { x := 1 }\n";
    let new = "package main\nfunc main() { x := 2 }\n";
    let result = format.diff(old, new).unwrap();
    assert!(result.stats.modifications > 0);
}

#[test]
fn test_typescript_diff() {
    let format = CodeFormat::new("typescript");
    let old = "const x: number = 1;\n";
    let new = "const x: number = 2;\n";
    let result = format.diff(old, new).unwrap();
    assert!(result.stats.modifications > 0);
}

#[test]
fn test_java_diff() {
    let format = CodeFormat::new("java");
    let old = "class Main { int x = 1; }\n";
    let new = "class Main { int x = 2; }\n";
    let result = format.diff(old, new).unwrap();
    assert!(result.stats.modifications > 0);
}

#[test]
fn test_c_diff() {
    let format = CodeFormat::new("c");
    let old = "int main() {\n    int x = 0;\n    return x;\n}\n";
    let new = "int main() {\n    int x = 1;\n    return x;\n}\n";
    let result = format.diff(old, new).unwrap();
    assert!(result.stats.modifications > 0 || result.stats.additions > 0 || result.stats.deletions > 0);
}

#[test]
fn test_cpp_diff() {
    let format = CodeFormat::new("cpp");
    let old = "int main() { int x = 1; return 0; }\n";
    let new = "int main() { int x = 2; return 0; }\n";
    let result = format.diff(old, new).unwrap();
    assert!(result.stats.modifications > 0);
}

#[test]
fn test_ruby_diff() {
    let format = CodeFormat::new("ruby");
    let old = "x = 1\n";
    let new = "x = 2\n";
    let result = format.diff(old, new).unwrap();
    assert!(result.stats.modifications > 0);
}

#[test]
fn test_bash_diff() {
    let format = CodeFormat::new("bash");
    let old = "echo hello\n";
    let new = "echo world\n";
    let result = format.diff(old, new).unwrap();
    assert!(result.stats.modifications > 0);
}

#[test]
fn test_zig_diff() {
    let format = CodeFormat::new("zig");
    let old = "const x = 1;\n";
    let new = "const x = 2;\n";
    let result = format.diff(old, new).unwrap();
    assert!(result.stats.modifications > 0);
}

#[test]
fn test_supported_languages_list() {
    let langs = CodeFormat::supported_languages();
    assert!(langs.contains(&"rust"));
    assert!(langs.contains(&"python"));
    assert!(langs.contains(&"go"));
    assert!(langs.contains(&"typescript"));
    assert!(langs.contains(&"zig"));
    assert!(langs.contains(&"hcl"));
    assert!(langs.contains(&"scala"));
    assert!(langs.contains(&"swift"));
    assert!(langs.contains(&"elixir"));
    assert!(langs.contains(&"erlang"));
}

#[test]
fn test_language_aliases() {
    for alias in &["js", "ts", "py", "rs", "rb", "sh", "cs", "c++", "ex", "erl", "hs", "ml", "mli", "yml"] {
        let format = CodeFormat::new(*alias);
        let result = format.get_parser();
        assert!(result.is_ok(), "Alias '{alias}' should create a valid parser");
    }
}

#[test]
fn test_all_languages_parse() {
    let all_langs = [
        "bash", "c", "c-sharp", "cpp", "css", "dart", "elixir", "erlang",
        "go", "haskell", "hcl", "html", "java", "javascript", "json",
        "lua", "ocaml", "php", "python", "r", "regex", "ruby", "rust",
        "scala", "swift", "typescript", "tsx", "yaml", "zig",
    ];
    let mut ok_count = 0;
    for lang in &all_langs {
        let format = CodeFormat::new(*lang);
        if format.get_parser().is_ok() {
            ok_count += 1;
        }
    }
    // At minimum, the core languages should work
    assert!(ok_count >= 20, "Expected at least 20 languages to parse, got {ok_count}");
}
