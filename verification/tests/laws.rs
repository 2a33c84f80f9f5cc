use gudf::annotations::{annotate_changes, Annotator, PathDepthAnnotator, SensitiveFieldAnnotator};
use gudf::dir::{format_from_extension, path_before, union_paths};
use gudf::engine::DiffEngine;
use gudf::format::{detect_format, Format, FormatKind};
use gudf::formats::code::CodeFormat;
use gudf::formats::cross::{diff_cross, CrossFormatKind};
use gudf::formats::text::TextFormat;
use gudf::merge::{merge, MergeStrategy};
use gudf::mutation::{reconstruct_text, ContentSha, MutationChain};
use gudf::output::inline::InlineFormatter;
use gudf::output::json_patch::JsonPatchFormatter;
use gudf::output::OutputFormatter;
use gudf::path::{build_path, parse_path, PathSegment};
use gudf::pipeline::PathMatcher;
use gudf::result::{Change, ChangeKind, DiffResult, DiffStats};
use gudf::semantic::{SemanticAnalyzer, SemanticOptions};
use gudf::{diff, diff_code, diff_json, diff_text, diff_toml, diff_yaml, patch, patch_as, GudfError};

fn text_diff(old: &str, new: &str) -> DiffResult {
    TextFormat.diff(old, new).unwrap()
}

fn change(kind: ChangeKind, path: &str, old: Option<&str>, new: Option<&str>) -> Change {
    Change {
        kind,
        path: Some(path.to_string()),
        old_value: old.map(|s| s.to_string()),
        new_value: new.map(|s| s.to_string()),
        location: None,
        annotations: Vec::new(),
    }
}

fn result_of(changes: Vec<Change>) -> DiffResult {
    let stats = DiffStats::from_changes(&changes);
    DiffResult { changes, format: FormatKind::Json, stats }
}

// ── Diffs report exactly the differences ───────────────────────────────

#[test]
fn law_same_content_across_formats() {
    let r = diff_cross(r#"{"a": 1, "b": [true, null]}"#, CrossFormatKind::Json, "b:\n  - true\n  - null\na: 1\n", CrossFormatKind::Yaml)
        .unwrap();
    assert_eq!(r.changes.len(), 1);
    assert_eq!(r.changes[0].kind, ChangeKind::Unchanged);
    assert_eq!(r.changes[0].path.as_deref(), Some("$"));
    assert_eq!((r.stats.additions, r.stats.deletions, r.stats.modifications), (0, 0, 0));
}

#[test]
fn law_changed_content_is_reported() {
    let r = diff_json(r#"{"a": [1, 2], "b": {"c": 1}}"#, r#"{"a": [1, 2], "b": {"c": 1, "d": 2}}"#).unwrap();
    assert!(r.changes.iter().any(|c| c.kind != ChangeKind::Unchanged));
    let added: Vec<_> = r.changes.iter().filter(|c| c.kind == ChangeKind::Added).collect();
    assert_eq!(added.len(), 1);
    assert_eq!(added[0].path.as_deref(), Some("b.d"));
    assert_eq!(added[0].new_value.as_deref(), Some("2"));
}

#[test]
fn law_array_length_change_is_reported() {
    let r = diff_json("[1, 2, 3]", "[1]").unwrap();
    let removed: Vec<_> = r.changes.iter().filter(|c| c.kind == ChangeKind::Removed).map(|c| c.path.clone().unwrap()).collect();
    assert_eq!(removed, vec!["[1]".to_string(), "[2]".to_string()]);
}

#[test]
fn law_identical_source_has_no_changes() {
    let src = "fn main() { let x = 1; }\n";
    let r = diff_code(src, src, "rust").unwrap();
    assert!(r.changes.is_empty());
    assert_eq!(r.format, FormatKind::Code("rust".to_string()));
}

#[test]
fn text_diff_rebuilds_both_sides() {
    let old = "a\nb\nc\n";
    let new = "a\nx\nc\nd\n";
    let r = diff_text(old, new).unwrap();
    assert_eq!(reconstruct_text(&r.changes), new);
    let old_side: String = r.changes.iter().filter(|c| c.kind != ChangeKind::Added).filter_map(|c| c.old_value.clone()).collect();
    assert_eq!(old_side, old);
    assert_eq!((r.stats.additions, r.stats.deletions), (2, 1));
}

// ── Mutation chains ────────────────────────────────────────────────────

#[test]
fn law_undo_then_redo_restores_the_chain() {
    let mut chain = MutationChain::new("a\n", FormatKind::Text);
    chain.mutate(&text_diff("a\n", "b\n")).unwrap();
    chain.mutate(&text_diff("b\n", "c\n")).unwrap();
    let before: Vec<String> = chain.history().iter().map(|s| s.to_string()).collect();
    assert!(chain.undo());
    assert!(chain.redo());
    let after: Vec<String> = chain.history().iter().map(|s| s.to_string()).collect();
    assert_eq!(before, after);
    assert_eq!(chain.redo_len(), 0);
}

#[test]
fn law_redo_then_undo_restores_the_chain() {
    let mut chain = MutationChain::new("a\n", FormatKind::Text);
    chain.mutate(&text_diff("a\n", "b\n")).unwrap();
    chain.undo();
    assert!(chain.redo());
    assert!(chain.undo());
    assert_eq!(chain.current(), "a\n");
    assert_eq!(chain.redo_len(), 1);
}

#[test]
fn law_mutation_hash_is_hash_of_current() {
    let mut chain = MutationChain::new("x\n", FormatKind::Text);
    chain.mutate(&text_diff("x\n", "y\nz\n")).unwrap();
    assert_eq!(chain.current(), "y\nz\n");
    assert_eq!(chain.current_sha(), &ContentSha::from_content("y\nz\n"));
}

#[test]
fn law_rewind_keeps_earlier_states() {
    let mut chain = MutationChain::new("0\n", FormatKind::Text);
    for (f, t) in [("0\n", "1\n"), ("1\n", "2\n"), ("2\n", "3\n")] {
        chain.mutate(&text_diff(f, t)).unwrap();
    }
    chain.rewind(2);
    assert_eq!(chain.history(), vec!["0\n", "1\n", "2\n"]);
    assert_eq!(chain.redo_len(), 1);
}

#[test]
fn mutate_to_diffs_against_current() {
    let mut chain = MutationChain::new(r#"{"a":1}"#, FormatKind::Json);
    let doc = chain.mutate_to(r#"{"a":2,"b":3}"#).unwrap().to_string();
    let v: serde_json::Value = serde_json::from_str(&doc).unwrap();
    assert_eq!(v["a"], 2);
    assert_eq!(v["b"], 3);
    assert_eq!(chain.len(), 1);
    let mut bad = MutationChain::new(r#"{"a":1}"#, FormatKind::Json);
    assert!(matches!(bad.mutate_to("{"), Err(GudfError::ParseError(_))));
    assert_eq!(bad.len(), 0);
}

#[test]
fn chain_format_from_extension() {
    assert_eq!(gudf::mutation::format_from_extension("a/b/conf.YAML"), FormatKind::Yaml);
    assert_eq!(gudf::mutation::format_from_extension("x.toml"), FormatKind::Toml);
    assert_eq!(gudf::mutation::format_from_extension("main.rs"), FormatKind::Text);
    assert_eq!(format_from_extension("main.rs"), FormatKind::Code("rust".to_string()));
}

#[test]
fn sha_of_known_text() {
    let sha = ContentSha::from_content("hello");
    assert_eq!(sha.full(), "aaf4c61ddcc5e8a2dabede0f3b482cd9aea9434d");
    assert_eq!(sha.short(), "aaf4c61");
    assert_eq!(sha.display(), "aaf4c61");
}

#[test]
fn resolve_error_message() {
    let chain = MutationChain::new("a\n", FormatKind::Text);
    match chain.resolve_or_err("HEAD~4") {
        Err(GudfError::PatchError(m)) => assert_eq!(m, "Cannot resolve expression: 'HEAD~4'"),
        _ => panic!("expected a patch error"),
    }
}

// ── Paths and patterns ─────────────────────────────────────────────────

#[test]
fn law_build_then_parse_round_trip() {
    let segs = vec![
        PathSegment::Key("a.b".into()),
        PathSegment::Index(3),
        PathSegment::Key("c".into()),
        PathSegment::Key("x[y]".into()),
    ];
    assert_eq!(parse_path(&build_path(&segs)), segs);
}

#[test]
fn law_double_star_matches_any_path() {
    let m = PathMatcher::new("**");
    assert!(m.matches("a"));
    assert!(m.matches("a.b.c.d"));
}

#[test]
fn law_literal_pattern_matches_itself() {
    assert!(PathMatcher::new("config.db.host").matches("config.db.host"));
    assert!(!PathMatcher::new("config.db.host").matches("config.db"));
    assert!(!PathMatcher::new("config.*").matches("config.db.host"));
}

// ── Semantic pass ──────────────────────────────────────────────────────

#[test]
fn law_semantic_pairs_keep_counts() {
    let changes = vec![
        change(ChangeKind::Removed, "user.firstName", Some("\"A\""), None),
        change(ChangeKind::Added, "user.first_name", None, Some("\"A\"")),
        change(ChangeKind::Removed, "old.k", Some("1"), None),
        change(ChangeKind::Added, "new.k", None, Some("1")),
        change(ChangeKind::Modified, "m", Some("1"), Some("2")),
        change(ChangeKind::Added, "lone", None, Some("7")),
    ];
    let out = SemanticAnalyzer::new(SemanticOptions::default()).analyze(result_of(changes));
    assert_eq!(out.changes.len(), 4);
    assert_eq!((out.stats.renames, out.stats.moves), (1, 1));
    assert_eq!((out.stats.additions, out.stats.deletions, out.stats.modifications), (1, 0, 1));
    let moved = out.changes.iter().find(|c| c.kind == ChangeKind::Moved).unwrap();
    assert_eq!(moved.path.as_deref(), Some("old.k"));
    assert_eq!(moved.new_value.as_deref(), Some("new.k"));
}

#[test]
fn law_semantic_disabled_changes_nothing() {
    let changes = vec![
        change(ChangeKind::Removed, "a.x", Some("1"), None),
        change(ChangeKind::Added, "a.y", None, Some("1")),
    ];
    let options = SemanticOptions { move_detection: false, rename_detection: false };
    let out = SemanticAnalyzer::new(options).analyze(result_of(changes));
    let kinds: Vec<ChangeKind> = out.changes.iter().map(|c| c.kind).collect();
    assert_eq!(kinds, vec![ChangeKind::Removed, ChangeKind::Added]);
}

// ── Merge ──────────────────────────────────────────────────────────────

#[test]
fn law_resolving_strategies_never_conflict() {
    for s in [MergeStrategy::Ours, MergeStrategy::Theirs] {
        let r = merge(r#"{"a":1,"b":1}"#, r#"{"a":2,"b":0}"#, r#"{"a":3}"#, FormatKind::Json, s).unwrap();
        assert!(r.is_clean());
    }
    let manual = merge(r#"{"a":1,"b":1}"#, r#"{"a":2,"b":0}"#, r#"{"a":3}"#, FormatKind::Json, MergeStrategy::Manual).unwrap();
    let paths: Vec<&str> = manual.conflicts.iter().map(|c| c.path.as_str()).collect();
    assert_eq!(paths, vec!["a", "b"]);
}

#[test]
fn law_same_sides_merge_cleanly() {
    let r = merge("x: 1\ny: [1, 2]\n", "x: 5\ny: [1, 2]\n", "x: 5\ny: [1, 2]\n", FormatKind::Yaml, MergeStrategy::Manual).unwrap();
    assert!(r.is_clean());
}

#[test]
fn law_swapping_sides_swaps_strategies() {
    let base = r#"{"p": 1, "q": 1}"#;
    let left = r#"{"p": 2, "q": 1}"#;
    let right = r#"{"p": 3, "q": 4}"#;
    let a = merge(base, left, right, FormatKind::Json, MergeStrategy::Ours).unwrap();
    let b = merge(base, right, left, FormatKind::Json, MergeStrategy::Theirs).unwrap();
    assert_eq!(a.merged, b.merged);
}

#[test]
fn merge_refuses_text() {
    match merge("a", "b", "c", FormatKind::Text, MergeStrategy::Manual) {
        Err(GudfError::UnsupportedFormat(m)) => {
            assert_eq!(m, "Three-way merge only supports structured formats (JSON, TOML, YAML)")
        }
        _ => panic!("expected an unsupported-format error"),
    }
    assert!(matches!(merge("{", "{}", "{}", FormatKind::Json, MergeStrategy::Manual), Err(GudfError::ParseError(_))));
}

// ── Errors and outside calls ───────────────────────────────────────────

#[test]
fn diff_errors() {
    assert!(matches!(diff_json("{", "{}"), Err(GudfError::ParseError(_))));
    assert!(matches!(diff_toml("a = ", "a = 1"), Err(GudfError::ParseError(_))));
    assert!(matches!(diff_yaml("a: [", "a: 1"), Err(GudfError::ParseError(_))));
    match DiffEngine::new().diff_as(FormatKind::Code("rust".to_string()), "a", "b") {
        Err(GudfError::UnsupportedFormat(m)) => assert_eq!(m, "Code(\"rust\")"),
        _ => panic!("expected an unsupported-format error"),
    }
    match CodeFormat::new("cobol").get_parser() {
        Err(GudfError::UnsupportedFormat(m)) => {
            assert!(m.starts_with("Language not supported: cobol. Supported: [\"bash\", \"sh\", "));
            assert!(m.ends_with("\"yml\", \"zig\"]"));
        }
        _ => panic!("expected an unsupported-format error"),
    }
}

#[test]
fn patch_errors_and_outputs() {
    let bad = vec![change(ChangeKind::Modified, "a.b", Some("1"), Some("2"))];
    assert!(matches!(patch_as(FormatKind::Json, r#"{"a": 1}"#, &bad), Err(GudfError::PatchError(_))));
    let ok = vec![change(ChangeKind::Modified, "a", Some("1"), Some("2"))];
    assert_eq!(patch_as(FormatKind::Json, r#"{"a": 1}"#, &ok).unwrap(), "{\n  \"a\": 2\n}");
    assert_eq!(patch_as(FormatKind::Yaml, "a: 1\n", &ok).unwrap(), "a: 2\n");
    assert_eq!(patch_as(FormatKind::Toml, "a = 1\n", &ok).unwrap(), "a = 2\n");
    assert_eq!(patch(r#"{"a": 1}"#, &ok).unwrap(), "{\n  \"a\": 2\n}");
}

#[test]
fn detection_and_top_level_diff() {
    assert_eq!(detect_format("   {\"a\": 1}   "), FormatKind::Json);
    let r = diff(r#"{"a": 1}"#, r#"{"a": 2}"#).unwrap();
    assert_eq!(r.format, FormatKind::Json);
    let m = r.changes.iter().find(|c| c.kind == ChangeKind::Modified).unwrap();
    assert_eq!((m.old_value.as_deref(), m.new_value.as_deref()), (Some("1"), Some("2")));
    let t = diff_toml("[s]\nport = 1\n", "[s]\nport = 2\n").unwrap();
    assert_eq!(t.changes.iter().find(|c| c.kind == ChangeKind::Modified).unwrap().path.as_deref(), Some("s.port"));
}

#[test]
fn inline_marks_moves_and_renames() {
    let changes = vec![
        change(ChangeKind::Removed, "user.userName", Some("\"Alice\""), None),
        change(ChangeKind::Added, "user.user_name", None, Some("\"Alice\"")),
        change(ChangeKind::Removed, "a.k", Some("1"), None),
        change(ChangeKind::Added, "b.k", None, Some("1")),
    ];
    let out = SemanticAnalyzer::with_defaults().analyze(result_of(changes));
    let text = InlineFormatter.format(&out);
    assert_eq!(text, "[R] user.userName -> user.user_name\n[M] a.k -> b.k\n\n0 addition(s), 0 deletion(s), 0 modification(s)\n");
}

#[test]
fn engine_with_registered_code_format() {
    let mut engine = DiffEngine::new();
    engine.register(Box::new(CodeFormat::new("python")));
    let r = engine.diff_as(FormatKind::Code("python".to_string()), "x = 1\n", "x = 2\n").unwrap();
    assert_eq!(r.format, FormatKind::Code("python".to_string()));
    assert!(r.stats.modifications > 0);
}

#[test]
fn law_one_sided_merge_has_no_conflict() {
    let base = r#"{"a": {"b": 1}, "d": [1, 2]}"#;
    let right = r#"{"a": {"b": 2}, "c": 3, "d": [1, 2]}"#;
    for s in [MergeStrategy::Manual, MergeStrategy::Ours, MergeStrategy::Theirs] {
        let r = merge(base, base, right, FormatKind::Json, s).unwrap();
        assert!(r.is_clean());
        let l = merge(base, right, base, FormatKind::Json, s).unwrap();
        assert!(l.is_clean());
        assert_eq!(r.merged, l.merged);
    }
}

#[test]
fn law_star_is_one_level_double_star_any() {
    let one = PathMatcher::new("config.database.*");
    assert!(one.matches("config.database.host"));
    assert!(!one.matches("config.database.host.port"));
    assert!(!one.matches("config.database"));
    let any = PathMatcher::new("config.**");
    assert!(any.matches("config"));
    assert!(any.matches("config.database.host.port"));
}

#[test]
fn json_patch_paths_are_pointers() {
    let r = diff_json(r#"{"items": [{"name": "a"}, {"name": "b"}]}"#, r#"{"items": [{"name": "a"}, {"name": "c"}]}"#).unwrap();
    let ops: serde_json::Value = serde_json::from_str(&JsonPatchFormatter.format(&r)).unwrap();
    let expected: serde_json::Value =
        serde_json::from_str(r#"[{"op": "replace", "path": "/items/1/name", "value": "c"}]"#).unwrap();
    assert_eq!(ops, expected);
    let r = diff_json(r#"{"a/b": 1}"#, r#"{"a/b": 1, "c~d": 2}"#).unwrap();
    let ops: serde_json::Value = serde_json::from_str(&JsonPatchFormatter.format(&r)).unwrap();
    assert_eq!(ops[0]["path"], "/c~0d");
}

#[test]
fn text_patch_rebuilds_new_text() {
    for (old, new) in [
        ("hello\nworld\n", "hello\n"),
        ("a\nb\n", "x\nb\n"),
        ("a\n", "x\ny\na\n"),
        ("1\n2\n3\n4\n", "0\n2\nx\ny\n4\n5\n"),
        ("a\nb", "a\nc"),
        ("", "x\ny"),
        ("x\n\ny\n", "\n"),
        ("a\n", "a"),
        ("a", "a\n"),
        ("a\r\nb\r\n", "a\r\nc"),
        ("p\rq\n", "p\rr\n\n\n"),
        ("one\ntwo\n", ""),
    ] {
        let d = diff_text(old, new).unwrap();
        assert_eq!(patch_as(FormatKind::Text, old, &d.changes).unwrap(), new);
    }
}

#[test]
fn json_patch_rebuilds_arrays() {
    for (old, new) in [("[1, 2, 3]", "[1]"), ("[1]", "[1, 2, 3]"), (r#"{"a": [1, 2, 3], "b": 1}"#, r#"{"a": [0], "c": 2}"#)] {
        let d = diff_json(old, new).unwrap();
        let out = patch_as(FormatKind::Json, old, &d.changes).unwrap();
        let got: serde_json::Value = serde_json::from_str(&out).unwrap();
        let want: serde_json::Value = serde_json::from_str(new).unwrap();
        assert_eq!(got, want);
    }
}

#[test]
fn compose_of_code_chain() {
    let mut chain = MutationChain::new("x = 1\n", FormatKind::Code("python".to_string()));
    chain.apply(&diff_text("x = 1\n", "x = 2\n").unwrap().changes).unwrap();
    let composed = chain.compose().unwrap();
    assert_eq!(composed.format, FormatKind::Code("python".to_string()));
    assert!(composed.stats.modifications > 0);
}

#[test]
fn merge_delete_against_edit_inside() {
    let base = r#"{"a": {"x": 1, "y": 1}, "k": 0}"#;
    let left = r#"{"a": {"x": 2, "y": 1}, "k": 0}"#;
    let right = r#"{"k": 0}"#;
    let m = merge(base, left, right, FormatKind::Json, MergeStrategy::Manual).unwrap();
    assert!(!m.is_clean());
    let paths: Vec<&str> = m.conflicts.iter().map(|c| c.path.as_str()).collect();
    assert_eq!(paths, vec!["a", "a.x"]);
    let value_of = |t: &str| merge(t, t, t, FormatKind::Json, MergeStrategy::Manual).unwrap().merged;
    let theirs = merge(base, left, right, FormatKind::Json, MergeStrategy::Theirs).unwrap();
    assert!(theirs.is_clean());
    assert_eq!(theirs.merged, value_of(right));
    let ours = merge(base, left, right, FormatKind::Json, MergeStrategy::Ours).unwrap();
    assert!(ours.is_clean());
    assert_eq!(ours.merged, value_of(left));
}

#[test]
fn annotators_apply_in_order() {
    let mut changes = vec![change(ChangeKind::Modified, "db.password", Some("1"), Some("2"))];
    let anns: Vec<Box<dyn Annotator>> = vec![Box::new(SensitiveFieldAnnotator::default()), Box::new(PathDepthAnnotator)];
    annotate_changes(&mut changes, &anns);
    let keys: Vec<&str> = changes[0].annotations.iter().map(|a| a.key.as_str()).collect();
    assert_eq!(keys[0], "sensitive");
    assert_eq!(keys.last(), Some(&"node_type"));
    assert!(keys.contains(&"depth"));
}

#[test]
fn languages_listed_are_parsed() {
    for name in CodeFormat::supported_languages() {
        assert!(CodeFormat::new(name).get_parser().is_ok(), "{name} should parse");
    }
    for name in ["dart", "html", "lua", "php", "r", "regex"] {
        assert!(matches!(CodeFormat::new(name).get_parser(), Err(GudfError::UnsupportedFormat(_))));
    }
    let r = diff_code("x = 1\n", "x = 2\n", "hcl").unwrap();
    assert_eq!(r.format, FormatKind::Code("hcl".to_string()));
}

#[test]
fn directory_paths_in_order() {
    let old = vec!["b.txt".to_string(), "a/x.json".to_string()];
    let new = vec!["c.txt".to_string(), "b.txt".to_string()];
    assert_eq!(union_paths(&old, &new), vec!["a/x.json", "b.txt", "c.txt"]);
    let old = vec!["a.b".to_string(), "a-c".to_string()];
    let new = vec!["a/b".to_string(), "a".to_string()];
    assert_eq!(union_paths(&old, &new), vec!["a", "a/b", "a-c", "a.b"]);
    assert!(path_before("a/b", "a.b"));
    assert!(!path_before("a.b", "a/b"));
}


#[test]
fn json_patch_rebuilds_documents() {
    for (old, new) in [
        ("1", "2"),
        ("[1, 2]", r#"{"a": 1}"#),
        (r#"{"a.b": 1, "c": [1, 2, 3], "d": {"x": [true, null]}}"#, r#"{"a.b": 2, "c": [1], "d": {"y": "z", "x": []}}"#),
        (r#"{"k": [[1, 2], [3]], "gone": 1}"#, r#"{"k": [[1], [3, 4], [5]], "new": {"n": 1}}"#),
    ] {
        let d = diff_json(old, new).unwrap();
        let out = patch_as(FormatKind::Json, old, &d.changes).unwrap();
        let got: serde_json::Value = serde_json::from_str(&out).unwrap();
        let want: serde_json::Value = serde_json::from_str(new).unwrap();
        assert_eq!(got, want);
    }
}

#[test]
fn yaml_and_toml_patches_rebuild_documents() {
    let old = "a: 1\nlist:\n  - x\n  - y\n  - z\n";
    let new = "a: 2\nlist:\n  - x\nb: true\n";
    let d = diff_yaml(old, new).unwrap();
    let out = patch_as(FormatKind::Yaml, old, &d.changes).unwrap();
    let got: serde_json::Value = serde_yaml::from_str(&out).unwrap();
    let want: serde_json::Value = serde_yaml::from_str(new).unwrap();
    assert_eq!(got, want);

    let old = "a = 1\nlist = [1, 2, 3]\n[t]\nk = \"v\"\n";
    let new = "a = 2\nlist = [1]\n[t]\nk = \"w\"\nm = 3\n";
    let d = diff_toml(old, new).unwrap();
    let out = patch_as(FormatKind::Toml, old, &d.changes).unwrap();
    let got: toml::Value = out.parse().unwrap();
    let want: toml::Value = new.parse().unwrap();
    assert_eq!(got, want);
}

#[test]
fn find_by_sha_needs_a_single_match() {
    let mut chain = MutationChain::new("a\n", FormatKind::Text);
    assert_eq!(chain.find_by_sha(""), Some((0, "a\n")));
    chain.mutate(&text_diff("a\n", "b\n")).unwrap();
    assert_eq!(chain.find_by_sha(""), None);
    let full = ContentSha::from_content("b\n").full();
    assert_eq!(chain.find_by_sha(&full), Some((1, "b\n")));
}

#[test]
fn every_listed_language_selects_a_parser() {
    for name in CodeFormat::supported_languages() {
        assert!(CodeFormat::new(name).get_parser().is_ok(), "{name}");
    }
    for name in ["dart", "cobol", "html", ""] {
        assert!(matches!(CodeFormat::new(name).get_parser(), Err(GudfError::UnsupportedFormat(_))));
    }
}
