use gudf::format::{Format, FormatKind};
use gudf::mutation::{reconstruct_text, ContentSha, MutationChain};
use gudf::output::inline::InlineFormatter;
use gudf::patch_as;
use gudf::result::{Change, ChangeKind, DiffResult};

// ── ContentSha ─────────────────────────────────────────────────────

#[test]
fn test_sha_deterministic() {
    let a = ContentSha::from_content("hello");
    let b = ContentSha::from_content("hello");
    assert_eq!(a, b);
    assert_eq!(a.full(), b.full());
}

#[test]
fn test_sha_different_content() {
    let a = ContentSha::from_content("hello");
    let b = ContentSha::from_content("world");
    assert_ne!(a, b);
    assert_ne!(a.full(), b.full());
    assert_ne!(a.short(), b.short());
}

#[test]
fn test_sha_format() {
    let sha = ContentSha::from_content("test");
    assert_eq!(sha.full().len(), 40);
    assert_eq!(sha.short().len(), 7);
    assert!(sha.full().starts_with(&sha.short()));
}

#[test]
fn test_sha_display() {
    let sha = ContentSha::from_content("test");
    let display = sha.display();
    assert_eq!(display, sha.short());
}

#[test]
fn test_sha_matches_prefix() {
    let sha = ContentSha::from_content("test");
    let full = sha.full();
    assert!(sha.matches_prefix(&full));
    assert!(sha.matches_prefix(&full[..7]));
    assert!(sha.matches_prefix(&full[..4]));
    assert!(!sha.matches_prefix("0000000"));
}

// ── Chain SHA tracking ─────────────────────────────────────────────

#[test]
fn test_original_sha() {
    let chain = MutationChain::new("hello\n", FormatKind::Text);
    let sha = chain.original_sha();
    assert_eq!(sha, &ContentSha::from_content("hello\n"));
    assert_eq!(chain.current_sha(), sha);
}

#[test]
fn test_sha_changes_on_mutate() {
    let mut chain = MutationChain::new("a\n", FormatKind::Text);
    let sha0 = chain.current_sha().clone();

    let d = gudf_diff_text("a\n", "b\n");
    chain.mutate(&d).unwrap();
    let sha1 = chain.current_sha().clone();

    assert_ne!(sha0, sha1);
    assert_eq!(sha1, ContentSha::from_content("b\n"));
}

#[test]
fn test_sha_at() {
    let mut chain = MutationChain::new("a\n", FormatKind::Text);
    let d = gudf_diff_text("a\n", "b\n");
    chain.mutate(&d).unwrap();

    assert_eq!(chain.sha_at(0), Some(&ContentSha::from_content("a\n")));
    assert_eq!(chain.sha_at(1), Some(&ContentSha::from_content("b\n")));
    assert_eq!(chain.sha_at(2), None);
}

#[test]
fn test_shas() {
    let mut chain = MutationChain::new("a\n", FormatKind::Text);
    chain.mutate(&gudf_diff_text("a\n", "b\n")).unwrap();
    chain.mutate(&gudf_diff_text("b\n", "c\n")).unwrap();

    let shas = chain.shas();
    assert_eq!(shas.len(), 3);
    assert_eq!(shas[0], &ContentSha::from_content("a\n"));
    assert_eq!(shas[1], &ContentSha::from_content("b\n"));
    assert_eq!(shas[2], &ContentSha::from_content("c\n"));
}

#[test]
fn test_find_by_sha_full() {
    let mut chain = MutationChain::new("a\n", FormatKind::Text);
    chain.mutate(&gudf_diff_text("a\n", "b\n")).unwrap();

    let target_sha = ContentSha::from_content("b\n").full();
    let found = chain.find_by_sha(&target_sha);
    assert!(found.is_some());
    let (step, doc) = found.unwrap();
    assert_eq!(step, 1);
    assert_eq!(doc, "b\n");
}

#[test]
fn test_find_by_sha_short() {
    let mut chain = MutationChain::new("a\n", FormatKind::Text);
    chain.mutate(&gudf_diff_text("a\n", "b\n")).unwrap();

    let prefix = ContentSha::from_content("a\n").short();
    let found = chain.find_by_sha(&prefix);
    assert!(found.is_some());
    let (step, doc) = found.unwrap();
    assert_eq!(step, 0);
    assert_eq!(doc, "a\n");
}

#[test]
fn test_find_by_sha_not_found() {
    let chain = MutationChain::new("a\n", FormatKind::Text);
    assert!(chain.find_by_sha("0000000").is_none());
}

#[test]
fn test_log() {
    let mut chain = MutationChain::new("a\n", FormatKind::Text);
    chain.mutate(&gudf_diff_text("a\n", "a\nb\n")).unwrap();
    chain.mutate(&gudf_diff_text("a\nb\n", "a\nb\nc\n")).unwrap();

    let log = chain.log();
    assert_eq!(log.len(), 3);

    assert_eq!(log[0].step, 0);
    assert!(log[0].stats.is_none());

    assert_eq!(log[1].step, 1);
    let stats1 = log[1].stats.as_ref().unwrap();
    assert_eq!(stats1.additions, 1);

    assert_eq!(log[2].step, 2);
    let stats2 = log[2].stats.as_ref().unwrap();
    assert_eq!(stats2.additions, 1);
}

#[test]
fn test_sha_survives_undo_redo() {
    let mut chain = MutationChain::new("a\n", FormatKind::Text);
    chain.mutate(&gudf_diff_text("a\n", "b\n")).unwrap();
    let sha_b = chain.current_sha().clone();

    chain.undo();
    assert_eq!(chain.current_sha(), &ContentSha::from_content("a\n"));

    chain.redo();
    assert_eq!(chain.current_sha(), &sha_b);
}

#[test]
fn test_mutation_state_has_sha() {
    let mut chain = MutationChain::new("a\n", FormatKind::Text);
    chain.mutate(&gudf_diff_text("a\n", "b\n")).unwrap();

    let state = &chain.states()[0];
    assert_eq!(state.sha, ContentSha::from_content("b\n"));
}

// ── Text chain ─────────────────────────────────────────────────────

#[test]
fn test_text_chain() {
    let mut chain = MutationChain::new("hello\nworld\n", FormatKind::Text);
    assert_eq!(chain.current(), "hello\nworld\n");
    assert!(chain.is_empty());

    let diff1 = gudf_diff_text("hello\nworld\n", "hello\nrust\n");
    chain.mutate(&diff1).unwrap();
    assert_eq!(chain.current(), "hello\nrust\n");
    assert_eq!(chain.len(), 1);

    let diff2 = gudf_diff_text("hello\nrust\n", "hello\nrust\nis great\n");
    chain.mutate(&diff2).unwrap();
    assert_eq!(chain.current(), "hello\nrust\nis great\n");
    assert_eq!(chain.len(), 2);
}

#[test]
fn test_history() {
    let mut chain = MutationChain::new("v0\n", FormatKind::Text);
    chain.mutate(&gudf_diff_text("v0\n", "v1\n")).unwrap();
    chain.mutate(&gudf_diff_text("v1\n", "v2\n")).unwrap();

    let h = chain.history();
    assert_eq!(h, vec!["v0\n", "v1\n", "v2\n"]);
}

#[test]
fn test_at() {
    let mut chain = MutationChain::new("a\n", FormatKind::Text);
    chain.mutate(&gudf_diff_text("a\n", "b\n")).unwrap();

    assert_eq!(chain.at(0), Some("a\n"));
    assert_eq!(chain.at(1), Some("b\n"));
    assert_eq!(chain.at(2), None);
}

#[test]
fn test_undo() {
    let mut chain = MutationChain::new("a\n", FormatKind::Text);
    chain.mutate(&gudf_diff_text("a\n", "b\n")).unwrap();
    assert!(chain.can_undo());
    assert!(!chain.can_redo());

    assert!(chain.undo());
    assert_eq!(chain.current(), "a\n");
    assert!(!chain.can_undo());
    assert!(chain.can_redo());
    assert!(!chain.undo());
}

#[test]
fn test_redo() {
    let mut chain = MutationChain::new("a\n", FormatKind::Text);
    chain.mutate(&gudf_diff_text("a\n", "b\n")).unwrap();

    chain.undo();
    assert!(chain.can_redo());
    assert!(chain.redo());
    assert_eq!(chain.current(), "b\n");
    assert!(!chain.can_redo());
    assert!(!chain.redo());
}

#[test]
fn test_undo_redo_multiple() {
    let mut chain = MutationChain::new("a\n", FormatKind::Text);
    for (f, t) in [("a\n", "b\n"), ("b\n", "c\n"), ("c\n", "d\n")] {
        chain.mutate(&gudf_diff_text(f, t)).unwrap();
    }
    assert_eq!(chain.undo_n(2), 2);
    assert_eq!(chain.current(), "b\n");
    assert!(chain.redo());
    assert_eq!(chain.current(), "c\n");
    assert_eq!(chain.redo_all(), 1);
    assert_eq!(chain.current(), "d\n");
}

#[test]
fn test_redo_cleared_on_new_mutation() {
    let mut chain = MutationChain::new("a\n", FormatKind::Text);
    chain.mutate(&gudf_diff_text("a\n", "b\n")).unwrap();
    chain.mutate(&gudf_diff_text("b\n", "c\n")).unwrap();

    chain.undo();
    assert_eq!(chain.redo_len(), 1);
    chain.mutate(&gudf_diff_text("b\n", "x\n")).unwrap();
    assert_eq!(chain.redo_len(), 0);
}

#[test]
fn test_rewind() {
    let mut chain = MutationChain::new("a\n", FormatKind::Text);
    for (f, t) in [("a\n", "b\n"), ("b\n", "c\n"), ("c\n", "d\n")] {
        chain.mutate(&gudf_diff_text(f, t)).unwrap();
    }
    chain.rewind(1);
    assert_eq!(chain.current(), "b\n");
    assert_eq!(chain.redo_len(), 2);
    chain.redo_all();
    assert_eq!(chain.current(), "d\n");
}

#[test]
fn test_compose() {
    let mut chain = MutationChain::new("a\n", FormatKind::Text);
    chain.mutate(&gudf_diff_text("a\n", "b\n")).unwrap();
    chain.mutate(&gudf_diff_text("b\n", "c\n")).unwrap();
    let composed = chain.compose().unwrap();
    assert!(composed.stats.additions > 0 || composed.stats.deletions > 0);
}

#[test]
fn test_compose_range() {
    let mut chain = MutationChain::new("a\n", FormatKind::Text);
    chain.mutate(&gudf_diff_text("a\n", "b\n")).unwrap();
    chain.mutate(&gudf_diff_text("b\n", "c\n")).unwrap();
    chain.mutate(&gudf_diff_text("c\n", "d\n")).unwrap();
    let range = chain.compose_range(1, 3).unwrap();
    assert!(range.stats.additions > 0 || range.stats.deletions > 0);
}

#[test]
fn test_squash() {
    let mut chain = MutationChain::new("a\n", FormatKind::Text);
    chain.mutate(&gudf_diff_text("a\n", "b\n")).unwrap();
    chain.mutate(&gudf_diff_text("b\n", "c\n")).unwrap();
    chain.squash().unwrap();
    assert_eq!(chain.len(), 1);
    assert_eq!(chain.current(), "c\n");
}

#[test]
fn test_total_stats() {
    let mut chain = MutationChain::new("a\n", FormatKind::Text);
    chain.mutate(&gudf_diff_text("a\n", "a\nb\n")).unwrap();
    chain.mutate(&gudf_diff_text("a\nb\n", "a\nb\nc\n")).unwrap();
    assert_eq!(chain.total_stats().additions, 2);
}

#[test]
fn test_empty_compose() {
    let chain = MutationChain::new("hello\n", FormatKind::Text);
    let composed = chain.compose().unwrap();
    assert!(composed.changes.is_empty());
}

#[test]
fn test_text_multiline_chain() {
    let v0 = "line1\nline2\nline3\n";
    let v1 = "line1\nmodified\nline3\n";
    let v2 = "line1\nmodified\nline3\nline4\n";
    let v3 = "header\nline1\nmodified\nline3\nline4\n";

    let mut chain = MutationChain::new(v0, FormatKind::Text);
    chain.mutate(&gudf_diff_text(v0, v1)).unwrap();
    chain.mutate(&gudf_diff_text(v1, v2)).unwrap();
    chain.mutate(&gudf_diff_text(v2, v3)).unwrap();
    assert_eq!(chain.current(), v3);

    let composed = chain.compose().unwrap();
    assert_eq!(reconstruct_text(&composed.changes), v3);
}

// ── JSON ───────────────────────────────────────────────────────────

#[test]
fn test_json_chain() {
    let mut chain = MutationChain::new(r#"{"a":1,"b":2}"#, FormatKind::Json);
    chain
        .mutate(&gudf_diff_json(r#"{"a":1,"b":2}"#, r#"{"a":10,"b":2}"#))
        .unwrap();
    let v: serde_json::Value = serde_json::from_str(chain.current()).unwrap();
    assert_eq!(v["a"], 10);

    chain
        .mutate(&gudf_diff_json(chain.current(), r#"{"a":10,"b":20,"c":30}"#))
        .unwrap();
    let v: serde_json::Value = serde_json::from_str(chain.current()).unwrap();
    assert_eq!(v["b"], 20);
    assert_eq!(v["c"], 30);
}

#[test]
fn test_json_compose_roundtrip() {
    let orig = r#"{"x":1}"#;
    let mut chain = MutationChain::new(orig, FormatKind::Json);
    chain.mutate(&gudf_diff_json(orig, r#"{"x":2}"#)).unwrap();
    chain
        .mutate(&gudf_diff_json(chain.current(), r#"{"x":2,"y":3}"#))
        .unwrap();

    let composed = chain.compose().unwrap();
    let reconstructed = patch_as(FormatKind::Json, orig, &composed.changes).unwrap();
    let expected: serde_json::Value = serde_json::from_str(chain.current()).unwrap();
    let got: serde_json::Value = serde_json::from_str(&reconstructed).unwrap();
    assert_eq!(got, expected);
}

#[test]
fn test_json_undo_redo_cycle() {
    let mut chain = MutationChain::new(r#"{"count":0}"#, FormatKind::Json);
    for i in 1..=3 {
        let prev = chain.current().to_string();
        chain
            .mutate(&gudf_diff_json(&prev, &format!(r#"{{"count":{i}}}"#)))
            .unwrap();
    }
    assert_eq!(chain.undo_n(2), 2);
    let v: serde_json::Value = serde_json::from_str(chain.current()).unwrap();
    assert_eq!(v["count"], 1);

    chain.redo();
    let v: serde_json::Value = serde_json::from_str(chain.current()).unwrap();
    assert_eq!(v["count"], 2);

    chain.redo();
    let v: serde_json::Value = serde_json::from_str(chain.current()).unwrap();
    assert_eq!(v["count"], 3);
    assert!(!chain.can_redo());
}

#[test]
fn test_apply_raw_changes() {
    let mut chain = MutationChain::new(r#"{"a":1}"#, FormatKind::Json);
    chain
        .apply(&[Change {
            kind: ChangeKind::Modified,
            path: Some("a".to_string()),
            old_value: Some("1".to_string()),
            new_value: Some("99".to_string()),
            location: None,
            annotations: Vec::new(),
        }])
        .unwrap();
    let v: serde_json::Value = serde_json::from_str(chain.current()).unwrap();
    assert_eq!(v["a"], 99);
}

#[test]
fn test_diffs() {
    let mut chain = MutationChain::new("a\n", FormatKind::Text);
    chain.mutate(&gudf_diff_text("a\n", "b\n")).unwrap();
    chain.mutate(&gudf_diff_text("b\n", "c\n")).unwrap();
    assert_eq!(chain.diffs().len(), 2);
}

// ── Expressions ─────────────────────────────────────────────────────

#[test]
fn test_resolve_head() {
    let mut chain = MutationChain::new("a\n", FormatKind::Text);
    chain.mutate(&gudf_diff_text("a\n", "b\n")).unwrap();
    chain.mutate(&gudf_diff_text("b\n", "c\n")).unwrap();

    let (step, doc) = chain.resolve("HEAD").unwrap();
    assert_eq!(step, 2);
    assert_eq!(doc, "c\n");
}

#[test]
fn test_resolve_head_tilde() {
    let mut chain = MutationChain::new("a\n", FormatKind::Text);
    chain.mutate(&gudf_diff_text("a\n", "b\n")).unwrap();
    chain.mutate(&gudf_diff_text("b\n", "c\n")).unwrap();
    chain.mutate(&gudf_diff_text("c\n", "d\n")).unwrap();

    let (step, doc) = chain.resolve("HEAD~1").unwrap();
    assert_eq!(step, 2);
    assert_eq!(doc, "c\n");

    let (step, doc) = chain.resolve("HEAD~3").unwrap();
    assert_eq!(step, 0);
    assert_eq!(doc, "a\n");

    // Out of range
    assert!(chain.resolve("HEAD~99").is_none());
}

#[test]
fn test_resolve_head_caret() {
    let mut chain = MutationChain::new("a\n", FormatKind::Text);
    chain.mutate(&gudf_diff_text("a\n", "b\n")).unwrap();
    chain.mutate(&gudf_diff_text("b\n", "c\n")).unwrap();

    let (step, doc) = chain.resolve("HEAD^").unwrap();
    assert_eq!(step, 1);
    assert_eq!(doc, "b\n");

    let (step, doc) = chain.resolve("HEAD^^").unwrap();
    assert_eq!(step, 0);
    assert_eq!(doc, "a\n");
}

#[test]
fn test_resolve_orig() {
    let mut chain = MutationChain::new("a\n", FormatKind::Text);
    chain.mutate(&gudf_diff_text("a\n", "b\n")).unwrap();

    let (step, doc) = chain.resolve("ORIG").unwrap();
    assert_eq!(step, 0);
    assert_eq!(doc, "a\n");
}

#[test]
fn test_resolve_at_step() {
    let mut chain = MutationChain::new("a\n", FormatKind::Text);
    chain.mutate(&gudf_diff_text("a\n", "b\n")).unwrap();
    chain.mutate(&gudf_diff_text("b\n", "c\n")).unwrap();

    let (step, doc) = chain.resolve("@0").unwrap();
    assert_eq!(step, 0);
    assert_eq!(doc, "a\n");

    let (step, doc) = chain.resolve("@2").unwrap();
    assert_eq!(step, 2);
    assert_eq!(doc, "c\n");

    assert!(chain.resolve("@99").is_none());
}

#[test]
fn test_resolve_sha() {
    let mut chain = MutationChain::new("a\n", FormatKind::Text);
    chain.mutate(&gudf_diff_text("a\n", "b\n")).unwrap();

    let sha = chain.sha_at(1).unwrap().short();
    let (step, doc) = chain.resolve(&sha).unwrap();
    assert_eq!(step, 1);
    assert_eq!(doc, "b\n");
}

#[test]
fn test_resolve_not_found() {
    let chain = MutationChain::new("a\n", FormatKind::Text);
    assert!(chain.resolve("NOPE").is_none());
    assert!(chain.resolve("@999").is_none());
    assert!(chain.resolve("HEAD~1").is_none()); // no mutations
}

#[test]
fn test_resolve_or_err() {
    let chain = MutationChain::new("a\n", FormatKind::Text);
    assert!(chain.resolve_or_err("HEAD").is_ok());
    assert!(chain.resolve_or_err("NOPE").is_err());
}

#[test]
fn test_diff_expr() {
    let mut chain = MutationChain::new("a\n", FormatKind::Text);
    chain.mutate(&gudf_diff_text("a\n", "b\n")).unwrap();
    chain.mutate(&gudf_diff_text("b\n", "c\n")).unwrap();
    chain.mutate(&gudf_diff_text("c\n", "d\n")).unwrap();

    // ORIG → HEAD
    let diff = chain.diff_expr("ORIG", "HEAD").unwrap();
    assert!(diff.stats.additions > 0 || diff.stats.deletions > 0);

    // HEAD~2 → HEAD
    let diff = chain.diff_expr("HEAD~2", "HEAD").unwrap();
    assert!(diff.stats.additions > 0 || diff.stats.deletions > 0);

    // @1 → @2
    let diff = chain.diff_expr("@1", "@2").unwrap();
    assert!(diff.stats.additions > 0 || diff.stats.deletions > 0);
}

// ── ExprDiffBuilder ────────────────────────────────────────────────

#[test]
fn test_unified_builder_render() {
    let mut chain = MutationChain::new("a\nb\nc\n", FormatKind::Text);
    chain.mutate(&gudf_diff_text("a\nb\nc\n", "a\nx\nc\n")).unwrap();

    let output = chain.unified("ORIG", "HEAD").render().unwrap();
    assert!(output.contains("@@"));
    assert!(output.contains("-b"));
    assert!(output.contains("+x"));
    // Headers contain expression + short-sha
    assert!(output.contains("ORIG"));
    assert!(output.contains("HEAD"));
}

#[test]
fn test_unified_builder_context() {
    let mut chain = MutationChain::new(
        "1\n2\n3\n4\n5\n6\n7\n8\n9\n10\n",
        FormatKind::Text,
    );
    chain
        .mutate(&gudf_diff_text(
            "1\n2\n3\n4\n5\n6\n7\n8\n9\n10\n",
            "1\n2\n3\n4\nX\n6\n7\n8\n9\n10\n",
        ))
        .unwrap();

    let narrow = chain.unified("ORIG", "HEAD").context(1).render().unwrap();
    let wide = chain.unified("ORIG", "HEAD").context(5).render().unwrap();
    // More context = more lines
    assert!(wide.len() > narrow.len());
}

#[test]
fn test_unified_builder_with_tilde() {
    let mut chain = MutationChain::new("a\n", FormatKind::Text);
    chain.mutate(&gudf_diff_text("a\n", "b\n")).unwrap();
    chain.mutate(&gudf_diff_text("b\n", "c\n")).unwrap();
    chain.mutate(&gudf_diff_text("c\n", "d\n")).unwrap();

    // Diff from step 1 to step 3
    let output = chain.unified("HEAD~2", "HEAD").render().unwrap();
    assert!(output.contains("@@"));
    assert!(output.contains("-b"));
    assert!(output.contains("+d"));
}

#[test]
fn test_unified_builder_sha_in_header() {
    let mut chain = MutationChain::new("a\n", FormatKind::Text);
    chain.mutate(&gudf_diff_text("a\n", "b\n")).unwrap();

    let output = chain.unified("ORIG", "HEAD").render().unwrap();
    let orig_short = chain.original_sha().short();
    let head_short = chain.current_sha().short();
    assert!(output.contains(&orig_short));
    assert!(output.contains(&head_short));
}

#[test]
fn test_unified_builder_diff() {
    let mut chain = MutationChain::new("a\n", FormatKind::Text);
    chain.mutate(&gudf_diff_text("a\n", "b\n")).unwrap();

    let diff = chain.unified("ORIG", "HEAD").diff().unwrap();
    assert!(diff.stats.additions > 0 || diff.stats.deletions > 0);
}

#[test]
fn test_unified_builder_render_with() {

    let mut chain = MutationChain::new("a\n", FormatKind::Text);
    chain.mutate(&gudf_diff_text("a\n", "b\n")).unwrap();

    let output = chain
        .unified("ORIG", "HEAD")
        .render_with(&InlineFormatter)
        .unwrap();
    assert!(output.contains("[-]"));
    assert!(output.contains("[+]"));
}

#[test]
fn test_format_expr() {

    let mut chain = MutationChain::new("a\n", FormatKind::Text);
    chain.mutate(&gudf_diff_text("a\n", "b\n")).unwrap();

    let output = chain.format_expr("ORIG", "HEAD", &InlineFormatter).unwrap();
    assert!(output.contains("[-]"));
    assert!(output.contains("[+]"));
}

#[test]
fn test_unified_builder_json() {
    let mut chain = MutationChain::new(r#"{"a":1}"#, FormatKind::Json);
    chain
        .mutate(&gudf_diff_json(r#"{"a":1}"#, r#"{"a":2,"b":3}"#))
        .unwrap();

    let output = chain.unified("ORIG", "HEAD").render().unwrap();
    assert!(output.contains("@@"));
}

// ── helpers ─────────────────────────────────────────────────────────

fn gudf_diff_text(old: &str, new: &str) -> DiffResult {
    gudf::formats::text::TextFormat.diff(old, new).unwrap()
}

fn gudf_diff_json(old: &str, new: &str) -> DiffResult {
    gudf::formats::json::JsonFormat.diff(old, new).unwrap()
}

