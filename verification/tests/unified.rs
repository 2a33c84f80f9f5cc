use gudf::format::Format;
use gudf::formats::json::JsonFormat;
use gudf::formats::text::TextFormat;
use gudf::output::unified::UnifiedFormatter;
use gudf::output::OutputFormatter;

#[test]
fn test_unified_output_with_hunks() {
    let format = TextFormat;
    let result = format.diff("hello\nworld\n", "hello\nrust\n").unwrap();
    let formatter = UnifiedFormatter::default();
    let output = formatter.format(&result);
    assert!(output.contains("--- a"));
    assert!(output.contains("+++ b"));
    assert!(output.contains("@@"));
    assert!(output.contains("-world"));
    assert!(output.contains("+rust"));
}

#[test]
fn test_hunk_header_format() {
    let format = TextFormat;
    let result = format.diff("a\nb\nc\n", "a\nx\nc\n").unwrap();
    let formatter = UnifiedFormatter::new("old.txt", "new.txt").context(1);
    let output = formatter.format(&result);
    assert!(output.contains("--- old.txt"));
    assert!(output.contains("+++ new.txt"));
    // Should contain @@ header
    assert!(output.contains("@@ -"));
}

#[test]
fn test_context_lines() {
    let format = TextFormat;
    let old = "1\n2\n3\n4\n5\n6\n7\n8\n9\n10\n";
    let new = "1\n2\n3\n4\nX\n6\n7\n8\n9\n10\n";
    let formatter = UnifiedFormatter::default().context(2);
    let result = format.diff(old, new).unwrap();
    let output = formatter.format(&result);
    // Context of 2 means we see lines 3,4 before and 6,7 after the change
    assert!(output.contains(" 3"));
    assert!(output.contains(" 4"));
    assert!(output.contains("-5"));
    assert!(output.contains("+X"));
    assert!(output.contains(" 6"));
    assert!(output.contains(" 7"));
}

#[test]
fn test_multiple_hunks() {
    let format = TextFormat;
    let old = "1\n2\n3\n4\n5\n6\n7\n8\n9\n10\n11\n12\n13\n14\n15\n";
    let new = "1\nX\n3\n4\n5\n6\n7\n8\n9\n10\n11\n12\n13\nY\n15\n";
    let formatter = UnifiedFormatter::default().context(1);
    let result = format.diff(old, new).unwrap();
    let output = formatter.format(&result);
    // With context=1, changes at line 2 and line 14 should be in separate hunks
    let hunk_count = output.matches("@@").count();
    assert!(hunk_count >= 2, "Expected 2+ hunks, got {hunk_count}");
}

#[test]
fn test_no_changes() {
    let format = TextFormat;
    let result = format.diff("hello\n", "hello\n").unwrap();
    let formatter = UnifiedFormatter::default();
    let output = formatter.format(&result);
    assert!(output.is_empty() || !output.contains("@@"));
}

#[test]
fn test_no_newline_at_end() {
    let format = TextFormat;
    let result = format.diff("hello", "world").unwrap();
    let formatter = UnifiedFormatter::default();
    let output = formatter.format(&result);
    assert!(output.contains("\\ No newline at end of file"));
}

#[test]
fn test_structured_diff_format() {
    let format = JsonFormat;
    let result = format
        .diff(r#"{"a": 1, "b": 2}"#, r#"{"a": 1, "b": 3}"#)
        .unwrap();
    let formatter = UnifiedFormatter::default();
    let output = formatter.format(&result);
    assert!(output.contains("@@"));
    assert!(output.contains("-b: 2"));
    assert!(output.contains("+b: 3"));
}

#[test]
fn test_git_apply_compatible_format() {
    let format = TextFormat;
    let result = format
        .diff("line1\nline2\nline3\n", "line1\nmodified\nline3\n")
        .unwrap();
    let formatter = UnifiedFormatter::new("a/file.txt", "b/file.txt");
    let output = formatter.format(&result);

    // Verify it has all required parts for git apply
    assert!(output.contains("--- a/file.txt"));
    assert!(output.contains("+++ b/file.txt"));
    assert!(output.contains("@@ -"));
    assert!(output.contains(" @@\n")); // hunk header ends with @@\n
}

