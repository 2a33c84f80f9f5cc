use gudf::dir::{diff_files, format_dir_diff, format_from_extension, is_binary, DirFile, FileInput, FileStatus};
use gudf::format::FormatKind;

fn text(s: &str) -> FileInput {
    FileInput::Text(s.to_string())
}

fn file(path: &str, old: FileInput, new: FileInput) -> DirFile {
    DirFile { path: path.to_string(), old, new }
}

#[test]
fn test_format_from_extension() {
    assert_eq!(format_from_extension("file.json"), FormatKind::Json);
    assert_eq!(format_from_extension("file.rs"), FormatKind::Code("rust".to_string()));
    assert_eq!(format_from_extension("file.txt"), FormatKind::Text);
}

#[test]
fn dir_files_identical() {
    let result = diff_files(&vec![file("test.txt", text("hello\n"), text("hello\n"))]);
    assert_eq!(result.summary.files_unchanged, 1);
    assert_eq!(result.summary.files_modified, 0);
}

#[test]
fn dir_files_added_file() {
    let result = diff_files(&vec![file("new.txt", FileInput::Missing, text("hello\n"))]);
    assert_eq!(result.summary.files_added, 1);
}

#[test]
fn dir_files_removed_file() {
    let result = diff_files(&vec![file("old.txt", text("hello\n"), FileInput::Missing)]);
    assert_eq!(result.summary.files_removed, 1);
}

#[test]
fn dir_files_modified_file() {
    let result = diff_files(&vec![file("test.json", text(r#"{"a": 1}"#), text(r#"{"a": 2}"#))]);
    assert_eq!(result.summary.files_modified, 1);
    let modified = result.file_results.iter().find(|e| e.status == FileStatus::Modified).unwrap();
    let d = modified.diff.as_ref().unwrap();
    assert_eq!(d.format, FormatKind::Json);
    assert_eq!(d.stats.modifications, 1);
}

#[test]
fn dir_files_binary_and_unreadable() {
    let result = diff_files(&vec![
        file("a.bin", FileInput::Binary, text("x\n")),
        file("b.txt", FileInput::Unreadable, text("x\n")),
        file("c.txt", FileInput::Missing, FileInput::Missing),
        file("d.bin", FileInput::Missing, FileInput::Binary),
    ]);
    assert_eq!(result.file_results.len(), 2);
    assert_eq!(result.summary.files_binary, 2);
    assert_eq!(result.file_results[0].path, "a.bin");
    assert_eq!(result.file_results[1].path, "d.bin");
}

#[test]
fn dir_binary_detection() {
    assert!(is_binary(&[1, 2, 0, 3]));
    assert!(!is_binary(b"hello"));
    let mut late = vec![b'a'; 9000];
    late[8500] = 0;
    assert!(!is_binary(&late));
    late[8191] = 0;
    assert!(is_binary(&late));
}

#[test]
fn dir_format_output() {
    let result = diff_files(&vec![
        file("new.txt", FileInput::Missing, text("hi\n")),
        file("old.txt", text("bye\n"), FileInput::Missing),
        file("same.txt", text("x\n"), text("x\n")),
        file("pic.png", FileInput::Binary, FileInput::Binary),
    ]);
    let out = format_dir_diff(&result);
    assert_eq!(
        out,
        "diff --git a/new.txt b/new.txt\nnew file\n--- /dev/null\n+++ b/new.txt\n\
         diff --git a/old.txt b/old.txt\ndeleted file\n--- a/old.txt\n+++ /dev/null\n\
         diff --git a/pic.png b/pic.png\nBinary files differ\n\
         \n2 file(s) changed: 1 added, 1 removed, 0 modified, 1 unchanged, 1 binary\n"
    );
}

#[test]
fn dir_extension_case_and_aliases() {
    assert_eq!(format_from_extension("conf/APP.YML"), FormatKind::Yaml);
    assert_eq!(format_from_extension("src/lib.tsx"), FormatKind::Code("tsx".to_string()));
    assert_eq!(format_from_extension(".bashrc"), FormatKind::Text);
    assert_eq!(format_from_extension("dir.d/file"), FormatKind::Text);
}
