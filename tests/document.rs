use mdpad::document::{check_found, chosen_path, document_from_read, save_outcome};
use mdpad::error::{io_error, DocError};
use mdpad::paths::resolve_path;
use mdpad::recent::{recent_from_stored, recent_text_after_add};

#[test]
fn missing_file_is_not_found_naming_resolved_path() {
    let resolved = resolve_path("/home/user", "missing.md", false, false);
    let err = check_found(resolved, false).unwrap_err();
    assert_eq!(err, DocError::NotFound("File not found: /home/user/missing.md".to_string()));
    assert!(err.message().contains("/home/user/missing.md"));
}

#[test]
fn existing_file_passes_check() {
    assert_eq!(check_found("/x/a.md".to_string(), true), Ok("/x/a.md".to_string()));
}

#[test]
fn read_text_becomes_document() {
    let doc = document_from_read("/x/a.md".to_string(), Ok("# Title".to_string())).unwrap();
    assert_eq!(doc.path, "/x/a.md");
    assert_eq!(doc.content, "# Title");
}

#[test]
fn read_failure_is_io_error() {
    let err = document_from_read("/x/a.md".to_string(), Err("permission denied".to_string()))
        .unwrap_err();
    assert_eq!(err, DocError::Io("Failed to read file: permission denied".to_string()));
    assert_eq!(err.message(), "Failed to read file: permission denied");
}

#[test]
fn save_outcomes() {
    assert_eq!(save_outcome(Ok(())), Ok(()));
    assert_eq!(
        save_outcome(Err("disk full".to_string())),
        Err(DocError::Io("Failed to save file: disk full".to_string()))
    );
}

#[test]
fn chosen_path_outcomes() {
    assert_eq!(chosen_path(Ok("/x/b.md".to_string())), Ok("/x/b.md".to_string()));
    let err = chosen_path(Err("not a file path".to_string())).unwrap_err();
    assert_eq!(err, DocError::Invalid("Invalid file path: not a file path".to_string()));
}

#[test]
fn io_error_message() {
    let err = io_error("Failed to write recent files", "read-only");
    assert_eq!(err.message(), "Failed to write recent files: read-only");
}

#[test]
fn save_then_open_then_list() {
    // Save("doc.md", "hello"): the write succeeded.
    assert_eq!(save_outcome(Ok(())), Ok(()));
    // Open("doc.md") from /work finds the file and reads back what was saved.
    let resolved = resolve_path("/work", "doc.md", false, false);
    let resolved = check_found(resolved, true).unwrap();
    let doc = document_from_read(resolved, Ok("hello".to_string())).unwrap();
    assert_eq!(doc.path, "/work/doc.md");
    assert_eq!(doc.content, "hello");
    // The open records the path in the recent-file list.
    let stored = recent_text_after_add(None, &doc.path).unwrap();
    let listed = recent_from_stored(Some(&stored));
    assert_eq!(listed[0], "/work/doc.md");
}
