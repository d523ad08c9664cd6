use mdpad::paths::{is_markdown_file, resolve_path, startup_markdown_path};

fn strings(items: &[&str]) -> Vec<String> {
    items.iter().map(|s| s.to_string()).collect()
}

#[test]
fn relative_path_joins_onto_working_directory() {
    assert_eq!(resolve_path("/home/user", "doc.md", false, false), "/home/user/doc.md");
    assert_eq!(resolve_path("/home/user/", "notes/a.md", false, false), "/home/user/notes/a.md");
    assert_eq!(resolve_path("", "doc.md", false, false), "doc.md");
}

#[test]
fn absolute_path_is_kept() {
    assert_eq!(resolve_path("/home/user", "/etc/readme.md", true, false), "/etc/readme.md");
    assert_eq!(resolve_path("/home/user", "/", true, false), "/");
}

#[test]
fn markdown_extensions_in_any_case() {
    assert!(is_markdown_file("notes.md", false));
    assert!(is_markdown_file("/home/user/NOTES.MD", false));
    assert!(is_markdown_file("guide.Markdown", false));
    assert!(is_markdown_file("archive.tar.md", false));
    assert!(is_markdown_file("dir/page.md/", false));
    assert!(is_markdown_file("dir/page.md/.", false));
    assert!(is_markdown_file("dir/page.md/./", false));
}

#[test]
fn other_names_are_not_markdown() {
    assert!(!is_markdown_file("notes.txt", false));
    assert!(!is_markdown_file("md", false));
    assert!(!is_markdown_file(".md", false));
    assert!(!is_markdown_file("notes.", false));
    assert!(!is_markdown_file("docs.md/readme", false));
    assert!(!is_markdown_file("notes.mdx", false));
    assert!(!is_markdown_file("", false));
    assert!(!is_markdown_file("..", false));
    assert!(!is_markdown_file(".", false));
    assert!(!is_markdown_file("/", false));
}

#[test]
fn startup_file_found_among_arguments() {
    let args = strings(&["prog", "notes.md"]);
    assert_eq!(startup_markdown_path(&args, &vec![true, true], false), Some("notes.md".to_string()));
}

#[test]
fn startup_file_needs_markdown_extension() {
    let args = strings(&["prog", "notes.txt"]);
    assert_eq!(startup_markdown_path(&args, &vec![true, true], false), None);
}

#[test]
fn startup_file_skips_program_name_and_missing_files() {
    let args = strings(&["prog.md", "gone.md", "dir.md", "b.markdown", "c.md"]);
    let found = vec![true, false, false, true, true];
    assert_eq!(startup_markdown_path(&args, &found, false), Some("b.markdown".to_string()));
    assert_eq!(startup_markdown_path(&strings(&["prog"]), &vec![true], false), None);
    assert_eq!(startup_markdown_path(&Vec::new(), &Vec::new(), false), None);
}

#[test]
fn windows_paths_resolve_with_backslash() {
    assert_eq!(
        resolve_path("C:\\Users\\me", "doc.md", false, true),
        "C:\\Users\\me\\doc.md"
    );
    assert_eq!(resolve_path("C:\\Users\\me\\", "doc.md", false, true), "C:\\Users\\me\\doc.md");
    assert_eq!(resolve_path("C:\\Users\\me/", "doc.md", false, true), "C:\\Users\\me/doc.md");
    assert_eq!(
        resolve_path("C:\\work", "D:\\notes\\doc.md", true, true),
        "D:\\notes\\doc.md"
    );
}

#[test]
fn windows_separators_in_markdown_check() {
    assert!(is_markdown_file("C:\\docs\\notes.MD", true));
    assert!(is_markdown_file("C:\\docs\\x.md\\", true));
    assert!(is_markdown_file("C:\\docs\\x.md\\.", true));
    assert!(!is_markdown_file("C:\\docs\\.md", true));
    assert!(!is_markdown_file("C:\\x.md\\readme", true));
    assert!(!is_markdown_file("dir\\.md", true));
    // Without Windows rules a backslash is an ordinary character.
    assert!(is_markdown_file("dir\\.md", false));
}

#[test]
fn windows_startup_file() {
    let args = strings(&["C:\\app\\mdpad.exe", "C:\\docs\\notes.md"]);
    assert_eq!(
        startup_markdown_path(&args, &vec![true, true], true),
        Some("C:\\docs\\notes.md".to_string())
    );
}
