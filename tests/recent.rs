use mdpad::recent::{add_recent, recent_from_stored, recent_text_after_add, MAX_RECENT};

#[test]
fn adding_same_path_twice_keeps_one_entry() {
    let once = add_recent(Vec::new(), "/docs/a.md");
    let twice = add_recent(once, "/docs/a.md");
    assert_eq!(twice, vec!["/docs/a.md".to_string()]);
}

#[test]
fn eleven_distinct_paths_evict_the_oldest() {
    let mut files: Vec<String> = Vec::new();
    for i in 0..11 {
        files = add_recent(files, &format!("/docs/{}.md", i));
    }
    assert_eq!(files.len(), MAX_RECENT);
    let expected: Vec<String> = (1..11).rev().map(|i| format!("/docs/{}.md", i)).collect();
    assert_eq!(files, expected);
    assert!(!files.contains(&"/docs/0.md".to_string()));
}

#[test]
fn readding_moves_to_front_keeping_length() {
    let files = vec!["/a.md".to_string(), "/b.md".to_string(), "/c.md".to_string()];
    let updated = add_recent(files, "/c.md");
    assert_eq!(
        updated,
        vec!["/c.md".to_string(), "/a.md".to_string(), "/b.md".to_string()]
    );
}

#[test]
fn full_list_readd_keeps_ten() {
    let files: Vec<String> = (0..10).map(|i| format!("/f{}.md", i)).collect();
    let updated = add_recent(files, "/f9.md");
    assert_eq!(updated.len(), 10);
    assert_eq!(updated[0], "/f9.md");
    assert_eq!(updated[9], "/f8.md");
}

#[test]
fn absent_backing_file_lists_nothing() {
    assert!(recent_from_stored(None).is_empty());
}

#[test]
fn invalid_json_lists_nothing() {
    assert!(recent_from_stored(Some("not json at all")).is_empty());
    assert!(recent_from_stored(Some("{\"a\": 1}")).is_empty());
    assert!(recent_from_stored(Some("[1, 2]")).is_empty());
}

#[test]
fn stored_json_array_is_read() {
    let files = recent_from_stored(Some("[\"/a.md\", \"/b.md\"]"));
    assert_eq!(files, vec!["/a.md".to_string(), "/b.md".to_string()]);
}

#[test]
fn text_after_add_is_indented_json() {
    let text = recent_text_after_add(None, "/a.md").unwrap();
    assert_eq!(text, "[\n  \"/a.md\"\n]");
    let text = recent_text_after_add(Some(&text), "/b.md").unwrap();
    assert_eq!(text, "[\n  \"/b.md\",\n  \"/a.md\"\n]");
}

#[test]
fn text_after_add_treats_corrupt_file_as_empty() {
    let text = recent_text_after_add(Some("[oops"), "/a.md").unwrap();
    assert_eq!(recent_from_stored(Some(&text)), vec!["/a.md".to_string()]);
}

#[test]
fn text_after_add_reads_back_with_escapes() {
    let odd = "/docs/say \"hi\"\\tab\there\nline.md";
    let text = recent_text_after_add(Some("[\"/a.md\"]"), odd).unwrap();
    assert_eq!(recent_from_stored(Some(&text)), vec![odd.to_string(), "/a.md".to_string()]);
}
