use phi_detector::file_source::LocalFileSource;

fn source_with(exts: &[&str]) -> LocalFileSource {
    LocalFileSource::new(
        "data".to_string(),
        exts.iter().map(|s| s.to_string()).collect(),
    )
}

#[test]
fn test_is_text_file_accepts_allowed_extension() {
    let fs = source_with(&["txt", "md", "csv"]);
    assert!(fs.is_text_file("notes/test.txt"));
    assert!(fs.is_text_file("README.md"));
    assert!(fs.is_text_file("table.csv"));
}

#[test]
fn test_is_text_file_is_case_insensitive() {
    let fs = source_with(&["txt"]);
    assert!(fs.is_text_file("SHOUTING.TXT"));
    assert!(fs.is_text_file("Mixed.TxT"));
}

#[test]
fn test_is_text_file_rejects_other_extension() {
    let fs = source_with(&["txt"]);
    assert!(!fs.is_text_file("image.png"));
    assert!(!fs.is_text_file("archive.tar.gz"));
}

#[test]
fn test_is_text_file_rejects_no_extension() {
    let fs = source_with(&["txt"]);
    assert!(!fs.is_text_file("Makefile"));
    assert!(!fs.is_text_file("dir.d/file"));
}

#[test]
fn test_is_text_file_rejects_hidden_file_without_extension() {
    let fs = source_with(&["txt"]);
    assert!(!fs.is_text_file(".txt"));
    assert!(fs.is_text_file(".hidden.txt"));
}

#[test]
fn test_local_file_source_new_keeps_fields() {
    let fs = LocalFileSource::new("root/dir".to_string(), vec!["txt".to_string()]);
    assert_eq!(fs.root, "root/dir");
    assert_eq!(fs.allowed_extensions, vec!["txt".to_string()]);
}
