use purify::paths::PathStyle;
use purify::rules::{eq_ignore_case, normalize};
use purify::suggest::confidence_rank;
use purify::FileEntry;

#[test]
fn extension_is_lowercased_without_the_dot() {
    assert_eq!(FileEntry::file("/a/Report.PDF", 1).extension_lower(PathStyle::Unix).as_deref(), Some("pdf"));
    assert_eq!(FileEntry::file("/a/archive.tar.GZ", 1).extension_lower(PathStyle::Unix).as_deref(), Some("gz"));
    assert_eq!(FileEntry::file("/a/.bashrc", 1).extension_lower(PathStyle::Unix), None);
    assert_eq!(FileEntry::file("/a/Makefile", 1).extension_lower(PathStyle::Unix), None);
    assert_eq!(FileEntry::dir("/").extension_lower(PathStyle::Unix), None);
}

#[test]
fn file_names_of_entries() {
    assert_eq!(FileEntry::file("/a/b/c.txt", 1).file_name_lossy(PathStyle::Unix), "c.txt");
    assert_eq!(FileEntry::dir("/a/b/").file_name_lossy(PathStyle::Unix), "b");
    assert_eq!(FileEntry::dir("/").file_name_lossy(PathStyle::Unix), "");
    let e = FileEntry::file("/x", 3).with_modified(Some(-5));
    assert_eq!(e.modified, Some(-5));
    assert_eq!(e.size, 3);
}

#[test]
fn normalize_lowercases_and_unifies_separators() {
    assert_eq!(normalize("C:/Users/Me"), r"c:\users\me");
    assert!(eq_ignore_case("NODE_modules", "node_MODULES"));
    assert!(!eq_ignore_case("node", "nodes"));
}

#[test]
fn confidence_label_ranks() {
    assert_eq!(confidence_rank("safe"), 0);
    assert_eq!(confidence_rank("likely-safe"), 1);
    assert_eq!(confidence_rank("review-needed"), 2);
    assert_eq!(confidence_rank("SAFE"), 2);
}
