use purify::paths::PathStyle;
use purify::usage::{DirSizeIndex, UsageCollector};
use purify::FileEntry;

#[test]
fn dir_size_index_sums_descendants() {
    let entries = vec![
        FileEntry::file("/root/a/b/one.bin", 1000),
        FileEntry::file("/root/a/b/two.bin", 200),
        FileEntry::file("/root/a/three.bin", 50),
        FileEntry::dir("/root/a"),
    ];
    let idx = DirSizeIndex::build(&entries, PathStyle::Unix);
    assert_eq!(idx.size_of("/root/a/b"), 1200);
    assert_eq!(idx.size_of("/root/a"), 1250);
    assert_eq!(idx.size_of("/root"), 1250);
    assert_eq!(idx.size_of("/nonexistent"), 0);
}

#[test]
fn attributes_bytes_to_immediate_children() {
    let root = "/root";
    let mut c = UsageCollector::new(root, PathStyle::Unix);
    c.record(&FileEntry::file("/root/big/one.bin", 1000));
    c.record(&FileEntry::file("/root/big/two.bin", 500));
    c.record(&FileEntry::file("/root/small.txt", 10));
    c.record(&FileEntry::dir("/root/big")); // ignored

    let report = c.into_report(10);
    assert_eq!(report.total_bytes, 1510);
    assert_eq!(report.file_count, 3);
    assert_eq!(report.top.len(), 2);

    // Largest child is the "big" directory at 1500 bytes.
    assert_eq!(report.top[0].path, "/root/big");
    assert_eq!(report.top[0].size, 1500);
    assert!(report.top[0].is_dir);

    // Second is the loose file.
    assert_eq!(report.top[1].path, "/root/small.txt");
    assert_eq!(report.top[1].size, 10);
    assert!(!report.top[1].is_dir);
}

#[test]
fn top_n_truncates() {
    let root = "/r";
    let mut c = UsageCollector::new(root, PathStyle::Unix);
    for i in 0..5 {
        c.record(&FileEntry::file(&format!("/r/d{i}/f.bin"), (i as u64 + 1) * 100));
    }
    let report = c.into_report(2);
    assert_eq!(report.top.len(), 2);
    assert_eq!(report.top[0].size, 500);
    assert_eq!(report.top[1].size, 400);
}

#[test]
fn paths_are_compared_by_component() {
    let entries = vec![
        FileEntry::file("/root//a/./b/one.bin", 7),
        FileEntry::file("/root/a/b/", 5),
        FileEntry::file("rel/x", 3),
        FileEntry::file("/root/empty", 0),
    ];
    let idx = DirSizeIndex::build(&entries, PathStyle::Unix);
    assert_eq!(idx.size_of("/root/a/b/"), 7);
    assert_eq!(idx.size_of("/root/a"), 12);
    assert_eq!(idx.size_of("/"), 12);
    assert_eq!(idx.size_of("rel"), 3);
    assert_eq!(idx.size_of(""), 0);
    assert_eq!(idx.size_of("/root/empty"), 0);
}

#[test]
fn equal_sizes_are_ordered_by_path_and_outside_files_ignored() {
    let mut c = UsageCollector::new("/r/", PathStyle::Unix);
    c.record(&FileEntry::file("/r/b", 10));
    c.record(&FileEntry::file("/r/a", 10));
    c.record(&FileEntry::file("/elsewhere/z", 99));
    c.record(&FileEntry::file("/r", 1));
    let report = c.into_report(0);
    assert_eq!(report.total_bytes, 120);
    assert_eq!(report.file_count, 4);
    assert!(report.top.is_empty());
    let mut c = UsageCollector::new("/r/", PathStyle::Unix);
    c.record(&FileEntry::file("/r/b", 10));
    c.record(&FileEntry::file("/r/a", 10));
    let report = c.into_report(5);
    assert_eq!(report.top[0].path, "/r/a");
    assert_eq!(report.top[1].path, "/r/b");
}
