use purify::paths::PathStyle;
use purify::mft::{IndexEntry, MftWalk, MAX_DEPTH, ROOT_RECORD};
use purify::FileEntry;

fn child(record: u64, name: &str, is_dir: bool, size: u64, dos_alias: bool) -> IndexEntry {
    IndexEntry { record, name: name.to_string(), dos_alias, is_dir, size }
}

#[test]
fn walk_starts_at_root_and_visits_each_record_once() {
    let mut walk = MftWalk::new(PathStyle::Unix);
    let (rec, path, depth) = walk.next_dir().expect("root");
    assert_eq!(rec, ROOT_RECORD);
    assert_eq!(path, "\\");
    assert_eq!(depth, 0);
    let mut sink: Vec<FileEntry> = Vec::new();
    walk.visit(
        &path,
        depth,
        &[
            child(3, "$Volume", false, 0, false),
            child(40, "alpha.txt", false, 1000, false),
            child(40, "ALPHA~1.TXT", false, 1000, true),
            child(41, "sub", true, 0, false),
            child(41, "again", true, 0, false),
        ],
        &mut sink,
    );
    assert_eq!(sink.len(), 3);
    assert_eq!(sink[0].file_name_lossy(PathStyle::Unix), "alpha.txt");
    assert_eq!(sink[0].size, 1000);
    assert!(sink[1].is_dir);
    assert_eq!(sink[1].file_name_lossy(PathStyle::Unix), "sub");
    // The most recently queued directory comes first; the second entry for
    // record 41 is then skipped as already read.
    let (rec, _, depth) = walk.next_dir().expect("child");
    assert_eq!(rec, 41);
    assert_eq!(depth, 1);
    assert!(walk.next_dir().is_none());
}

#[test]
fn nested_paths_join_components() {
    let mut walk = MftWalk::new(PathStyle::Unix);
    let (_, root, d0) = walk.next_dir().unwrap();
    let mut sink = Vec::new();
    walk.visit(&root, d0, &[child(30, "sub", true, 0, false)], &mut sink);
    let (_, sub, d1) = walk.next_dir().unwrap();
    walk.visit(&sub, d1, &[child(31, "deep", true, 0, false)], &mut sink);
    let (_, deep, d2) = walk.next_dir().unwrap();
    walk.visit(&deep, d2, &[child(32, "gamma.dat", false, 500, false)], &mut sink);
    assert_eq!(sink.len(), 3);
    assert_eq!(sink[2].file_name_lossy(PathStyle::Unix), "gamma.dat");
    assert!(sink[2].path.ends_with("sub/deep/gamma.dat"));
    let total: u64 = sink.iter().map(|e| e.size).sum();
    assert_eq!(total, 500);
}

#[test]
fn too_deep_directories_are_not_read() {
    let mut walk = MftWalk::new(PathStyle::Unix);
    let (_, root, _) = walk.next_dir().unwrap();
    let mut sink = Vec::new();
    walk.visit(&root, MAX_DEPTH, &[child(50, "d", true, 0, false)], &mut sink);
    assert_eq!(sink.len(), 1);
    assert!(walk.next_dir().is_none());
}
