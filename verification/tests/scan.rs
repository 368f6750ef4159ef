use purify::mft::MftScanner;
use purify::scan::{entry_of, Scanner, WalkScanner, WalkedEntry, WalkedKind};
use purify::{Error, FileEntry};

#[test]
fn walk_scanner_missing_root_is_target_not_found() {
    let scanner = WalkScanner::new();
    let root = "/no/such/path/here";
    let exists = std::path::Path::new(root).exists();
    let mut sink: Vec<FileEntry> = Vec::new();
    let result = scanner.scan_walked(root, exists, &[], &mut sink);
    assert!(matches!(result, Err(Error::TargetNotFound(_))));
    assert!(sink.is_empty());
}

#[test]
fn walk_results_become_entries() {
    let walked = vec![
        WalkedEntry { path: "/r".to_string(), kind: WalkedKind::Dir, len: None, modified_secs: None },
        WalkedEntry { path: "/r/a.txt".to_string(), kind: WalkedKind::File, len: Some(100), modified_secs: Some(42) },
        WalkedEntry { path: "/r/link".to_string(), kind: WalkedKind::Other, len: None, modified_secs: None },
        WalkedEntry { path: "/r/gone".to_string(), kind: WalkedKind::File, len: None, modified_secs: None },
        WalkedEntry { path: "/r/sub/b.bin".to_string(), kind: WalkedKind::File, len: Some(250), modified_secs: None },
    ];
    let mut sink = vec![FileEntry::dir("/before")];
    let r = WalkScanner::new().scan_walked("/r", true, &walked, &mut sink);
    assert!(r.is_ok());
    assert_eq!(sink.len(), 4);
    assert_eq!(sink[0].path, "/before");
    assert!(sink[1].is_dir);
    assert_eq!(sink[2].path, "/r/a.txt");
    assert_eq!(sink[2].size, 100);
    assert_eq!(sink[2].modified, Some(42));
    assert_eq!(sink[3].size, 250);
    assert_eq!(sink[3].modified, None);
    let total: u64 = sink.iter().filter(|e| !e.is_dir).map(|e| e.size).sum();
    assert_eq!(total, 350);
}

#[test]
fn unreadable_or_special_entries_are_skipped() {
    let other = WalkedEntry { path: "/x".to_string(), kind: WalkedKind::Other, len: Some(1), modified_secs: None };
    assert!(entry_of(&other).is_none());
    let unreadable = WalkedEntry { path: "/y".to_string(), kind: WalkedKind::File, len: None, modified_secs: Some(1) };
    assert!(entry_of(&unreadable).is_none());
}

#[test]
fn walker_settings() {
    let w = WalkScanner::new();
    assert!(!w.follows_links());
    assert!(!w.skips_hidden());
    let w = w.follow_links(true).skip_hidden(true);
    assert!(w.follows_links());
    assert!(w.skips_hidden());
    assert_eq!(w.strategy_name(), "portable-walk");
}

#[test]
fn availability_matches_platform() {
    assert_eq!(MftScanner::is_available(), std::path::MAIN_SEPARATOR == '\\');
}

#[test]
fn phase0_scan_is_unsupported() {
    let scanner = MftScanner::new();
    let mut sink: Vec<FileEntry> = Vec::new();
    let result = scanner.scan(".", &mut sink);
    assert!(matches!(result, Err(Error::Unsupported(_))));
    assert_eq!(sink.len(), 0);
    assert_eq!(scanner.strategy_name(), "ntfs-mft");
}
