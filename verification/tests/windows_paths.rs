use purify::guardian::SpaceInfo;
use purify::mft::{IndexEntry, MftWalk};
use purify::organize::Organizer;
use purify::paths::{join_chars, path_comps, PathStyle};
use purify::quarantine::blob_path;
use purify::rules::{Confidence, MatchRule, Signature, SignatureSet};
use purify::suggest::Analyzer;
use purify::usage::{DirSizeIndex, UsageCollector};
use purify::FileEntry;

const W: PathStyle = PathStyle::Windows;

fn chars(s: &str) -> Vec<char> {
    s.chars().collect()
}

fn text(v: &[char]) -> String {
    v.iter().collect()
}

fn comps(s: &str) -> Vec<String> {
    path_comps(&chars(s), W).iter().map(|c| text(c)).collect()
}

#[test]
fn windows_components_split_on_both_separators_after_the_drive() {
    assert_eq!(comps(r"C:\Users\me/a.txt"), vec!["/C:", "/", "Users", "me", "a.txt"]);
    assert_eq!(comps(r"c:\Users"), comps(r"C:/Users"));
    assert_eq!(comps(r"C:rel\x"), vec!["/C:", "rel", "x"]);
    assert_eq!(comps(r"\top"), vec!["/", "top"]);
    assert_eq!(comps(r"a\.\b\"), vec!["a", "b"]);
    assert_eq!(path_comps(&chars(r"a\b"), PathStyle::Unix).len(), 1);
}

#[test]
fn windows_join_follows_drive_and_root_rules() {
    let j = |a: &str, b: &str| text(&join_chars(&chars(a), &chars(b), W));
    assert_eq!(j(r"C:\q", "abcd"), r"C:\q\abcd");
    assert_eq!(j(r"C:\q\", "abcd"), r"C:\q\abcd");
    assert_eq!(j("C:", "foo"), "C:foo");
    assert_eq!(j(r"C:\a", r"\b"), r"C:\b");
    assert_eq!(j(r"a", r"D:\x"), r"D:\x");
    assert_eq!(j("", "x"), "x");
}

#[test]
fn windows_file_names_and_extensions() {
    let f = FileEntry::file(r"C:\Users\me\Report.PDF", 1);
    assert_eq!(f.file_name_lossy(W), "Report.PDF");
    assert_eq!(f.extension_lower(W).as_deref(), Some("pdf"));
    assert_eq!(FileEntry::dir("C:").file_name_lossy(W), "");
    assert_eq!(FileEntry::dir(r"C:\").file_name_lossy(W), "");
    assert_eq!(FileEntry::dir(r"a\b").file_name_lossy(W), "b");
    assert_eq!(FileEntry::dir(r"a\b").file_name_lossy(PathStyle::Unix), r"a\b");
}

#[test]
fn windows_blob_paths() {
    assert_eq!(blob_path(r"C:\q", "abcd", r"C:\work\a.bin", W), r"C:\q\abcd\a.bin");
    assert_eq!(blob_path(r"C:\q", "abcd", r"D:\", W), r"C:\q\abcd\item");
}

#[test]
fn windows_directory_sizes() {
    let entries = vec![
        FileEntry::file(r"C:\root\a\b\one.bin", 1000),
        FileEntry::file(r"C:\root\a\b\two.bin", 200),
        FileEntry::file(r"C:/root/a/three.bin", 50),
        FileEntry::dir(r"C:\root\a"),
    ];
    let idx = DirSizeIndex::build(&entries, W);
    assert_eq!(idx.size_of(r"C:\root\a\b"), 1200);
    assert_eq!(idx.size_of(r"c:\root\a"), 1250);
    assert_eq!(idx.size_of(r"C:\root"), 1250);
    assert_eq!(idx.size_of(r"C:\"), 1250);
    assert_eq!(idx.size_of(r"D:\root"), 0);
}

#[test]
fn windows_usage_report() {
    let mut c = UsageCollector::new(r"C:\root", W);
    c.record(&FileEntry::file(r"C:\root\big\one.bin", 1000));
    c.record(&FileEntry::file(r"C:\root\big\two.bin", 500));
    c.record(&FileEntry::file(r"C:\root\small.txt", 10));
    c.record(&FileEntry::file(r"D:\elsewhere\x.bin", 7));
    let report = c.into_report(10);
    assert_eq!(report.total_bytes, 1517);
    assert_eq!(report.top.len(), 2);
    assert_eq!(report.top[0].path, r"C:\root\big");
    assert_eq!(report.top[0].size, 1500);
    assert!(report.top[0].is_dir);
    assert_eq!(report.top[1].path, r"C:\root\small.txt");
}

#[test]
fn windows_analysis_sizes_and_prunes_directories() {
    let set = SignatureSet {
        signatures: vec![Signature {
            id: "nm".to_string(),
            title: "nm".to_string(),
            category: "dev".to_string(),
            confidence: Confidence::ReviewNeeded,
            description: "because".to_string(),
            rule: MatchRule::DirName { name: "node_modules".to_string() },
        }],
    };
    let entries = vec![
        FileEntry::dir(r"C:\proj\node_modules"),
        FileEntry::file(r"C:\proj\node_modules\a.js", 1000),
        FileEntry::dir(r"C:\proj\node_modules\x\node_modules"),
        FileEntry::file(r"C:\proj\node_modules\x\node_modules\b.js", 500),
    ];
    let report = Analyzer::new(set).analyze(&entries, 0, W);
    assert_eq!(report.suggestions.len(), 1);
    assert_eq!(report.suggestions[0].path, r"C:\proj\node_modules");
    assert_eq!(report.suggestions[0].size, 1500);
}

#[test]
fn windows_organize_plan() {
    let org = Organizer::with_defaults();
    let now = 1000 * 86_400;
    let entries = vec![
        FileEntry::file(r"D:\dl\report.pdf", 100).with_modified(Some(0)),
        FileEntry::file(r"d:/dl/Organized/Documents/old.pdf", 5).with_modified(Some(0)),
    ];
    let plan = org.plan(&entries, r"D:\dl\Organized", now, &[], W);
    assert_eq!(plan.moves.len(), 1);
    assert_eq!(plan.moves[0].to, r"D:\dl\Organized\Documents\report.pdf");
}

#[test]
fn windows_mft_paths() {
    let mut walk = MftWalk::new(W);
    let (_, root, depth) = walk.next_dir().unwrap();
    let mut sink = Vec::new();
    walk.visit(
        &root,
        depth,
        &[IndexEntry { record: 30, name: "sub".to_string(), dos_alias: false, is_dir: true, size: 0 }],
        &mut sink,
    );
    let (_, sub, d1) = walk.next_dir().unwrap();
    assert_eq!(sub, r"\sub");
    walk.visit(
        &sub,
        d1,
        &[IndexEntry { record: 31, name: "gamma.dat".to_string(), dos_alias: false, is_dir: false, size: 500 }],
        &mut sink,
    );
    assert_eq!(sink[1].path, r"\sub\gamma.dat");
    assert_eq!(sink[1].modified, None);
    let _ = SpaceInfo { total: 1, available: 1 };
}
