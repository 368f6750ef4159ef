use purify::organize::Organizer;
use purify::paths::{join_chars, path_comps, path_lt_exec, PathStyle};
use purify::rules::{Confidence, MatchRule, Signature, SignatureSet};
use purify::suggest::Analyzer;
use purify::usage::{DirSizeIndex, UsageCollector};
use purify::FileEntry;

const U: PathStyle = PathStyle::Unix;
const W: PathStyle = PathStyle::Windows;

fn chars(s: &str) -> Vec<char> {
    s.chars().collect()
}

fn comps(s: &str, st: PathStyle) -> Vec<String> {
    path_comps(&chars(s), st).iter().map(|c| c.iter().collect()).collect()
}

fn joined(a: &str, b: &str, st: PathStyle) -> String {
    join_chars(&chars(a), &chars(b), st).iter().collect()
}

fn sig(id: &str, rule: MatchRule) -> Signature {
    Signature {
        id: id.to_string(),
        title: id.to_string(),
        category: "test".to_string(),
        confidence: Confidence::Safe,
        description: "because".to_string(),
        rule,
    }
}

#[test]
fn path_order_is_asymmetric_and_consistent() {
    assert!(path_lt_exec("/a/b", "/a/c", U));
    assert!(!path_lt_exec("/a/c", "/a/b", U));
    assert!(!path_lt_exec("/a/b", "/a//b/", U));
    assert!(!path_lt_exec("/a//b/", "/a/b", U));
    assert!(path_lt_exec("/a", "/a/b", U));
    assert!(path_lt_exec("/a/b", "/b", U));
    assert!(path_lt_exec(r"C:\a", r"C:\b", W));
    assert!(!path_lt_exec(r"c:\a", r"C:/a", W));
}

#[test]
fn joining_a_name_appends_one_component() {
    let mut expect = comps("/base/Documents", U);
    expect.push("report.pdf".to_string());
    assert_eq!(comps(&joined("/base/Documents", "report.pdf", U), U), expect);
    let mut expect = comps(r"D:\base\Docs", W);
    expect.push("a.txt".to_string());
    assert_eq!(comps(&joined(r"D:\base\Docs", "a.txt", W), W), expect);
    assert_eq!(comps(&joined("C:", "a.txt", W), W), vec!["/C:".to_string(), "a.txt".to_string()]);
    let base = comps("/base/", U);
    let dest = comps(&joined("/base/", "sub/x", U), U);
    assert_eq!(&dest[..base.len()], &base[..]);
}

#[test]
fn every_matched_entry_is_suggested_or_beneath_a_suggested_directory() {
    let set = SignatureSet {
        signatures: vec![
            sig("nm", MatchRule::DirName { name: "node_modules".to_string() }),
            sig(
                "logs",
                MatchRule::Glob { patterns: vec!["*.log".to_string()], within: None, min_age_days: None },
            ),
        ],
    };
    let entries = vec![
        FileEntry::dir("/p/node_modules"),
        FileEntry::file("/p/node_modules/x.log", 10),
        FileEntry::file("/p/app.log", 5),
        FileEntry::file("/p/readme.md", 7),
    ];
    let report = Analyzer::new(set).analyze(&entries, 0, U);
    assert_eq!(report.suggestions.len(), 2);
    assert_eq!(report.suggestions[0].path, "/p/node_modules");
    assert_eq!(report.suggestions[0].size, 10);
    assert_eq!(report.suggestions[0].signature_id, "nm");
    assert_eq!(report.suggestions[1].path, "/p/app.log");
    assert_eq!(report.suggestions[1].size, 5);
    assert_eq!(report.suggestions[1].signature_id, "logs");
    assert_eq!(report.total_reclaimable, 15);
}

#[test]
fn equal_sizes_are_listed_in_path_order() {
    let set = SignatureSet {
        signatures: vec![sig(
            "logs",
            MatchRule::Glob { patterns: vec!["*.log".to_string()], within: None, min_age_days: None },
        )],
    };
    let entries = vec![
        FileEntry::file("/z/b.log", 5),
        FileEntry::file("/a/c.log", 5),
        FileEntry::file("/a/b.log", 5),
        FileEntry::file("/m/big.log", 9),
    ];
    let report = Analyzer::new(set).analyze(&entries, 0, U);
    let paths: Vec<&str> = report.suggestions.iter().map(|s| s.path.as_str()).collect();
    assert_eq!(paths, vec!["/m/big.log", "/a/b.log", "/a/c.log", "/z/b.log"]);
}

#[test]
fn planned_moves_follow_entries_and_land_in_rule_folders() {
    let org = Organizer::with_defaults();
    let now = 1000 * 86_400;
    let entries = vec![
        FileEntry::file("/dl/photo.png", 200).with_modified(Some(0)),
        FileEntry::dir("/dl/folder"),
        FileEntry::file("/dl/report.pdf", 100).with_modified(Some(0)),
        FileEntry::file("/dl/other/report.pdf", 30).with_modified(Some(0)),
        FileEntry::file("/dl/Organized/Documents/old.pdf", 5).with_modified(Some(0)),
    ];
    let plan = org.plan(&entries, "/dl/Organized", now, &[], U);
    let froms: Vec<&str> = plan.moves.iter().map(|m| m.from.as_str()).collect();
    assert_eq!(froms, vec!["/dl/photo.png", "/dl/report.pdf", "/dl/other/report.pdf"]);
    let rules: Vec<&str> = plan.moves.iter().map(|m| m.rule_id.as_str()).collect();
    assert_eq!(rules, vec!["images", "documents", "documents"]);
    assert_eq!(plan.moves[0].to, "/dl/Organized/Pictures/photo.png");
    assert_eq!(plan.moves[1].to, "/dl/Organized/Documents/report.pdf");
    assert_eq!(plan.moves[2].to, "/dl/Organized/Documents/report (1).pdf");
    for m in &plan.moves {
        let parent = std::path::Path::new(&m.to).parent().unwrap();
        assert!(parent == std::path::Path::new("/dl/Organized/Pictures")
            || parent == std::path::Path::new("/dl/Organized/Documents"));
        for n in &plan.moves {
            assert_ne!(m.to, n.from);
        }
    }
}

#[test]
fn recorded_usage_adds_up_files_per_child() {
    let mut c = UsageCollector::new("/root", U);
    c.record(&FileEntry::file("/root/a/one.bin", 100));
    c.record(&FileEntry::dir("/root/a"));
    c.record(&FileEntry::file("/root/b.txt", 40));
    c.record(&FileEntry::file("/root/a/deep/two.bin", 60));
    c.record(&FileEntry::file("/elsewhere/x.bin", 7));
    c.record(&FileEntry::file("/root/c.txt", 160));
    assert_eq!(c.file_count(), 5);
    let report = c.into_report(2);
    assert_eq!(report.file_count, 5);
    assert_eq!(report.total_bytes, 367);
    assert_eq!(report.top.len(), 2);
    assert_eq!(report.top[0].path, "/root/a");
    assert_eq!(report.top[0].size, 160);
    assert!(report.top[0].is_dir);
    assert_eq!(report.top[1].path, "/root/c.txt");
    assert_eq!(report.top[1].size, 160);
    assert!(!report.top[1].is_dir);
}

#[test]
fn recorded_usage_saturates_at_the_largest_count_of_bytes() {
    let mut c = UsageCollector::new("/root", U);
    c.record(&FileEntry::file("/root/a/one.bin", u64::MAX - 1));
    c.record(&FileEntry::file("/root/a/two.bin", 5));
    let report = c.into_report(5);
    assert_eq!(report.total_bytes, u64::MAX);
    assert_eq!(report.top[0].size, u64::MAX);
}

#[test]
fn directory_totals_stay_within_the_scan() {
    let entries = vec![
        FileEntry::file("/r/a/one.bin", 100),
        FileEntry::file("/r/a/b/two.bin", 20),
        FileEntry::dir("/r/a/b"),
        FileEntry::file("/r/three.bin", 3),
    ];
    let idx = DirSizeIndex::build(&entries, U);
    assert_eq!(idx.size_of("/r"), 123);
    assert_eq!(idx.size_of("/"), 123);
    assert_eq!(idx.size_of("/r/a"), 120);
    assert_eq!(idx.size_of("/r/a/b"), 20);
    assert_eq!(idx.size_of("/r/a/one.bin"), 0);
}
