use purify::paths::PathStyle;
use purify::rules::{Confidence, MatchRule, Signature, SignatureSet};
use purify::suggest::Analyzer;
use purify::FileEntry;

fn sig(id: &str, conf: Confidence, rule: MatchRule) -> Signature {
    Signature {
        id: id.to_string(),
        title: id.to_string(),
        category: "test".to_string(),
        confidence: conf,
        description: "because".to_string(),
        rule,
    }
}

#[test]
fn suggests_directory_once_and_sizes_it() {
    let set = SignatureSet {
        signatures: vec![sig(
            "nm",
            Confidence::ReviewNeeded,
            MatchRule::DirName {
                name: "node_modules".to_string(),
            },
        )],
    };
    let entries = vec![
        FileEntry::dir("/proj/node_modules"),
        FileEntry::file("/proj/node_modules/a.js", 1000),
        FileEntry::file("/proj/node_modules/b.js", 500),
        FileEntry::file("/proj/src/main.rs", 42),
    ];
    let report = Analyzer::new(set).analyze(&entries, 0, PathStyle::Unix);
    assert_eq!(report.suggestions.len(), 1, "one directory suggestion");
    let s = &report.suggestions[0];
    assert_eq!(s.path, "/proj/node_modules");
    assert_eq!(s.size, 1500, "recursive directory size");
    assert_eq!(report.total_reclaimable, 1500);
}

#[test]
fn protected_paths_are_never_suggested() {
    let set = SignatureSet {
        signatures: vec![sig(
            "temp",
            Confidence::Safe,
            MatchRule::PathContains {
                needle: r"\windows\".to_string(),
            },
        )],
    };
    let entries = vec![FileEntry::file(r"C:\Windows\System32\x.dll", 9999)];
    let report = Analyzer::new(set).analyze(&entries, 0, PathStyle::Unix);
    assert!(report.suggestions.is_empty(), "protected path excluded");
}

#[test]
fn reclaimable_up_to_filters_by_confidence() {
    let set = SignatureSet {
        signatures: vec![
            sig(
                "safe-cache",
                Confidence::Safe,
                MatchRule::DirName {
                    name: "cache".to_string(),
                },
            ),
            sig(
                "risky",
                Confidence::ReviewNeeded,
                MatchRule::DirName {
                    name: "node_modules".to_string(),
                },
            ),
        ],
    };
    let entries = vec![
        FileEntry::dir("/app/cache"),
        FileEntry::file("/app/cache/x", 100),
        FileEntry::dir("/app/node_modules"),
        FileEntry::file("/app/node_modules/y", 1000),
    ];
    let report = Analyzer::new(set).analyze(&entries, 0, PathStyle::Unix);
    assert_eq!(report.total_reclaimable, 1100);
    assert_eq!(report.reclaimable_up_to(Confidence::Safe), 100);
    assert_eq!(report.reclaimable_up_to(Confidence::ReviewNeeded), 1100);
}

#[test]
fn age_gated_glob_matches_old_files_only() {
    let set = SignatureSet {
        signatures: vec![sig(
            "old-exe",
            Confidence::LikelySafe,
            MatchRule::Glob {
                patterns: vec!["*.exe".to_string()],
                within: Some(r"\downloads\".to_string()),
                min_age_days: Some(90),
            },
        )],
    };
    let now = 1000 * 86_400;
    let entries = vec![
        FileEntry::file("/x/Downloads/old.exe", 10).with_modified(Some(800 * 86_400)),
        FileEntry::file("/x/Downloads/new.exe", 10).with_modified(Some(990 * 86_400)),
    ];
    let report = Analyzer::new(set).analyze(&entries, now, PathStyle::Unix);
    assert_eq!(report.suggestions.len(), 1);
    assert!(report.suggestions[0].path.ends_with("old.exe"));
}

#[test]
fn suggestions_come_largest_first_then_by_path() {
    let set = SignatureSet {
        signatures: vec![sig(
            "tmp",
            Confidence::Safe,
            MatchRule::Glob {
                patterns: vec!["*.tmp".to_string()],
                within: None,
                min_age_days: None,
            },
        )],
    };
    let entries = vec![
        FileEntry::file("/t/b.tmp", 10),
        FileEntry::file("/t/c.tmp", 30),
        FileEntry::file("/t/a.tmp", 10),
        FileEntry::file("/t/empty.tmp", 0),
        FileEntry::file("/t/keep.txt", 99),
    ];
    let report = Analyzer::new(set).analyze(&entries, 0, PathStyle::Unix);
    let paths: Vec<&str> = report.suggestions.iter().map(|s| s.path.as_str()).collect();
    assert_eq!(paths, vec!["/t/c.tmp", "/t/a.tmp", "/t/b.tmp"]);
    assert_eq!(report.total_reclaimable, 50);
    let s = &report.suggestions[0];
    assert_eq!(s.signature_id, "tmp");
    assert_eq!(s.confidence, "safe");
    assert_eq!(s.reason, "because");
    assert!(!s.is_dir);
}

#[test]
fn first_matching_signature_wins() {
    let set = SignatureSet {
        signatures: vec![
            sig(
                "first",
                Confidence::LikelySafe,
                MatchRule::PathContains {
                    needle: "/cache".to_string(),
                },
            ),
            sig(
                "second",
                Confidence::Safe,
                MatchRule::DirName {
                    name: "CACHE".to_string(),
                },
            ),
        ],
    };
    let entries = vec![FileEntry::dir("/a/cache"), FileEntry::file("/a/cache/f", 5)];
    let report = Analyzer::new(set).analyze(&entries, 0, PathStyle::Unix);
    assert_eq!(report.suggestions.len(), 1);
    assert_eq!(report.suggestions[0].signature_id, "first");
    assert_eq!(report.suggestions[0].confidence, "likely-safe");
    assert_eq!(report.suggestions[0].size, 5);
}

#[test]
fn empty_directories_are_not_suggested() {
    let set = SignatureSet {
        signatures: vec![sig(
            "nm",
            Confidence::ReviewNeeded,
            MatchRule::DirName {
                name: "node_modules".to_string(),
            },
        )],
    };
    let entries = vec![FileEntry::dir("/p/node_modules")];
    let report = Analyzer::new(set).analyze(&entries, 0, PathStyle::Unix);
    assert!(report.suggestions.is_empty());
    assert_eq!(report.total_reclaimable, 0);
}

#[test]
fn checked_analysis_refuses_totals_beyond_u64() {
    let set = SignatureSet {
        signatures: vec![sig(
            "big",
            Confidence::Safe,
            MatchRule::Glob {
                patterns: vec!["*.bin".to_string()],
                within: None,
                min_age_days: None,
            },
        )],
    };
    let entries = vec![FileEntry::file("/a.bin", u64::MAX), FileEntry::file("/b.bin", 1)];
    let analyzer = Analyzer::new(set);
    assert!(analyzer.analyze_checked(&entries, 0, PathStyle::Unix).is_none());
    let one = vec![FileEntry::file("/a.bin", u64::MAX)];
    let report = analyzer.analyze_checked(&one, 0, PathStyle::Unix).expect("fits");
    assert_eq!(report.total_reclaimable, u64::MAX);
}
