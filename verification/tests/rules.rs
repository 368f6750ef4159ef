use purify::rules::{wildcard_match, Confidence, MatchRule, SignatureSet};
use purify::FileEntry;

#[test]
fn wildcard_matches_extensions() {
    assert!(wildcard_match("setup.tmp", "*.tmp"));
    assert!(wildcard_match("SETUP.TMP", "*.tmp"));
    assert!(!wildcard_match("setup.exe", "*.tmp"));
    assert!(wildcard_match("anything", "*"));
    assert!(wildcard_match("exact", "exact"));
}

#[test]
fn dirname_rule_matches_directories_only() {
    let rule = MatchRule::DirName {
        name: "node_modules".to_string(),
    };
    assert!(rule.matches(&FileEntry::dir(r"C:\proj\node_modules"), 0));
    assert!(!rule.matches(&FileEntry::file(r"C:\proj\node_modules\x.js", 1), 0));
    assert!(!rule.matches(&FileEntry::dir(r"C:\proj\src"), 0));
}

#[test]
fn path_contains_is_case_and_slash_insensitive() {
    let rule = MatchRule::PathContains {
        needle: r"\AppData\Local\npm-cache".to_string(),
    };
    assert!(rule.matches(&FileEntry::dir(r"C:/Users/me/appdata/local/NPM-CACHE"), 0));
    assert!(!rule.matches(&FileEntry::dir(r"C:\Users\me\Documents"), 0));
}

#[test]
fn glob_respects_within_and_age() {
    let rule = MatchRule::Glob {
        patterns: vec!["*.msi".to_string(), "*.exe".to_string()],
        within: Some(r"\downloads\".to_string()),
        min_age_days: Some(90),
    };
    let now = 1_000 * 86_400; // day 1000
    // Old installer in Downloads -> matches.
    let old = FileEntry::file(r"C:\Users\me\Downloads\setup.exe", 500)
        .with_modified(Some(800 * 86_400));
    assert!(rule.matches(&old, now));
    // Recent installer -> too new.
    let recent = FileEntry::file(r"C:\Users\me\Downloads\new.exe", 500)
        .with_modified(Some(990 * 86_400));
    assert!(!rule.matches(&recent, now));
    // Right age but wrong location.
    let elsewhere = FileEntry::file(r"C:\tools\old.exe", 500).with_modified(Some(100 * 86_400));
    assert!(!rule.matches(&elsewhere, now));
    // Unknown age -> does not match (conservative).
    let unknown = FileEntry::file(r"C:\Users\me\Downloads\x.exe", 500);
    assert!(!rule.matches(&unknown, now));
}

#[test]
fn wildcard_prefix_and_suffix_do_not_overlap() {
    assert!(!wildcard_match("ab", "ab*b"));
    assert!(wildcard_match("abb", "ab*b"));
    assert!(wildcard_match("~$report.docx", "~$*"));
    assert!(!wildcard_match("x", "*.tmp"));
    // only the first star is special: the rest of the pattern is literal
    assert!(wildcard_match("a*c", "a**c"));
    assert!(!wildcard_match("abc", "a**c"));
}

#[test]
fn glob_age_boundary_is_inclusive() {
    let rule = MatchRule::Glob {
        patterns: vec!["*".to_string()],
        within: None,
        min_age_days: Some(1),
    };
    let e = FileEntry::file("/x/y", 1).with_modified(Some(0));
    assert!(rule.matches(&e, 86_400));
    assert!(!rule.matches(&e, 86_399));
    assert!(!rule.matches(&FileEntry::dir("/x/y").with_modified(Some(0)), 86_400));
    // saturating age never wraps around
    let future = FileEntry::file("/x/y", 1).with_modified(Some(i64::MAX));
    assert!(!rule.matches(&future, i64::MIN));
}

#[test]
fn confidence_labels_and_ranks() {
    assert_eq!(Confidence::Safe.label(), "safe");
    assert_eq!(Confidence::LikelySafe.label(), "likely-safe");
    assert_eq!(Confidence::ReviewNeeded.label(), "review-needed");
    assert_eq!(Confidence::Safe.rank(), 0);
    assert_eq!(Confidence::LikelySafe.rank(), 1);
    assert_eq!(Confidence::ReviewNeeded.rank(), 2);
    assert!(MatchRule::DirName { name: String::new() }.targets_directories());
    assert!(!MatchRule::Glob { patterns: vec![], within: None, min_age_days: None }.targets_directories());
    let set = SignatureSet::default();
    assert!(set.is_empty());
    assert_eq!(set.len(), 0);
}
