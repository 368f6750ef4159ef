use purify::format_bytes;
use purify::moves::is_cross_device;
use purify::paths::PathStyle;
use purify::quarantine::{quarantine_start, quarantine_step, QuarantineAction, QuarantineStage};
use purify::report::report_lines;
use purify::usage::{shown_top, UsageCollector};
use purify::FileEntry;

const U: PathStyle = PathStyle::Unix;
const W: PathStyle = PathStyle::Windows;

#[test]
fn cross_device_codes_depend_on_the_platform() {
    assert!(is_cross_device(Some(18), U));
    assert!(!is_cross_device(Some(17), U), "17 is EEXIST on Unix");
    assert!(is_cross_device(Some(17), W));
    assert!(!is_cross_device(Some(18), W));
    assert!(!is_cross_device(None, U));
    assert!(!is_cross_device(None, W));
}

fn run(outcomes: &[bool]) -> (QuarantineStage, Vec<QuarantineAction>) {
    let (mut stage, mut action) = quarantine_start();
    let mut actions = vec![action];
    let mut it = outcomes.iter();
    while action != QuarantineAction::Finish {
        let ok = *it.next().unwrap();
        (stage, action) = quarantine_step(stage, ok);
        actions.push(action);
    }
    (stage, actions)
}

#[test]
fn quarantine_commits_when_move_and_record_succeed() {
    let (stage, actions) = run(&[true, true]);
    assert_eq!(stage, QuarantineStage::Committed);
    assert_eq!(
        actions,
        vec![QuarantineAction::MoveToBlob, QuarantineAction::Record, QuarantineAction::Finish]
    );
}

#[test]
fn a_failed_record_is_rolled_back() {
    let (stage, actions) = run(&[true, false, true]);
    assert_eq!(stage, QuarantineStage::Aborted);
    assert_eq!(
        actions,
        vec![
            QuarantineAction::MoveToBlob,
            QuarantineAction::Record,
            QuarantineAction::MoveBack,
            QuarantineAction::Finish
        ]
    );
    assert_eq!(run(&[true, false, false]).0, QuarantineStage::Stranded);
    assert_eq!(run(&[false]).0, QuarantineStage::Aborted);
    assert_eq!(run(&[false]).1, vec![QuarantineAction::MoveToBlob, QuarantineAction::Finish]);
}

#[test]
fn top_zero_shows_the_single_largest_consumer() {
    assert_eq!(shown_top(0), 1);
    assert_eq!(shown_top(1), 1);
    assert_eq!(shown_top(7), 7);
    let mut c = UsageCollector::new("/r", U);
    c.record(&FileEntry::file("/r/a.bin", 5));
    c.record(&FileEntry::file("/r/b.bin", 9));
    let report = c.into_report(shown_top(0));
    assert_eq!(report.top.len(), 1);
    assert_eq!(report.top[0].path, "/r/b.bin");
}

#[test]
fn report_lines_present_the_scan() {
    let mut c = UsageCollector::new("/root", U);
    c.record(&FileEntry::file("/root/a/x.bin", 160));
    c.record(&FileEntry::file("/root/c.txt", 1536));
    let report = c.into_report(10);
    let lines = report_lines(&report, "walk", U);
    let width = format_bytes(1536).len().max(format_bytes(160).len());
    let expected = vec![
        String::new(),
        "  purify scan \u{2014} /root".to_string(),
        "  strategy: walk".to_string(),
        format!("  total: {}  across 2 files", format_bytes(1696)),
        String::new(),
        "  Largest consumers:".to_string(),
        format!("  {:>2}. {:>width$}  [{}]  {}", 1, format_bytes(1536), "file", "c.txt", width = width),
        format!("  {:>2}. {:>width$}  [{}]  {}", 2, format_bytes(160), "dir ", "a", width = width),
        String::new(),
    ];
    assert_eq!(lines, expected);
    assert_eq!(lines[7], "   2.    160 B  [dir ]  a");
}

#[test]
fn report_lines_note_an_empty_scan() {
    let report = UsageCollector::new(r"C:\empty", W).into_report(5);
    let lines = report_lines(&report, "mft", W);
    assert_eq!(lines.len(), 6);
    assert_eq!(lines[1], "  purify scan \u{2014} C:\\empty");
    assert_eq!(lines[3], "  total: 0 B  across 0 files");
    assert_eq!(lines[5], "  (nothing found)");
}
