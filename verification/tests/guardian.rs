use purify::guardian::{Pressure, SpaceInfo};

#[test]
fn used_is_total_minus_available() {
    assert_eq!(SpaceInfo { total: 100, available: 14 }.used(), 86);
    assert_eq!(SpaceInfo { total: 0, available: 0 }.used(), 0);
    assert_eq!(SpaceInfo { total: 10, available: 20 }.used(), 0);
}

#[test]
fn recommendations_follow_pressure() {
    assert_eq!(Pressure::Healthy.recommendation(), "Disk space is healthy.");
    assert!(Pressure::Warning.recommendation().contains("purify analyze"));
    assert!(Pressure::Critical.recommendation().contains("purify clean --apply"));
}
