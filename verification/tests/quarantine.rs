use purify::paths::PathStyle;
use purify::quarantine::{
    blob_path, check_request, check_restore, expired_ids, filter_status, id_from_digest,
    id_input_bytes, join_str, new_id,
    quarantined_item, ItemStatus, QuarantineItem, QuarantineRequest,
};
use purify::Error;

fn req(path: &str) -> QuarantineRequest {
    QuarantineRequest {
        original_path: path.to_string(),
        size: 5,
        is_dir: false,
        reason: "test".to_string(),
        signature_id: Some("sig".to_string()),
        confidence: Some("safe".to_string()),
    }
}

fn item(id: &str, at: i64, status: ItemStatus) -> QuarantineItem {
    QuarantineItem {
        id: id.to_string(),
        original_path: format!("/work/{id}.bin"),
        quarantine_path: format!("/q/{id}/{id}.bin"),
        size: 5,
        is_dir: false,
        reason: "test".to_string(),
        signature_id: None,
        confidence: None,
        quarantined_at: at,
        status,
    }
}

#[test]
fn refuses_protected_paths() {
    let bad = QuarantineRequest {
        original_path: r"C:\Windows\System32\kernel32.dll".to_string(),
        size: 1,
        is_dir: false,
        reason: "x".to_string(),
        signature_id: None,
        confidence: None,
    };
    let err = check_request(&bad, true).unwrap_err();
    assert!(matches!(err, Error::Refused(_)));
}

#[test]
fn missing_source_is_a_quarantine_error() {
    match check_request(&req("/work/a.bin"), false) {
        Err(Error::Quarantine(m)) => assert_eq!(m, "source does not exist: /work/a.bin"),
        other => panic!("unexpected: {other:?}"),
    }
    assert!(check_request(&req("/work/a.bin"), true).is_ok());
}

#[test]
fn ids_are_sixteen_hex_digits_and_depend_on_inputs() {
    let a = new_id("/work/a.bin", 1000, 5, 0);
    assert_eq!(a.len(), 16);
    assert!(a.chars().all(|c| c.is_ascii_hexdigit() && !c.is_ascii_uppercase()));
    let mut h = blake3::Hasher::new();
    h.update(b"/work/a.bin");
    h.update(&1000i64.to_le_bytes());
    h.update(&5u64.to_le_bytes());
    h.update(&0u64.to_le_bytes());
    assert_eq!(a, h.finalize().to_hex().as_str()[..16].to_string());
    assert_ne!(a, new_id("/work/a.bin", 1000, 5, 1));
    assert_ne!(a, new_id("/work/a.bin", 1001, 5, 0));
    assert_ne!(a, new_id("/work/a.bin", 1000, 6, 0));
    assert_eq!(a, new_id("/work/a.bin", 1000, 5, 0));
}

#[test]
fn blob_path_keeps_the_file_name() {
    assert_eq!(blob_path("/q", "abcd", "/work/a.bin", PathStyle::Unix), "/q/abcd/a.bin");
    assert_eq!(blob_path("/q/", "abcd", "/", PathStyle::Unix), "/q/abcd/item");
    assert_ne!(
        blob_path("/q", "aaaa", "/work/a.bin", PathStyle::Unix),
        blob_path("/q", "bbbb", "/work/a.bin", PathStyle::Unix)
    );
}

#[test]
fn new_items_are_quarantined() {
    let it = quarantined_item(&req("/work/a.bin"), "id1".to_string(), "/q/id1/a.bin".to_string(), 1000);
    assert_eq!(it.status, ItemStatus::Quarantined);
    assert_eq!(it.quarantined_at, 1000);
    assert_eq!(it.original_path, "/work/a.bin");
    assert_eq!(it.signature_id.as_deref(), Some("sig"));
    assert!(it.holds_blob());
}

#[test]
fn restore_needs_a_quarantined_item_and_a_free_original() {
    let q = item("aa", 0, ItemStatus::Quarantined);
    assert!(check_restore(&q, false).is_ok());
    match check_restore(&q, true) {
        Err(Error::Quarantine(m)) => {
            assert_eq!(m, "cannot restore aa: original path already exists: /work/aa.bin")
        }
        other => panic!("unexpected: {other:?}"),
    }
    let r = item("bb", 0, ItemStatus::Restored);
    match check_restore(&r, false) {
        Err(Error::Quarantine(m)) => {
            assert_eq!(m, "item bb is not currently quarantined (status: Restored)")
        }
        other => panic!("unexpected: {other:?}"),
    }
    assert!(!r.holds_blob());
}

#[test]
fn purge_expired_respects_retention_window() {
    let day = 86_400i64;
    let now = 100 * day;
    let items = vec![
        item("fresh", now, ItemStatus::Quarantined),
        item("old", now - 40 * day, ItemStatus::Quarantined),
        item("gone", now - 50 * day, ItemStatus::Purged),
        item("edge", now - 30 * day, ItemStatus::Quarantined),
    ];
    assert_eq!(expired_ids(&items, 30, now), vec!["old".to_string(), "edge".to_string()]);
    assert!(expired_ids(&items, u32::MAX, i64::MIN + 5).is_empty());
}

#[test]
fn status_text_roundtrips() {
    for s in [ItemStatus::Quarantined, ItemStatus::Restored, ItemStatus::Purged] {
        assert_eq!(ItemStatus::parse(s.as_str()), s);
    }
    assert_eq!(ItemStatus::parse("bogus"), ItemStatus::Quarantined);
    assert_eq!(ItemStatus::Purged.as_str(), "purged");
}

#[test]
fn listing_filters_by_status_in_order() {
    let items = vec![
        item("a", 3, ItemStatus::Quarantined),
        item("b", 2, ItemStatus::Restored),
        item("c", 1, ItemStatus::Quarantined),
    ];
    let q = filter_status(items.clone(), Some(ItemStatus::Quarantined));
    assert_eq!(q.iter().map(|i| i.id.as_str()).collect::<Vec<_>>(), vec!["a", "c"]);
    assert_eq!(filter_status(items.clone(), None), items);
    assert!(filter_status(items, Some(ItemStatus::Purged)).is_empty());
}

#[test]
fn join_str_joins() {
    assert_eq!(join_str("ab", "cd"), "abcd");
    assert_eq!(join_str("", ""), "");
}

#[test]
fn id_input_is_path_then_little_endian_time_nanos_and_counter() {
    let bytes = id_input_bytes("ab", 1, 3, 2);
    assert_eq!(
        bytes,
        vec![b'a', b'b', 1, 0, 0, 0, 0, 0, 0, 0, 3, 0, 0, 0, 0, 0, 0, 0, 2, 0, 0, 0, 0, 0, 0, 0]
    );
    let neg = id_input_bytes("é", -1, 999_999_999, 258);
    assert_eq!(&neg[..2], "é".as_bytes());
    assert_eq!(&neg[2..10], &[0xff; 8]);
    assert_eq!(&neg[10..18], &999_999_999u64.to_le_bytes());
    assert_eq!(&neg[18..], &[2, 1, 0, 0, 0, 0, 0, 0]);
}

#[test]
fn id_is_the_hex_of_the_first_eight_digest_bytes() {
    let mut d = [0u8; 32];
    d[..8].copy_from_slice(&[0x01, 0xab, 0xff, 0x00, 0x10, 0x20, 0x30, 0x4c]);
    d[8] = 0xee;
    assert_eq!(id_from_digest(&d), "01abff001020304c");
}
