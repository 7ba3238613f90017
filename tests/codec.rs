use codex_warden::codec::{decode_record, encode_record};
use codex_warden::decimal::{nat_to_text, parse_u32_text, parse_u64_text};
use codex_warden::task_record::{TaskRecord, TaskStatus};
use codex_warden::timestamp::Timestamp;

fn full_record() -> TaskRecord {
    TaskRecord {
        started_at: Timestamp::new(-12, 999_999_999),
        log_id: "3f2a:é漢".to_string(),
        log_path: "/tmp/a:b.txt".to_string(),
        manager_pid: Some(4_294_967_295),
        cleanup_reason: Some(String::new()),
        status: TaskStatus::CompletedButUnread,
        result: Some("line1\nline2".to_string()),
        completed_at: Some(Timestamp::new(i64::MIN, 0)),
        exit_code: Some(i32::MIN),
    }
}

fn same(a: &TaskRecord, b: &TaskRecord) -> bool {
    a.started_at == b.started_at
        && a.log_id == b.log_id
        && a.log_path == b.log_path
        && a.manager_pid == b.manager_pid
        && a.cleanup_reason == b.cleanup_reason
        && a.status == b.status
        && a.result == b.result
        && a.completed_at == b.completed_at
        && a.exit_code == b.exit_code
}

#[test]
fn round_trip_keeps_every_field() {
    let r = full_record();
    let back = decode_record(&encode_record(&r)).unwrap();
    assert!(same(&r, &back));
}

#[test]
fn round_trip_keeps_absent_fields_absent() {
    let r = TaskRecord::new(Timestamp::new(5, 0), String::new(), String::new(), None);
    let back = decode_record(&encode_record(&r)).unwrap();
    assert!(same(&r, &back));
    assert_eq!(back.cleanup_reason, None);
    assert_eq!(back.result, None);
    assert_eq!(back.completed_at, None);
    assert_eq!(back.exit_code, None);
    assert_eq!(back.manager_pid, None);
}

#[test]
fn encoding_has_exact_layout() {
    let r = TaskRecord::new(Timestamp::new(17, 5), "ab".to_string(), "/x".to_string(), Some(9));
    assert_eq!(encode_record(&r), "2:171:52:ab2:/x1:90:1:R0:0:0:0:");
    let done = r.mark_completed(None, Some(-3), Timestamp::new(20, 0));
    assert_eq!(encode_record(&done), "2:171:52:ab2:/x1:90:1:C0:2:201:02:-3");
}

#[test]
fn malformed_text_does_not_decode() {
    assert!(decode_record("").is_none());
    assert!(decode_record("not a record").is_none());
    assert!(decode_record("2:171:52:ab2:/x1:90:1:R0:0:0:0:extra").is_none());
    assert!(decode_record("2:171:52:ab2:/x1:90:1:X0:0:0:0:").is_none());
    assert!(decode_record("2:171:52:ab2:/x1:90:1:R0:2:200:0:").is_none());
    assert!(decode_record("2:171:52:ab2:/x1:90:1:R0:0:0:1:9999999999").is_none());
}

#[test]
fn unsigned_text_reads_like_std() {
    assert_eq!(parse_u32_text("4242"), Some(4242));
    assert_eq!(parse_u32_text("+7"), Some(7));
    assert_eq!(parse_u32_text("007"), Some(7));
    assert_eq!(parse_u32_text("abc"), None);
    assert_eq!(parse_u32_text(""), None);
    assert_eq!(parse_u32_text("+"), None);
    assert_eq!(parse_u32_text("-1"), None);
    assert_eq!(parse_u32_text("4294967295"), Some(u32::MAX));
    assert_eq!(parse_u32_text("4294967296"), None);
    assert_eq!(parse_u64_text("18446744073709551615"), Some(u64::MAX));
    assert_eq!(parse_u64_text("18446744073709551616"), None);
    assert_eq!(nat_to_text(0), "0");
    assert_eq!(nat_to_text(1234567890123), "1234567890123");
}
