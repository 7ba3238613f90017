use std::cell::RefCell;

use codex_warden::codec::encode_record;
use codex_warden::registry::{CleanupReason, RegistryError, TaskRegistry};
use codex_warden::supervisor::Registration;
use codex_warden::task_record::{TaskRecord, TaskStatus};
use codex_warden::timestamp::{Timestamp, MAX_RECORD_AGE_SECS};
use shared_hashmap::SharedMemoryHashMap;

const MAP_SIZE: usize = 256 * 1024;

fn fresh_map() -> SharedMemoryHashMap<String, String> {
    SharedMemoryHashMap::new(MAP_SIZE).expect("shared map")
}

fn registry() -> TaskRegistry {
    TaskRegistry::from_map(fresh_map())
}

fn now() -> Timestamp {
    Timestamp::new(1_700_000_000, 500)
}

fn record(manager: Option<u32>, started: Timestamp) -> TaskRecord {
    TaskRecord::new(started, "log-1".to_string(), "/tmp/log-1.txt".to_string(), manager)
}

fn pids(reg: &mut TaskRegistry) -> Vec<u32> {
    let mut v: Vec<u32> = reg.entries().unwrap().into_iter().map(|e| e.pid).collect();
    v.sort();
    v
}

#[test]
fn registered_keys_are_listed_and_removed_keys_are_not() {
    let mut reg = registry();
    reg.register(1, &record(None, now())).unwrap();
    reg.register(2, &record(None, now())).unwrap();
    reg.register(3, &record(None, now())).unwrap();
    assert_eq!(pids(&mut reg), vec![1, 2, 3]);
    let removed = reg.remove(2).unwrap().unwrap();
    assert_eq!(removed.log_id, "log-1");
    assert_eq!(pids(&mut reg), vec![1, 3]);
    assert!(reg.remove(2).unwrap().is_none());
    reg.register(2, &record(None, now())).unwrap();
    assert_eq!(pids(&mut reg), vec![1, 2, 3]);
}

#[test]
fn second_register_of_same_pid_fails_and_keeps_first_record() {
    let mut reg = registry();
    let first = TaskRecord::new(now(), "first".to_string(), "/a".to_string(), Some(7));
    let second = TaskRecord::new(now(), "second".to_string(), "/b".to_string(), Some(8));
    reg.register(42, &first).unwrap();
    match reg.register(42, &second) {
        Err(RegistryError::KeyExists(pid)) => assert_eq!(pid, 42),
        other => panic!("expected KeyExists, got {:?}", other),
    }
    let entries = reg.entries().unwrap();
    assert_eq!(entries.len(), 1);
    assert_eq!(entries[0].record.log_id, "first");
    assert_eq!(entries[0].record.manager_pid, Some(7));
}

#[test]
fn listing_drops_bad_key_and_undecodable_value() {
    let mut map = fresh_map();
    map.try_insert("abc".to_string(), encode_record(&record(None, now()))).unwrap();
    map.try_insert("77".to_string(), "not a record".to_string()).unwrap();
    let mut reg = TaskRegistry::from_map(map);
    reg.register(5, &record(None, now())).unwrap();
    assert_eq!(pids(&mut reg), vec![5]);
    assert_eq!(pids(&mut reg), vec![5]);
    // the malformed rows are gone from the map itself
    let removed = reg.remove(77).unwrap();
    assert!(removed.is_none());
}

#[test]
fn remove_of_malformed_row_reports_decode_error() {
    let mut map = fresh_map();
    map.try_insert("9".to_string(), "garbage".to_string()).unwrap();
    let mut reg = TaskRegistry::from_map(map);
    match reg.remove(9) {
        Err(RegistryError::Decode(pid)) => assert_eq!(pid, 9),
        other => panic!("expected Decode, got {:?}", other),
    }
    assert!(reg.remove(9).unwrap().is_none());
}

#[test]
fn sweep_retires_exited_process() {
    let mut reg = registry();
    reg.register(4242, &record(Some(4000), now())).unwrap();
    let terminated = RefCell::new(Vec::new());
    let events = reg
        .sweep_stale_entries(now(), |p| p != 4242, |p| terminated.borrow_mut().push(p))
        .unwrap();
    assert_eq!(events.len(), 1);
    assert_eq!(events[0].reason, CleanupReason::ProcessExited);
    assert_eq!(events[0].pid, 4242);
    assert_eq!(events[0].record.cleanup_reason.as_deref(), Some("process_exited"));
    assert_eq!(events[0].record.status, TaskStatus::CompletedButUnread);
    assert_eq!(events[0].record.completed_at, Some(now()));
    assert!(terminated.borrow().is_empty());
    assert!(pids(&mut reg).is_empty());
}

#[test]
fn sweep_terminates_child_of_missing_manager_once() {
    let mut reg = registry();
    reg.register(10, &record(Some(11), now())).unwrap();
    let terminated = RefCell::new(Vec::new());
    let events = reg
        .sweep_stale_entries(now(), |p| p == 10, |p| terminated.borrow_mut().push(p))
        .unwrap();
    assert_eq!(events.len(), 1);
    assert_eq!(events[0].reason, CleanupReason::ManagerMissing);
    assert_eq!(events[0].record.cleanup_reason.as_deref(), Some("manager_missing"));
    assert_eq!(*terminated.borrow(), vec![10]);
}

#[test]
fn sweep_times_out_old_record() {
    let mut reg = registry();
    let started = Timestamp::new(now().secs - MAX_RECORD_AGE_SECS - 1, 0);
    reg.register(20, &record(Some(21), started)).unwrap();
    reg.register(30, &record(None, started)).unwrap();
    let terminated = RefCell::new(Vec::new());
    let events = reg
        .sweep_stale_entries(now(), |_| true, |p| terminated.borrow_mut().push(p))
        .unwrap();
    assert_eq!(events.len(), 2);
    assert!(events.iter().all(|e| e.reason == CleanupReason::Timeout));
    let mut t = terminated.borrow().clone();
    t.sort();
    assert_eq!(t, vec![20, 30]);
}

#[test]
fn record_at_exactly_max_age_is_kept() {
    let mut reg = registry();
    let started = Timestamp::new(now().secs - MAX_RECORD_AGE_SECS, now().nanos);
    reg.register(20, &record(None, started)).unwrap();
    let events = reg.sweep_stale_entries(now(), |_| true, |_| {}).unwrap();
    assert!(events.is_empty());
    assert_eq!(pids(&mut reg), vec![20]);
}

#[test]
fn dead_process_dead_manager_old_record_gives_one_exited_event() {
    let mut reg = registry();
    let started = Timestamp::new(now().secs - MAX_RECORD_AGE_SECS - 100, 0);
    reg.register(50, &record(Some(51), started)).unwrap();
    let terminated = RefCell::new(Vec::new());
    let events = reg
        .sweep_stale_entries(now(), |_| false, |p| terminated.borrow_mut().push(p))
        .unwrap();
    assert_eq!(events.len(), 1);
    assert_eq!(events[0].reason, CleanupReason::ProcessExited);
    assert!(terminated.borrow().is_empty());
}

#[test]
fn self_managed_row_is_never_manager_missing() {
    let mut reg = registry();
    reg.register(60, &record(Some(60), now())).unwrap();
    let events = reg.sweep_stale_entries(now(), |p| p == 60, |_| {}).unwrap();
    assert!(events.is_empty());
    let events = reg.sweep_stale_entries(now(), |_| false, |_| {}).unwrap();
    assert_eq!(events.len(), 1);
    assert_eq!(events[0].reason, CleanupReason::ProcessExited);
}

#[test]
fn second_sweep_yields_nothing() {
    let mut reg = registry();
    reg.register(1, &record(None, now())).unwrap();
    reg.register(2, &record(Some(3), now())).unwrap();
    reg.register(4, &record(None, now())).unwrap();
    let alive = |p: u32| p == 2 || p == 4;
    let first = reg.sweep_stale_entries(now(), alive, |_| {}).unwrap();
    assert_eq!(first.len(), 2);
    let second = reg.sweep_stale_entries(now(), alive, |_| {}).unwrap();
    assert!(second.is_empty());
    assert_eq!(pids(&mut reg), vec![4]);
}

#[test]
fn completed_unread_tasks_are_listed() {
    let mut reg = registry();
    let done = record(None, now()).mark_completed(Some("ok".to_string()), Some(0), now());
    reg.register(8, &done).unwrap();
    reg.register(9, &record(None, now())).unwrap();
    let list = reg.get_completed_unread_tasks().unwrap();
    assert_eq!(list.len(), 1);
    assert_eq!(list[0].0, 8);
    assert_eq!(list[0].1.result.as_deref(), Some("ok"));
    assert!(reg.remove_by_pid(8).unwrap().is_some());
    assert!(reg.get_completed_unread_tasks().unwrap().is_empty());
}

#[test]
fn register_into_full_map_fails_without_keeping_row() {
    let mut reg = TaskRegistry::from_map(SharedMemoryHashMap::new(4096).expect("shared map"));
    let big = TaskRecord::new(now(), "x".repeat(8000), "/p".to_string(), None);
    assert_eq!(reg.register(1, &big), Err(RegistryError::Full));
    assert!(pids(&mut reg).is_empty());
}

#[test]
fn registration_is_released_once() {
    let mut reg = registry();
    reg.register(70, &record(None, now())).unwrap();
    reg.register(71, &record(None, now())).unwrap();
    let mut registration = Registration::new(70);
    assert_eq!(registration.pid(), 70);
    let first = registration.release(&mut reg).unwrap();
    assert!(first.is_some());
    assert_eq!(pids(&mut reg), vec![71]);
    reg.register(70, &record(None, now())).unwrap();
    let second = registration.release(&mut reg).unwrap();
    assert!(second.is_none());
    assert_eq!(pids(&mut reg), vec![70, 71]);
}

#[test]
fn removing_a_middle_row_returns_its_own_record() {
    let mut reg = registry();
    for (pid, id) in [(1u32, "first"), (2, "second"), (3, "third")] {
        let r = TaskRecord::new(now(), id.to_string(), format!("/tmp/{id}.txt"), Some(pid + 100));
        reg.register(pid, &r).unwrap();
    }
    let removed = reg.remove(2).unwrap().unwrap();
    assert_eq!(removed.log_id, "second");
    assert_eq!(removed.log_path, "/tmp/second.txt");
    assert_eq!(removed.manager_pid, Some(102));
    let mut left: Vec<(u32, String)> =
        reg.entries().unwrap().into_iter().map(|e| (e.pid, e.record.log_id)).collect();
    left.sort();
    assert_eq!(left, vec![(1, "first".to_string()), (3, "third".to_string())]);
    let removed = reg.remove_by_pid(1).unwrap().unwrap();
    assert_eq!(removed.log_id, "first");
}

#[test]
fn full_map_refuses_new_rows_and_keeps_old_ones() {
    let mut reg = TaskRegistry::from_map(SharedMemoryHashMap::new(4096).expect("shared map"));
    let mut stored: Vec<u32> = Vec::new();
    let mut pid: u32 = 1;
    loop {
        match reg.register(pid, &record(None, now())) {
            Ok(()) => stored.push(pid),
            Err(e) => {
                assert_eq!(e, RegistryError::Full);
                break;
            }
        }
        pid += 1;
        assert!(pid < 1000);
    }
    assert!(stored.len() > 2);
    // nothing was evicted to make room
    assert_eq!(pids(&mut reg), stored);
    // past half full, rows are not taken out
    assert_eq!(reg.remove(1).unwrap_err(), RegistryError::Crowded);
    assert_eq!(
        reg.sweep_stale_entries(now(), |_| false, |_| {}).unwrap_err(),
        RegistryError::Crowded
    );
    assert_eq!(pids(&mut reg), stored);
}

#[test]
fn removal_works_while_map_is_at_most_half_full() {
    let mut reg = TaskRegistry::from_map(SharedMemoryHashMap::new(64 * 1024).expect("shared map"));
    for pid in 1..=5u32 {
        reg.register(pid, &record(None, now())).unwrap();
    }
    assert!(reg.remove(3).unwrap().is_some());
    assert_eq!(pids(&mut reg), vec![1, 2, 4, 5]);
}
