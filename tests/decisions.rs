use codex_warden::platform::{
    next_terminate_step, process_alive_from_probe, ChildResources, JobHandle, SignalProbe,
    TerminateStep,
};
use codex_warden::registry::{cleanup_reason, reason_text, terminates_child, CleanupReason};
use codex_warden::shared_map::{next_open_action, region_fits, OpenAction, OpenStage, SegmentFailure};
use codex_warden::signal_relay::{relay_target, RelaySignal};
use codex_warden::supervisor::{
    child_exit_code, classify_invocation, eq_ignore_ascii_case, exit_status_byte, Invocation,
};
use codex_warden::task_record::{TaskRecord, TaskStatus};
use codex_warden::timestamp::{age_exceeds, Timestamp};
use codex_warden::wait::{
    duration_parts, has_running, next_wait_step, read_interval,
    setting_is_invalid, CompletionTracker, TaskCompletion, TaskReport, WaitStep,
};

fn s(v: &str) -> Option<String> {
    Some(v.to_string())
}

#[test]
fn prefers_primary_interval_env() {
    assert_eq!(read_interval(&s("45"), &None), 45);
    assert_eq!(read_interval(&s("45"), &s("90")), 45);
}

#[test]
fn falls_back_to_legacy_env() {
    assert_eq!(read_interval(&None, &s("90")), 90);
    assert_eq!(read_interval(&s("0"), &s("90")), 90);
}

#[test]
fn returns_default_on_invalid_values() {
    assert_eq!(read_interval(&s("not-a-number"), &None), 30);
    assert_eq!(read_interval(&None, &None), 30);
    assert_eq!(read_interval(&s("-5"), &s("")), 30);
    assert!(setting_is_invalid(&s("not-a-number")));
    assert!(!setting_is_invalid(&None));
    assert!(!setting_is_invalid(&s("12")));
}

#[test]
fn liveness_from_null_signal() {
    assert!(process_alive_from_probe(SignalProbe::Delivered));
    assert!(process_alive_from_probe(SignalProbe::PermissionDenied));
    assert!(!process_alive_from_probe(SignalProbe::Failed));
}

#[test]
fn termination_escalates_only_when_needed() {
    assert_eq!(next_terminate_step(TerminateStep::CheckAlive, false), TerminateStep::Done);
    assert_eq!(next_terminate_step(TerminateStep::CheckAlive, true), TerminateStep::SendTerminate);
    assert_eq!(next_terminate_step(TerminateStep::SendTerminate, true), TerminateStep::WaitGrace);
    assert_eq!(next_terminate_step(TerminateStep::SendTerminate, false), TerminateStep::SendKill);
    assert_eq!(next_terminate_step(TerminateStep::WaitGrace, true), TerminateStep::RecheckAlive);
    assert_eq!(next_terminate_step(TerminateStep::RecheckAlive, false), TerminateStep::Done);
    assert_eq!(next_terminate_step(TerminateStep::RecheckAlive, true), TerminateStep::SendKill);
    assert_eq!(next_terminate_step(TerminateStep::SendKill, false), TerminateStep::Done);
}

#[test]
fn child_resources_hold_their_job() {
    assert!(ChildResources::new().job.is_none());
    let r = ChildResources::with_job(Some(JobHandle { raw: 77 }));
    assert_eq!(r.job, Some(JobHandle { raw: 77 }));
}

#[test]
fn relay_forwards_only_termination_signals_to_a_target() {
    assert_eq!(relay_target(RelaySignal::Interrupt, 12), Some(12));
    assert_eq!(relay_target(RelaySignal::Terminate, 12), Some(12));
    assert_eq!(relay_target(RelaySignal::Other, 12), None);
    assert_eq!(relay_target(RelaySignal::Interrupt, 0), None);
}

#[test]
fn open_attaches_creates_then_reattaches() {
    assert_eq!(next_open_action(OpenStage::FirstAttach, SegmentFailure::NotFound), OpenAction::Create);
    assert_eq!(next_open_action(OpenStage::FirstAttach, SegmentFailure::Other), OpenAction::Fail);
    assert_eq!(next_open_action(OpenStage::Create, SegmentFailure::AlreadyExists), OpenAction::Attach);
    assert_eq!(next_open_action(OpenStage::Create, SegmentFailure::Other), OpenAction::Fail);
    assert_eq!(next_open_action(OpenStage::RetryAttach, SegmentFailure::NotFound), OpenAction::Fail);
    assert!(region_fits(100, 40, 60));
    assert!(!region_fits(99, 40, 60));
    assert!(!region_fits(10, 40, 0));
}

#[test]
fn invocation_modes() {
    assert_eq!(classify_invocation(0, None), Invocation::VersionProbe);
    assert_eq!(classify_invocation(1, Some("WaIt")), Invocation::Wait);
    assert_eq!(classify_invocation(2, Some("wait")), Invocation::Supervise { register: false });
    assert_eq!(classify_invocation(3, Some("EXEC")), Invocation::Supervise { register: true });
    assert_eq!(classify_invocation(1, Some("resume")), Invocation::Supervise { register: false });
    assert_eq!(classify_invocation(1, None), Invocation::Supervise { register: false });
    assert!(eq_ignore_ascii_case("Exec", "eXEC"));
    assert!(!eq_ignore_ascii_case("exe", "exec"));
    assert!(!eq_ignore_ascii_case("[", "{"));
}

#[test]
fn exit_codes() {
    assert_eq!(child_exit_code(Some(3)), 3);
    assert_eq!(child_exit_code(None), 1);
    assert_eq!(exit_status_byte(0), 0);
    assert_eq!(exit_status_byte(-1), 255);
    assert_eq!(exit_status_byte(256), 0);
    assert_eq!(exit_status_byte(300), 44);
}

#[test]
fn age_limit_is_strict() {
    let start = Timestamp::new(0, 0);
    assert!(!age_exceeds(&start, &Timestamp::new(43_200, 0)));
    assert!(age_exceeds(&start, &Timestamp::new(43_200, 1)));
    assert!(!age_exceeds(&Timestamp::new(10, 0), &Timestamp::new(0, 0)));
}

#[test]
fn reason_priority_and_tags() {
    let r = TaskRecord::new(Timestamp::new(0, 0), "i".to_string(), "p".to_string(), Some(2));
    let late = Timestamp::new(1_000_000, 0);
    assert_eq!(cleanup_reason(1, &r, &late, false, false), Some(CleanupReason::ProcessExited));
    assert_eq!(cleanup_reason(1, &r, &late, true, false), Some(CleanupReason::ManagerMissing));
    assert_eq!(cleanup_reason(1, &r, &late, true, true), Some(CleanupReason::Timeout));
    assert_eq!(cleanup_reason(1, &r, &Timestamp::new(5, 0), true, true), None);
    assert!(!terminates_child(CleanupReason::ProcessExited));
    assert!(terminates_child(CleanupReason::ManagerMissing));
    assert!(terminates_child(CleanupReason::Timeout));
    assert_eq!(reason_text(CleanupReason::ProcessExited), "process_exited");
    assert_eq!(reason_text(CleanupReason::Timeout), "timeout_cleanup");
    assert_eq!(reason_text(CleanupReason::ManagerMissing), "manager_missing");
}

#[test]
fn cleanup_tag_is_set_once() {
    let r = TaskRecord::new(Timestamp::new(0, 0), "i".to_string(), "p".to_string(), None);
    let r = r.with_cleanup_reason("timeout_cleanup", Timestamp::new(9, 0));
    assert_eq!(r.cleanup_reason.as_deref(), Some("timeout_cleanup"));
    assert_eq!(r.completed_at, Some(Timestamp::new(9, 0)));
    let r = r.with_cleanup_reason("process_exited", Timestamp::new(11, 0));
    assert_eq!(r.cleanup_reason.as_deref(), Some("timeout_cleanup"));
    assert_eq!(r.completed_at, Some(Timestamp::new(9, 0)));
    assert_eq!(r.status, TaskStatus::CompletedButUnread);
}

#[test]
fn wait_steps() {
    assert_eq!(next_wait_step(false, 0), WaitStep::Finished);
    assert_eq!(next_wait_step(true, 10), WaitStep::Sleep);
    assert_eq!(next_wait_step(true, 86_400), WaitStep::TimedOut);
    assert!(!has_running(&Vec::new()));
}

#[test]
fn completion_tracker_reports_each_pid_once() {
    let mut t = CompletionTracker::new();
    assert!(t.first_sighting(3));
    assert!(t.first_sighting(4));
    assert!(!t.first_sighting(3));
}

#[test]
fn report_counts_and_span() {
    let mut report = TaskReport::new();
    assert_eq!(report.total_duration_nanos(), None);
    let ok = TaskRecord::new(Timestamp::new(100, 0), "a".to_string(), "/a".to_string(), None)
        .mark_completed(Some("done".to_string()), Some(0), Timestamp::new(160, 0));
    let failed = TaskRecord::new(Timestamp::new(90, 0), "b".to_string(), "/b".to_string(), None)
        .mark_completed(None, Some(2), Timestamp::new(130, 0));
    let cleaned = TaskRecord::new(Timestamp::new(120, 0), "c".to_string(), "/c".to_string(), None)
        .with_cleanup_reason("process_exited", Timestamp::new(150, 0));
    let open = TaskRecord::new(Timestamp::new(95, 0), "d".to_string(), "/d".to_string(), None);
    let c1 = TaskCompletion::from_record(1, ok, Timestamp::new(999, 0));
    assert!(c1.is_success());
    report.add_completion(c1);
    let c2 = TaskCompletion::from_record(2, failed, Timestamp::new(999, 0));
    assert!(!c2.is_success());
    report.add_completion(c2);
    report.add_completion(TaskCompletion::from_record(3, cleaned, Timestamp::new(999, 0)));
    let c4 = TaskCompletion::from_record(4, open, Timestamp::new(170, 0));
    assert_eq!(c4.completed_at, Timestamp::new(170, 0));
    assert!(c4.is_success());
    report.add_completion(c4);
    assert_eq!(report.total_count(), 4);
    assert_eq!(report.successful_count(), 2);
    assert_eq!(report.failed_count(), 2);
    assert_eq!(report.earliest_start, Some(Timestamp::new(90, 0)));
    assert_eq!(report.latest_completion, Some(Timestamp::new(170, 0)));
    assert_eq!(report.total_duration_nanos(), Some(80_000_000_000));
}

#[test]
fn duration_split() {
    assert_eq!(duration_parts(3725), (1, 2, 5));
    assert_eq!(duration_parts(59), (0, 0, 59));
    assert_eq!(duration_parts(-4), (0, 0, 0));
}
