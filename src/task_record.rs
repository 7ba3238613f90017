use vstd::prelude::*;

use crate::timestamp::Timestamp;

verus! {

/// Lifecycle state of a tracked task; it only ever moves from `Running` to
/// `CompletedButUnread`.
#[derive(Clone, Copy, Debug, PartialEq, Eq, Structural)]
pub enum TaskStatus {
    Running,
    CompletedButUnread,
}

/// Metadata of one supervised child, as kept in the registry.
#[derive(Clone, Debug)]
pub struct TaskRecord {
    pub started_at: Timestamp,
    pub log_id: String,
    pub log_path: String,
    pub manager_pid: Option<u32>,
    pub cleanup_reason: Option<String>,
    pub status: TaskStatus,
    pub result: Option<String>,
    pub completed_at: Option<Timestamp>,
    pub exit_code: Option<i32>,
}

/// The mathematical content of a [`TaskRecord`], with text as character
/// sequences.
pub struct RecordModel {
    pub started_at: Timestamp,
    pub log_id: Seq<char>,
    pub log_path: Seq<char>,
    pub manager_pid: Option<u32>,
    pub cleanup_reason: Option<Seq<char>>,
    pub status: TaskStatus,
    pub result: Option<Seq<char>>,
    pub completed_at: Option<Timestamp>,
    pub exit_code: Option<i32>,
}

pub open spec fn text_opt(o: Option<String>) -> Option<Seq<char>> {
    match o {
        Some(s) => Some(s@),
        None => None,
    }
}

impl View for TaskRecord {
    type V = RecordModel;

    open spec fn view(&self) -> RecordModel {
        RecordModel {
            started_at: self.started_at,
            log_id: self.log_id@,
            log_path: self.log_path@,
            manager_pid: self.manager_pid,
            cleanup_reason: text_opt(self.cleanup_reason),
            status: self.status,
            result: text_opt(self.result),
            completed_at: self.completed_at,
            exit_code: self.exit_code,
        }
    }
}

/// A record as a cleanup leaves it: completed, its completion time kept
/// when present and `now` otherwise, and tagged with `tag` unless a tag was
/// already set (a tag never changes once set).
pub open spec fn cleaned_record(r: RecordModel, tag: Seq<char>, now: Timestamp) -> RecordModel {
    RecordModel {
        status: TaskStatus::CompletedButUnread,
        completed_at: Some(
            match r.completed_at {
                Some(t) => t,
                None => now,
            },
        ),
        cleanup_reason: Some(
            match r.cleanup_reason {
                Some(c) => c,
                None => tag,
            },
        ),
        ..r
    }
}

impl TaskRecord {
    /// A fresh record of a running task, with no outcome and no cleanup tag.
    pub fn new(started_at: Timestamp, log_id: String, log_path: String, manager_pid: Option<u32>) -> (r:
        TaskRecord)
        ensures
            r@ == (RecordModel {
                started_at,
                log_id: log_id@,
                log_path: log_path@,
                manager_pid,
                cleanup_reason: None,
                status: TaskStatus::Running,
                result: None,
                completed_at: None,
                exit_code: None,
            }),
    {
        TaskRecord {
            started_at,
            log_id,
            log_path,
            manager_pid,
            cleanup_reason: None,
            status: TaskStatus::Running,
            result: None,
            completed_at: None,
            exit_code: None,
        }
    }

    /// The record with its outcome filled in and its status moved to
    /// `CompletedButUnread`; every other field is kept.
    pub fn mark_completed(self, result: Option<String>, exit_code: Option<i32>, completed_at: Timestamp) -> (r:
        TaskRecord)
        ensures
            r@ == (RecordModel {
                status: TaskStatus::CompletedButUnread,
                result: text_opt(result),
                exit_code,
                completed_at: Some(completed_at),
                ..self@
            }),
    {
        let mut record = self;
        record.status = TaskStatus::CompletedButUnread;
        record.result = result;
        record.exit_code = exit_code;
        record.completed_at = Some(completed_at);
        record
    }

    /// The record marked completed by a cleanup, tagged with `reason`; see
    /// [`cleaned_record`].
    pub fn with_cleanup_reason(self, reason: &str, now: Timestamp) -> (r: TaskRecord)
        ensures
            r@ == cleaned_record(self@, reason@, now),
    {
        let mut record = self;
        let completed_at = match record.completed_at {
            Some(t) => t,
            None => now,
        };
        record.status = TaskStatus::CompletedButUnread;
        record.completed_at = Some(completed_at);
        if record.cleanup_reason.is_none() {
            record.cleanup_reason = Some(reason.to_owned());
        }
        record
    }
}

} // verus!
