use vstd::prelude::*;

use std::collections::HashSet;

use crate::decimal::{parse_u64_text, parse_unsigned_text};
use crate::registry::RegistryEntry;
use crate::task_record::{TaskRecord, TaskStatus, text_opt};
use crate::timestamp::Timestamp;

verus! {

/// Poll interval, in seconds, when no setting gives a usable one.
pub const WAIT_INTERVAL_DEFAULT_SECS: u64 = 30;

/// Longest time, in seconds, that wait mode keeps polling (a day).
pub const MAX_WAIT_SECS: u64 = 86_400;

/// A setting's interval: a positive whole number of seconds, or nothing.
pub open spec fn interval_setting(raw: Option<Seq<char>>) -> Option<u64> {
    match raw {
        Some(t) => match parse_unsigned_text(t) {
            Some(n) => if 0 < n <= u64::MAX {
                Some(n as u64)
            } else {
                None
            },
            None => None,
        },
        None => None,
    }
}

/// The primary setting wins when usable, then the legacy one, then the
/// default.
pub open spec fn interval_spec(primary: Option<Seq<char>>, legacy: Option<Seq<char>>) -> u64 {
    match interval_setting(primary) {
        Some(n) => n,
        None => match interval_setting(legacy) {
            Some(n) => n,
            None => WAIT_INTERVAL_DEFAULT_SECS,
        },
    }
}

fn setting_seconds(raw: &Option<String>) -> (r: Option<u64>)
    ensures
        r == interval_setting(text_opt(*raw)),
{
    match raw {
        Some(text) => match parse_u64_text(text.as_str()) {
            Some(n) => if n > 0 {
                Some(n)
            } else {
                None
            },
            None => None,
        },
        None => None,
    }
}

/// The wait-mode poll interval in seconds, from the primary and the legacy
/// setting as they were found (absent when unset).
pub fn read_interval(primary: &Option<String>, legacy: &Option<String>) -> (r: u64)
    ensures
        r == interval_spec(text_opt(*primary), text_opt(*legacy)),
{
    match setting_seconds(primary) {
        Some(n) => n,
        None => match setting_seconds(legacy) {
            Some(n) => n,
            None => WAIT_INTERVAL_DEFAULT_SECS,
        },
    }
}

/// Whether a setting was given but cannot be used, which deserves a warning.
pub fn setting_is_invalid(raw: &Option<String>) -> (r: bool)
    ensures
        r == (raw is Some && interval_setting(text_opt(*raw)) is None),
{
    raw.is_some() && setting_seconds(raw).is_none()
}

pub open spec fn any_running(v: Seq<RegistryEntry>) -> bool {
    exists|i: int| 0 <= i < v.len() && (#[trigger] v[i]).record.status == TaskStatus::Running
}

/// Whether some listed task is still running.
pub fn has_running(entries: &Vec<RegistryEntry>) -> (r: bool)
    ensures
        r == any_running(entries@),
{
    let mut i: usize = 0;
    while i < entries.len()
        invariant
            i <= entries.len(),
            forall|j: int| 0 <= j < i ==> (#[trigger] entries@[j]).record.status != TaskStatus::Running,
        decreases entries.len() - i,
    {
        if entries[i].record.status == TaskStatus::Running {
            return true;
        }
        i = i + 1;
    }
    false
}

/// What wait mode does after one poll.
#[derive(Clone, Copy, Debug, PartialEq, Eq, Structural)]
pub enum WaitStep {
    /// Nothing runs any more: report and stop.
    Finished,
    /// The maximum wait is over with tasks still running: report and stop.
    TimedOut,
    /// Sleep one interval and poll again.
    Sleep,
}

pub open spec fn wait_step_spec(running: bool, elapsed_secs: u64) -> WaitStep {
    if !running {
        WaitStep::Finished
    } else if elapsed_secs >= MAX_WAIT_SECS {
        WaitStep::TimedOut
    } else {
        WaitStep::Sleep
    }
}

pub fn next_wait_step(running: bool, elapsed_secs: u64) -> (r: WaitStep)
    ensures
        r == wait_step_spec(running, elapsed_secs),
{
    if !running {
        WaitStep::Finished
    } else if elapsed_secs >= MAX_WAIT_SECS {
        WaitStep::TimedOut
    } else {
        WaitStep::Sleep
    }
}

/// The process ids whose completion was already reported.
pub struct CompletionTracker {
    seen: HashSet<u32>,
}

impl View for CompletionTracker {
    type V = Set<u32>;

    closed spec fn view(&self) -> Set<u32> {
        self.seen@
    }
}

impl CompletionTracker {
    pub fn new() -> (r: CompletionTracker)
        ensures
            r@ == Set::<u32>::empty(),
    {
        CompletionTracker { seen: HashSet::new() }
    }

    /// Notes `pid` as reported; true only the first time.
    pub fn first_sighting(&mut self, pid: u32) -> (r: bool)
        ensures
            r == !old(self)@.contains(pid),
            final(self)@ == old(self)@.insert(pid),
    {
        broadcast use vstd::std_specs::hash::group_hash_axioms;
        self.seen.insert(pid)
    }
}

/// A finished task as wait mode reports it.
#[derive(Debug)]
pub struct TaskCompletion {
    pub pid: u32,
    pub log_path: String,
    pub started_at: Timestamp,
    pub completed_at: Timestamp,
    pub exit_code: Option<i32>,
    pub result: Option<String>,
    pub cleanup_reason: Option<String>,
}

/// A task succeeded when no cleanup retired it and it exited with code
/// zero or gave no code.
pub open spec fn success_spec(cleanup_reason: Option<Seq<char>>, exit_code: Option<i32>) -> bool {
    cleanup_reason is None && (exit_code is None || exit_code == Some(0i32))
}

impl TaskCompletion {
    /// The completion of `pid` described by `record`; a record without a
    /// completion time counts as completed at `now`.
    pub fn from_record(pid: u32, record: TaskRecord, now: Timestamp) -> (r: TaskCompletion)
        ensures
            r.pid == pid,
            r.log_path@ == record.log_path@,
            r.started_at == record.started_at,
            r.completed_at == (match record.completed_at {
                Some(t) => t,
                None => now,
            }),
            r.exit_code == record.exit_code,
            text_opt(r.result) == text_opt(record.result),
            text_opt(r.cleanup_reason) == text_opt(record.cleanup_reason),
    {
        let completed_at = match record.completed_at {
            Some(t) => t,
            None => now,
        };
        TaskCompletion {
            pid,
            log_path: record.log_path,
            started_at: record.started_at,
            completed_at,
            exit_code: record.exit_code,
            result: record.result,
            cleanup_reason: record.cleanup_reason,
        }
    }

    pub fn is_success(&self) -> (r: bool)
        ensures
            r == success_spec(text_opt(self.cleanup_reason), self.exit_code),
    {
        self.cleanup_reason.is_none() && match self.exit_code {
            Some(code) => code == 0,
            None => true,
        }
    }
}

/// Whether `a` lies strictly before `b`.
pub fn is_before(a: &Timestamp, b: &Timestamp) -> (r: bool)
    ensures
        r == (a.total_nanos() < b.total_nanos()),
{
    a.nanos_since(b) < 0
}

pub open spec fn success_count_spec(v: Seq<TaskCompletion>) -> nat
    decreases v.len(),
{
    if v.len() == 0 {
        0
    } else {
        success_count_spec(v.drop_last()) + if success_spec(
            text_opt(v.last().cleanup_reason),
            v.last().exit_code,
        ) {
            1nat
        } else {
            0nat
        }
    }
}

proof fn lemma_success_count_bound(v: Seq<TaskCompletion>)
    ensures
        success_count_spec(v) <= v.len(),
    decreases v.len(),
{
    if v.len() > 0 {
        lemma_success_count_bound(v.drop_last());
    }
}

/// The completions gathered by wait mode, with the span they cover.
pub struct TaskReport {
    pub completions: Vec<TaskCompletion>,
    pub earliest_start: Option<Timestamp>,
    pub latest_completion: Option<Timestamp>,
}

impl TaskReport {
    pub fn new() -> (r: TaskReport)
        ensures
            r.completions@.len() == 0,
            r.earliest_start is None,
            r.latest_completion is None,
    {
        TaskReport { completions: Vec::new(), earliest_start: None, latest_completion: None }
    }

    /// Adds a completion, widening the covered span to include its start
    /// and its end.
    pub fn add_completion(&mut self, completion: TaskCompletion)
        ensures
            final(self).completions@ == old(self).completions@.push(completion),
            final(self).earliest_start == Some(
                match old(self).earliest_start {
                    Some(t) => if completion.started_at.total_nanos() < t.total_nanos() {
                        completion.started_at
                    } else {
                        t
                    },
                    None => completion.started_at,
                },
            ),
            final(self).latest_completion == Some(
                match old(self).latest_completion {
                    Some(t) => if t.total_nanos() < completion.completed_at.total_nanos() {
                        completion.completed_at
                    } else {
                        t
                    },
                    None => completion.completed_at,
                },
            ),
    {
        let earliest = match self.earliest_start {
            Some(t) => if is_before(&completion.started_at, &t) {
                completion.started_at
            } else {
                t
            },
            None => completion.started_at,
        };
        let latest = match self.latest_completion {
            Some(t) => if is_before(&t, &completion.completed_at) {
                completion.completed_at
            } else {
                t
            },
            None => completion.completed_at,
        };
        self.earliest_start = Some(earliest);
        self.latest_completion = Some(latest);
        self.completions.push(completion);
    }

    pub fn total_count(&self) -> (r: usize)
        ensures
            r == self.completions@.len(),
    {
        self.completions.len()
    }

    pub fn successful_count(&self) -> (r: usize)
        ensures
            r == success_count_spec(self.completions@),
    {
        let mut n: usize = 0;
        let mut i: usize = 0;
        while i < self.completions.len()
            invariant
                i <= self.completions.len(),
                n == success_count_spec(self.completions@.take(i as int)),
                n <= i,
            decreases self.completions.len() - i,
        {
            let ghost prefix = self.completions@.take(i as int + 1);
            assert(prefix.drop_last() =~= self.completions@.take(i as int));
            if self.completions[i].is_success() {
                n = n + 1;
            }
            i = i + 1;
        }
        assert(self.completions@.take(i as int) =~= self.completions@);
        n
    }

    pub fn failed_count(&self) -> (r: usize)
        ensures
            r == self.completions@.len() - success_count_spec(self.completions@),
    {
        proof {
            lemma_success_count_bound(self.completions@);
        }
        self.total_count() - self.successful_count()
    }

    /// Nanoseconds from the earliest start to the latest completion, when
    /// anything was added.
    pub fn total_duration_nanos(&self) -> (r: Option<i128>)
        ensures
            r == (match (self.earliest_start, self.latest_completion) {
                (Some(s), Some(e)) => Some((e.total_nanos() - s.total_nanos()) as i128),
                _ => None::<i128>,
            }),
    {
        match (self.earliest_start, self.latest_completion) {
            (Some(s), Some(e)) => Some(e.nanos_since(&s)),
            _ => None,
        }
    }
}

/// Splits a duration in whole seconds into hours, minutes and seconds; a
/// negative duration counts as zero.
pub fn duration_parts(seconds: i64) -> (r: (u64, u64, u64))
    ensures
        r.1 < 60,
        r.2 < 60,
        r.0 * 3600 + r.1 * 60 + r.2 == if seconds < 0 {
            0
        } else {
            seconds as int
        },
{
    let s: u64 = if seconds < 0 {
        0
    } else {
        seconds as u64
    };
    let hours = s / 3600;
    let minutes = (s % 3600) / 60;
    let secs = s % 60;
    assert(hours * 3600 + minutes * 60 + secs == s) by (nonlinear_arith)
        requires
            hours == s / 3600,
            minutes == (s % 3600) / 60,
            secs == s % 60,
    {
        assert(s == hours * 3600 + s % 3600);
        assert(s % 3600 == minutes * 60 + (s % 3600) % 60);
        assert((s % 3600) % 60 == s % 60);
    }
    (hours, minutes, secs)
}

} // verus!
