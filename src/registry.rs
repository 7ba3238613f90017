use vstd::prelude::*;

use shared_hashmap::SharedMemoryHashMap;

use crate::codec::{decode_record, decode_spec, encode_record, encode_spec, lemma_record_round_trip};
use crate::decimal::{lemma_parse_nat_text, nat_text, nat_to_text, parse_u32_text, parse_unsigned_text};
use crate::shared_map::{
    entry_bytes, map_contains_key, map_entry_bytes, map_free, map_peek, map_remove, map_snapshot,
    map_try_insert, map_used, stored_free, stored_rows, stored_used,
};
use crate::task_record::{RecordModel, TaskRecord, TaskStatus, cleaned_record};
use crate::timestamp::{Timestamp, age_exceeds, age_exceeds_spec};

verus! {

/// Why a sweep retired a registry row.
#[derive(Clone, Copy, Debug, PartialEq, Eq, Structural)]
pub enum CleanupReason {
    ProcessExited,
    Timeout,
    ManagerMissing,
}

/// A well-formed registry row.
#[derive(Clone, Debug)]
pub struct RegistryEntry {
    pub pid: u32,
    pub key: String,
    pub record: TaskRecord,
}

/// A row that a sweep retired, with its record tagged by the reason.
#[derive(Debug)]
pub struct CleanupEvent {
    pub pid: u32,
    pub key: String,
    pub record: TaskRecord,
    pub reason: CleanupReason,
}

/// Why a registry operation failed.
#[derive(Clone, Copy, Debug, PartialEq, Eq, Structural)]
pub enum RegistryError {
    /// A row for this process id is already registered.
    KeyExists(u32),
    /// The new row does not fit in the free space of the shared map; no row
    /// was touched.
    Full,
    /// More than half of the shared map is in use, where the map cannot
    /// take a row out without copying past its end; no row was touched.
    Crowded,
    /// The stored row of this process id is not a well-formed record.
    Decode(u32),
}

/// Typed access to the task rows kept in the shared map: keys are decimal
/// process ids, values are encoded [`TaskRecord`]s.
pub struct TaskRegistry {
    map: SharedMemoryHashMap<String, String>,
}

/// The key under which the row of `pid` is stored.
pub open spec fn pid_key(pid: u32) -> Seq<char> {
    nat_text(pid as nat)
}

/// The process id that a key names, read as an unsigned 32-bit integer.
pub open spec fn key_pid(k: Seq<char>) -> Option<u32> {
    match parse_unsigned_text(k) {
        Some(n) => if n <= u32::MAX {
            Some(n as u32)
        } else {
            None
        },
        None => None,
    }
}

/// A row whose key names a process id and whose value decodes.
pub open spec fn valid_row(m: Map<Seq<char>, Seq<char>>, k: Seq<char>) -> bool {
    &&& m.contains_key(k)
    &&& key_pid(k) is Some
    &&& decode_spec(m[k]) is Some
}

/// The well-formed rows of `m`.
pub open spec fn valid_rows(m: Map<Seq<char>, Seq<char>>) -> Map<Seq<char>, Seq<char>> {
    Map::new(|k: Seq<char>| valid_row(m, k), |k: Seq<char>| m[k])
}

/// The process ids that a listing of `m` reports.
pub open spec fn reported_pids(m: Map<Seq<char>, Seq<char>>) -> Set<u32> {
    Set::new(|p: u32| exists|k: Seq<char>| valid_row(m, k) && key_pid(k) == Some(p))
}

/// `v` lists exactly the well-formed rows of `m`, each once, with its
/// process id and decoded record.
pub open spec fn lists_valid_rows(v: Seq<RegistryEntry>, m: Map<Seq<char>, Seq<char>>) -> bool {
    &&& forall|i: int|
        0 <= i < v.len() ==> {
            &&& valid_row(m, (#[trigger] v[i]).key@)
            &&& key_pid(v[i].key@) == Some(v[i].pid)
            &&& decode_spec(m[v[i].key@]) == Some(v[i].record@)
        }
    &&& forall|k: Seq<char>|
        #[trigger] valid_row(m, k) ==> exists|i: int| 0 <= i < v.len() && (#[trigger] v[i]).key@ == k
    &&& forall|i: int, j: int| 0 <= i < j < v.len() ==> (#[trigger] v[i]).key@ != (#[trigger] v[j]).key@
}

/// The reason to retire a row, in priority order: the process is gone; its
/// manager (another process) is gone; it has outlived the maximum age.
pub open spec fn reason_spec(
    pid: u32,
    manager_pid: Option<u32>,
    started_at: Timestamp,
    now: Timestamp,
    pid_alive: bool,
    manager_alive: bool,
) -> Option<CleanupReason> {
    if !pid_alive {
        Some(CleanupReason::ProcessExited)
    } else if manager_pid is Some && manager_pid->0 != pid && !manager_alive {
        Some(CleanupReason::ManagerMissing)
    } else if age_exceeds_spec(started_at, now) {
        Some(CleanupReason::Timeout)
    } else {
        None
    }
}

/// The tag that a cleanup writes into the record.
pub open spec fn reason_tag(r: CleanupReason) -> Seq<char> {
    match r {
        CleanupReason::ProcessExited => "process_exited"@,
        CleanupReason::Timeout => "timeout_cleanup"@,
        CleanupReason::ManagerMissing => "manager_missing"@,
    }
}

/// `f` answers every liveness question as `alive` does.
pub open spec fn answers_as<F: Fn(u32) -> bool>(f: F, alive: spec_fn(u32) -> bool) -> bool {
    forall|p: u32, b: bool| #[trigger] f.ensures((p,), b) ==> b == alive(p)
}

/// Liveness of a row's manager as the sweep sees it: a row without a
/// manager counts as managed.
pub open spec fn manager_alive_under(manager_pid: Option<u32>, alive: spec_fn(u32) -> bool) -> bool {
    match manager_pid {
        Some(q) => alive(q),
        None => true,
    }
}

/// The reason, if any, to retire the row under key `k` of `m` at `now` when
/// process liveness is `alive`.
pub open spec fn row_reason(
    m: Map<Seq<char>, Seq<char>>,
    k: Seq<char>,
    now: Timestamp,
    alive: spec_fn(u32) -> bool,
) -> Option<CleanupReason> {
    let rec = decode_spec(m[k])->0;
    let pid = key_pid(k)->0;
    reason_spec(
        pid,
        rec.manager_pid,
        rec.started_at,
        now,
        alive(pid),
        manager_alive_under(rec.manager_pid, alive),
    )
}

/// A well-formed row that a sweep retires.
pub open spec fn stale_row(
    m: Map<Seq<char>, Seq<char>>,
    k: Seq<char>,
    now: Timestamp,
    alive: spec_fn(u32) -> bool,
) -> bool {
    valid_row(m, k) && row_reason(m, k, now, alive) is Some
}

/// The rows that a sweep leaves: the well-formed rows it does not retire.
pub open spec fn after_sweep(
    m: Map<Seq<char>, Seq<char>>,
    now: Timestamp,
    alive: spec_fn(u32) -> bool,
) -> Map<Seq<char>, Seq<char>> {
    Map::new(|k: Seq<char>| valid_row(m, k) && !stale_row(m, k, now, alive), |k: Seq<char>| m[k])
}

/// The reason to retire a task row, given what liveness checks reported
/// for the process and for its manager.
pub fn cleanup_reason(
    pid: u32,
    record: &TaskRecord,
    now: &Timestamp,
    pid_alive: bool,
    manager_alive: bool,
) -> (r: Option<CleanupReason>)
    ensures
        r == reason_spec(
            pid,
            record.manager_pid,
            record.started_at,
            *now,
            pid_alive,
            manager_alive,
        ),
{
    if !pid_alive {
        return Some(CleanupReason::ProcessExited);
    }
    match record.manager_pid {
        Some(manager) => {
            if manager != pid && !manager_alive {
                return Some(CleanupReason::ManagerMissing);
            }
        },
        None => {},
    }
    if age_exceeds(&record.started_at, now) {
        Some(CleanupReason::Timeout)
    } else {
        None
    }
}

/// A row retired because its manager is gone or because it is too old
/// still has a running process, which is terminated before the row goes; a
/// row whose process exited has nothing to terminate.
pub fn terminates_child(reason: CleanupReason) -> (r: bool)
    ensures
        r == (reason != CleanupReason::ProcessExited),
{
    match reason {
        CleanupReason::ProcessExited => false,
        _ => true,
    }
}

/// The reason for the row under key `k` of `m` under the liveness answers
/// `a` (its process) and `mm` (its manager).
pub open spec fn row_reason_under(
    m: Map<Seq<char>, Seq<char>>,
    k: Seq<char>,
    now: Timestamp,
    a: bool,
    mm: bool,
) -> Option<CleanupReason> {
    let rec = decode_spec(m[k])->0;
    reason_spec(key_pid(k)->0, rec.manager_pid, rec.started_at, now, a, mm)
}

/// `a` and `mm` are answers that `f` may give about the process of the row
/// under `k` and, when it is asked, about that row's manager.
pub open spec fn row_observed<F: Fn(u32) -> bool>(
    f: F,
    m: Map<Seq<char>, Seq<char>>,
    k: Seq<char>,
    a: bool,
    mm: bool,
) -> bool {
    let rec = decode_spec(m[k])->0;
    let pid = key_pid(k)->0;
    &&& f.ensures((pid,), a)
    &&& (a && rec.manager_pid is Some && rec.manager_pid->0 != pid) ==> f.ensures(
        (rec.manager_pid->0,),
        mm,
    )
    &&& !(a && rec.manager_pid is Some && rec.manager_pid->0 != pid) ==> mm
}

/// The tag text of a cleanup reason.
pub fn reason_text(reason: CleanupReason) -> (r: &'static str)
    ensures
        r@ == reason_tag(reason),
{
    match reason {
        CleanupReason::ProcessExited => "process_exited",
        CleanupReason::Timeout => "timeout_cleanup",
        CleanupReason::ManagerMissing => "manager_missing",
    }
}

/// The reason for an entry under the liveness answers `a` (process) and
/// `mm` (manager).
pub open spec fn entry_reason(e: RegistryEntry, now: Timestamp, a: bool, mm: bool) -> Option<
    CleanupReason,
> {
    reason_spec(e.pid, e.record.manager_pid, e.record.started_at, now, a, mm)
}

/// `a` and `mm` are answers that `f` may give about the entry's process
/// and, when it is asked, about its manager.
pub open spec fn observed<F: Fn(u32) -> bool>(f: F, e: RegistryEntry, a: bool, mm: bool) -> bool {
    &&& f.ensures((e.pid,), a)
    &&& (a && e.record.manager_pid is Some && e.record.manager_pid->0 != e.pid) ==> f.ensures(
        (e.record.manager_pid->0,),
        mm,
    )
    &&& !(a && e.record.manager_pid is Some && e.record.manager_pid->0 != e.pid) ==> mm
}

proof fn lemma_observed_reason<F: Fn(u32) -> bool>(
    f: F,
    alive: spec_fn(u32) -> bool,
    e: RegistryEntry,
    m: Map<Seq<char>, Seq<char>>,
    now: Timestamp,
    a: bool,
    mm: bool,
)
    requires
        answers_as(f, alive),
        observed(f, e, a, mm),
        valid_row(m, e.key@),
        key_pid(e.key@) == Some(e.pid),
        decode_spec(m[e.key@]) == Some(e.record@),
    ensures
        entry_reason(e, now, a, mm) == row_reason(m, e.key@, now, alive),
{
    assert(f.ensures((e.pid,), a));
    if a && e.record.manager_pid is Some && e.record.manager_pid->0 != e.pid {
        assert(f.ensures((e.record.manager_pid->0,), mm));
    }
}

/// A well-formed row of `m` whose task completed and was not yet read.
pub open spec fn unread_row(m: Map<Seq<char>, Seq<char>>, k: Seq<char>) -> bool {
    valid_row(m, k) && decode_spec(m[k])->0.status == TaskStatus::CompletedButUnread
}

/// Some well-formed row of `m` names `pid` and holds `rec`, a completed and
/// unread task.
pub open spec fn completed_row(m: Map<Seq<char>, Seq<char>>, pid: u32, rec: RecordModel) -> bool {
    exists|k: Seq<char>|
        #[trigger] valid_row(m, k) && key_pid(k) == Some(pid) && decode_spec(m[k]) == Some(rec)
            && rec.status == TaskStatus::CompletedButUnread
}

/// The entries of `v` whose task completed and was not yet read, with the
/// position in `v` that each came from.
fn keep_completed(v: Vec<RegistryEntry>) -> (r: (Vec<(u32, TaskRecord)>, Ghost<Seq<int>>))
    ensures
        r.1@.len() == r.0.len(),
        forall|i: int|
            0 <= i < r.0.len() ==> {
                let x = #[trigger] r.1@[i];
                &&& 0 <= x < v.len()
                &&& r.0@[i].0 == v@[x].pid
                &&& r.0@[i].1@ == v@[x].record@
                &&& v@[x].record.status == TaskStatus::CompletedButUnread
            },
        forall|x: int|
            0 <= x < v.len() && (#[trigger] v@[x]).record.status == TaskStatus::CompletedButUnread
                ==> exists|i: int| 0 <= i < r.1@.len() && r.1@[i] == x,
{
    let ghost w = v@;
    let mut rest = v;
    let mut out: Vec<(u32, TaskRecord)> = Vec::new();
    let ghost mut src: Seq<int> = Seq::empty();
    while rest.len() > 0
        invariant
            rest@ == w.take(rest.len() as int),
            rest.len() <= w.len(),
            src.len() == out.len(),
            forall|i: int|
                0 <= i < out.len() ==> {
                    let x = #[trigger] src[i];
                    &&& rest.len() <= x < w.len()
                    &&& out@[i].0 == w[x].pid
                    &&& out@[i].1@ == w[x].record@
                    &&& w[x].record.status == TaskStatus::CompletedButUnread
                },
            forall|x: int|
                rest.len() <= x < w.len() && (#[trigger] w[x]).record.status
                    == TaskStatus::CompletedButUnread ==> exists|i: int| 0 <= i < src.len() && src[i] == x,
        decreases rest.len(),
    {
        let ghost old_src = src;
        let ghost old_out = out@;
        let entry = rest.pop().unwrap();
        let ghost x = rest.len() as int;
        assert(entry == w[x]);
        if entry.record.status == TaskStatus::CompletedButUnread {
            out.push((entry.pid, entry.record));
            proof {
                src = src.push(x);
                assert forall|i: int| 0 <= i < old_out.len() implies #[trigger] out@[i] == old_out[i]
                    && src[i] == old_src[i] by {}
            }
        }
        proof {
            assert(rest@ =~= w.take(rest.len() as int));
            assert forall|y: int|
                rest.len() <= y < w.len() && (#[trigger] w[y]).record.status
                    == TaskStatus::CompletedButUnread implies exists|i: int| 0 <= i < src.len() && src[i] == y by {
                if y == x {
                    assert(src[src.len() - 1] == x);
                } else {
                    let i = choose|i: int| 0 <= i < old_src.len() && old_src[i] == y;
                    assert(src[i] == y);
                }
            }
        }
    }
    (out, Ghost(src))
}

/// Every row of `m` is well-formed.
pub open spec fn all_valid(m: Map<Seq<char>, Seq<char>>) -> bool {
    forall|k: Seq<char>| #[trigger] m.contains_key(k) ==> valid_row(m, k)
}

impl View for TaskRegistry {
    type V = Map<Seq<char>, Seq<char>>;

    closed spec fn view(&self) -> Map<Seq<char>, Seq<char>> {
        stored_rows(self.map)
    }
}

impl TaskRegistry {
    /// Bytes of the shared segment in use.
    pub closed spec fn used_bytes(&self) -> nat {
        stored_used(self.map)
    }

    /// Bytes of the shared map's row area still free.
    pub closed spec fn free_bytes(&self) -> nat {
        stored_free(self.map)
    }

    /// No more than half of the shared map is in use, so rows can be taken
    /// out safely.
    pub open spec fn removal_safe(&self) -> bool {
        self.used_bytes() <= self.free_bytes()
    }

    /// A registry over an opened shared map.
    pub fn from_map(map: SharedMemoryHashMap<String, String>) -> (r: TaskRegistry)
        ensures
            r@ == stored_rows(map),
            r.used_bytes() == stored_used(map),
            r.free_bytes() == stored_free(map),
    {
        TaskRegistry { map }
    }

    /// Stores `record` under `pid`. An existing row is never replaced: the
    /// call fails with `KeyExists` and changes nothing. A row that does not
    /// fit in the free space fails with `Full` and changes nothing; one that
    /// fits is stored, and nothing else changes. (Another process that
    /// stores the same key between the check and the store would have its
    /// row replaced: the shared map offers no way to hold its lock across
    /// both.)
    pub fn register(&mut self, pid: u32, record: &TaskRecord) -> (r: Result<(), RegistryError>)
        ensures
            old(self)@.contains_key(pid_key(pid)) ==> r == Err::<(), RegistryError>(
                RegistryError::KeyExists(pid),
            ),
            !old(self)@.contains_key(pid_key(pid)) && entry_bytes(pid_key(pid), encode_spec(record@))
                <= old(self).free_bytes() ==> r is Ok,
            !old(self)@.contains_key(pid_key(pid)) && entry_bytes(pid_key(pid), encode_spec(record@))
                > old(self).free_bytes() ==> r == Err::<(), RegistryError>(RegistryError::Full),
            r is Ok ==> final(self)@ == old(self)@.insert(pid_key(pid), encode_spec(record@))
                && final(self).used_bytes() == old(self).used_bytes() + entry_bytes(
                pid_key(pid),
                encode_spec(record@),
            ),
            r is Err ==> final(self)@ == old(self)@ && final(self).used_bytes() == old(self).used_bytes()
                && final(self).free_bytes() == old(self).free_bytes(),
    {
        let key = nat_to_text(pid as u64);
        if map_contains_key(&mut self.map, &key) {
            return Err(RegistryError::KeyExists(pid));
        }
        let value = encode_record(record);
        let needed = map_entry_bytes(&key, &value);
        if needed > map_free(&self.map) {
            return Err(RegistryError::Full);
        }
        let _ = map_try_insert(&mut self.map, key, value);
        Ok(())
    }

    /// Takes out the row of `pid` and returns its record; a row that does
    /// not decode is still taken out, and reported as `Decode`. When more
    /// than half of the map is in use nothing is taken out (`Crowded`).
    pub fn remove(&mut self, pid: u32) -> (r: Result<Option<TaskRecord>, RegistryError>)
        ensures
            !old(self).removal_safe() ==> r == Err::<Option<TaskRecord>, RegistryError>(
                RegistryError::Crowded,
            ) && final(self)@ == old(self)@ && final(self).used_bytes() == old(self).used_bytes()
                && final(self).free_bytes() == old(self).free_bytes(),
            old(self).removal_safe() ==> {
                &&& final(self)@ == old(self)@.remove(pid_key(pid))
                &&& final(self).used_bytes() <= old(self).used_bytes()
                &&& final(self).free_bytes() >= old(self).free_bytes()
                &&& match r {
                    Ok(None) => !old(self)@.contains_key(pid_key(pid)),
                    Ok(Some(rec)) => old(self)@.contains_key(pid_key(pid)) && decode_spec(
                        old(self)@[pid_key(pid)],
                    ) == Some(rec@),
                    Err(e) => e == RegistryError::Decode(pid) && old(self)@.contains_key(pid_key(pid))
                        && decode_spec(old(self)@[pid_key(pid)]) is None,
                }
            },
    {
        if map_used(&self.map) > map_free(&self.map) {
            return Err(RegistryError::Crowded);
        }
        let key = nat_to_text(pid as u64);
        let stored = map_peek(&self.map, &key);
        map_remove(&mut self.map, &key);
        match stored {
            Some(text) => match decode_record(text.as_str()) {
                Some(rec) => Ok(Some(rec)),
                None => Err(RegistryError::Decode(pid)),
            },
            None => Ok(None),
        }
    }

    /// Lists the well-formed rows. Rows whose key is not a process id or
    /// whose value does not decode are deleted as part of the read; when
    /// there are such rows but more than half of the map is in use, the
    /// call fails with `Crowded` and changes nothing.
    pub fn entries(&mut self) -> (r: Result<Vec<RegistryEntry>, RegistryError>)
        ensures
            r is Ok <==> (old(self).removal_safe() || all_valid(old(self)@)),
            r is Ok ==> {
                &&& final(self)@ == valid_rows(old(self)@)
                &&& lists_valid_rows(r->Ok_0@, old(self)@)
                &&& final(self).used_bytes() <= old(self).used_bytes()
                &&& final(self).free_bytes() >= old(self).free_bytes()
            },
            r is Err ==> r == Err::<Vec<RegistryEntry>, RegistryError>(RegistryError::Crowded)
                && final(self)@ == old(self)@ && final(self).used_bytes() == old(self).used_bytes()
                && final(self).free_bytes() == old(self).free_bytes(),
    {
        let ghost m = self@;
        let ghost used0 = self.used_bytes();
        let ghost free0 = self.free_bytes();
        let snapshot = map_snapshot(&self.map);
        let mut out: Vec<RegistryEntry> = Vec::new();
        let mut bad: Vec<String> = Vec::new();
        let ghost mut idx: Seq<int> = Seq::empty();
        let mut i: usize = 0;
        while i < snapshot.len()
            invariant
                m == self@,
                i <= snapshot.len(),
                forall|j: int|
                    0 <= j < snapshot.len() ==> {
                        &&& m.contains_key((#[trigger] snapshot@[j]).0@)
                        &&& m[snapshot@[j].0@] == snapshot@[j].1@
                    },
                forall|a: int, b: int|
                    0 <= a < b < snapshot.len() ==> (#[trigger] snapshot@[a]).0@ != (
                    #[trigger] snapshot@[b]).0@,
                idx.len() == out.len(),
                forall|t: int|
                    0 <= t < out.len() ==> {
                        &&& 0 <= #[trigger] idx[t] < i
                        &&& out@[t].key@ == snapshot@[idx[t]].0@
                        &&& valid_row(m, out@[t].key@)
                        &&& key_pid(out@[t].key@) == Some(out@[t].pid)
                        &&& decode_spec(m[out@[t].key@]) == Some(out@[t].record@)
                    },
                forall|a: int, b: int| 0 <= a < b < idx.len() ==> #[trigger] idx[a] < #[trigger] idx[b],
                forall|t: int|
                    0 <= t < bad.len() ==> m.contains_key((#[trigger] bad@[t])@) && !valid_row(
                        m,
                        bad@[t]@,
                    ),
                forall|j: int|
                    0 <= j < i ==> (valid_row(m, (#[trigger] snapshot@[j]).0@) ==> exists|t: int|
                        0 <= t < out.len() && (#[trigger] out@[t]).key@ == snapshot@[j].0@),
                forall|j: int|
                    0 <= j < i ==> (!valid_row(m, (#[trigger] snapshot@[j]).0@) ==> exists|t: int|
                        0 <= t < bad.len() && (#[trigger] bad@[t])@ == snapshot@[j].0@),
            decreases snapshot.len() - i,
        {
            let row = &snapshot[i];
            let ghost k = row.0@;
            let ghost old_out = out@;
            let ghost old_bad = bad@;
            let ghost old_idx = idx;
            let parsed = parse_u32_text(row.0.as_str());
            let mut keep = false;
            match parsed {
                Some(pid) => match decode_record(row.1.as_str()) {
                    Some(rec) => {
                        out.push(RegistryEntry { pid, key: row.0.clone(), record: rec });
                        proof {
                            idx = idx.push(i as int);
                        }
                        keep = true;
                    },
                    None => {},
                },
                None => {},
            }
            if !keep {
                bad.push(row.0.clone());
            }
            proof {
                if keep {
                    assert(out@[out.len() - 1].key@ == k);
                    assert(out@ == old_out.push(out@[out.len() - 1]));
                    assert(idx == old_idx.push(i as int));
                    assert forall|t: int| 0 <= t < old_out.len() implies #[trigger] out@[t] == old_out[t]
                        && idx[t] == old_idx[t] by {}
                    assert(bad@ == old_bad);
                } else {
                    assert(bad@[bad.len() - 1]@ == k);
                    assert(bad@ == old_bad.push(bad@[bad.len() - 1]));
                    assert forall|t: int| 0 <= t < old_bad.len() implies #[trigger] bad@[t] == old_bad[t] by {}
                    assert(out@ == old_out);
                    assert(idx == old_idx);
                    assert(!valid_row(m, k));
                }
                assert forall|jj: int|
                    0 <= jj < i + 1 && !valid_row(m, (#[trigger] snapshot@[jj]).0@) implies exists|t: int|
                        0 <= t < bad.len() && (#[trigger] bad@[t])@ == snapshot@[jj].0@ by {
                    if jj < i {
                        let t = choose|t: int| 0 <= t < old_bad.len() && (#[trigger] old_bad[t])@ == snapshot@[jj].0@;
                        assert(bad@[t] == old_bad[t]);
                    } else {
                        assert(bad@[bad.len() - 1]@ == k);
                    }
                }
                assert forall|jj: int|
                    0 <= jj < i + 1 && valid_row(m, (#[trigger] snapshot@[jj]).0@) implies exists|t: int|
                        0 <= t < out.len() && (#[trigger] out@[t]).key@ == snapshot@[jj].0@ by {
                    if jj < i {
                        let t = choose|t: int| 0 <= t < old_out.len() && (#[trigger] old_out[t]).key@ == snapshot@[jj].0@;
                        assert(out@[t] == old_out[t]);
                    } else {
                        assert(out@[out.len() - 1].key@ == k);
                    }
                }
            }
            i = i + 1;
        }
        proof {
            assert forall|a: int, b: int| 0 <= a < b < out.len() implies (#[trigger] out@[a]).key@
                != (#[trigger] out@[b]).key@ by {
                assert(idx[a] < idx[b]);
            }
            assert forall|t: int| 0 <= t < out.len() implies {
                &&& valid_row(m, (#[trigger] out@[t]).key@)
                &&& key_pid(out@[t].key@) == Some(out@[t].pid)
                &&& decode_spec(m[out@[t].key@]) == Some(out@[t].record@)
            } by {
                assert(0 <= idx[t]);
            }
            assert forall|k: Seq<char>| #[trigger] valid_row(m, k) implies exists|t: int|
                0 <= t < out.len() && (#[trigger] out@[t]).key@ == k by {
                let jj = choose|jj: int| 0 <= jj < snapshot.len() && (#[trigger] snapshot@[jj]).0@ == k;
                assert(valid_row(m, snapshot@[jj].0@));
            }
            assert(lists_valid_rows(out@, m));
            if bad.len() == 0 {
                assert forall|k: Seq<char>| #[trigger] m.contains_key(k) implies valid_row(m, k) by {
                    let jj = choose|jj: int| 0 <= jj < snapshot.len() && (#[trigger] snapshot@[jj]).0@ == k;
                    if !valid_row(m, snapshot@[jj].0@) {
                        let t = choose|t: int| 0 <= t < bad.len() && (#[trigger] bad@[t])@ == snapshot@[jj].0@;
                    }
                }
            } else {
                assert(!valid_row(m, bad@[0]@));
            }
        }
        if bad.len() > 0 && map_used(&self.map) > map_free(&self.map) {
            return Err(RegistryError::Crowded);
        }

        let mut j: usize = 0;
        while j < bad.len()
            invariant
                j <= bad.len(),
                bad.len() > 0 ==> used0 <= free0,
                self.used_bytes() <= used0,
                self.free_bytes() >= free0,
                forall|t: int|
                    0 <= t < bad.len() ==> m.contains_key((#[trigger] bad@[t])@) && !valid_row(
                        m,
                        bad@[t]@,
                    ),
                forall|k: Seq<char>|
                    #[trigger] self@.contains_key(k) <==> (m.contains_key(k) && !(exists|t: int|
                        0 <= t < j && (#[trigger] bad@[t])@ == k)),
                forall|k: Seq<char>| #[trigger] self@.contains_key(k) ==> self@[k] == m[k],
            decreases bad.len() - j,
        {
            let ghost before = self@;
            let ghost gone = bad@[j as int]@;
            map_remove(&mut self.map, &bad[j]);
            assert(self@ == before.remove(gone));
            j = j + 1;
            proof {
                assert forall|k: Seq<char>| #[trigger] self@.contains_key(k) <==> (m.contains_key(k)
                    && !(exists|t: int| 0 <= t < j && (#[trigger] bad@[t])@ == k)) by {
                    if exists|t: int| 0 <= t < j && (#[trigger] bad@[t])@ == k {
                        let t = choose|t: int| 0 <= t < j && (#[trigger] bad@[t])@ == k;
                        if t < j - 1 {
                            assert(!before.contains_key(k));
                        }
                    } else {
                        assert(k != gone);
                        assert(!(exists|t: int| 0 <= t < j - 1 && (#[trigger] bad@[t])@ == k));
                    }
                }
            }
        }
        proof {
            assert forall|k: Seq<char>| #[trigger] self@.contains_key(k) <==> valid_row(m, k) by {
                if m.contains_key(k) {
                    let jj = choose|jj: int| 0 <= jj < snapshot.len() && (#[trigger] snapshot@[jj]).0@ == k;
                    if !valid_row(m, k) {
                        assert(!valid_row(m, snapshot@[jj].0@));
                    } else {
                        if exists|t: int| 0 <= t < bad.len() && (#[trigger] bad@[t])@ == k {
                            let t = choose|t: int| 0 <= t < bad.len() && (#[trigger] bad@[t])@ == k;
                            assert(!valid_row(m, bad@[t]@));
                        }
                    }
                }
            }
            assert(self@ =~= valid_rows(m));
        }
        Ok(out)
    }

    /// The well-formed rows whose task completed and was not yet read, as
    /// process id and record; malformed rows are deleted as by `entries`.
    pub fn get_completed_unread_tasks(&mut self) -> (r: Result<Vec<(u32, TaskRecord)>, RegistryError>)
        ensures
            r is Ok <==> (old(self).removal_safe() || all_valid(old(self)@)),
            r is Err ==> r == Err::<Vec<(u32, TaskRecord)>, RegistryError>(RegistryError::Crowded)
                && final(self)@ == old(self)@ && final(self).used_bytes() == old(self).used_bytes()
                && final(self).free_bytes() == old(self).free_bytes(),
            r is Ok ==> final(self)@ == valid_rows(old(self)@) && final(self).used_bytes() <= old(
                self,
            ).used_bytes() && final(self).free_bytes() >= old(self).free_bytes(),
            r is Ok ==> forall|i: int|
                0 <= i < r->Ok_0@.len() ==> completed_row(
                    old(self)@,
                    (#[trigger] r->Ok_0@[i]).0,
                    r->Ok_0@[i].1@,
                ),
            r is Ok ==> forall|k: Seq<char>|
                #[trigger] unread_row(old(self)@, k) ==> exists|i: int|
                    0 <= i < r->Ok_0@.len() && (#[trigger] r->Ok_0@[i]).0 == key_pid(k)->0,
    {
        let entries = match self.entries() {
            Ok(v) => v,
            Err(e) => return Err(e),
        };
        let ghost v = entries@;
        let ghost m = old(self)@;
        let (out, Ghost(src)) = keep_completed(entries);
        proof {
            assert forall|i: int| 0 <= i < out.len() implies completed_row(
                m,
                (#[trigger] out@[i]).0,
                out@[i].1@,
            ) by {
                let x = src[i];
                assert(valid_row(m, v[x].key@));
            }
        }
        let result: Result<Vec<(u32, TaskRecord)>, RegistryError> = Ok(out);
        proof {
            assert forall|k: Seq<char>| #[trigger] unread_row(m, k) implies exists|i: int|
                0 <= i < result->Ok_0@.len() && (#[trigger] result->Ok_0@[i]).0 == key_pid(k)->0 by {
                let y = choose|y: int| 0 <= y < v.len() && (#[trigger] v[y]).key@ == k;
                assert(v[y].record.status == TaskStatus::CompletedButUnread);
                let i = choose|i: int| 0 <= i < src.len() && src[i] == y;
                assert(result->Ok_0@[i].0 == v[y].pid);
            }
        }
        result
    }

    /// Takes out the row of `pid`, as [`TaskRegistry::remove`] does.
    pub fn remove_by_pid(&mut self, pid: u32) -> (r: Result<Option<TaskRecord>, RegistryError>)
        ensures
            !old(self).removal_safe() ==> r == Err::<Option<TaskRecord>, RegistryError>(
                RegistryError::Crowded,
            ) && final(self)@ == old(self)@ && final(self).used_bytes() == old(self).used_bytes()
                && final(self).free_bytes() == old(self).free_bytes(),
            old(self).removal_safe() ==> {
                &&& final(self)@ == old(self)@.remove(pid_key(pid))
                &&& final(self).used_bytes() <= old(self).used_bytes()
                &&& final(self).free_bytes() >= old(self).free_bytes()
                &&& match r {
                    Ok(None) => !old(self)@.contains_key(pid_key(pid)),
                    Ok(Some(rec)) => old(self)@.contains_key(pid_key(pid)) && decode_spec(
                        old(self)@[pid_key(pid)],
                    ) == Some(rec@),
                    Err(e) => e == RegistryError::Decode(pid) && old(self)@.contains_key(pid_key(pid))
                        && decode_spec(old(self)@[pid_key(pid)]) is None,
                }
            },
    {
        self.remove(pid)
    }

    /// Retires stale rows. Each well-formed row is checked in priority
    /// order: its process is not alive (`ProcessExited`); its manager is
    /// another process that is not alive (`ManagerMissing`, after
    /// terminating the process); it is older than the maximum age
    /// (`Timeout`, after terminating the process). Every retired row is
    /// reported once, with its record tagged, and all retired rows are
    /// deleted together after the pass; malformed rows are deleted too.
    /// Each event's reason, and the absence of one for each kept row, follow
    /// from answers that `process_alive` gave. Whenever `process_alive`
    /// answers as some fixed liveness `alive` does, the rows left and the
    /// events are exactly those that `alive` determines.
    pub fn sweep_stale_entries<F: Fn(u32) -> bool, T: Fn(u32)>(
        &mut self,
        now: Timestamp,
        process_alive: F,
        terminate: T,
    ) -> (r: Result<Vec<CleanupEvent>, RegistryError>)
        requires
            forall|p: u32| process_alive.requires((p,)),
            forall|p: u32| terminate.requires((p,)),
        ensures
            r is Ok <==> old(self).removal_safe(),
            r is Err ==> r == Err::<Vec<CleanupEvent>, RegistryError>(RegistryError::Crowded)
                && final(self)@ == old(self)@,
            r is Ok ==> forall|i: int|
                0 <= i < r->Ok_0@.len() ==> {
                    let e = #[trigger] r->Ok_0@[i];
                    &&& valid_row(old(self)@, e.key@)
                    &&& key_pid(e.key@) == Some(e.pid)
                    &&& e.record@ == cleaned_record(
                        decode_spec(old(self)@[e.key@])->0,
                        reason_tag(e.reason),
                        now,
                    )
                },
            r is Ok ==> forall|i: int, j: int|
                0 <= i < j < r->Ok_0@.len() ==> (#[trigger] r->Ok_0@[i]).key@ != (
                #[trigger] r->Ok_0@[j]).key@,
            r is Ok ==> forall|k: Seq<char>|
                #[trigger] final(self)@.contains_key(k) <==> (valid_row(old(self)@, k) && !(exists|
                    i: int,
                | 0 <= i < r->Ok_0@.len() && (#[trigger] r->Ok_0@[i]).key@ == k)),
            r is Ok ==> forall|k: Seq<char>| #[trigger] final(self)@.contains_key(k) ==> final(self)@[k] == old(
                self,
            )@[k],
            r is Ok ==> forall|i: int|
                0 <= i < r->Ok_0@.len() ==> exists|a: bool, mm: bool|
                    #[trigger] row_observed(process_alive, old(self)@, (#[trigger] r->Ok_0@[i]).key@, a, mm)
                        && Some(r->Ok_0@[i].reason) == row_reason_under(
                        old(self)@,
                        r->Ok_0@[i].key@,
                        now,
                        a,
                        mm,
                    ),
            r is Ok ==> forall|k: Seq<char>|
                #[trigger] final(self)@.contains_key(k) ==> exists|a: bool, mm: bool|
                    #[trigger] row_observed(process_alive, old(self)@, k, a, mm) && row_reason_under(
                        old(self)@,
                        k,
                        now,
                        a,
                        mm,
                    ) is None,
            r is Ok ==> forall|alive: spec_fn(u32) -> bool|
                #[trigger] answers_as(process_alive, alive) ==> {
                    &&& final(self)@ == after_sweep(old(self)@, now, alive)
                    &&& forall|i: int|
                        0 <= i < r->Ok_0@.len() ==> Some((#[trigger] r->Ok_0@[i]).reason)
                            == row_reason(old(self)@, r->Ok_0@[i].key@, now, alive)
                },
    {
        if map_used(&self.map) > map_free(&self.map) {
            return Err(RegistryError::Crowded);
        }
        let ghost m0 = self@;
        let entries = match self.entries() {
            Ok(v) => v,
            Err(e) => return Err(e),
        };
        let ghost m1 = self@;
        assert(self.removal_safe());
        let ghost v = entries@;
        let mut rest = entries;
        let mut events: Vec<CleanupEvent> = Vec::new();
        let ghost mut oa: Seq<bool> = Seq::new(v.len(), |i: int| true);
        let ghost mut om: Seq<bool> = Seq::new(v.len(), |i: int| true);
        let ghost mut eidx: Seq<int> = Seq::empty();
        while rest.len() > 0
            invariant
                self@ == m1,
                m1 == valid_rows(m0),
                lists_valid_rows(v, m0),
                rest@ == v.take(rest.len() as int),
                rest.len() <= v.len(),
                oa.len() == v.len(),
                om.len() == v.len(),
                forall|p: u32| process_alive.requires((p,)),
                forall|p: u32| terminate.requires((p,)),
                forall|x: int|
                    rest.len() <= x < v.len() ==> observed(process_alive, #[trigger] v[x], oa[x], om[x]),
                eidx.len() == events.len(),
                forall|t: int|
                    0 <= t < events.len() ==> {
                        let x = #[trigger] eidx[t];
                        &&& rest.len() <= x < v.len()
                        &&& events@[t].key@ == v[x].key@
                        &&& events@[t].pid == v[x].pid
                        &&& Some(events@[t].reason) == entry_reason(v[x], now, oa[x], om[x])
                        &&& events@[t].record@ == cleaned_record(
                            v[x].record@,
                            reason_tag(events@[t].reason),
                            now,
                        )
                    },
                forall|a: int, b: int| 0 <= a < b < eidx.len() ==> #[trigger] eidx[a] > #[trigger] eidx[b],
                forall|x: int|
                    rest.len() <= x < v.len() && (entry_reason(#[trigger] v[x], now, oa[x], om[x]) is Some)
                        ==> exists|t: int| 0 <= t < eidx.len() && eidx[t] == x,
            decreases rest.len(),
        {
            let ghost old_eidx = eidx;
            let ghost old_oa = oa;
            let ghost old_om = om;
            let ghost old_events = events@;
            let entry = rest.pop().unwrap();
            let ghost x = rest.len() as int;
            assert(entry == v[x]);
            let pid_alive = process_alive(entry.pid);
            let manager_alive = match entry.record.manager_pid {
                Some(manager) => if pid_alive && manager != entry.pid {
                    process_alive(manager)
                } else {
                    true
                },
                None => true,
            };
            let reason = cleanup_reason(entry.pid, &entry.record, &now, pid_alive, manager_alive);
            proof {
                oa = oa.update(x, pid_alive);
                om = om.update(x, manager_alive);
                assert(observed(process_alive, v[x], oa[x], om[x]));
                assert(reason == entry_reason(v[x], now, oa[x], om[x]));
            }
            match reason {
                Some(reason) => {
                    if terminates_child(reason) {
                        terminate(entry.pid);
                    }
                    let RegistryEntry { pid, key, record } = entry;
                    let record = record.with_cleanup_reason(reason_text(reason), now);
                    events.push(CleanupEvent { pid, key, record, reason });
                    proof {
                        eidx = eidx.push(x);
                        assert forall|t: int| 0 <= t < old_events.len() implies #[trigger] events@[t]
                            == old_events[t] && eidx[t] == old_eidx[t] by {}
                    }
                },
                None => {},
            }
            proof {
                assert(rest@ =~= v.take(rest.len() as int));
                assert forall|y: int| rest.len() <= y < v.len() implies observed(
                    process_alive,
                    #[trigger] v[y],
                    oa[y],
                    om[y],
                ) by {
                    if y != x {
                        assert(oa[y] == old_oa[y] && om[y] == old_om[y]);
                    }
                }
                assert forall|t: int| 0 <= t < events.len() implies {
                    let y = #[trigger] eidx[t];
                    &&& rest.len() <= y < v.len()
                    &&& events@[t].key@ == v[y].key@
                    &&& events@[t].pid == v[y].pid
                    &&& Some(events@[t].reason) == entry_reason(v[y], now, oa[y], om[y])
                    &&& events@[t].record@ == cleaned_record(
                        v[y].record@,
                        reason_tag(events@[t].reason),
                        now,
                    )
                } by {
                    if t < old_events.len() {
                        assert(old_eidx[t] > x);
                        assert(oa[old_eidx[t]] == old_oa[old_eidx[t]]);
                        assert(om[old_eidx[t]] == old_om[old_eidx[t]]);
                    }
                }
                assert forall|y: int|
                    rest.len() <= y < v.len() && (entry_reason(#[trigger] v[y], now, oa[y], om[y]) is Some)
                        implies exists|t: int| 0 <= t < eidx.len() && eidx[t] == y by {
                    if y == x {
                        assert(eidx[eidx.len() - 1] == x);
                    } else {
                        assert(oa[y] == old_oa[y] && om[y] == old_om[y]);
                        let t = choose|t: int| 0 <= t < old_eidx.len() && old_eidx[t] == y;
                        assert(eidx[t] == y);
                    }
                }
            }
        }
        proof {
            assert forall|a: int, b: int| 0 <= a < b < events.len() implies (#[trigger] events@[a]).key@
                != (#[trigger] events@[b]).key@ by {
                assert(eidx[a] > eidx[b]);
                assert(v[eidx[a]].key@ != v[eidx[b]].key@);
            }
        }

        let mut j: usize = 0;
        while j < events.len()
            invariant
                j <= events.len(),
                self.removal_safe(),
                forall|k: Seq<char>|
                    #[trigger] self@.contains_key(k) <==> (m1.contains_key(k) && !(exists|t: int|
                        0 <= t < j && (#[trigger] events@[t]).key@ == k)),
                forall|k: Seq<char>| #[trigger] self@.contains_key(k) ==> self@[k] == m1[k],
            decreases events.len() - j,
        {
            let ghost before = self@;
            let ghost gone = events@[j as int].key@;
            map_remove(&mut self.map, &events[j].key);
            assert(self@ == before.remove(gone));
            j = j + 1;
            proof {
                assert forall|k: Seq<char>| #[trigger] self@.contains_key(k) <==> (m1.contains_key(k)
                    && !(exists|t: int| 0 <= t < j && (#[trigger] events@[t]).key@ == k)) by {
                    if exists|t: int| 0 <= t < j && (#[trigger] events@[t]).key@ == k {
                        let t = choose|t: int| 0 <= t < j && (#[trigger] events@[t]).key@ == k;
                        if t < j - 1 {
                            assert(!before.contains_key(k));
                        }
                    } else {
                        assert(k != gone);
                        assert(!(exists|t: int| 0 <= t < j - 1 && (#[trigger] events@[t]).key@ == k));
                    }
                }
            }
        }
        proof {
            assert forall|t: int| 0 <= t < events.len() implies {
                let e = #[trigger] events@[t];
                &&& valid_row(m0, e.key@)
                &&& key_pid(e.key@) == Some(e.pid)
                &&& e.record@ == cleaned_record(decode_spec(m0[e.key@])->0, reason_tag(e.reason), now)
            } by {
                let y = eidx[t];
                assert(valid_row(m0, v[y].key@));
            }
            assert forall|y: int| 0 <= y < v.len() implies {
                &&& row_observed(process_alive, m0, (#[trigger] v[y]).key@, oa[y], om[y])
                &&& row_reason_under(m0, v[y].key@, now, oa[y], om[y]) == entry_reason(v[y], now, oa[y], om[y])
            } by {
                assert(valid_row(m0, v[y].key@));
                assert(observed(process_alive, v[y], oa[y], om[y]));
            }
            let ev = events@;
            assert forall|i: int| 0 <= i < ev.len() implies exists|a: bool, mm: bool|
                #[trigger] row_observed(process_alive, m0, (#[trigger] ev[i]).key@, a, mm) && Some(
                    ev[i].reason,
                ) == row_reason_under(m0, ev[i].key@, now, a, mm) by {
                let y = eidx[i];
                assert(row_observed(process_alive, m0, v[y].key@, oa[y], om[y]));
            }
            assert forall|k: Seq<char>| #[trigger] self@.contains_key(k) implies exists|a: bool, mm: bool|
                #[trigger] row_observed(process_alive, m0, k, a, mm) && row_reason_under(m0, k, now, a, mm)
                    is None by {
                let y = choose|y: int| 0 <= y < v.len() && (#[trigger] v[y]).key@ == k;
                assert(row_observed(process_alive, m0, v[y].key@, oa[y], om[y]));
                if entry_reason(v[y], now, oa[y], om[y]) is Some {
                    let t = choose|t: int| 0 <= t < eidx.len() && eidx[t] == y;
                    assert(events@[t].key@ == k);
                }
            }
            assert forall|alive: spec_fn(u32) -> bool| #[trigger] answers_as(process_alive, alive) implies {
                &&& self@ == after_sweep(m0, now, alive)
                &&& forall|i: int|
                    0 <= i < events.len() ==> Some((#[trigger] events@[i]).reason) == row_reason(
                        m0,
                        events@[i].key@,
                        now,
                        alive,
                    )
            } by {
                assert forall|y: int| 0 <= y < v.len() implies entry_reason(#[trigger] v[y], now, oa[y], om[y])
                    == row_reason(m0, v[y].key@, now, alive) by {
                    lemma_observed_reason(process_alive, alive, v[y], m0, now, oa[y], om[y]);
                }
                assert forall|i: int| 0 <= i < events.len() implies Some((#[trigger] events@[i]).reason)
                    == row_reason(m0, events@[i].key@, now, alive) by {
                    let y = eidx[i];
                    assert(entry_reason(v[y], now, oa[y], om[y]) == row_reason(m0, v[y].key@, now, alive));
                }
                assert forall|k: Seq<char>| #[trigger] self@.contains_key(k) <==> (valid_row(m0, k)
                    && !stale_row(m0, k, now, alive)) by {
                    if valid_row(m0, k) {
                        let y = choose|y: int| 0 <= y < v.len() && (#[trigger] v[y]).key@ == k;
                        assert(entry_reason(v[y], now, oa[y], om[y]) == row_reason(m0, v[y].key@, now, alive));
                        if stale_row(m0, k, now, alive) {
                            let t = choose|t: int| 0 <= t < eidx.len() && eidx[t] == y;
                            assert(events@[t].key@ == k);
                        } else {
                            if exists|t: int| 0 <= t < events.len() && (#[trigger] events@[t]).key@ == k {
                                let t = choose|t: int| 0 <= t < events.len() && (#[trigger] events@[t]).key@ == k;
                                let z = eidx[t];
                                assert(v[z].key@ == k);
                                assert(z == y);
                            }
                        }
                    }
                }
                assert(self@ =~= after_sweep(m0, now, alive));
            }
        }
        Ok(events)
    }
}

/// A registry operation whose outcome leaves the map as its contract says:
/// a register that stored the row or found the key taken, or a remove.
pub enum RegistryOp {
    Register(u32, RecordModel),
    Remove(u32),
}

/// The rows after one operation.
pub open spec fn apply_op(m: Map<Seq<char>, Seq<char>>, op: RegistryOp) -> Map<Seq<char>, Seq<char>> {
    match op {
        RegistryOp::Register(pid, rec) => if m.contains_key(pid_key(pid)) {
            m
        } else {
            m.insert(pid_key(pid), encode_spec(rec))
        },
        RegistryOp::Remove(pid) => m.remove(pid_key(pid)),
    }
}

/// The rows after a sequence of operations, first to last.
pub open spec fn apply_ops(m: Map<Seq<char>, Seq<char>>, ops: Seq<RegistryOp>) -> Map<Seq<char>, Seq<char>>
    decreases ops.len(),
{
    if ops.len() == 0 {
        m
    } else {
        apply_op(apply_ops(m, ops.drop_last()), ops.last())
    }
}

/// The process ids registered and not removed since.
pub open spec fn live_pids(ops: Seq<RegistryOp>) -> Set<u32>
    decreases ops.len(),
{
    if ops.len() == 0 {
        Set::empty()
    } else {
        match ops.last() {
            RegistryOp::Register(pid, _) => live_pids(ops.drop_last()).insert(pid),
            RegistryOp::Remove(pid) => live_pids(ops.drop_last()).remove(pid),
        }
    }
}

/// The rows of `m` are exactly the rows of the process ids in `s`, under
/// their own keys, each with a well-formed record.
spec fn rows_of(m: Map<Seq<char>, Seq<char>>, s: Set<u32>) -> bool {
    &&& forall|k: Seq<char>|
        #[trigger] m.contains_key(k) ==> key_pid(k) is Some && s.contains(key_pid(k)->0) && k == pid_key(
            key_pid(k)->0,
        )
    &&& forall|p: u32|
        #[trigger] s.contains(p) ==> m.contains_key(pid_key(p)) && decode_spec(m[pid_key(p)]) is Some
}

/// The key of a process id names that process id.
pub proof fn lemma_pid_key(pid: u32)
    ensures
        key_pid(pid_key(pid)) == Some(pid),
{
    lemma_parse_nat_text(pid as nat);
}

proof fn lemma_apply_ops_rows(ops: Seq<RegistryOp>)
    ensures
        rows_of(apply_ops(Map::empty(), ops), live_pids(ops)),
    decreases ops.len(),
{
    if ops.len() > 0 {
        let init = ops.drop_last();
        lemma_apply_ops_rows(init);
        let m = apply_ops(Map::empty(), init);
        let s = live_pids(init);
        match ops.last() {
            RegistryOp::Register(pid, rec) => {
                lemma_pid_key(pid);
                lemma_record_round_trip(rec);
                if m.contains_key(pid_key(pid)) {
                    assert(s.contains(pid));
                    assert(s.insert(pid) =~= s);
                }
                let m2 = apply_ops(Map::empty(), ops);
                let s2 = live_pids(ops);
                assert forall|p: u32| #[trigger] s2.contains(p) implies m2.contains_key(pid_key(p))
                    && decode_spec(m2[pid_key(p)]) is Some by {
                    if p != pid {
                        lemma_pid_key(p);
                        assert(pid_key(p) != pid_key(pid));
                    }
                }
            },
            RegistryOp::Remove(pid) => {
                lemma_pid_key(pid);
                let m2 = apply_ops(Map::empty(), ops);
                let s2 = live_pids(ops);
                assert forall|p: u32| #[trigger] s2.contains(p) implies m2.contains_key(pid_key(p))
                    && decode_spec(m2[pid_key(p)]) is Some by {
                    lemma_pid_key(p);
                    assert(pid_key(p) != pid_key(pid));
                }
            },
        }
    }
}

/// A listing that `entries` returns names exactly the reported process ids.
pub proof fn lemma_listing_pids(v: Seq<RegistryEntry>, m: Map<Seq<char>, Seq<char>>, p: u32)
    requires
        lists_valid_rows(v, m),
    ensures
        (exists|i: int| 0 <= i < v.len() && (#[trigger] v[i]).pid == p) <==> reported_pids(m).contains(p),
{
    if exists|i: int| 0 <= i < v.len() && (#[trigger] v[i]).pid == p {
        let i = choose|i: int| 0 <= i < v.len() && (#[trigger] v[i]).pid == p;
        assert(valid_row(m, v[i].key@) && key_pid(v[i].key@) == Some(p));
    }
    if reported_pids(m).contains(p) {
        let k = choose|k: Seq<char>| valid_row(m, k) && key_pid(k) == Some(p);
        let i = choose|i: int| 0 <= i < v.len() && (#[trigger] v[i]).key@ == k;
        assert(v[i].pid == p);
    }
}

/// Starting from an empty registry, after any sequence of registers and
/// removes, a listing reports exactly the process ids that were registered
/// and not removed since: never a removed one, always a live one.
pub proof fn lemma_listing_reports_live_pids(ops: Seq<RegistryOp>, listing: Seq<RegistryEntry>)
    requires
        lists_valid_rows(listing, apply_ops(Map::empty(), ops)),
    ensures
        reported_pids(apply_ops(Map::empty(), ops)) == live_pids(ops),
        forall|p: u32|
            (exists|i: int| 0 <= i < listing.len() && (#[trigger] listing[i]).pid == p) <==> #[trigger] live_pids(
                ops,
            ).contains(p),
{
    lemma_apply_ops_rows(ops);
    let m = apply_ops(Map::empty(), ops);
    let s = live_pids(ops);
    assert forall|p: u32| reported_pids(m).contains(p) <==> s.contains(p) by {
        if s.contains(p) {
            lemma_pid_key(p);
            assert(valid_row(m, pid_key(p)));
        }
        if reported_pids(m).contains(p) {
            let k = choose|k: Seq<char>| valid_row(m, k) && key_pid(k) == Some(p);
            assert(m.contains_key(k));
        }
    }
    assert(reported_pids(m) =~= s);
    assert forall|p: u32|
        (exists|i: int| 0 <= i < listing.len() && (#[trigger] listing[i]).pid == p) <==> #[trigger] s.contains(
            p,
        ) by {
        lemma_listing_pids(listing, m, p);
    }
}

/// A second sweep at the same time and under the same liveness retires
/// nothing and leaves the rows as they are.
pub proof fn lemma_second_sweep_retires_nothing(
    m: Map<Seq<char>, Seq<char>>,
    now: Timestamp,
    alive: spec_fn(u32) -> bool,
)
    ensures
        forall|k: Seq<char>| !#[trigger] stale_row(after_sweep(m, now, alive), k, now, alive),
        after_sweep(after_sweep(m, now, alive), now, alive) == after_sweep(m, now, alive),
{
    let m1 = after_sweep(m, now, alive);
    assert forall|k: Seq<char>| !#[trigger] stale_row(m1, k, now, alive) by {
        if m1.contains_key(k) {
            assert(m1[k] == m[k]);
        }
    }
    assert forall|k: Seq<char>| #[trigger] m1.contains_key(k) implies valid_row(m1, k) by {
        assert(m1[k] == m[k]);
    }
    assert(after_sweep(m1, now, alive) =~= m1);
}

/// When the process, its manager and the age limit all call for cleanup,
/// the reason is `ProcessExited`, and it is the only one: a sweep reports
/// each row at most once.
pub proof fn lemma_exited_comes_first(
    pid: u32,
    manager_pid: u32,
    started_at: Timestamp,
    now: Timestamp,
)
    requires
        age_exceeds_spec(started_at, now),
    ensures
        reason_spec(pid, Some(manager_pid), started_at, now, false, false) == Some(
            CleanupReason::ProcessExited,
        ),
{
}

/// A row that names its own process as manager is never retired as
/// `ManagerMissing`, whatever liveness reports.
pub proof fn lemma_self_managed_row(
    pid: u32,
    started_at: Timestamp,
    now: Timestamp,
    pid_alive: bool,
    manager_alive: bool,
)
    ensures
        reason_spec(pid, Some(pid), started_at, now, pid_alive, manager_alive) != Some(
            CleanupReason::ManagerMissing,
        ),
{
}

/// One registry call on this handle together with how it ended.
pub enum RegistryStep {
    /// `register` returning `Ok` or `KeyExists`.
    Register(u32, RecordModel),
    /// `remove` or `remove_by_pid`, returning anything but `Crowded`.
    Remove(u32),
    /// `entries` or `get_completed_unread_tasks` returning `Ok`.
    Listing,
    /// Any of these calls returning `Full` or `Crowded`.
    Refused,
}

/// The rows before and after a step, as the contract of its call states.
pub open spec fn step_holds(
    before: Map<Seq<char>, Seq<char>>,
    after: Map<Seq<char>, Seq<char>>,
    step: RegistryStep,
) -> bool {
    match step {
        RegistryStep::Register(pid, rec) => after == apply_op(before, RegistryOp::Register(pid, rec)),
        RegistryStep::Remove(pid) => after == before.remove(pid_key(pid)),
        RegistryStep::Listing => after == valid_rows(before),
        RegistryStep::Refused => after == before,
    }
}

/// `states` are the rows before the first step and after each step.
pub open spec fn is_run(states: Seq<Map<Seq<char>, Seq<char>>>, steps: Seq<RegistryStep>) -> bool {
    &&& states.len() == steps.len() + 1
    &&& forall|i: int| 0 <= i < steps.len() ==> #[trigger] step_holds(states[i], states[i + 1], steps[i])
}

/// The step may store a row under key `k`.
pub open spec fn writes_key(step: RegistryStep, k: Seq<char>) -> bool {
    match step {
        RegistryStep::Register(q, _) => pid_key(q) == k,
        _ => false,
    }
}

/// The step may take out the row of `pid`.
pub open spec fn may_drop(step: RegistryStep, pid: u32) -> bool {
    match step {
        RegistryStep::Remove(q) => q == pid,
        _ => false,
    }
}

/// No key of `m` other than the row key of `pid` names `pid`.
pub open spec fn only_own_key(m: Map<Seq<char>, Seq<char>>, pid: u32) -> bool {
    forall|k: Seq<char>| #[trigger] m.contains_key(k) && key_pid(k) == Some(pid) ==> k == pid_key(pid)
}

proof fn lemma_key_stays_absent(
    states: Seq<Map<Seq<char>, Seq<char>>>,
    steps: Seq<RegistryStep>,
    from: int,
    k: Seq<char>,
)
    requires
        is_run(states, steps),
        0 <= from <= steps.len(),
        !states[from].contains_key(k),
        forall|i: int| from <= i < steps.len() ==> !writes_key(#[trigger] steps[i], k),
    ensures
        !states[steps.len() as int].contains_key(k),
    decreases steps.len() - from,
{
    if from < steps.len() {
        assert(step_holds(states[from], states[from + 1], steps[from]));
        assert(!writes_key(steps[from], k));
        lemma_key_stays_absent(states, steps, from + 1, k);
    }
}

proof fn lemma_only_own_key_kept(
    states: Seq<Map<Seq<char>, Seq<char>>>,
    steps: Seq<RegistryStep>,
    from: int,
    pid: u32,
)
    requires
        is_run(states, steps),
        0 <= from <= steps.len(),
        only_own_key(states[from], pid),
    ensures
        only_own_key(states[steps.len() as int], pid),
    decreases steps.len() - from,
{
    if from < steps.len() {
        let before = states[from];
        let after = states[from + 1];
        assert(step_holds(before, after, steps[from]));
        assert forall|k: Seq<char>| #[trigger] after.contains_key(k) && key_pid(k) == Some(pid) implies k
            == pid_key(pid) by {
            match steps[from] {
                RegistryStep::Register(q, _) => {
                    if k == pid_key(q) && !before.contains_key(k) {
                        lemma_pid_key(q);
                    } else {
                        assert(before.contains_key(k));
                    }
                },
                _ => {
                    assert(before.contains_key(k));
                },
            }
        }
        lemma_only_own_key_kept(states, steps, from + 1, pid);
    }
}

proof fn lemma_row_stays(
    states: Seq<Map<Seq<char>, Seq<char>>>,
    steps: Seq<RegistryStep>,
    from: int,
    pid: u32,
    rec: RecordModel,
)
    requires
        is_run(states, steps),
        0 <= from <= steps.len(),
        states[from].contains_key(pid_key(pid)),
        states[from][pid_key(pid)] == encode_spec(rec),
        forall|i: int| from <= i < steps.len() ==> !may_drop(#[trigger] steps[i], pid),
    ensures
        states[steps.len() as int].contains_key(pid_key(pid)),
        states[steps.len() as int][pid_key(pid)] == encode_spec(rec),
    decreases steps.len() - from,
{
    if from < steps.len() {
        assert(step_holds(states[from], states[from + 1], steps[from]));
        assert(!may_drop(steps[from], pid));
        match steps[from] {
            RegistryStep::Remove(q) => {
                lemma_pid_key(q);
                lemma_pid_key(pid);
            },
            RegistryStep::Listing => {
                lemma_pid_key(pid);
                lemma_record_round_trip(rec);
                assert(valid_row(states[from], pid_key(pid)));
            },
            _ => {},
        }
        lemma_row_stays(states, steps, from + 1, pid, rec);
    }
}

/// After `remove(pid)`, and until `pid` is registered again, no listing
/// names the row key of `pid`; and when no other key of the starting
/// registry names `pid` (a key such as `05` does), no listing reports `pid`
/// at all. This holds whatever other calls fail or succeed in between.
pub proof fn lemma_removed_pid_not_listed(
    states: Seq<Map<Seq<char>, Seq<char>>>,
    steps: Seq<RegistryStep>,
    j: int,
    pid: u32,
    listing: Seq<RegistryEntry>,
)
    requires
        is_run(states, steps),
        0 <= j < steps.len(),
        steps[j] == RegistryStep::Remove(pid),
        forall|i: int| j < i < steps.len() ==> !writes_key(#[trigger] steps[i], pid_key(pid)),
        lists_valid_rows(listing, states[steps.len() as int]),
    ensures
        !states[steps.len() as int].contains_key(pid_key(pid)),
        forall|i: int| 0 <= i < listing.len() ==> (#[trigger] listing[i]).key@ != pid_key(pid),
        only_own_key(states[0], pid) ==> forall|i: int|
            0 <= i < listing.len() ==> (#[trigger] listing[i]).pid != pid,
{
    assert(step_holds(states[j], states[j + 1], steps[j]));
    lemma_key_stays_absent(states, steps, j + 1, pid_key(pid));
    let last = states[steps.len() as int];
    assert forall|i: int| 0 <= i < listing.len() implies (#[trigger] listing[i]).key@ != pid_key(pid) by {
        assert(valid_row(last, listing[i].key@));
    }
    if only_own_key(states[0], pid) {
        lemma_only_own_key_kept(states, steps, 0, pid);
        assert forall|i: int| 0 <= i < listing.len() implies (#[trigger] listing[i]).pid != pid by {
            assert(valid_row(last, listing[i].key@));
            assert(key_pid(listing[i].key@) == Some(listing[i].pid));
        }
    }
}

/// After a `register(pid, rec)` that stored the row, and as long as no
/// call removes `pid`, every listing reports `pid` under its own key with
/// `rec`, whatever other calls succeed or fail in between.
pub proof fn lemma_registered_pid_listed(
    states: Seq<Map<Seq<char>, Seq<char>>>,
    steps: Seq<RegistryStep>,
    j: int,
    pid: u32,
    rec: RecordModel,
    listing: Seq<RegistryEntry>,
)
    requires
        is_run(states, steps),
        0 <= j < steps.len(),
        steps[j] == RegistryStep::Register(pid, rec),
        !states[j].contains_key(pid_key(pid)),
        forall|i: int| j < i < steps.len() ==> !may_drop(#[trigger] steps[i], pid),
        lists_valid_rows(listing, states[steps.len() as int]),
    ensures
        exists|i: int|
            0 <= i < listing.len() && (#[trigger] listing[i]).key@ == pid_key(pid) && listing[i].pid == pid
                && listing[i].record@ == rec,
{
    assert(step_holds(states[j], states[j + 1], steps[j]));
    lemma_row_stays(states, steps, j + 1, pid, rec);
    let last = states[steps.len() as int];
    lemma_pid_key(pid);
    lemma_record_round_trip(rec);
    assert(valid_row(last, pid_key(pid)));
    let i = choose|i: int| 0 <= i < listing.len() && (#[trigger] listing[i]).key@ == pid_key(pid);
    assert(listing[i].pid == pid);
}

/// A row that a listing found malformed (its key names no process id, such
/// as `abc`, or its value does not decode) is gone after that listing, and
/// stays gone until a register stores a row under that very key.
pub proof fn lemma_malformed_row_stays_gone(
    states: Seq<Map<Seq<char>, Seq<char>>>,
    steps: Seq<RegistryStep>,
    j: int,
    k: Seq<char>,
    listing: Seq<RegistryEntry>,
)
    requires
        is_run(states, steps),
        0 <= j < steps.len(),
        steps[j] == RegistryStep::Listing,
        !valid_row(states[j], k),
        forall|i: int| j < i < steps.len() ==> !writes_key(#[trigger] steps[i], k),
        lists_valid_rows(listing, states[steps.len() as int]),
    ensures
        !states[steps.len() as int].contains_key(k),
        forall|i: int| 0 <= i < listing.len() ==> (#[trigger] listing[i]).key@ != k,
{
    assert(step_holds(states[j], states[j + 1], steps[j]));
    lemma_key_stays_absent(states, steps, j + 1, k);
    let last = states[steps.len() as int];
    assert forall|i: int| 0 <= i < listing.len() implies (#[trigger] listing[i]).key@ != k by {
        assert(valid_row(last, listing[i].key@));
    }
}

/// A sweep reports a process id at most once when no key of the swept
/// registry but the row key of that id names it: its events carry distinct
/// well-formed keys, each naming the event's process id.
pub proof fn lemma_one_event_per_pid(events: Seq<CleanupEvent>, m: Map<Seq<char>, Seq<char>>, pid: u32)
    requires
        only_own_key(m, pid),
        forall|i: int|
            0 <= i < events.len() ==> valid_row(m, (#[trigger] events[i]).key@) && key_pid(events[i].key@)
                == Some(events[i].pid),
        forall|i: int, j: int| 0 <= i < j < events.len() ==> (#[trigger] events[i]).key@ != (
        #[trigger] events[j]).key@,
    ensures
        forall|i: int, j: int|
            0 <= i < events.len() && 0 <= j < events.len() && (#[trigger] events[i]).pid == pid && (
            #[trigger] events[j]).pid == pid ==> i == j,
{
    assert forall|i: int, j: int|
        0 <= i < events.len() && 0 <= j < events.len() && (#[trigger] events[i]).pid == pid && (
        #[trigger] events[j]).pid == pid implies i == j by {
        assert(m.contains_key(events[i].key@) && m.contains_key(events[j].key@));
        if i < j {
            assert(events[i].key@ != events[j].key@);
        } else if j < i {
            assert(events[j].key@ != events[i].key@);
        }
    }
}

} // verus!
