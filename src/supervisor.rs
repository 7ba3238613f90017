use vstd::prelude::*;

use crate::registry::{RegistryError, TaskRegistry, pid_key};
use crate::task_record::TaskRecord;

verus! {

pub open spec fn is_ascii_upper(c: char) -> bool {
    'A' <= c && c <= 'Z'
}

/// Two characters that are equal once ASCII letters are lowercased.
pub open spec fn same_ignoring_ascii_case(x: char, y: char) -> bool {
    ||| x == y
    ||| is_ascii_upper(x) && (x as u32) + 32 == (y as u32)
    ||| is_ascii_upper(y) && (y as u32) + 32 == (x as u32)
}

pub open spec fn eq_ignoring_ascii_case(a: Seq<char>, b: Seq<char>) -> bool {
    a.len() == b.len() && forall|i: int| 0 <= i < a.len() ==> #[trigger] same_ignoring_ascii_case(a[i], b[i])
}

fn char_eq_ignoring_ascii_case(x: char, y: char) -> (r: bool)
    ensures
        r == same_ignoring_ascii_case(x, y),
{
    if x == y {
        return true;
    }
    let xu = x as u32;
    let yu = y as u32;
    ('A' <= x && x <= 'Z' && xu + 32 == yu) || ('A' <= y && y <= 'Z' && yu + 32 == xu)
}

/// Whether `a` and `b` are equal once ASCII letters are lowercased.
pub fn eq_ignore_ascii_case(a: &str, b: &str) -> (r: bool)
    ensures
        r == eq_ignoring_ascii_case(a@, b@),
{
    let n = a.unicode_len();
    if n != b.unicode_len() {
        return false;
    }
    let mut i: usize = 0;
    while i < n
        invariant
            n == a@.len() == b@.len(),
            i <= n,
            forall|j: int| 0 <= j < i ==> #[trigger] same_ignoring_ascii_case(a@[j], b@[j]),
        decreases n - i,
    {
        if !char_eq_ignoring_ascii_case(a.get_char(i), b.get_char(i)) {
            return false;
        }
        i = i + 1;
    }
    true
}

/// What an invocation of the supervisor does.
#[derive(Clone, Copy, Debug, PartialEq, Eq, Structural)]
pub enum Invocation {
    /// No arguments: report the wrapped tool's version.
    VersionProbe,
    /// The single argument `wait`, in any case: wait for registered tasks.
    Wait,
    /// Run the wrapped tool; only a run whose first argument is `exec`, in
    /// any case, is registered.
    Supervise { register: bool },
}

pub open spec fn invocation_spec(arg_count: nat, first: Option<Seq<char>>) -> Invocation {
    if arg_count == 0 {
        Invocation::VersionProbe
    } else if arg_count == 1 && first is Some && eq_ignoring_ascii_case(first->0, "wait"@) {
        Invocation::Wait
    } else {
        Invocation::Supervise {
            register: first is Some && eq_ignoring_ascii_case(first->0, "exec"@),
        }
    }
}

/// Decides the mode of an invocation from its argument count and its first
/// argument (absent when there is none or it is not valid text).
pub fn classify_invocation(arg_count: usize, first: Option<&str>) -> (r: Invocation)
    ensures
        r == invocation_spec(arg_count as nat, match first {
            Some(s) => Some(s@),
            None => None,
        }),
{
    if arg_count == 0 {
        return Invocation::VersionProbe;
    }
    match first {
        Some(arg) => {
            if arg_count == 1 && eq_ignore_ascii_case(arg, "wait") {
                Invocation::Wait
            } else {
                Invocation::Supervise { register: eq_ignore_ascii_case(arg, "exec") }
            }
        },
        None => Invocation::Supervise { register: false },
    }
}

/// The child's exit code; a child ended by a signal has none and counts
/// as 1.
pub fn child_exit_code(code: Option<i32>) -> (r: i32)
    ensures
        r == match code {
            Some(c) => c,
            None => 1i32,
        },
{
    match code {
        Some(c) => c,
        None => 1,
    }
}

/// The process exit status for a result code: its low byte.
pub fn exit_status_byte(code: i32) -> (r: u8)
    ensures
        r as int == (code as int) % 256,
{
    let shifted: u64 = (code as i64 + 2_147_483_648i64) as u64;
    let r = (shifted % 256) as u8;
    assert((code as int) % 256 == (code as int + 2_147_483_648) % 256) by (nonlinear_arith);
    r
}

/// The registry row of a supervised child, removed exactly once: when the
/// run completes, or on whatever path leaves the supervisor first.
pub struct Registration {
    pid: u32,
    active: bool,
}

impl Registration {
    pub closed spec fn spec_pid(&self) -> u32 {
        self.pid
    }

    pub closed spec fn is_active(&self) -> bool {
        self.active
    }

    /// The row of `pid`, which was just registered.
    pub fn new(pid: u32) -> (r: Registration)
        ensures
            r.spec_pid() == pid,
            r.is_active(),
    {
        Registration { pid, active: true }
    }

    pub fn pid(&self) -> (r: u32)
        ensures
            r == self.spec_pid(),
    {
        self.pid
    }

    /// Removes the row if it was not removed yet; once it is, later calls
    /// do nothing. When the registry refuses to take rows out (`Crowded`)
    /// nothing changes and the registration stays active, so a later call
    /// can try again. The removed record is returned.
    pub fn release(&mut self, registry: &mut TaskRegistry) -> (r: Result<Option<TaskRecord>, RegistryError>)
        ensures
            final(self).spec_pid() == old(self).spec_pid(),
            !old(self).is_active() ==> !final(self).is_active() && final(registry)@ == old(registry)@
                && r matches Ok(None),
            old(self).is_active() && old(registry).removal_safe() ==> !final(self).is_active()
                && final(registry)@ == old(registry)@.remove(pid_key(old(self).spec_pid())),
            old(self).is_active() && !old(registry).removal_safe() ==> final(self).is_active()
                && final(registry)@ == old(registry)@ && r == Err::<Option<TaskRecord>, RegistryError>(
                RegistryError::Crowded,
            ),
    {
        if self.active {
            let r = registry.remove(self.pid);
            if !matches!(r, Err(RegistryError::Crowded)) {
                self.active = false;
            }
            r
        } else {
            Ok(None)
        }
    }
}

} // verus!
