use vstd::prelude::*;

verus! {

/// A raw handle of a kill-on-close containment object, as the operating
/// system gave it; closing it is left to whoever owns the resources.
#[derive(Clone, Copy, Debug, PartialEq, Eq, Structural)]
pub struct JobHandle {
    pub raw: isize,
}

/// Platform resources tied to one supervised child.
#[derive(Debug)]
pub struct ChildResources {
    pub job: Option<JobHandle>,
}

impl ChildResources {
    /// Resources of a child that process-group isolation alone contains.
    pub fn new() -> (r: ChildResources)
        ensures
            r.job is None,
    {
        ChildResources { job: None }
    }

    /// Resources of a child bound to a containment object.
    pub fn with_job(job: Option<JobHandle>) -> (r: ChildResources)
        ensures
            r.job == job,
    {
        ChildResources { job }
    }
}

/// What a null signal sent to a process reported.
#[derive(Clone, Copy, Debug, PartialEq, Eq, Structural)]
pub enum SignalProbe {
    Delivered,
    PermissionDenied,
    Failed,
}

/// A process exists when the null signal reached it, or was refused only
/// for lack of permission.
pub open spec fn probe_alive_spec(p: SignalProbe) -> bool {
    p == SignalProbe::Delivered || p == SignalProbe::PermissionDenied
}

pub fn process_alive_from_probe(probe: SignalProbe) -> (r: bool)
    ensures
        r == probe_alive_spec(probe),
{
    match probe {
        SignalProbe::Delivered => true,
        SignalProbe::PermissionDenied => true,
        SignalProbe::Failed => false,
    }
}

/// The steps of best-effort termination: check that the process exists,
/// ask it to stop, wait a grace period, check again, and force it only when
/// it is still there.
#[derive(Clone, Copy, Debug, PartialEq, Eq, Structural)]
pub enum TerminateStep {
    CheckAlive,
    SendTerminate,
    WaitGrace,
    RecheckAlive,
    SendKill,
    Done,
}

/// The step after `step`, whose outcome was `ok`: for the checks, whether
/// the process is alive; for the signals, whether the signal was sent.
pub open spec fn terminate_next_spec(step: TerminateStep, ok: bool) -> TerminateStep {
    match step {
        TerminateStep::CheckAlive => if ok {
            TerminateStep::SendTerminate
        } else {
            TerminateStep::Done
        },
        TerminateStep::SendTerminate => if ok {
            TerminateStep::WaitGrace
        } else {
            TerminateStep::SendKill
        },
        TerminateStep::WaitGrace => TerminateStep::RecheckAlive,
        TerminateStep::RecheckAlive => if ok {
            TerminateStep::SendKill
        } else {
            TerminateStep::Done
        },
        TerminateStep::SendKill => TerminateStep::Done,
        TerminateStep::Done => TerminateStep::Done,
    }
}

/// How many steps at most remain before `Done`.
pub open spec fn terminate_steps_left(step: TerminateStep) -> nat {
    match step {
        TerminateStep::CheckAlive => 5,
        TerminateStep::SendTerminate => 4,
        TerminateStep::WaitGrace => 3,
        TerminateStep::RecheckAlive => 2,
        TerminateStep::SendKill => 1,
        TerminateStep::Done => 0,
    }
}

pub fn next_terminate_step(step: TerminateStep, ok: bool) -> (r: TerminateStep)
    ensures
        r == terminate_next_spec(step, ok),
        step != TerminateStep::Done ==> terminate_steps_left(r) < terminate_steps_left(step),
{
    match step {
        TerminateStep::CheckAlive => if ok {
            TerminateStep::SendTerminate
        } else {
            TerminateStep::Done
        },
        TerminateStep::SendTerminate => if ok {
            TerminateStep::WaitGrace
        } else {
            TerminateStep::SendKill
        },
        TerminateStep::WaitGrace => TerminateStep::RecheckAlive,
        TerminateStep::RecheckAlive => if ok {
            TerminateStep::SendKill
        } else {
            TerminateStep::Done
        },
        TerminateStep::SendKill => TerminateStep::Done,
        TerminateStep::Done => TerminateStep::Done,
    }
}

} // verus!
