use vstd::prelude::*;

verus! {

/// A signal or console event that reaches the supervisor.
#[derive(Clone, Copy, Debug, PartialEq, Eq, Structural)]
pub enum RelaySignal {
    Interrupt,
    Terminate,
    Other,
}

/// The slot value that means "no child to forward to".
pub const NO_TARGET: u32 = 0;

/// The process to terminate when `signal` arrives while the relay slot
/// holds `slot`: interrupts and termination requests go to the current
/// child, if there is one; anything else is ignored.
pub open spec fn relay_target_spec(signal: RelaySignal, slot: u32) -> Option<u32> {
    if signal != RelaySignal::Other && slot != NO_TARGET {
        Some(slot)
    } else {
        None
    }
}

pub fn relay_target(signal: RelaySignal, slot: u32) -> (r: Option<u32>)
    ensures
        r == relay_target_spec(signal, slot),
{
    match signal {
        RelaySignal::Other => None,
        _ => if slot != NO_TARGET {
            Some(slot)
        } else {
            None
        },
    }
}

} // verus!
