use vstd::prelude::*;

verus! {

/// How long a run lasts, in nanoseconds: ten seconds.
pub const RUN_NANOS: u128 = 10_000_000_000;

/// Where a run stands.
#[derive(Debug, Copy, Clone, PartialEq, Eq, Structural)]
pub enum RunState {
    /// The deadline has not been seen to pass: another tick is due.
    Running,
    /// The deadline has passed: nothing more is done.
    Finished,
}

/// The state after the clock has been read between two ticks.
pub open spec fn next_state(state: RunState, elapsed_nanos: u128) -> RunState {
    match state {
        RunState::Running => if elapsed_nanos < RUN_NANOS {
            RunState::Running
        } else {
            RunState::Finished
        },
        RunState::Finished => RunState::Finished,
    }
}

/// Decides, between two ticks, whether another tick is due. The clock is
/// read only here, so a tick that has begun always completes; a finished
/// run stays finished.
pub fn advance(state: RunState, elapsed_nanos: u128) -> (next: RunState)
    ensures
        next == next_state(state, elapsed_nanos),
        state == RunState::Finished ==> next == RunState::Finished,
        state == RunState::Running ==> (next == RunState::Running <==> elapsed_nanos < RUN_NANOS),
{
    match state {
        RunState::Running => if elapsed_nanos < RUN_NANOS {
            RunState::Running
        } else {
            RunState::Finished
        },
        RunState::Finished => RunState::Finished,
    }
}

} // verus!
