use vstd::prelude::*;

verus! {

/// What the frame loop does once a frame has been rendered and presented.
#[derive(PartialEq, Eq, Structural, Debug, Clone, Copy)]
pub enum FrameAction {
    /// The frame finished early: wait this many nanoseconds before the next one.
    Sleep(u64),
    /// The frame used up its whole budget: report it and go straight on.
    Overrun,
}

/// Length of one frame, in nanoseconds, at `fps` frames per second.
pub open spec fn budget_nanos(fps: nat) -> nat {
    1_000_000_000nat / fps
}

/// The frame budget in nanoseconds: one second divided among `fps` frames,
/// rounded down to a whole nanosecond.
pub fn frame_budget_nanos(fps: u32) -> (r: u64)
    requires
        fps > 0,
    ensures
        r == budget_nanos(fps as nat),
{
    1_000_000_000u64 / (fps as u64)
}

/// Decides what follows a frame that took `elapsed_nanos` out of a budget of
/// `budget_nanos`: sleep for exactly the time left, or report an overrun
/// when nothing is left.
pub fn pace_frame(elapsed_nanos: u64, budget_nanos: u64) -> (r: FrameAction)
    ensures
        elapsed_nanos < budget_nanos ==> r == FrameAction::Sleep((budget_nanos - elapsed_nanos) as u64),
        elapsed_nanos >= budget_nanos ==> r == FrameAction::Overrun,
{
    if elapsed_nanos < budget_nanos {
        FrameAction::Sleep(budget_nanos - elapsed_nanos)
    } else {
        FrameAction::Overrun
    }
}

} // verus!
