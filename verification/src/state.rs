use vstd::prelude::*;

verus! {

/// Lifecycle of a swap record.
///
/// A record is created `Open` and moves exactly once to one of the two
/// terminal states: `Cancelled` (escrow returned to the sender) or
/// `Finalized` (escrow settled to the counterparty). Terminal records are
/// never mutated again and never deleted.
#[derive(Clone, Copy, PartialEq, Eq, Structural, Debug)]
pub enum SwapState {
    Open,
    Cancelled,
    Finalized,
}

impl SwapState {
    /// Whether the record has reached a terminal state.
    pub open spec fn spec_finished(&self) -> bool {
        *self != SwapState::Open
    }

    /// Whether the record has reached a terminal state.
    #[verifier::when_used_as_spec(spec_finished)]
    pub fn finished(&self) -> (r: bool)
        ensures
            r == self.spec_finished(),
    {
        match self {
            SwapState::Open => false,
            SwapState::Cancelled => true,
            SwapState::Finalized => true,
        }
    }
}

/// Whether `now` still lies inside the validity window fixed at start.
pub open spec fn within_window(now: u64, when_started: u64, duration_open: u64) -> bool {
    now as int <= when_started as int + duration_open as int
}

/// Evaluate the window check without overflowing the window's end.
pub fn window_open(now: u64, when_started: u64, duration_open: u64) -> (r: bool)
    ensures
        r == within_window(now, when_started, duration_open),
{
    now <= when_started || now - when_started <= duration_open
}

} // verus!
