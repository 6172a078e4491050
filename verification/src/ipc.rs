//! Single-instance handoff: the message a second invocation sends, and the
//! decisions taken while claiming and releasing the instance socket.

use vstd::prelude::*;

verus! {

/// What a second invocation hands the running instance.
#[derive(Debug, Clone, PartialEq)]
pub struct IpcMessage {
    /// Directories to open as new tabs (empty: just focus the window).
    pub paths: Vec<String>,
}

/// Where claiming the instance socket stands.
#[derive(Debug, Clone, Copy, PartialEq, Eq)]
pub enum ClaimState {
    /// First bind attempt.
    Binding,
    /// The path was taken; connecting to see whether anyone listens.
    Probing,
    /// Nobody answered; removing the file a dead instance left.
    Removing,
    /// Binding again after clearing the stale file.
    Rebinding,
}

/// What the last step reported.
#[derive(Debug, Clone, Copy, PartialEq, Eq)]
pub enum ClaimEvent {
    /// The bind succeeded.
    Bound,
    /// The bind failed because the address is in use.
    AddrInUse,
    /// The step failed for any other reason.
    Failed,
    /// A connect to the path was answered.
    Answered,
    /// A connect to the path was refused.
    NoAnswer,
    /// The stale file is gone.
    Removed,
}

/// How a claim ends.
#[derive(Debug, Clone, Copy, PartialEq, Eq)]
pub enum Claim {
    /// This process owns the socket.
    Owned,
    /// A live instance owns it: hand it the paths instead.
    AlreadyRunning,
    /// The socket could not be bound: run without single-instance handoff.
    Unavailable,
}

/// The next step, or the end of the claim.
#[derive(Debug, Clone, Copy, PartialEq, Eq)]
pub enum ClaimStep {
    Next(ClaimState),
    Done(Claim),
}

/// Bind first, and clear the path only once a connect proves nobody is
/// home: a failed handoff does not mean the path is stale *now*, and two
/// instances starting together must not delete each other's live socket.
/// An event a state does not expect ends the claim as unavailable.
pub open spec fn claim_spec(state: ClaimState, event: ClaimEvent) -> ClaimStep {
    match (state, event) {
        (ClaimState::Binding, ClaimEvent::Bound) => ClaimStep::Done(Claim::Owned),
        (ClaimState::Binding, ClaimEvent::AddrInUse) => ClaimStep::Next(ClaimState::Probing),
        (ClaimState::Probing, ClaimEvent::Answered) => ClaimStep::Done(Claim::AlreadyRunning),
        (ClaimState::Probing, ClaimEvent::NoAnswer) => ClaimStep::Next(ClaimState::Removing),
        (ClaimState::Probing, ClaimEvent::Failed) => ClaimStep::Next(ClaimState::Removing),
        (ClaimState::Removing, ClaimEvent::Removed) => ClaimStep::Next(ClaimState::Rebinding),
        (ClaimState::Rebinding, ClaimEvent::Bound) => ClaimStep::Done(Claim::Owned),
        _ => ClaimStep::Done(Claim::Unavailable),
    }
}

/// One step of claiming the instance socket.
pub fn claim_next(state: ClaimState, event: ClaimEvent) -> (r: ClaimStep)
    ensures
        r == claim_spec(state, event),
{
    match state {
        ClaimState::Binding => match event {
            ClaimEvent::Bound => ClaimStep::Done(Claim::Owned),
            ClaimEvent::AddrInUse => ClaimStep::Next(ClaimState::Probing),
            _ => ClaimStep::Done(Claim::Unavailable),
        },
        ClaimState::Probing => match event {
            ClaimEvent::Answered => ClaimStep::Done(Claim::AlreadyRunning),
            ClaimEvent::NoAnswer | ClaimEvent::Failed => ClaimStep::Next(ClaimState::Removing),
            _ => ClaimStep::Done(Claim::Unavailable),
        },
        ClaimState::Removing => match event {
            ClaimEvent::Removed => ClaimStep::Next(ClaimState::Rebinding),
            _ => ClaimStep::Done(Claim::Unavailable),
        },
        ClaimState::Rebinding => match event {
            ClaimEvent::Bound => ClaimStep::Done(Claim::Owned),
            _ => ClaimStep::Done(Claim::Unavailable),
        },
    }
}

/// A live listener is never taken over: from any state, an answered
/// connect never leads to removing the socket file, and the only way to
/// the removal step is a probe nobody answered.
pub proof fn law_live_socket_is_left_alone(state: ClaimState, event: ClaimEvent)
    ensures
        claim_spec(state, ClaimEvent::Answered) != ClaimStep::Next(ClaimState::Removing),
        claim_spec(state, event) == ClaimStep::Next(ClaimState::Removing) ==> state == ClaimState::Probing
            && event != ClaimEvent::Answered,
{
}

/// On exit the socket file is removed only if it is still the one this
/// instance bound (same device and inode); if its metadata cannot be read,
/// or another instance has put its own socket there, it is left alone.
pub fn still_ours(current: Option<(u64, u64)>, bound: Option<(u64, u64)>) -> (r: bool)
    ensures
        r == (current is Some && bound == current),
{
    match current {
        Some(id) => match bound {
            Some(b) => b.0 == id.0 && b.1 == id.1,
            None => false,
        },
        None => false,
    }
}

} // verus!
