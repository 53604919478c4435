//! The life of a capture session: what the interface does when the user
//! starts or stops the microphone and when the backend reports back.
//!
//! The channel and the analyzer of a session exist exactly while the
//! session is not stopped. Acquiring the device may take time and may fail;
//! only a session whose device was acquired runs.

use vstd::prelude::*;

verus! {

/// Where a session stands.
#[derive(Debug, Clone, Copy, PartialEq, Eq, Structural)]
pub enum SessionState {
    /// No capture; no channel and no analyzer exist.
    Stopped,
    /// Channel and analyzer exist; the backend is acquiring the device.
    Acquiring,
    /// The backend captures into the channel.
    Running,
}

/// What happens to a session.
#[derive(Debug, Clone, Copy, PartialEq, Eq, Structural)]
pub enum SessionEvent {
    /// The user asks for the capture to start.
    StartRequested,
    /// The backend has acquired the device.
    Acquired,
    /// The backend could not acquire the device or could not start.
    Failed,
    /// The user asks for the capture to stop.
    StopRequested,
}

/// What the interface has to do next.
#[derive(Debug, Clone, Copy, PartialEq, Eq, Structural)]
pub enum SessionAction {
    /// Nothing.
    Nothing,
    /// Create a fresh channel and analyzer and let the backend acquire the
    /// device.
    Acquire,
    /// Start the backend.
    Start,
    /// Stop the backend if it runs, and drop it, the channel, the analyzer
    /// and the loudness history.
    TearDown,
}

/// The state after `event`, and what to do on the way.
pub open spec fn next(state: SessionState, event: SessionEvent) -> (SessionState, SessionAction) {
    match (state, event) {
        (SessionState::Stopped, SessionEvent::StartRequested) => (
            SessionState::Acquiring,
            SessionAction::Acquire,
        ),
        (SessionState::Stopped, _) => (SessionState::Stopped, SessionAction::Nothing),
        (SessionState::Acquiring, SessionEvent::Acquired) => (
            SessionState::Running,
            SessionAction::Start,
        ),
        (SessionState::Acquiring, SessionEvent::StartRequested) => (
            SessionState::Acquiring,
            SessionAction::Nothing,
        ),
        (SessionState::Acquiring, _) => (SessionState::Stopped, SessionAction::TearDown),
        (SessionState::Running, SessionEvent::StartRequested) => (
            SessionState::Running,
            SessionAction::Nothing,
        ),
        (SessionState::Running, SessionEvent::Acquired) => (
            SessionState::Running,
            SessionAction::Nothing,
        ),
        (SessionState::Running, _) => (SessionState::Stopped, SessionAction::TearDown),
    }
}

/// The state after `event`, and what to do on the way.
pub fn step(state: SessionState, event: SessionEvent) -> (result: (SessionState, SessionAction))
    ensures
        result == next(state, event),
{
    match state {
        SessionState::Stopped => match event {
            SessionEvent::StartRequested => (SessionState::Acquiring, SessionAction::Acquire),
            _ => (SessionState::Stopped, SessionAction::Nothing),
        },
        SessionState::Acquiring => match event {
            SessionEvent::Acquired => (SessionState::Running, SessionAction::Start),
            SessionEvent::StartRequested => (SessionState::Acquiring, SessionAction::Nothing),
            _ => (SessionState::Stopped, SessionAction::TearDown),
        },
        SessionState::Running => match event {
            SessionEvent::StartRequested => (SessionState::Running, SessionAction::Nothing),
            SessionEvent::Acquired => (SessionState::Running, SessionAction::Nothing),
            _ => (SessionState::Stopped, SessionAction::TearDown),
        },
    }
}

/// Stopping always ends in the stopped state, and stopping again does
/// nothing.
pub proof fn lemma_stop_is_idempotent(state: SessionState)
    ensures
        next(state, SessionEvent::StopRequested).0 == SessionState::Stopped,
        next(next(state, SessionEvent::StopRequested).0, SessionEvent::StopRequested) == (
            SessionState::Stopped,
            SessionAction::Nothing,
        ),
{
}

/// Asking a session that acquires or runs to start changes nothing.
pub proof fn lemma_start_is_idempotent(state: SessionState)
    requires
        state != SessionState::Stopped,
    ensures
        next(state, SessionEvent::StartRequested) == (state, SessionAction::Nothing),
{
}

/// A failure of the backend leaves the session stopped, whatever it was.
pub proof fn lemma_failure_stops(state: SessionState)
    ensures
        next(state, SessionEvent::Failed).0 == SessionState::Stopped,
{
}

/// Channel and analyzer are created exactly on the way out of the stopped
/// state and dropped exactly on the way back into it, and the backend is
/// started exactly when the session begins to run.
pub proof fn lemma_actions_follow_states(state: SessionState, event: SessionEvent)
    ensures
        next(state, event).1 == SessionAction::Acquire <==> state == SessionState::Stopped && next(
            state,
            event,
        ).0 != SessionState::Stopped,
        next(state, event).1 == SessionAction::TearDown <==> state != SessionState::Stopped && next(
            state,
            event,
        ).0 == SessionState::Stopped,
        next(state, event).1 == SessionAction::Start <==> state != SessionState::Running && next(
            state,
            event,
        ).0 == SessionState::Running,
{
}

/// The loudness history after a frame: `level` is appended, and where the
/// history is then longer than `width`, its oldest entry is dropped.
pub open spec fn recorded(history: Seq<u16>, level: u16, width: nat) -> Seq<u16> {
    if history.len() + 1 > width {
        history.push(level).drop_first()
    } else {
        history.push(level)
    }
}

/// Records the loudness of a frame in `history`, which is drawn one entry
/// per pixel on a panel `width` pixels wide.
pub fn record(history: &mut Vec<u16>, level: u16, width: usize)
    ensures
        final(history)@ == recorded(old(history)@, level, width as nat),
{
    history.push(level);
    if history.len() > width {
        history.remove(0);
        assert(history@ =~= old(history)@.push(level).drop_first());
    }
}

} // verus!
