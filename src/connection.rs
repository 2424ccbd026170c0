//! The life of one wire connection, as a state machine driven by the events
//! that its runner reports, and what is done with each inbound frame.

use vstd::prelude::*;

verus! {

/// Where a connection stands.
#[derive(Clone, Copy, Debug, PartialEq, Eq, Structural)]
pub enum Phase {
    /// The initial ping is being sent.
    Probing,
    /// The socket is split and the client is being registered and joined.
    Registering,
    /// The sender and receiver tasks run.
    Running,
    /// One task ended; the client is being removed from the registry.
    Closing,
    /// Nothing is left to do.
    Terminal,
}

/// What the runner of a connection observed.
#[derive(Clone, Copy, Debug, PartialEq, Eq, Structural)]
pub enum ConnectionEvent {
    PingSent,
    PingFailed,
    Registered,
    TaskEnded,
    CleanedUp,
}

/// What the runner is to do next.
#[derive(Clone, Copy, Debug, PartialEq, Eq, Structural)]
pub enum ConnectionAction {
    /// Split the socket, register the client's channel and join its room.
    Register,
    /// Start the sender and receiver tasks.
    StartTasks,
    /// Abort the remaining task, then remove the client and leave its room.
    AbortAndCleanUp,
    /// Drop the connection.
    Close,
    /// The event does not apply in this phase.
    Ignore,
}

/// The transition table of a connection.
pub open spec fn transition(phase: Phase, event: ConnectionEvent) -> (Phase, ConnectionAction) {
    match (phase, event) {
        (Phase::Probing, ConnectionEvent::PingSent) => (Phase::Registering, ConnectionAction::Register),
        (Phase::Probing, ConnectionEvent::PingFailed) => (Phase::Terminal, ConnectionAction::Close),
        (Phase::Registering, ConnectionEvent::Registered) => (
            Phase::Running,
            ConnectionAction::StartTasks,
        ),
        (Phase::Running, ConnectionEvent::TaskEnded) => (
            Phase::Closing,
            ConnectionAction::AbortAndCleanUp,
        ),
        (Phase::Closing, ConnectionEvent::CleanedUp) => (Phase::Terminal, ConnectionAction::Close),
        _ => (phase, ConnectionAction::Ignore),
    }
}

/// The next phase and action of a connection in `phase` on `event`.
pub fn step(phase: Phase, event: ConnectionEvent) -> (r: (Phase, ConnectionAction))
    ensures
        r == transition(phase, event),
{
    match (phase, event) {
        (Phase::Probing, ConnectionEvent::PingSent) => (Phase::Registering, ConnectionAction::Register),
        (Phase::Probing, ConnectionEvent::PingFailed) => (Phase::Terminal, ConnectionAction::Close),
        (Phase::Registering, ConnectionEvent::Registered) => (
            Phase::Running,
            ConnectionAction::StartTasks,
        ),
        (Phase::Running, ConnectionEvent::TaskEnded) => (
            Phase::Closing,
            ConnectionAction::AbortAndCleanUp,
        ),
        (Phase::Closing, ConnectionEvent::CleanedUp) => (Phase::Terminal, ConnectionAction::Close),
        _ => (phase, ConnectionAction::Ignore),
    }
}

/// The kind of an inbound frame.
#[derive(Clone, Copy, Debug, PartialEq, Eq, Structural)]
pub enum FrameKind {
    Text,
    Binary,
    Ping,
    Pong,
    Close,
}

/// What the receiver does with an inbound frame.
#[derive(Clone, Copy, Debug, PartialEq, Eq, Structural)]
pub enum FrameAction {
    /// Keep reading.
    Continue,
    /// Post the text to the message webhook, then keep reading.
    ForwardToWebhook,
    /// Stop reading: the client closed the connection.
    Stop,
}

/// Inbound text goes to the webhook when one is configured and is never
/// broadcast; a close frame stops the receiver; other frames change nothing.
pub fn frame_action(kind: FrameKind, webhook_configured: bool) -> (r: FrameAction)
    ensures
        r == match kind {
            FrameKind::Text => if webhook_configured {
                FrameAction::ForwardToWebhook
            } else {
                FrameAction::Continue
            },
            FrameKind::Close => FrameAction::Stop,
            _ => FrameAction::Continue,
        },
{
    match kind {
        FrameKind::Text => if webhook_configured {
            FrameAction::ForwardToWebhook
        } else {
            FrameAction::Continue
        },
        FrameKind::Close => FrameAction::Stop,
        _ => FrameAction::Continue,
    }
}

} // verus!
