//! Connection supervisor: the per-connection control loop as a state
//! machine. The embedding application performs the transport work (reads,
//! writes, task spawning) and feeds the resulting events through
//! [`supervisor_step`]; the returned action tells it what to do next.
//!
//! A connection runs `Connecting → Admitted → Active → Closing → Closed`.
//! Admission rejection jumps straight to `Closed` — the transport is closed
//! with no frame ever sent, so a rejected connection never reaches `Active`.

use vstd::prelude::*;

verus! {

/// Where a connection stands in its lifecycle.
#[derive(Clone, Copy, Debug, PartialEq, Eq, Structural)]
pub enum ConnPhase {
    /// Transport handshake done, admission not yet decided.
    Connecting,
    /// Registered in the connection registry; listener not yet running.
    Admitted,
    /// Fanout listener running, read loop pumping inbound frames.
    Active,
    /// Teardown cascade in progress.
    Closing,
    /// Connection finished; nothing further happens.
    Closed,
}

/// What the transport or the registry reports to the supervisor.
#[derive(Clone, Copy, Debug, PartialEq, Eq, Structural)]
pub enum ConnEvent {
    /// The registry accepted the connection.
    AdmissionGranted,
    /// The registry rejected the connection (per-origin cap reached).
    AdmissionRejected,
    /// The connection's fanout listener task is running.
    ListenerStarted,
    /// One inbound text frame arrived.
    InboundText,
    /// One inbound read failed; the transport is still usable.
    InboundReadError,
    /// The inbound stream ended: the peer is gone.
    StreamEnded,
    /// The liveness re-check found the client evicted out-of-band.
    Evicted,
    /// The teardown cascade has finished.
    CleanupDone,
}

/// What the embedding application must do after a step.
#[derive(Clone, Copy, Debug, PartialEq, Eq, Structural)]
pub enum ConnAction {
    /// Spawn the fanout listener bound to this connection's outbound path.
    StartListener,
    /// Close the transport without sending any frame.
    CloseSilently,
    /// Hand the frame to the protocol handler, send its acknowledgement if
    /// any, then re-check liveness.
    HandleThenCheckAlive,
    /// Keep waiting for the next inbound frame.
    KeepReading,
    /// Run the teardown cascade for this client.
    RunTeardown,
    /// Nothing: the event does not apply to the current phase.
    DoNothing,
}

/// The transition relation of the supervisor, one step per event.
pub open spec fn spec_step(phase: ConnPhase, event: ConnEvent) -> (ConnPhase, ConnAction) {
    match (phase, event) {
        (ConnPhase::Connecting, ConnEvent::AdmissionGranted) => (
            ConnPhase::Admitted,
            ConnAction::StartListener,
        ),
        (ConnPhase::Connecting, ConnEvent::AdmissionRejected) => (
            ConnPhase::Closed,
            ConnAction::CloseSilently,
        ),
        (ConnPhase::Admitted, ConnEvent::ListenerStarted) => (
            ConnPhase::Active,
            ConnAction::KeepReading,
        ),
        (ConnPhase::Active, ConnEvent::InboundText) => (
            ConnPhase::Active,
            ConnAction::HandleThenCheckAlive,
        ),
        (ConnPhase::Active, ConnEvent::InboundReadError) => (
            ConnPhase::Active,
            ConnAction::KeepReading,
        ),
        (ConnPhase::Active, ConnEvent::StreamEnded) => (ConnPhase::Closing, ConnAction::RunTeardown),
        (ConnPhase::Active, ConnEvent::Evicted) => (ConnPhase::Closing, ConnAction::RunTeardown),
        (ConnPhase::Closing, ConnEvent::CleanupDone) => (ConnPhase::Closed, ConnAction::CloseSilently),
        _ => (phase, ConnAction::DoNothing),
    }
}

/// One supervisor step: the next phase and what to do.
pub fn supervisor_step(phase: ConnPhase, event: ConnEvent) -> (r: (ConnPhase, ConnAction))
    ensures
        r == spec_step(phase, event),
{
    match (phase, event) {
        (ConnPhase::Connecting, ConnEvent::AdmissionGranted) => (
            ConnPhase::Admitted,
            ConnAction::StartListener,
        ),
        (ConnPhase::Connecting, ConnEvent::AdmissionRejected) => (
            ConnPhase::Closed,
            ConnAction::CloseSilently,
        ),
        (ConnPhase::Admitted, ConnEvent::ListenerStarted) => (
            ConnPhase::Active,
            ConnAction::KeepReading,
        ),
        (ConnPhase::Active, ConnEvent::InboundText) => (
            ConnPhase::Active,
            ConnAction::HandleThenCheckAlive,
        ),
        (ConnPhase::Active, ConnEvent::InboundReadError) => (
            ConnPhase::Active,
            ConnAction::KeepReading,
        ),
        (ConnPhase::Active, ConnEvent::StreamEnded) => (ConnPhase::Closing, ConnAction::RunTeardown),
        (ConnPhase::Active, ConnEvent::Evicted) => (ConnPhase::Closing, ConnAction::RunTeardown),
        (ConnPhase::Closing, ConnEvent::CleanupDone) => (ConnPhase::Closed, ConnAction::CloseSilently),
        _ => (phase, ConnAction::DoNothing),
    }
}

/// A rejected connection is closed at once, silently, and never becomes
/// `Active`: from `Connecting`, admission rejection goes straight to
/// `Closed`, with closing the transport as the only action, and no event
/// leads anywhere from `Closed`.
pub proof fn lemma_rejected_never_active(event: ConnEvent)
    ensures
        spec_step(ConnPhase::Connecting, ConnEvent::AdmissionRejected) == (
            ConnPhase::Closed,
            ConnAction::CloseSilently,
        ),
        spec_step(ConnPhase::Closed, event).0 == ConnPhase::Closed,
        spec_step(ConnPhase::Closed, event).1 == ConnAction::DoNothing,
{
}

} // verus!
