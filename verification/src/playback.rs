//! What the playback worker decides: which sample a trigger names, and what the worker
//! does next. The worker itself, which waits, plays and sleeps, is the caller's.

use vstd::prelude::*;
use vstd::string::*;
use crate::bytes::chars_of;
use crate::trigger::TriggerEvent;

verus! {

/// The least time, in milliseconds, between the end of one trigger's playback and the
/// start of the next.
pub const PACING_MILLIS: u64 = 300;

/// What has just happened to the worker.
#[derive(Clone, Copy, Debug, PartialEq, Eq, Structural)]
pub enum WorkerEvent {
    /// The worker has started.
    Started,
    /// A trigger has come off the queue.
    Received(TriggerEvent),
    /// The queue's sending side is closed and the queue is empty.
    Closed,
    /// The sample has played to its end.
    Played,
    /// The sample could not be found or decoded.
    Failed,
    /// The pause has passed.
    Paused,
}

/// What the worker is to do next.
#[derive(Clone, Copy, Debug, PartialEq, Eq, Structural)]
pub enum WorkerAction {
    /// Wait for the next trigger on the queue.
    Receive,
    /// Play the sample of this trigger to its end.
    Play(TriggerEvent),
    /// Sleep for this many milliseconds.
    Pause(u64),
    /// End the worker.
    Stop,
}

/// The worker's rule. A trigger that came off the queue is played; after the playback,
/// whether it succeeded or failed, the worker pauses; after the pause, and at the start,
/// it waits for the next trigger; it stops only when the queue is closed.
pub open spec fn next_action(event: WorkerEvent) -> WorkerAction {
    match event {
        WorkerEvent::Started => WorkerAction::Receive,
        WorkerEvent::Received(e) => WorkerAction::Play(e),
        WorkerEvent::Closed => WorkerAction::Stop,
        WorkerEvent::Played => WorkerAction::Pause(PACING_MILLIS),
        WorkerEvent::Failed => WorkerAction::Pause(PACING_MILLIS),
        WorkerEvent::Paused => WorkerAction::Receive,
    }
}

/// Decides what the worker does next.
pub fn worker_step(event: WorkerEvent) -> (action: WorkerAction)
    ensures
        action == next_action(event),
{
    match event {
        WorkerEvent::Started => WorkerAction::Receive,
        WorkerEvent::Received(e) => WorkerAction::Play(e),
        WorkerEvent::Closed => WorkerAction::Stop,
        WorkerEvent::Played => WorkerAction::Pause(PACING_MILLIS),
        WorkerEvent::Failed => WorkerAction::Pause(PACING_MILLIS),
        WorkerEvent::Paused => WorkerAction::Receive,
    }
}

/// The path of the sample that a trigger names: `sounds/<instrument>/<note>.flac`.
pub open spec fn sample_path_of(event: TriggerEvent) -> Seq<char> {
    "sounds/"@ + chars_of(event.instrument.text()) + "/"@ + chars_of(event.note.text()) + ".flac"@
}

/// Makes the path of the sample that a trigger names.
pub fn sample_path(event: &TriggerEvent) -> (path: String)
    ensures
        path@ == sample_path_of(*event),
{
    let mut path = String::from_str("sounds/");
    path.append(event.instrument.name());
    path.append("/");
    path.append(event.note.name());
    path.append(".flac");
    path
}

} // verus!
