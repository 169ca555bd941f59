//! What a worker process does: it waits for a job, works on it, signals
//! completion, and exits when the manager closes its job channel.
//!
//! The worker's reads, writes and work are done by its caller. This module
//! decides what follows from each of them.

use crate::wire::{from_native_bytes, to_native_bytes, value, word};
use vstd::prelude::*;

verus! {

/// Where a worker stands.
#[derive(Debug, Clone, Copy, PartialEq, Eq)]
pub enum WorkerState {
    /// Blocked reading its job channel.
    Idle,
    /// Working on a job of `duration` seconds.
    Busy { duration: u32 },
    /// The job channel was closed; the worker is done.
    Terminated,
}

/// What happened to a worker.
#[derive(Debug, Clone, Copy, PartialEq, Eq)]
pub enum WorkerEvent {
    /// A read of the job channel returned `count` bytes into `bytes`; a
    /// count of zero is the end of the stream.
    Read { count: usize, bytes: [u8; 4] },
    /// The work on the current job is done.
    Finished,
}

/// What a worker has to do next.
#[derive(Debug, Clone, Copy, PartialEq, Eq)]
pub enum WorkerAction {
    /// Work for `seconds` seconds, then report `Finished`.
    Work { seconds: u64 },
    /// Write `payload` to the completion channel, then read the job channel
    /// again.
    Signal { payload: [u8; 4] },
    /// Exit with status zero.
    Exit,
}

/// The payload of a completion signal. Only its arrival matters to the
/// manager.
pub const COMPLETION: u32 = 0;

/// The worker's transitions: the state after `event` and what to do, or
/// nothing where `event` cannot happen in `state`.
///
/// An idle worker that reads a job becomes busy with it; one that reads the
/// end of the stream terminates. A busy worker that finishes signals
/// completion and is idle again. A busy worker reads nothing, so it never
/// terminates in the middle of a job, and a terminated worker does nothing.
pub open spec fn worker_step(state: WorkerState, event: WorkerEvent) -> Option<
    (WorkerState, WorkerAction),
> {
    match (state, event) {
        (WorkerState::Idle, WorkerEvent::Read { count, bytes }) => if count == 0 {
            Some((WorkerState::Terminated, WorkerAction::Exit))
        } else {
            Some(
                (
                    WorkerState::Busy { duration: value(bytes) },
                    WorkerAction::Work { seconds: value(bytes) as u64 },
                ),
            )
        },
        (WorkerState::Busy { duration }, WorkerEvent::Finished) => Some(
            (WorkerState::Idle, WorkerAction::Signal { payload: word(COMPLETION) }),
        ),
        _ => None,
    }
}

/// Advances a worker by one event.
pub fn run_worker(state: WorkerState, event: WorkerEvent) -> (next: Option<
    (WorkerState, WorkerAction),
>)
    ensures
        next == worker_step(state, event),
{
    match (state, event) {
        (WorkerState::Idle, WorkerEvent::Read { count, bytes }) => {
            if count == 0 {
                Some((WorkerState::Terminated, WorkerAction::Exit))
            } else {
                let duration = from_native_bytes(bytes);
                Some((WorkerState::Busy { duration }, WorkerAction::Work { seconds: duration as u64 }))
            }
        },
        (WorkerState::Busy { duration }, WorkerEvent::Finished) => {
            let payload = to_native_bytes(COMPLETION);
            Some((WorkerState::Idle, WorkerAction::Signal { payload }))
        },
        _ => None,
    }
}

} // verus!
