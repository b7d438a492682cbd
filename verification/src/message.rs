//! The messages between the user, the engine and the workers.

use vstd::prelude::*;
use crate::byte_range::ByteRange;

verus! {

/// A command from the user to the engine.
#[derive(Clone, Copy, Debug, PartialEq, Eq, Structural)]
pub enum DownloadCommand {
    Pause,
    Start,
}

/// Which of the pause and resume buttons can be used.
#[derive(Clone, Copy, Debug, PartialEq, Eq, Structural)]
pub struct ButtonAvailability {
    pub pause_available: bool,
    pub resume_available: bool,
}

/// A message from the engine to a worker.
#[derive(Clone, Copy, Debug, PartialEq, Eq, Structural)]
pub enum EngineToWorkerMsg {
    Start,
    Stop,
    Reset,
    RefreshByteRange(ByteRange, bool),
    StartReuseConnection(ByteRange),
}

/// What a worker tells the engine.
#[derive(Clone, Copy, Debug, PartialEq, Eq, Structural)]
pub enum ToEngineMessage {
    ConnectionSuccess,
    Complete(ByteRange),
    HandshakeResponse { reuse: bool },
    ByteRangeRefreshSuccess { requested_range: ByteRange, reuse: bool },
    ByteRangeRefreshRefused { requested_range: ByteRange, reuse: bool },
    ByteRangeRefreshOverlapped {
        requested_range: ByteRange,
        refreshed_range: ByteRange,
        new_valid_range: ByteRange,
        reuse: bool,
    },
    Stopped,
    Failed,
}

/// A message from a worker to the engine, with the worker's number.
#[derive(Clone, Copy, Debug, PartialEq, Eq, Structural)]
pub struct WorkerToEngineMsg {
    pub worker_number: u8,
    pub message: ToEngineMessage,
}

} // verus!
