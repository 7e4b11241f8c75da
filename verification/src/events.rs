//! Execution events and the error taxonomy of one orchestration run.

use vstd::prelude::*;
use crate::config::ConfigId;
use crate::codec::DecodeError;

verus! {

/// One entry of the ordered event stream that an orchestration run emits
/// through the caller's sink. For a given configuration, `Start` happens
/// before its single terminal event (`Success`, `Failure` or `Timeout`);
/// across configurations no order is promised.
#[derive(Debug)]
pub enum ExecutionEvent {
    /// No configurations were requested; these defaults are used instead.
    UsingDefaultConfigs(Vec<ConfigId>),
    /// A worker for this configuration is about to run.
    Start(ConfigId),
    /// The worker exited cleanly; these are its raw output buffers.
    Success(ConfigId, Vec<Vec<u8>>),
    /// The worker itself failed; these are its diagnostic bytes.
    Failure(ConfigId, Vec<u8>),
    /// The worker exceeded the wall-clock budget and was terminated.
    Timeout(ConfigId),
}

/// Why a worker process failed outside the exit-code contract.
#[derive(Clone, Copy, Debug, PartialEq, Eq, Structural)]
pub enum ProcessFailure {
    /// The worker binary could not be spawned.
    SpawnFailed,
    /// The worker exited with a code outside the protocol's table.
    UnrecognisedExit(i32),
    /// The worker terminated without an exit code.
    NoExitCode,
}

/// The error taxonomy of one run. `Timeout` and worker failure are
/// first-class outcomes, not errors; everything here aborts at least the
/// originating worker's loop.
#[derive(Clone, Copy, Debug, PartialEq, Eq, Structural)]
pub enum ExecutionError {
    /// Defaults were requested but none are available: fatal before
    /// anything is spawned.
    NoDefaultConfigs,
    /// The worker's output channel does not hold a valid message.
    Protocol(DecodeError),
    /// Spawn failure or an exit code outside the contract.
    Process(ProcessFailure),
    /// The caller's event sink signalled failure.
    Callback,
}

/// How one worker invocation ended, as observed by the process layer.
#[derive(Clone, Copy, Debug, PartialEq, Eq, Structural)]
pub enum WorkerStatus {
    /// The process exited with this code.
    Exited(i32),
    /// The process was killed without an exit code.
    Signaled,
    /// The wall-clock budget expired and the process was terminated.
    TimedOut,
}

} // verus!
