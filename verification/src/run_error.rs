//! Errors that running tasks can produce, kept apart from parse errors so that callers
//! can handle each kind on its own.
use vstd::prelude::*;

verus! {

/// `std::io::Error` is carried, unread, by the errors of spawning a command and of
/// reading its output.
#[verifier::external_type_specification]
#[verifier::external_body]
pub struct ExIoError(std::io::Error);

/// All errors that can occur while running tasks.
#[derive(Debug)]
pub enum RunError {
    /// A required task name was not found in the Mossfile.
    TaskNotFound(String),
    /// A shell command exited with a non-zero code.
    CommandFailed { task: String, cmd: String, code: i32 },
    /// A command was killed by a signal.
    CommandKilled { task: String, cmd: String },
    /// The operating system refused to spawn the process.
    SpawnFailed { task: String, cmd: String, source: std::io::Error },
    /// An I/O error occurred while reading the output of a process.
    Io { task: String, source: std::io::Error },
    /// The file watcher failed to start.
    WatcherInit { task: String, message: String },
    /// One or more commands of a parallel task failed.
    ParallelFailure { task: String, count: usize },
}

} // verus!
