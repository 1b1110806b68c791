//! Error codes reported by the engine.
use vstd::prelude::*;

verus! {

/// Every way an operation of this crate can be rejected.
#[derive(Debug, Clone, Copy, PartialEq, Eq, Structural)]
pub enum TaskError {
    /// A group was chained to itself, or to a group it is already chained with.
    InvalidChaining,
    /// A group handle no longer resolves to a live group.
    InvalidGroupHandle,
    /// A task or group name was empty.
    InvalidItemName,
    /// A plan was requested from a list without a single live group.
    NoValidatedGroups,
    /// The executor has no worker.
    EmptyWorker,
    /// The executor is running.
    AlreadyExecuted,
    /// The executor is idle.
    AlreadyIdle,
}

impl TaskError {
    /// The text that describes this error.
    pub open spec fn message_text(self) -> Seq<char> {
        match self {
            TaskError::InvalidChaining => "Chaining group itself is forbidden."@,
            TaskError::InvalidGroupHandle => "Invalidated group handle."@,
            TaskError::InvalidItemName => "Item name is invalid."@,
            TaskError::NoValidatedGroups => "Validated group which can execute task is not exist."@,
            TaskError::EmptyWorker => "Worker is not set in executor."@,
            TaskError::AlreadyExecuted => "Executor is already being executed."@,
            TaskError::AlreadyIdle => "Executor is idle."@,
        }
    }

    /// Describes the error in words.
    pub fn message(&self) -> (text: String)
        ensures
            text@ == self.message_text(),
    {
        match self {
            TaskError::InvalidChaining => "Chaining group itself is forbidden.".to_string(),
            TaskError::InvalidGroupHandle => "Invalidated group handle.".to_string(),
            TaskError::InvalidItemName => "Item name is invalid.".to_string(),
            TaskError::NoValidatedGroups => "Validated group which can execute task is not exist.".to_string(),
            TaskError::EmptyWorker => "Worker is not set in executor.".to_string(),
            TaskError::AlreadyExecuted => "Executor is already being executed.".to_string(),
            TaskError::AlreadyIdle => "Executor is idle.".to_string(),
        }
    }
}

} // verus!
