//! The failures that the engine reports.

use vstd::prelude::*;
use vstd::string::StringExecFns;

verus! {

/// An event that does not fit the current state. Such an event changes
/// nothing and is never logged.
#[derive(Clone, Copy, Debug, PartialEq, Eq, Structural)]
pub enum StoreError {
    /// A queue with this id exists already.
    QueueAlreadyExists,
    /// No queue has this id.
    QueueNotFound,
    /// No message of the queue is in flight under this receipt handle.
    ReceiptHandleInvalid,
}

/// A failure of the event log.
#[derive(Clone, Copy, Debug, PartialEq, Eq, Structural)]
pub enum LogError {
    /// The event does not fit into one log record.
    EntryTooLarge,
    /// Every sequence number has been handed out.
    SequenceExhausted,
    /// The record could not be made durable.
    AppendFailed,
    /// The log is damaged before its last record; `offset` is where the
    /// damaged record starts.
    Corrupt { offset: usize },
    /// The log holds an event that the state before it does not admit;
    /// `sequence` is the number of that entry.
    Rejected { sequence: u64 },
}

/// What `handle_event` and `revive_from_log` can fail with.
#[derive(Clone, Copy, Debug, PartialEq, Eq, Structural)]
pub enum EngineError {
    Store(StoreError),
    Log(LogError),
}

impl StoreError {
    /// The error in words.
    pub open spec fn description(self) -> Seq<char> {
        match self {
            StoreError::QueueAlreadyExists => "queue already exists"@,
            StoreError::QueueNotFound => "queue not found"@,
            StoreError::ReceiptHandleInvalid => "receipt handle is invalid"@,
        }
    }

    /// The error in words.
    pub fn describe(&self) -> (text: String)
        ensures
            text@ == self.description(),
    {
        match self {
            StoreError::QueueAlreadyExists => String::from_str("queue already exists"),
            StoreError::QueueNotFound => String::from_str("queue not found"),
            StoreError::ReceiptHandleInvalid => String::from_str("receipt handle is invalid"),
        }
    }
}

impl LogError {
    /// The error in words.
    pub open spec fn description(self) -> Seq<char> {
        match self {
            LogError::EntryTooLarge => "event does not fit into a log record"@,
            LogError::SequenceExhausted => "log sequence numbers are exhausted"@,
            LogError::AppendFailed => "log append failed"@,
            LogError::Corrupt { .. } => "log is damaged before its last record"@,
            LogError::Rejected { .. } => "log holds an event that does not apply"@,
        }
    }

    /// The error in words.
    pub fn describe(&self) -> (text: String)
        ensures
            text@ == self.description(),
    {
        match self {
            LogError::EntryTooLarge => String::from_str("event does not fit into a log record"),
            LogError::SequenceExhausted => String::from_str("log sequence numbers are exhausted"),
            LogError::AppendFailed => String::from_str("log append failed"),
            LogError::Corrupt { .. } => String::from_str("log is damaged before its last record"),
            LogError::Rejected { .. } => String::from_str(
                "log holds an event that does not apply",
            ),
        }
    }
}

impl EngineError {
    /// The error in words.
    pub open spec fn description(self) -> Seq<char> {
        match self {
            EngineError::Store(error) => error.description(),
            EngineError::Log(error) => error.description(),
        }
    }

    /// The error in words.
    pub fn describe(&self) -> (text: String)
        ensures
            text@ == self.description(),
    {
        match self {
            EngineError::Store(error) => error.describe(),
            EngineError::Log(error) => error.describe(),
        }
    }
}

} // verus!
