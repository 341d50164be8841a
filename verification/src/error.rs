//! The errors of a build: what kinds there are, and what the messages say.

use vstd::prelude::*;
use vstd::string::*;

verus! {

/// What kind of failure an error reports.
#[derive(Debug, Clone, Copy, PartialEq, Eq, Structural)]
pub enum ErrorKind {
    /// A manifest, an audio directory or an alias that is not there.
    NotFound,
    /// An alias that fits more than one bank.
    AmbiguousReference,
    /// A manifest that cannot be read as one, or that lacks a required field.
    MalformedInput,
    /// Reading, writing or creating a file failed.
    IoFailure,
}

/// An error: its kind, and a message for the user.
#[derive(Debug, Clone, PartialEq, Eq)]
pub struct BankError {
    pub kind: ErrorKind,
    pub message: String,
}

impl BankError {
    /// The message of the error.
    pub fn describe(&self) -> (s: String)
        ensures
            s@ == self.message@,
    {
        self.message.clone()
    }

    /// The error for a bank directory without a manifest.
    pub fn manifest_not_found(bank_dir: &str) -> (e: BankError)
        ensures
            e.kind == ErrorKind::NotFound,
            e.message@ == "bank.toml not found in: "@ + bank_dir@,
    {
        let mut message = "bank.toml not found in: ".to_string();
        message.append(bank_dir);
        BankError { kind: ErrorKind::NotFound, message }
    }

    /// The error for a bank without an audio directory.
    pub fn audio_dir_not_found(audio_dir: &str) -> (e: BankError)
        ensures
            e.kind == ErrorKind::NotFound,
            e.message@ == "Audio directory not found: "@ + audio_dir@,
    {
        let mut message = "Audio directory not found: ".to_string();
        message.append(audio_dir);
        BankError { kind: ErrorKind::NotFound, message }
    }

    /// The error for a missing banks directory.
    pub fn banks_dir_not_found(banks_root: &str) -> (e: BankError)
        ensures
            e.kind == ErrorKind::NotFound,
            e.message@ == "Banks directory not found: "@ + banks_root@,
    {
        let mut message = "Banks directory not found: ".to_string();
        message.append(banks_root);
        BankError { kind: ErrorKind::NotFound, message }
    }

    /// The error for a manifest that cannot be read as one, with the reason
    /// that the reader gave.
    pub fn invalid_manifest(reason: &str) -> (e: BankError)
        ensures
            e.kind == ErrorKind::MalformedInput,
            e.message@ == "Invalid TOML: "@ + reason@,
    {
        let mut message = "Invalid TOML: ".to_string();
        message.append(reason);
        BankError { kind: ErrorKind::MalformedInput, message }
    }

    /// The error for a step on files that failed: what was attempted, and
    /// the cause that the system gave.
    pub fn io_failure(attempt: &str, cause: &str) -> (e: BankError)
        ensures
            e.kind == ErrorKind::IoFailure,
            e.message@ == attempt@ + ": "@ + cause@,
    {
        let mut message = attempt.to_string();
        message.append(": ");
        message.append(cause);
        BankError { kind: ErrorKind::IoFailure, message }
    }
}

} // verus!
