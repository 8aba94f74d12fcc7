//! The failure taxonomy of the tool: every recoverable condition is a value of
//! [`Error`], classified by [`ErrorKind`].

use vstd::prelude::*;
use vstd::string::StringExecFns;
use crate::text::int_str;
use crate::text::i64_to_string;

verus! {

/// The classes of failure the tool distinguishes.
#[derive(Debug, Clone, Copy, PartialEq, Eq, Structural)]
pub enum ErrorKind {
    /// A described failure with no more specific class.
    GeneralError,
    /// A delegated subprocess exited non-zero or was terminated by a signal.
    SubcommandFailed,
    /// An attempt to declare the trunk branch as someone's diffbase.
    BranchCantBeDiffbase,
    /// A cycle detected while traversing the persisted tree.
    CorruptState,
}

/// A recoverable failure: a human-readable description plus its class.
#[derive(Debug)]
pub struct Error {
    pub description: String,
    pub kind: ErrorKind,
}

impl Error {
    /// A failure with no more specific class.
    pub fn general(s: String) -> (e: Error)
        ensures
            e.kind == ErrorKind::GeneralError,
            e.description@ == s@,
    {
        Error { description: s, kind: ErrorKind::GeneralError }
    }

    /// The failure reported when a delegated command exits non-zero.
    pub fn subcommand_fail(command: &str, code: i32) -> (e: Error)
        ensures
            e.kind == ErrorKind::SubcommandFailed,
            e.description@ == command@ + " exited with "@ + int_str(code as int),
    {
        let d = String::from_str(command).concat(" exited with ").concat(
            i64_to_string(code as i64).as_str(),
        );
        Error { description: d, kind: ErrorKind::SubcommandFailed }
    }

    /// The failure reported when a branch may not serve as a diffbase.
    pub fn branch_cant_be_diffbase(branch: &str) -> (e: Error)
        ensures
            e.kind == ErrorKind::BranchCantBeDiffbase,
            e.description@ == branch@ + " cannot be a diffbase."@,
    {
        let d = String::from_str(branch).concat(" cannot be a diffbase.");
        Error { description: d, kind: ErrorKind::BranchCantBeDiffbase }
    }

    /// The failure reported when the persisted tree holds a parent cycle.
    pub fn corrupt_state(s: String) -> (e: Error)
        ensures
            e.kind == ErrorKind::CorruptState,
            e.description@ == s@,
    {
        Error { description: s, kind: ErrorKind::CorruptState }
    }

    /// The human-readable description of this failure.
    pub fn description(&self) -> (d: &str)
        ensures
            d@ == self.description@,
    {
        self.description.as_str()
    }
}

} // verus!
