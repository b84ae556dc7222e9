//! What can go wrong on the host's side.

use vstd::prelude::*;

verus! {

/// A failure of the host. Each one ends the run: nothing is tried again.
#[derive(Debug, PartialEq, Eq)]
pub enum AppError {
    /// The input image could not be read or decoded.
    ImageLoad { path: String, reason: String },
    /// The result could not be encoded or written.
    ImageSave { path: String, reason: String },
    /// The filter's module file is missing or is no loadable module.
    PluginLoad { path: String, reason: String },
    /// The module has no entry point.
    SymbolLoad { reason: String },
    /// The filter reported a status other than zero.
    PluginExec { code: i32 },
    /// A file could not be read.
    Io { path: String, reason: String },
}

impl AppError {
    /// Reads a filter's status: zero is success, and every other status is
    /// a failure that carries it.
    pub fn from_status(code: i32) -> (outcome: Result<(), AppError>)
        ensures
            code == 0 ==> outcome is Ok,
            code != 0 ==> outcome == Err::<(), AppError>(AppError::PluginExec { code }),
    {
        if code == 0 {
            Ok(())
        } else {
            Err(AppError::PluginExec { code })
        }
    }
}

} // verus!
