use vstd::prelude::*;

use crate::util::text::push_str;

verus! {

/// An I/O error from the operating system, carried through verified code.
#[verifier::external_type_specification]
#[verifier::external_body]
pub struct ExIoError(std::io::Error);

/// Why a subprocess could not be run to its end.
#[derive(Debug)]
pub enum SubprocessError {
    /// The process could not be started.
    ProcessSpawnError(std::io::Error),
    /// The process's exit status could not be read.
    ProcessWaitError(std::io::Error),
}

/// The operating system's description of an I/O error.
///
/// Calls `to_string` on the `std::io::Error`; the text comes from the operating system, so
/// nothing is claimed of it.
#[verifier::external_body]
fn io_error_text(e: &std::io::Error) -> String {
    e.to_string()
}

/// The text that starts the description of an error.
pub open spec fn subprocess_error_prefix(e: &SubprocessError) -> Seq<char> {
    match e {
        SubprocessError::ProcessSpawnError(_) => "Subprocess failed to spawn: "@,
        SubprocessError::ProcessWaitError(_) => "Failed to read the process's return code: "@,
    }
}

impl SubprocessError {
    /// A description of the error: what failed, then the operating system's own words.
    pub fn to_text(&self) -> (s: String)
        ensures
            exists|os_text: Seq<char>| s@ == subprocess_error_prefix(self) + os_text,
    {
        let (prefix, e) = match self {
            SubprocessError::ProcessSpawnError(e) => ("Subprocess failed to spawn: ", e),
            SubprocessError::ProcessWaitError(e) => ("Failed to read the process's return code: ", e),
        };
        let mut s = String::from_str(prefix);
        let os_text = io_error_text(e);
        push_str(&mut s, os_text.as_str());
        proof {
            assert(s@ == subprocess_error_prefix(self) + os_text@);
        }
        s
    }
}

} // verus!
