//! Errors of running git as a child process.

use vstd::prelude::*;
use crate::strs::has_prefix;
use crate::utils::concatenate;

verus! {

#[verifier::external_type_specification]
#[verifier::external_body]
pub struct ExIoError(std::io::Error);

/// Why running git failed.
#[derive(Debug)]
pub enum ExecError {
    /// The repository has no working directory to run git in.
    NoWorkDir,
    /// The process could not be started or waited for.
    ProcessError(std::io::Error),
}

/// The text that `std::io::Error` displays.  Nothing is claimed of it.
#[verifier::external_body]
pub(crate) fn io_error_text(e: &std::io::Error) -> String {
    format!("{}", e)
}

impl ExecError {
    /// The error's message.
    pub fn message(&self) -> (r: String)
        ensures
            self is NoWorkDir ==> r@ == no_work_dir_text(),
            self is ProcessError ==> has_prefix(r@, process_failed_text()),
            exec_error_message(*self, r@),
    {
        proof {
            reveal_strlit("Repository has no working directory");
            reveal_strlit("Process execution failed: ");
        }
        match self {
            ExecError::NoWorkDir => {
                let r = String::from_str("Repository has no working directory");
                assert(r@ =~= no_work_dir_text());
                r
            },
            ExecError::ProcessError(e) => {
                let text = io_error_text(e);
                let r = concatenate("Process execution failed: ", text.as_str());
                assert(r@.subrange(0, process_failed_text().len() as int) =~= process_failed_text());
                r
            },
        }
    }
}

/// What the message of an error of running git is: the fixed text for a
/// missing working directory; for a process error, `Process execution
/// failed: ` and then the system's own message.
pub open spec fn exec_error_message(e: ExecError, r: Seq<char>) -> bool {
    match e {
        ExecError::NoWorkDir => r == no_work_dir_text(),
        ExecError::ProcessError(_) => has_prefix(r, process_failed_text()),
    }
}

/// `Process execution failed: `, which the message of a process error
/// starts with, before the system's own message.
pub open spec fn process_failed_text() -> Seq<char> {
    seq!['P', 'r', 'o', 'c', 'e', 's', 's', ' ', 'e', 'x', 'e', 'c', 'u', 't', 'i', 'o', 'n', ' ', 'f', 'a', 'i', 'l',
        'e', 'd', ':', ' ']
}

/// `Repository has no working directory`.
pub open spec fn no_work_dir_text() -> Seq<char> {
    seq!['R', 'e', 'p', 'o', 's', 'i', 't', 'o', 'r', 'y', ' ', 'h', 'a', 's', ' ', 'n', 'o', ' ', 'w', 'o', 'r', 'k',
        'i', 'n', 'g', ' ', 'd', 'i', 'r', 'e', 'c', 't', 'o', 'r', 'y']
}

} // verus!
