//! The submit protocol: building the argument list for the external
//! configuration tool and interpreting its outcome. Spawning the subprocess
//! is left to the surrounding shell; the decisions stand here.

use vstd::prelude::*;
use crate::chars::{chars_of, string_of, trim_chars, trimmed};

verus! {

/// Why a submission failed.
#[derive(PartialEq, Eq, Debug)]
pub enum SubmitError {
    /// The target domain was empty after trimming; nothing was run.
    EmptyDomain,
    /// The external tool could not be started; carries the system error text.
    SpawnError(String),
    /// The external tool exited with a failure status; carries its standard
    /// error stream.
    ProcessFailed(String),
}

/// The operator-facing message for each submit failure.
pub open spec fn submit_message(e: SubmitError) -> Seq<char> {
    match e {
        SubmitError::EmptyDomain => "Error: Domain field is empty."@,
        SubmitError::SpawnError(d) => "Failed to execute command: "@ + d@,
        SubmitError::ProcessFailed(d) => "Command execution failed: "@ + d@,
    }
}

impl SubmitError {
    /// The short human-readable message shown for this failure.
    pub fn message(&self) -> (r: String)
        ensures
            r@ == submit_message(*self),
    {
        match self {
            SubmitError::EmptyDomain => "Error: Domain field is empty.".to_owned(),
            SubmitError::SpawnError(d) => "Failed to execute command: ".to_owned().concat(
                d.as_str(),
            ),
            SubmitError::ProcessFailed(d) => "Command execution failed: ".to_owned().concat(
                d.as_str(),
            ),
        }
    }
}

/// The argument sequence handed to the external configuration tool.
pub open spec fn submit_args_model(file_path: Seq<char>, domain: Seq<char>) -> Seq<Seq<char>> {
    seq!["change-set"@, "post"@, file_path, "-d"@, domain]
}

/// Decides whether a submit may start, and with which arguments: an empty
/// domain (after trimming) is refused before any process is started;
/// otherwise the external tool is to be run with
/// `change-set post <file_path> -d <domain>`.
pub fn submit_args(file_path: &str, domain: &str) -> (r: Result<Vec<String>, SubmitError>)
    ensures
        trimmed(domain@).len() == 0 ==> r matches Err(SubmitError::EmptyDomain),
        trimmed(domain@).len() > 0 ==> (r matches Ok(args) && args@.map_values(|s: String| s@)
            == submit_args_model(file_path@, domain@)),
{
    let domain_chars = chars_of(domain);
    let t = trim_chars(&domain_chars);
    if t.len() == 0 {
        return Err(SubmitError::EmptyDomain);
    }
    let mut args: Vec<String> = Vec::new();
    args.push("change-set".to_owned());
    args.push("post".to_owned());
    args.push(file_path.to_owned());
    args.push("-d".to_owned());
    args.push(domain.to_owned());
    proof {
        assert(args@.map_values(|s: String| s@) =~= submit_args_model(file_path@, domain@));
    }
    Ok(args)
}

/// Interprets the exit of the external tool: on success the identifier is
/// its standard output trimmed of surrounding whitespace; on failure the
/// diagnostic is its standard error stream, verbatim.
pub fn interpret_outcome(exit_success: bool, stdout: &str, stderr: &str) -> (r: Result<
    String,
    SubmitError,
>)
    ensures
        exit_success ==> (r matches Ok(id) && id@ == trimmed(stdout@)),
        !exit_success ==> (r matches Err(SubmitError::ProcessFailed(m)) && m@ == stderr@),
{
    if exit_success {
        let v = chars_of(stdout);
        let t = trim_chars(&v);
        Ok(string_of(&t))
    } else {
        Err(SubmitError::ProcessFailed(stderr.to_owned()))
    }
}

} // verus!
