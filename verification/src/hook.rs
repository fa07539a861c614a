//! Caller-supplied recipe hooks: how a snippet is handed to a shell, and what its
//! end means.
//!
//! A recipe is a shell snippet written by the workflow author. It is passed to the
//! platform shell verbatim: no quoting, word splitting or interpolation happens
//! here, so a recipe behaves exactly as it would in a `run:` step.
//!
//! Failures are reported by the hook's role, never by echoing the snippet: a
//! recipe that had a credential written into it would otherwise print it on every
//! failure, and diagnosing which hook broke does not need the text.

use crate::text;
use vstd::prelude::*;
use vstd::string::*;

verus! {

/// The error of `String::from_utf8`.
#[verifier::external_type_specification]
#[verifier::external_body]
pub struct ExFromUtf8Error(std::string::FromUtf8Error);

/// `String::from_utf8` gives the text that the bytes encode in UTF-8, and fails if
/// and only if they encode none.
pub assume_specification[ String::from_utf8 ](vec: Vec<u8>) -> (res: Result<
    String,
    std::string::FromUtf8Error,
>)
    ensures
        match res {
            Ok(s) => vstd::utf8::valid_utf8(vec@) && s@ == vstd::utf8::decode_utf8(vec@),
            Err(_) => !vstd::utf8::valid_utf8(vec@),
        },
;

/// A program and its arguments.
#[derive(Debug)]
pub struct Shell {
    /// The program.
    pub program: String,
    /// Its arguments, in order.
    pub args: Vec<String>,
}

/// How a hook ended.
#[derive(Debug)]
pub enum Ended {
    /// The shell could not be started.
    NotStarted,
    /// The shell ran, and this is its exit status.
    Exited { success: bool, status: String },
}

/// Why a hook failed.
#[derive(Debug)]
pub enum HookError {
    /// The shell could not be started.
    NotStarted { role: String },
    /// The snippet failed with this status.
    Failed { role: String, status: String },
    /// The snippet printed bytes that are no text.
    NotText { role: String },
}

/// The program that runs snippets.
pub open spec fn program_of(windows: bool) -> Seq<char> {
    if windows {
        "pwsh"@
    } else {
        "bash"@
    }
}

/// The arguments with which it runs `script`. `pipefail` matters: enumerate
/// snippets are usually pipelines ending in a filter, and without it a failing
/// lister upstream looks like an empty suite.
pub open spec fn arguments_of(windows: bool, script: Seq<char>) -> Seq<Seq<char>> {
    if windows {
        seq!["-NoProfile"@, "-Command"@, script]
    } else {
        seq!["-eo"@, "pipefail"@, "-c"@, script]
    }
}

/// How to run `script`, on Windows or elsewhere.
pub fn shell(windows: bool, script: &str) -> (out: Shell)
    ensures
        out.program@ == program_of(windows),
        text::views(out.args@) == arguments_of(windows, script@),
        windows ==> {
            &&& out.program@ == "pwsh"@
            &&& out.args@.len() == 3
            &&& out.args@[0]@ == "-NoProfile"@
            &&& out.args@[1]@ == "-Command"@
            &&& out.args@[2]@ == script@
        },
        !windows ==> {
            &&& out.program@ == "bash"@
            &&& out.args@.len() == 4
            &&& out.args@[0]@ == "-eo"@
            &&& out.args@[1]@ == "pipefail"@
            &&& out.args@[2]@ == "-c"@
            &&& out.args@[3]@ == script@
        },
{
    let mut args: Vec<String> = Vec::new();
    if windows {
        args.push("-NoProfile".to_owned());
        args.push("-Command".to_owned());
        args.push(script.to_owned());
        assert(text::views(args@) == arguments_of(windows, script@));
        Shell { program: "pwsh".to_owned(), args }
    } else {
        args.push("-eo".to_owned());
        args.push("pipefail".to_owned());
        args.push("-c".to_owned());
        args.push(script.to_owned());
        assert(text::views(args@) == arguments_of(windows, script@));
        Shell { program: "bash".to_owned(), args }
    }
}

/// `error` says of the hook with this role that it ended as it did.
pub open spec fn reports(error: HookError, role: Seq<char>, ended: Ended) -> bool {
    match error {
        HookError::NotStarted { role: named } => named@ == role && ended is NotStarted,
        HookError::Failed { role: named, status: told } => {
            &&& named@ == role
            &&& ended matches Ended::Exited { success, status } && !success && told@ == status@
        },
        HookError::NotText { .. } => false,
    }
}

/// The snippet ran and succeeded.
pub open spec fn succeeded(ended: Ended) -> bool {
    ended matches Ended::Exited { success, .. } && success
}

/// What the end of a hook means, going by its exit status alone.
pub fn status(role: &str, ended: Ended) -> (out: Result<(), HookError>)
    ensures
        match out {
            Ok(()) => succeeded(ended),
            Err(error) => !succeeded(ended) && reports(error, role@, ended),
        },
        match ended {
            Ended::NotStarted => out matches Err(HookError::NotStarted { role: named }) && named@
                == role@,
            Ended::Exited { success, status } => if success {
                out is Ok
            } else {
                out matches Err(HookError::Failed { role: named, status: told }) && named@ == role@
                    && told@ == status@
            },
        },
{
    match ended {
        Ended::NotStarted => Err(HookError::NotStarted { role: role.to_owned() }),
        Ended::Exited { success, status } => {
            if success {
                Ok(())
            } else {
                Err(HookError::Failed { role: role.to_owned(), status })
            }
        },
    }
}

/// What a hook printed, given how it ended and the bytes on its stdout.
pub fn capture(role: &str, ended: Ended, stdout: Vec<u8>) -> (out: Result<String, HookError>)
    ensures
        match out {
            Ok(printed) => {
                &&& succeeded(ended)
                &&& vstd::utf8::valid_utf8(stdout@)
                &&& printed@ == vstd::utf8::decode_utf8(stdout@)
            },
            Err(HookError::NotText { role: named }) => {
                &&& succeeded(ended)
                &&& !vstd::utf8::valid_utf8(stdout@)
                &&& named@ == role@
            },
            Err(error) => !succeeded(ended) && reports(error, role@, ended),
        },
        match ended {
            Ended::NotStarted => out matches Err(HookError::NotStarted { role: named }) && named@
                == role@,
            Ended::Exited { success, status } => if !success {
                out matches Err(HookError::Failed { role: named, status: told }) && named@ == role@
                    && told@ == status@
            } else if vstd::utf8::valid_utf8(stdout@) {
                out matches Ok(printed) && printed@ == vstd::utf8::decode_utf8(stdout@)
            } else {
                out matches Err(HookError::NotText { role: named }) && named@ == role@
            },
        },
{
    match status(role, ended) {
        Ok(()) => {},
        Err(error) => {
            return Err(error);
        },
    }
    match String::from_utf8(stdout) {
        Ok(printed) => Ok(printed),
        Err(_) => Err(HookError::NotText { role: role.to_owned() }),
    }
}

/// What a successful hook printed is what it meant to print: the text whose UTF-8
/// encoding the bytes are.
pub proof fn printed_text_is_captured(printed: Seq<char>)
    ensures
        vstd::utf8::valid_utf8(vstd::utf8::encode_utf8(printed)),
        vstd::utf8::decode_utf8(vstd::utf8::encode_utf8(printed)) == printed,
{
    vstd::utf8::encode_utf8_valid_utf8(printed);
    vstd::utf8::encode_utf8_decode_utf8(printed);
}

impl HookError {
    /// The text of the message. It names the hook by its role.
    pub open spec fn text(self) -> Seq<char> {
        match self {
            HookError::NotStarted { role } => "could not spawn a shell for the "@ + role@
                + " hook"@,
            HookError::Failed { role, status } => "the "@ + role@ + " hook failed ("@ + status@
                + ")"@,
            HookError::NotText { role } => "the "@ + role@
                + " hook wrote non-UTF-8 bytes to stdout"@,
        }
    }

    /// What to tell the user.
    pub fn message(&self) -> (out: String)
        ensures
            out@ == self.text(),
            self matches HookError::NotStarted { role } ==> out@
                == "could not spawn a shell for the "@ + role@ + " hook"@,
            self matches HookError::Failed { role, status } ==> out@ == "the "@ + role@
                + " hook failed ("@ + status@ + ")"@,
            self matches HookError::NotText { role } ==> out@ == "the "@ + role@
                + " hook wrote non-UTF-8 bytes to stdout"@,
    {
        match self {
            HookError::NotStarted { role } => {
                let mut out = "could not spawn a shell for the ".to_owned();
                out.append(role.as_str());
                out.append(" hook");
                out
            },
            HookError::Failed { role, status } => {
                let mut out = "the ".to_owned();
                out.append(role.as_str());
                out.append(" hook failed (");
                out.append(status.as_str());
                out.append(")");
                out
            },
            HookError::NotText { role } => {
                let mut out = "the ".to_owned();
                out.append(role.as_str());
                out.append(" hook wrote non-UTF-8 bytes to stdout");
                out
            },
        }
    }
}

} // verus!
