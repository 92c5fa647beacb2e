//! The command line that an activation runs, and what its run amounts to.

use vstd::prelude::*;
use vstd::utf8::{decode_utf8, valid_utf8};
use crate::error::{result_view, Error, ErrorView};

verus! {

/// The texts of a list of strings, in order.
pub open spec fn texts(strings: Seq<String>) -> Seq<Seq<char>> {
    strings.map_values(|s: String| s@)
}

/// An external program and the arguments it is to be started with.
#[derive(Debug, PartialEq, Eq)]
pub struct CommandSpec {
    pub program: String,
    pub args: Vec<String>,
}

/// A [`CommandSpec`] with its texts as sequences of characters.
pub struct CommandSpecView {
    pub program: Seq<char>,
    pub args: Seq<Seq<char>>,
}

impl View for CommandSpec {
    type V = CommandSpecView;

    open spec fn view(&self) -> CommandSpecView {
        CommandSpecView { program: self.program@, args: texts(self.args@) }
    }
}

/// How the run of a command ended.
#[derive(Debug, PartialEq, Eq)]
pub enum CommandOutcome {
    /// The process ran to its end. `code` is its exit status, or `None` where
    /// it ended without one; `stderr` is what it wrote to standard error.
    Exited { code: Option<i32>, stderr: Vec<u8> },
    /// The process could not be started; `reason` describes why.
    NotLaunched { reason: String },
}

/// The text that `String::from_utf8_lossy` makes of `bytes`.
pub uninterp spec fn lossy_text(bytes: Seq<u8>) -> Seq<char>;

/// The result of an activation whose command ended as `outcome` says:
/// success on exit status zero and on nothing else, and otherwise a failure
/// that carries the diagnostic text.
pub open spec fn verdict_of(outcome: CommandOutcome) -> Result<(), ErrorView> {
    match outcome {
        CommandOutcome::Exited { code, stderr } => exit_verdict(code, lossy_text(stderr@)),
        CommandOutcome::NotLaunched { reason } => Err(ErrorView::CommandFailed(reason@)),
    }
}

/// The result for a process that exited with `code` and left `diagnostics`
/// on standard error.
pub open spec fn exit_verdict(code: Option<i32>, diagnostics: Seq<char>) -> Result<(), ErrorView> {
    if code == Some(0i32) {
        Ok(())
    } else {
        Err(ErrorView::CommandFailed(diagnostics))
    }
}

/// Decodes bytes as text with `String::from_utf8_lossy`: well-formed UTF-8
/// is decoded as it stands, and the text for anything else, in which the
/// standard library puts U+FFFD for what it could not decode, is only named.
#[verifier::external_body]
fn decode_lossy(bytes: &Vec<u8>) -> (text: String)
    ensures
        text@ == lossy_text(bytes@),
        valid_utf8(bytes@) ==> text@ == decode_utf8(bytes@),
{
    String::from_utf8_lossy(bytes).into_owned()
}

/// Judges a process that exited with `code` and whose standard error reads
/// `diagnostics`.
pub fn verdict(code: Option<i32>, diagnostics: String) -> (r: Result<(), Error>)
    ensures
        result_view(r) == exit_verdict(code, diagnostics@),
{
    match code {
        Some(0) => Ok(()),
        _ => Err(Error::CommandFailed(diagnostics)),
    }
}

impl CommandOutcome {
    /// Turns the end of a run into the result of the activation. What a
    /// process wrote to standard error is decoded leniently; where it is
    /// well-formed UTF-8, the diagnostics are that text.
    pub fn into_result(self) -> (r: Result<(), Error>)
        ensures
            result_view(r) == verdict_of(self),
            match self {
                CommandOutcome::Exited { code, stderr } => valid_utf8(stderr@) ==> result_view(r)
                    == exit_verdict(code, decode_utf8(stderr@)),
                CommandOutcome::NotLaunched { reason } => true,
            },
    {
        match self {
            CommandOutcome::Exited { code, stderr } => {
                let diagnostics = decode_lossy(&stderr);
                verdict(code, diagnostics)
            },
            CommandOutcome::NotLaunched { reason } => Err(Error::CommandFailed(reason)),
        }
    }
}

} // verus!
