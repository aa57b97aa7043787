//! Commands that set up the network, and how they fail.
use vstd::prelude::*;
use vstd::string::*;

use crate::errors::ErrorKind;
use crate::text::{
    contains_text, holds_text, join_texts, joined, lower_text, lowered, owned, signed, signed_text,
    texts, trim, trimmed,
};

verus! {

/// How a command failed.
#[derive(Clone, Copy, Debug, PartialEq, Eq, Structural)]
pub enum CommandErrorKind {
    /// It was not started.
    Spawn,
    /// It ended with a failure.
    Exit,
}

/// The failure of a command.
#[derive(Debug)]
pub struct CommandError {
    pub program: String,
    pub args: Vec<String>,
    pub status: Option<i32>,
    pub stderr: String,
    pub kind: CommandErrorKind,
}

/// Whether a command complained that what it was to set up is there already.
pub open spec fn complains_of_existing(stderr: Seq<char>) -> bool {
    let s = lowered(stderr);
    holds_text(s, "exists"@) || holds_text(s, "already in use"@)
}

/// The failure of a command in words.
pub open spec fn command_words(
    program: Seq<char>,
    args: Seq<Seq<char>>,
    status: Option<i32>,
    stderr: Seq<char>,
    kind: CommandErrorKind,
) -> Seq<char> {
    match kind {
        CommandErrorKind::Spawn => "spawn "@ + program + " "@ + joined(args, " "@) + ": "@ + stderr,
        CommandErrorKind::Exit => program + " "@ + joined(args, " "@) + " exited with "@ + (
        match status {
            Some(code) => signed(code as int),
            None => "signal"@,
        }) + ": "@ + trim(stderr),
    }
}

impl CommandError {
    /// Whether the command complained that what it was to set up is there already.
    pub fn is_already_exists(&self) -> (r: bool)
        ensures
            r == complains_of_existing(self.stderr@),
    {
        let s = lower_text(self.stderr.as_str());
        contains_text(s.as_str(), "exists") || contains_text(s.as_str(), "already in use")
    }

    /// The failure in words.
    pub fn message(&self) -> (s: String)
        ensures
            s@ == command_words(
                self.program@,
                texts(self.args@),
                self.status,
                self.stderr@,
                self.kind,
            ),
    {
        let args = join_texts(&self.args, " ");
        match self.kind {
            CommandErrorKind::Spawn => {
                let mut out = owned("spawn ");
                out.append(self.program.as_str());
                out.append(" ");
                out.append(args.as_str());
                out.append(": ");
                out.append(self.stderr.as_str());
                out
            },
            CommandErrorKind::Exit => {
                let mut out = owned(self.program.as_str());
                out.append(" ");
                out.append(args.as_str());
                out.append(" exited with ");
                match self.status {
                    Some(code) => {
                        out.append(signed_text(code as i64).as_str());
                    },
                    None => {
                        out.append("signal");
                    },
                }
                out.append(": ");
                out.append(trimmed(self.stderr.as_str()).as_str());
                out
            },
        }
    }

    /// What kind of error the failure is.
    pub fn error_kind(&self) -> (r: ErrorKind)
        ensures
            r == (if self.kind == CommandErrorKind::Spawn {
                ErrorKind::NotFound
            } else {
                ErrorKind::Other
            }),
    {
        match self.kind {
            CommandErrorKind::Spawn => ErrorKind::NotFound,
            CommandErrorKind::Exit => ErrorKind::Other,
        }
    }
}

/// The words of a command that sets up the network.
pub fn ip_args(args: &[&str]) -> (r: Vec<String>)
    ensures
        texts(r@) == seq!["ip"@] + Seq::new(args@.len(), |i: int| args@[i]@),
{
    let mut out: Vec<String> = Vec::new();
    out.push(owned("ip"));
    let mut i: usize = 0;
    let ghost all = Seq::new(args@.len(), |i: int| args@[i]@);
    assert(texts(out@) =~= seq!["ip"@] + all.take(0));
    while i < args.len()
        invariant
            i <= args@.len(),
            all == Seq::new(args@.len(), |i: int| args@[i]@),
            texts(out@) == seq!["ip"@] + all.take(i as int),
        decreases args@.len() - i,
    {
        let ghost before = out@;
        out.push(owned(args[i]));
        assert(texts(out@) =~= texts(before).push(all[i as int]));
        i += 1;
        assert(texts(out@) =~= seq!["ip"@] + all.take(i as int));
    }
    assert(all.take(i as int) =~= all);
    out
}

/// What came of a command that gives an address: one that is there already is as good.
pub open spec fn address_given(failure: Option<CommandError>) -> bool {
    failure matches Some(error) ==> complains_of_existing(error.stderr@)
}

/// What came of a command that gives an address.
pub fn accept_address(failure: Option<CommandError>) -> (r: Result<(), CommandError>)
    ensures
        match r {
            Ok(()) => address_given(failure),
            Err(error) => !address_given(failure) && failure == Some(error),
        },
{
    match failure {
        None => Ok(()),
        Some(error) => {
            if error.is_already_exists() {
                Ok(())
            } else {
                Err(error)
            }
        },
    }
}

} // verus!
