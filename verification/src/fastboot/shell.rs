//! Running a shell command for the host.
use vstd::prelude::*;
use vstd::string::*;
use vstd::utf8::*;

use crate::errors::ErrorKind;
use crate::text::{
    after_prefix, cat, decimal, decode, is_space, law_beginnings_and_ends_are_taken_off,
    law_trimming_takes_white_space, owned, push_decimal, signed, signed_text, strip_prefix, trim,
    trimmed,
};

verus! {

/// The greatest length of a staged script.
pub const STAGED_SCRIPT_MAX: usize = 0x1_0000;

/// Why no command was run.
#[derive(Clone, Copy, Debug, PartialEq, Eq, Structural)]
pub enum ShellError {
    Command,
    Empty,
    NotText,
    ScriptTooLarge,
    ScriptEmpty,
}

impl ShellError {
    /// The kind of the error.
    pub open spec fn spec_kind(self) -> ErrorKind {
        match self {
            ShellError::NotText => ErrorKind::InvalidData,
            _ => ErrorKind::InvalidInput,
        }
    }

    /// The kind of the error.
    pub fn kind(self) -> (k: ErrorKind)
        ensures
            k == self.spec_kind(),
    {
        match self {
            ShellError::NotText => ErrorKind::InvalidData,
            _ => ErrorKind::InvalidInput,
        }
    }

    /// The error in words.
    pub open spec fn words(self) -> Seq<char> {
        match self {
            ShellError::Command => "invalid shell command"@,
            ShellError::Empty => "shell command is empty"@,
            ShellError::NotText => "stream did not contain valid UTF-8"@,
            ShellError::ScriptTooLarge => "staged shell command is too large"@,
            ShellError::ScriptEmpty => "staged shell command is empty"@,
        }
    }

    /// The error in words.
    pub fn message(self) -> (s: String)
        ensures
            s@ == self.words(),
    {
        match self {
            ShellError::Command => owned("invalid shell command"),
            ShellError::Empty => owned("shell command is empty"),
            ShellError::NotText => owned("stream did not contain valid UTF-8"),
            ShellError::ScriptTooLarge => owned("staged shell command is too large"),
            ShellError::ScriptEmpty => owned("staged shell command is empty"),
        }
    }
}

/// The shell command that a command names.
pub open spec fn shell_command(command: Seq<char>) -> Result<Seq<char>, ShellError> {
    match after_prefix(command, "oem shell:"@) {
        None => Err(ShellError::Command),
        Some(rest) => if trim(rest).len() == 0 {
            Err(ShellError::Empty)
        } else {
            Ok(trim(rest))
        },
    }
}

/// The shell command that a command names.
pub fn parse_command(command: &str) -> (r: Result<String, ShellError>)
    ensures
        shell_command(command@) == (match r {
            Ok(text) => Ok(text@),
            Err(e) => Err(e),
        }),
{
    match strip_prefix(command, "oem shell:") {
        None => Err(ShellError::Command),
        Some(rest) => {
            let text = trimmed(rest);
            if text.as_str().unicode_len() == 0 {
                Err(ShellError::Empty)
            } else {
                Ok(text)
            }
        },
    }
}

/// The script that the staged bytes hold. At most one byte more than a script may have is read.
pub open spec fn script_told(staged: Seq<u8>) -> Result<Seq<char>, ShellError> {
    let read = if staged.len() > STAGED_SCRIPT_MAX {
        staged.take(STAGED_SCRIPT_MAX + 1)
    } else {
        staged
    };
    if !valid_utf8(read) {
        Err(ShellError::NotText)
    } else if read.len() > STAGED_SCRIPT_MAX {
        Err(ShellError::ScriptTooLarge)
    } else if trim(decode_utf8(read)).len() == 0 {
        Err(ShellError::ScriptEmpty)
    } else {
        Ok(decode_utf8(read))
    }
}

/// The script that the staged bytes hold.
pub fn read_staged_command(staged: &[u8]) -> (r: Result<String, ShellError>)
    ensures
        script_told(staged@) == (match r {
            Ok(text) => Ok(text@),
            Err(e) => Err(e),
        }),
{
    let read: &[u8] = if staged.len() > STAGED_SCRIPT_MAX {
        &staged[0..STAGED_SCRIPT_MAX + 1]
    } else {
        staged
    };
    assert(staged@.len() > STAGED_SCRIPT_MAX ==> read@ =~= staged@.take(STAGED_SCRIPT_MAX + 1));
    let text = match decode(read) {
        None => {
            return Err(ShellError::NotText);
        },
        Some(text) => text,
    };
    if read.len() > STAGED_SCRIPT_MAX {
        return Err(ShellError::ScriptTooLarge);
    }
    if trimmed(text.as_str()).as_str().unicode_len() == 0 {
        return Err(ShellError::ScriptEmpty);
    }
    Ok(text)
}

/// How a command ended: whether its time was up, the code with which it left, or the signal that
/// ended it.
#[derive(Clone, Copy, Debug, PartialEq, Eq, Structural)]
pub struct ShellStatus {
    pub timed_out: bool,
    pub code: Option<i32>,
    pub signal: Option<i32>,
}

/// The signal for a file that grew too large.
pub const SIGXFSZ: i32 = 25;

impl ShellStatus {
    /// Whether the command did its work.
    pub fn success(&self) -> (r: bool)
        ensures
            r == (!self.timed_out && self.code == Some(0i32)),
    {
        !self.timed_out && match self.code {
            Some(code) => code == 0,
            None => false,
        }
    }

    /// How the command ended, in words.
    pub open spec fn words(self) -> Seq<char> {
        if self.timed_out {
            "timed out"@
        } else if self.signal == Some(SIGXFSZ) {
            "output too large"@
        } else {
            match (self.code, self.signal) {
                (Some(code), _) => "exited "@ + signed(code as int),
                (None, Some(signal)) => "killed by signal "@ + signed(signal as int),
                (None, None) => "ended without exit status"@,
            }
        }
    }

    /// How the command ended, in words.
    pub fn description(&self) -> (s: String)
        ensures
            s@ == self.words(),
    {
        if self.timed_out {
            return owned("timed out");
        }
        if let Some(signal) = self.signal {
            if signal == SIGXFSZ {
                return owned("output too large");
            }
        }
        match (self.code, self.signal) {
            (Some(code), _) => cat("exited ", signed_text(code as i64).as_str()),
            (None, Some(signal)) => cat(
                "killed by signal ",
                signed_text(signal as i64).as_str(),
            ),
            (None, None) => owned("ended without exit status"),
        }
    }
}

/// What is told of the output of a command.
pub fn output_text(status: &ShellStatus, size: u64) -> (s: String)
    ensures
        s@ == "shell "@ + status.words() + "; "@ + decimal(size as int) + " bytes staged"@,
{
    let mut s = cat("shell ", status.description().as_str());
    s.append("; ");
    push_decimal(&mut s, size);
    s.append(" bytes staged");
    s
}

/// The script that runs a command with a limit of 4 MiB on what it writes.
pub fn shell_wrapper() -> (s: String)
    ensures
        s@ == "ulimit -f 8192; exec /bin/sh -c \"$1\""@,
{
    owned("ulimit -f 8192; exec /bin/sh -c \"$1\"")
}

/// What is done while a shell command is awaited.
#[derive(Clone, Copy, Debug, PartialEq, Eq, Structural)]
pub enum ShellWait {
    /// The command has ended.
    Done,
    /// The command has had its time: it is ended.
    Kill,
    /// The command is looked at again a little later.
    Sleep,
}

/// What is done while a shell command is awaited. A command that has ended is not ended again,
/// however late it is.
pub fn shell_wait(exited: bool, late: bool) -> (r: ShellWait)
    ensures
        r == (if exited {
            ShellWait::Done
        } else if late {
            ShellWait::Kill
        } else {
            ShellWait::Sleep
        }),
{
    if exited {
        ShellWait::Done
    } else if late {
        ShellWait::Kill
    } else {
        ShellWait::Sleep
    }
}

/// What is appended to the output of a shell command.
pub fn closing_note(timed_out: bool) -> (r: &'static str)
    ensures
        r@ == (if timed_out {
            "\npocketboot: shell command timed out\n"@
        } else {
            ""@
        }),
{
    if timed_out {
        "\npocketboot: shell command timed out\n"
    } else {
        ""
    }
}

/// The command that is run is the one that stands behind the first words, without the white space
/// around it.
pub proof fn law_commands_are_run_as_told(before: Seq<char>, command: Seq<char>, behind: Seq<char>)
    requires
        forall|i: int| 0 <= i < before.len() ==> is_space(#[trigger] before[i]),
        forall|i: int| 0 <= i < behind.len() ==> is_space(#[trigger] behind[i]),
        command.len() > 0 ==> !is_space(command[0]) && !is_space(command.last()),
    ensures
        shell_command("oem shell:"@ + (before + command + behind)) == (if command.len() == 0 {
            Err(ShellError::Empty)
        } else {
            Ok(command)
        }),
{
    law_beginnings_and_ends_are_taken_off("oem shell:"@, before + command + behind);
    law_trimming_takes_white_space(before, command, behind);
}

/// A staged script of up to sixty-four kibibytes is run as it is, unless it is not text or all white
/// space.
pub proof fn law_staged_scripts_are_run_whole(text: Seq<char>)
    requires
        encode_utf8(text).len() <= 0x1_0000,
    ensures
        script_told(encode_utf8(text)) == (if trim(text).len() == 0 {
            Err(ShellError::ScriptEmpty)
        } else {
            Ok(text)
        }),
{
    encode_utf8_valid_utf8(text);
    encode_utf8_decode_utf8(text);
}

} // verus!
