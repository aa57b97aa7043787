//! Lending a disk to the host.
use vstd::prelude::*;
use vstd::string::*;

use crate::bootflow::{join_path, under};
use crate::errors::{ErrorKind, Fault, is_fault};
use crate::text::{
    after_prefix, cat, chars, decimal, law_beginnings_and_ends_are_taken_off, owned, push_decimal,
    quoted, quoted_text, strip_prefix,
};

verus! {

/// Why a command was refused.
#[derive(Clone, Copy, Debug, PartialEq, Eq, Structural)]
pub enum UmsError {
    Command,
    EmptyPath,
}

impl UmsError {
    /// The kind of the error.
    pub fn kind(self) -> (k: ErrorKind)
        ensures
            k == ErrorKind::InvalidInput,
    {
        ErrorKind::InvalidInput
    }

    /// The error in words.
    pub open spec fn words(self) -> Seq<char> {
        match self {
            UmsError::Command => "invalid UMS command"@,
            UmsError::EmptyPath => "UMS backing path is empty"@,
        }
    }

    /// The error in words.
    pub fn message(self) -> (s: String)
        ensures
            s@ == self.words(),
    {
        match self {
            UmsError::Command => owned("invalid UMS command"),
            UmsError::EmptyPath => owned("UMS backing path is empty"),
        }
    }
}

/// The disk that a command names behind its prefix.
pub open spec fn backing_named(command: Seq<char>, prefix: Seq<char>) -> Result<
    Seq<char>,
    UmsError,
> {
    match after_prefix(command, prefix) {
        None => Err(UmsError::Command),
        Some(path) => if path.len() == 0 {
            Err(UmsError::EmptyPath)
        } else {
            Ok(path)
        },
    }
}

/// The disk that a command names behind its prefix.
pub fn parse_backing<'a>(command: &'a str, prefix: &str) -> (r: Result<&'a str, UmsError>)
    ensures
        backing_named(command@, prefix@) == (match r {
            Ok(path) => Ok(path@),
            Err(e) => Err(e),
        }),
{
    match strip_prefix(command, prefix) {
        None => Err(UmsError::Command),
        Some(path) => if path.unicode_len() == 0 {
            Err(UmsError::EmptyPath)
        } else {
            Ok(path)
        },
    }
}

/// Refuses a path that is neither that of a file nor that of a block device.
pub fn check_backing_kind(path: &str, is_file: bool, is_block_device: bool) -> (r: Result<
    (),
    Fault,
>)
    ensures
        match r {
            Ok(()) => is_file || is_block_device,
            Err(fault) => !is_file && !is_block_device && is_fault(
                fault,
                ErrorKind::InvalidInput,
                "UMS backing path "@ + path@ + " is not a regular file or block device"@,
            ),
        },
{
    if is_file || is_block_device {
        Ok(())
    } else {
        let mut text = cat("UMS backing path ", path);
        text.append(" is not a regular file or block device");
        Err(Fault { kind: ErrorKind::InvalidInput, text })
    }
}

/// Where a disk is looked for next, by what came of looking for it as it was named.
#[derive(Debug)]
pub enum BackingStep {
    Done(Result<String, Fault>),
    LookUnder(String),
}

/// Whether a path starts at the root.
pub open spec fn is_absolute(path: Seq<char>) -> bool {
    path.len() > 0 && path[0] == '/'
}

/// Where a disk is looked for next, by what came of looking for it as it was named: a relative
/// name that is not there is looked for under the directory of devices.
pub fn after_direct(requested: &str, dev_root: &str, direct: Result<String, Fault>) -> (r:
    BackingStep)
    ensures
        match direct {
            Err(fault) => if fault.kind == ErrorKind::NotFound && !is_absolute(requested@) {
                r matches BackingStep::LookUnder(path) && path@ == under(dev_root@, requested@)
            } else {
                r == BackingStep::Done(Err(fault))
            },
            Ok(path) => r == BackingStep::Done(Ok(path)),
        },
{
    match direct {
        Ok(path) => BackingStep::Done(Ok(path)),
        Err(fault) => {
            let v = chars(requested);
            let absolute = v.len() > 0 && v[0] == '/';
            if fault.kind == ErrorKind::NotFound && !absolute {
                BackingStep::LookUnder(join_path(dev_root, requested))
            } else {
                BackingStep::Done(Err(fault))
            }
        },
    }
}

/// What comes of looking for a disk under the directory of devices.
pub fn after_fallback(requested: &str, dev_root: &str, second: Result<String, Fault>) -> (r: Result<
    String,
    Fault,
>)
    ensures
        match second {
            Err(fault) => if fault.kind == ErrorKind::NotFound {
                r matches Err(told) && is_fault(
                    told,
                    ErrorKind::NotFound,
                    "UMS backing path "@ + quoted_text(requested@)
                        + " not found directly or under "@ + dev_root@,
                )
            } else {
                r == Err::<String, Fault>(fault)
            },
            Ok(path) => r == Ok::<String, Fault>(path),
        },
{
    match second {
        Ok(path) => Ok(path),
        Err(fault) => if fault.kind == ErrorKind::NotFound {
            let mut text = cat("UMS backing path ", quoted(requested).as_str());
            text.append(" not found directly or under ");
            text.append(dev_root);
            Err(Fault { kind: ErrorKind::NotFound, text })
        } else {
            Err(fault)
        },
    }
}

/// What is answered when a disk is lent.
pub fn started_text(backing: &str, lun: usize, already: bool) -> (s: String)
    ensures
        s@ == (if already {
            "UMS already started for "@
        } else {
            "UMS started for "@
        }) + backing@ + " on LUN "@ + decimal(lun as int),
{
    let mut s = if already {
        owned("UMS already started for ")
    } else {
        owned("UMS started for ")
    };
    s.append(backing);
    s.append(" on LUN ");
    push_decimal(&mut s, lun as u64);
    s
}

/// What is answered when a disk is taken back.
pub fn stopped_text(backing: &str, lun: usize) -> (s: String)
    ensures
        s@ == "UMS stopped for "@ + backing@ + " from LUN "@ + decimal(lun as int),
{
    let mut s = cat("UMS stopped for ", backing);
    s.append(" from LUN ");
    push_decimal(&mut s, lun as u64);
    s
}

/// What is answered when a disk could not be taken back. A disk that the host uses (`EBUSY`) has
/// to be given up there first.
pub fn stop_failure_message(backing: &str, errno: Option<i32>, error: &str) -> (s: String)
    ensures
        s@ == "UMS stop failed for "@ + backing@ + (if errno == Some(16i32) {
            ": unmount/eject on host first"@
        } else {
            ": "@ + error@
        }),
{
    let mut s = cat("UMS stop failed for ", backing);
    let busy = match errno {
        Some(n) => n == 16,
        None => false,
    };
    let end = if busy {
        owned(": unmount/eject on host first")
    } else {
        cat(": ", error)
    };
    s.append(end.as_str());
    s
}

/// The disk that a command names is all that stands behind its first words.
pub proof fn law_disks_are_named_behind_the_command(prefix: Seq<char>, path: Seq<char>)
    ensures
        backing_named(prefix + path, prefix) == (if path.len() == 0 {
            Err(UmsError::EmptyPath)
        } else {
            Ok(path)
        }),
{
    law_beginnings_and_ends_are_taken_off(prefix, path);
}

} // verus!
