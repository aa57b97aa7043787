//! Sending a file of the device to the host.
use vstd::prelude::*;
use vstd::string::*;

use crate::bootflow::{components, path_components};
use crate::errors::ErrorKind;
use crate::text::{
    after_prefix, cat, chars, decimal, joined, law_beginnings_and_ends_are_taken_off,
    law_joined_texts_are_cut_again, owned, push_decimal, same_text, strip_prefix,
};

verus! {

/// The greatest number of bytes that can be staged.
pub const MAX_STAGED_SIZE: u64 = 0xffff_ffff;

/// Why a file was not staged.
#[derive(Clone, Copy, Debug, PartialEq, Eq, Structural)]
pub enum CatError {
    Command,
    EmptyPath,
    TooLarge,
}

impl CatError {
    /// The kind of the error.
    pub fn kind(self) -> (k: ErrorKind)
        ensures
            k == ErrorKind::InvalidInput,
    {
        ErrorKind::InvalidInput
    }

    /// The error in words.
    pub open spec fn words(self) -> Seq<char> {
        match self {
            CatError::Command => "invalid cat command"@,
            CatError::EmptyPath => "cat path is empty"@,
            CatError::TooLarge => "cat file is too large"@,
        }
    }

    /// The error in words.
    pub fn message(self) -> (s: String)
        ensures
            s@ == self.words(),
    {
        match self {
            CatError::Command => owned("invalid cat command"),
            CatError::EmptyPath => owned("cat path is empty"),
            CatError::TooLarge => owned("cat file is too large"),
        }
    }
}

/// The path that a command names.
pub open spec fn cat_path(command: Seq<char>) -> Result<Seq<char>, CatError> {
    match after_prefix(command, "oem cat:"@) {
        None => Err(CatError::Command),
        Some(path) => if path.len() == 0 {
            Err(CatError::EmptyPath)
        } else {
            Ok(path)
        },
    }
}

/// The path that a command names.
pub fn parse_path(command: &str) -> (r: Result<&str, CatError>)
    ensures
        cat_path(command@) == (match r {
            Ok(path) => Ok(path@),
            Err(e) => Err(e),
        }),
{
    match strip_prefix(command, "oem cat:") {
        None => Err(CatError::Command),
        Some(path) => if path.unicode_len() == 0 {
            Err(CatError::EmptyPath)
        } else {
            Ok(path)
        },
    }
}

/// The number of bytes that are staged when `read` more have been read.
pub open spec fn grown(total: int, read: int) -> Result<u64, CatError> {
    if total + read > MAX_STAGED_SIZE {
        Err(CatError::TooLarge)
    } else {
        Ok((total + read) as u64)
    }
}

/// The number of bytes that are staged when `read` more have been read.
pub fn grow(total: u64, read: u64) -> (r: Result<u64, CatError>)
    ensures
        r == grown(total as int, read as int),
{
    if total > MAX_STAGED_SIZE || read > MAX_STAGED_SIZE - total {
        Err(CatError::TooLarge)
    } else {
        Ok(total + read)
    }
}

/// What the staged file is called: the last component of the path, or `cat`.
pub open spec fn staged_name(path: Seq<char>) -> Seq<char> {
    let parts = components(path);
    if parts.len() == 0 || parts.last() == ".."@ {
        "cat"@
    } else {
        parts.last()
    }
}

/// What the staged file is called.
pub fn payload_name(path: &str) -> (r: String)
    ensures
        r@ == staged_name(path@),
{
    let v = chars(path);
    let parts = path_components(&v);
    let ghost views = components(path@);
    if parts.len() == 0 {
        return owned("cat");
    }
    let last = parts[parts.len() - 1].as_str();
    assert(views.last() == parts@[parts@.len() - 1]@);
    if same_text(last, "..") {
        owned("cat")
    } else {
        owned(last)
    }
}

/// What is told of a staged file.
pub fn staged_text(path: &str, size: u64) -> (s: String)
    ensures
        s@ == path@ + " staged ("@ + decimal(size as int) + " bytes)"@,
{
    let mut s = cat(path, " staged (");
    push_decimal(&mut s, size);
    s.append(" bytes)");
    s
}

/// The file that is sent is the one that the command names.
pub proof fn law_files_are_named_behind_the_command(path: Seq<char>)
    ensures
        cat_path("oem cat:"@ + path) == (if path.len() == 0 {
            Err(CatError::EmptyPath)
        } else {
            Ok(path)
        }),
{
    law_beginnings_and_ends_are_taken_off("oem cat:"@, path);
}

/// A file of up to four gibibytes less one byte is sent, and its pieces add up.
pub proof fn law_pieces_of_files_add_up(total: u64, read: u64)
    ensures
        grown(total as int, read as int) matches Ok(sum) ==> sum == total + read,
        grown(total as int, read as int) is Ok <==> total + read < 0x1_0000_0000,
{
}

/// What is staged has the name of the file, whatever directory the file is in.
pub proof fn law_staged_files_keep_their_names(parts: Seq<Seq<char>>)
    requires
        parts.len() > 0,
        forall|i: int| 0 <= i < parts.len() ==> !(#[trigger] parts[i]).contains('/'),
        parts.last().len() > 2,
    ensures
        staged_name(joined(parts, seq!['/'])) == parts.last(),
{
    reveal_strlit(".");
    reveal_strlit("..");
    law_joined_texts_are_cut_again(parts, '/');
}

} // verus!
