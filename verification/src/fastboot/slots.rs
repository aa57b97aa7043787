//! Choosing the slot to start from.
use vstd::prelude::*;
use vstd::string::*;

use crate::ab_slots::{slot_named, Slot};
use crate::errors::ErrorKind;
use crate::text::{
    after_prefix, cat, law_beginnings_and_ends_are_taken_off, owned, quoted, quoted_text,
    strip_prefix,
};

verus! {

/// Why a slot was not chosen.
#[derive(Clone, Copy, Debug, PartialEq, Eq, Structural)]
pub enum SlotError {
    Command,
    Empty,
    Unknown,
}

impl SlotError {
    /// The kind of the error.
    pub fn kind(self) -> (k: ErrorKind)
        ensures
            k == ErrorKind::InvalidInput,
    {
        ErrorKind::InvalidInput
    }

    /// The error in words, for the name of a slot.
    pub open spec fn words(self, name: Seq<char>) -> Seq<char> {
        match self {
            SlotError::Command => "invalid set_active command"@,
            SlotError::Empty => "set_active slot is empty"@,
            SlotError::Unknown => "invalid slot "@ + quoted_text(name),
        }
    }

    /// The error in words, for the name of a slot.
    pub fn message(self, name: &str) -> (s: String)
        ensures
            s@ == self.words(name@),
    {
        match self {
            SlotError::Command => owned("invalid set_active command"),
            SlotError::Empty => owned("set_active slot is empty"),
            SlotError::Unknown => cat("invalid slot ", quoted(name).as_str()),
        }
    }
}

/// The slot that a command chooses.
pub open spec fn slot_chosen(command: Seq<char>) -> Result<Slot, SlotError> {
    match after_prefix(command, "set_active:"@) {
        None => Err(SlotError::Command),
        Some(name) => if name.len() == 0 {
            Err(SlotError::Empty)
        } else {
            match slot_named(name) {
                Some(slot) => Ok(slot),
                None => Err(SlotError::Unknown),
            }
        },
    }
}

/// The slot that a command chooses.
pub fn parse_set_active(command: &str) -> (r: Result<Slot, SlotError>)
    ensures
        r == slot_chosen(command@),
{
    match strip_prefix(command, "set_active:") {
        None => Err(SlotError::Command),
        Some(name) => if name.unicode_len() == 0 {
            Err(SlotError::Empty)
        } else {
            match Slot::parse(name) {
                Some(slot) => Ok(slot),
                None => Err(SlotError::Unknown),
            }
        },
    }
}

/// What is answered when a slot has been chosen.
pub fn active_text(slot: Slot) -> (s: String)
    ensures
        s@ == "slot "@ + slot.letter() + " is active"@,
{
    let mut s = cat("slot ", slot.name());
    s.append(" is active");
    s
}

/// The host chooses a slot by its letter, with an underscore before it or without; any other name is
/// refused.
pub proof fn law_slots_are_chosen_by_their_letters(name: Seq<char>)
    ensures
        ({
            let chosen = slot_chosen("set_active:"@ + name);
            &&& chosen == Ok::<Slot, SlotError>(Slot::A) <==> name == seq!['a'] || name == seq![
                '_',
                'a',
            ]
            &&& chosen == Ok::<Slot, SlotError>(Slot::B) <==> name == seq!['b'] || name == seq![
                '_',
                'b',
            ]
        }),
{
    reveal_strlit("a");
    reveal_strlit("_a");
    reveal_strlit("b");
    reveal_strlit("_b");
    assert("a"@ =~= seq!['a']);
    assert("b"@ =~= seq!['b']);
    assert("_a"@ =~= seq!['_', 'a']);
    assert("_b"@ =~= seq!['_', 'b']);
    law_beginnings_and_ends_are_taken_off("set_active:"@, name);
    assert(seq!['a'][0] == 'a' && seq!['b'][0] == 'b');
    assert(seq!['_', 'a'][1] == 'a' && seq!['_', 'b'][1] == 'b');
    assert(seq!['_', 'a'].len() == 2 && seq!['a'].len() == 1);
}

} // verus!
