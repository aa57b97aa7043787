//! The two slots of a device.
use vstd::prelude::*;
use vstd::string::*;

use crate::cmdline::{value_of, KernelCommandLine};
use crate::text::same_text;

verus! {

/// One of the two slots.
#[derive(Clone, Copy, Debug, PartialEq, Eq, Structural)]
pub enum Slot {
    A,
    B,
}

/// The slot that a name or a suffix means.
pub open spec fn slot_named(text: Seq<char>) -> Option<Slot> {
    if text == "a"@ || text == "_a"@ {
        Some(Slot::A)
    } else if text == "b"@ || text == "_b"@ {
        Some(Slot::B)
    } else {
        None
    }
}

impl Slot {
    /// The name of the slot.
    pub open spec fn letter(self) -> Seq<char> {
        match self {
            Slot::A => "a"@,
            Slot::B => "b"@,
        }
    }

    /// What the names of the slot's partitions end in.
    pub open spec fn ending(self) -> Seq<char> {
        match self {
            Slot::A => "_a"@,
            Slot::B => "_b"@,
        }
    }

    /// The slot that a name or a suffix means.
    pub fn parse(text: &str) -> (r: Option<Slot>)
        ensures
            r == slot_named(text@),
    {
        if same_text(text, "a") || same_text(text, "_a") {
            Some(Slot::A)
        } else if same_text(text, "b") || same_text(text, "_b") {
            Some(Slot::B)
        } else {
            None
        }
    }

    /// The name of the slot.
    pub fn name(self) -> (s: &'static str)
        ensures
            s@ == self.letter(),
    {
        match self {
            Slot::A => "a",
            Slot::B => "b",
        }
    }

    /// What the names of the slot's partitions end in.
    pub fn suffix(self) -> (s: &'static str)
        ensures
            s@ == self.ending(),
    {
        match self {
            Slot::A => "_a",
            Slot::B => "_b",
        }
    }
}

/// A slot is found again by its name and by its suffix.
pub proof fn law_slots_are_found_again(slot: Slot)
    ensures
        slot_named(slot.letter()) == Some(slot),
        slot_named(slot.ending()) == Some(slot),
{
    reveal_strlit("a");
    reveal_strlit("b");
    reveal_strlit("_a");
    reveal_strlit("_b");
    assert("a"@[0] == 'a' && "b"@[0] == 'b');
    assert("_a"@[1] == 'a' && "_b"@[1] == 'b');
}

/// The slot that the command line tells: `androidboot.slot_suffix`, or else `slot_suffix`.
pub open spec fn slot_told(args: Seq<Seq<char>>) -> Option<Slot> {
    match value_of(args, "androidboot.slot_suffix"@) {
        Some(text) => slot_named(text),
        None => match value_of(args, "slot_suffix"@) {
            Some(text) => slot_named(text),
            None => None,
        },
    }
}

/// The slot that the command line tells.
pub fn cmdline_slot(cmdline: &KernelCommandLine) -> (r: Option<Slot>)
    ensures
        r == slot_told(cmdline@),
{
    match cmdline.value("androidboot.slot_suffix") {
        Some(text) => Slot::parse(text.as_str()),
        None => match cmdline.value("slot_suffix") {
            Some(text) => Slot::parse(text.as_str()),
            None => None,
        },
    }
}

} // verus!
