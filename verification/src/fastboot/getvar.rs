//! Variables that the host can ask for.
use vstd::prelude::*;
use vstd::string::*;
use vstd::utf8::*;

use crate::ab_slots::{slot_named, Slot};
use crate::errors::ErrorKind;
use crate::partitions::{find_optional, the_match, Partition, PartitionError};
use crate::text::{
    after_prefix, cat, decimal, decimal_text, decode, hex, hex_text,
    law_beginnings_and_ends_are_taken_off, owned, pieces, push_hex, quoted, quoted_text, same_text,
    split_state, strip_prefix, texts,
};

verus! {

/// Why a variable was not told.
#[derive(Clone, Copy, Debug, PartialEq, Eq, Structural)]
pub enum GetvarError {
    Command,
    EmptyVariable,
    EmptyPartition,
    EmptySlot,
    UnknownSlot,
    Ambiguous,
}

impl GetvarError {
    /// The kind of the error.
    pub fn kind(self) -> (k: ErrorKind)
        ensures
            k == ErrorKind::InvalidInput,
    {
        ErrorKind::InvalidInput
    }

    /// The error in words, for what the variable names.
    pub open spec fn words(self, name: Seq<char>) -> Seq<char> {
        match self {
            GetvarError::Command => "invalid getvar command"@,
            GetvarError::EmptyVariable => "getvar variable is empty"@,
            GetvarError::EmptyPartition => "partition name is empty"@,
            GetvarError::EmptySlot => "slot variable slot is empty"@,
            GetvarError::UnknownSlot => "invalid slot "@ + quoted_text(name),
            GetvarError::Ambiguous => PartitionError::Ambiguous.words(name),
        }
    }

    /// The error in words, for what the variable names.
    pub fn message(self, name: &str) -> (s: String)
        ensures
            s@ == self.words(name@),
    {
        match self {
            GetvarError::Command => owned("invalid getvar command"),
            GetvarError::EmptyVariable => owned("getvar variable is empty"),
            GetvarError::EmptyPartition => owned("partition name is empty"),
            GetvarError::EmptySlot => owned("slot variable slot is empty"),
            GetvarError::UnknownSlot => cat("invalid slot ", quoted(name).as_str()),
            GetvarError::Ambiguous => PartitionError::Ambiguous.message(name),
        }
    }
}

/// The variable that a command asks for.
pub open spec fn variable_asked(command: Seq<char>) -> Result<Seq<char>, GetvarError> {
    match after_prefix(command, "getvar:"@) {
        None => Err(GetvarError::Command),
        Some(variable) => if variable.len() == 0 {
            Err(GetvarError::EmptyVariable)
        } else {
            Ok(variable)
        },
    }
}

/// The variable that a command asks for.
pub fn parse_variable(command: &str) -> (r: Result<&str, GetvarError>)
    ensures
        variable_asked(command@) == (match r {
            Ok(variable) => Ok(variable@),
            Err(e) => Err(e),
        }),
{
    match strip_prefix(command, "getvar:") {
        None => Err(GetvarError::Command),
        Some(variable) => if variable.unicode_len() == 0 {
            Err(GetvarError::EmptyVariable)
        } else {
            Ok(variable)
        },
    }
}

/// The first piece that is not empty.
pub open spec fn first_piece(list: Seq<Seq<u8>>, i: int) -> Option<Seq<u8>>
    decreases list.len() - i,
{
    if i < 0 || i >= list.len() {
        None
    } else if list[i].len() > 0 {
        Some(list[i])
    } else {
        first_piece(list, i + 1)
    }
}

/// The first name of the device, where it is text.
pub open spec fn base_compatible(bytes: Seq<u8>) -> Option<Seq<char>> {
    match first_piece(pieces(bytes, 0u8), 0) {
        None => None,
        Some(name) => if valid_utf8(name) {
            Some(decode_utf8(name))
        } else {
            None
        },
    }
}

proof fn lemma_first_piece(list: Seq<Seq<u8>>, more: Seq<Seq<u8>>, i: int)
    requires
        list.len() > 0,
        list.is_prefix_of(more),
        forall|k: int| 0 <= k < list.len() - 1 ==> (#[trigger] list[k]).len() == 0,
        list.last().len() > 0,
        0 <= i < list.len(),
    ensures
        first_piece(more, i) == Some(list.last()),
    decreases list.len() - i,
{
    assert(more[i] == list[i]);
    if i < list.len() - 1 {
        lemma_first_piece(list, more, i + 1);
    }
}

proof fn lemma_no_piece(list: Seq<Seq<u8>>, i: int)
    requires
        forall|k: int| 0 <= k < list.len() ==> (#[trigger] list[k]).len() == 0,
        0 <= i,
    ensures
        first_piece(list, i) is None,
    decreases list.len() - i,
{
    if i < list.len() {
        lemma_no_piece(list, i + 1);
    }
}

proof fn lemma_split_grows(s: Seq<u8>, n: int)
    requires
        0 <= n <= s.len(),
    ensures
        split_state(s.take(n), 0u8).0.is_prefix_of(split_state(s, 0u8).0),
    decreases s.len() - n,
{
    if n < s.len() {
        lemma_split_grows(s, n + 1);
        assert(s.take(n + 1).drop_last() =~= s.take(n));
    } else {
        assert(s.take(n) =~= s);
    }
}

/// The first name of the device, where it is text.
pub fn parse_fdt_base_compatible(bytes: &[u8]) -> (r: Option<String>)
    ensures
        base_compatible(bytes@) == (match r {
            Some(name) => Some(name@),
            None => None,
        }),
{
    let mut start: usize = 0;
    let mut i: usize = 0;
    let ghost mut done: Seq<Seq<u8>> = Seq::empty();
    assert(bytes@.subrange(0, 0) =~= Seq::<u8>::empty());
    while i < bytes.len()
        invariant
            start <= i <= bytes@.len(),
            split_state(bytes@.take(i as int), 0u8) == (done, bytes@.subrange(
                start as int,
                i as int,
            )),
            forall|k: int| 0 <= k < done.len() ==> (#[trigger] done[k]).len() == 0,
        decreases bytes@.len() - i,
    {
        proof {
            assert(bytes@.take(i + 1).drop_last() =~= bytes@.take(i as int));
            assert(bytes@.take(i + 1).last() == bytes@[i as int]);
        }
        if bytes[i] == 0 {
            let ghost piece = bytes@.subrange(start as int, i as int);
            if i > start {
                proof {
                    let now = done.push(piece);
                    assert(split_state(bytes@.take(i + 1), 0u8).0 == now);
                    lemma_split_grows(bytes@, i + 1);
                    let all = pieces(bytes@, 0u8);
                    assert(now.is_prefix_of(all)) by {
                        let whole = split_state(bytes@, 0u8).0;
                        assert(now =~= all.subrange(0, now.len() as int));
                    }
                    lemma_first_piece(now, all, 0);
                }
                return decode(&bytes[start..i]);
            }
            proof {
                done = done.push(piece);
            }
            start = i + 1;
            assert(bytes@.subrange(start as int, i + 1) =~= Seq::<u8>::empty());
        } else {
            assert(bytes@.subrange(start as int, i + 1) =~= bytes@.subrange(
                start as int,
                i as int,
            ).push(bytes@[i as int]));
        }
        i += 1;
    }
    assert(bytes@.take(i as int) =~= bytes@);
    let ghost piece = bytes@.subrange(start as int, i as int);
    let ghost all = pieces(bytes@, 0u8);
    assert(all == done.push(piece));
    if i > start {
        proof {
            lemma_first_piece(all, all, 0);
        }
        return decode(&bytes[start..i]);
    }
    proof {
        lemma_no_piece(all, 0);
    }
    None
}

/// A variable and its value.
#[derive(Debug)]
pub struct Variable {
    pub name: String,
    pub value: String,
}

/// A variable and its value, as plain values.
pub open spec fn told(v: Variable) -> (Seq<char>, Seq<char>) {
    (v.name@, v.value@)
}

/// The variables and their values, as plain values.
pub open spec fn all_told(v: Seq<Variable>) -> Seq<(Seq<char>, Seq<char>)> {
    Seq::new(v.len(), |i: int| told(v[i]))
}

/// The variables that do not change.
pub open spec fn fixed(serialno: Seq<char>, compatible: Option<Seq<char>>) -> Seq<
    (Seq<char>, Seq<char>),
> {
    let common = seq![
        ("version"@, "0.4"@),
        ("version-bootloader"@, "pocketboot"@),
        ("product"@, "pocketboot"@),
        ("serialno"@, serialno),
        ("secure"@, "no"@),
        ("unlocked"@, "yes"@),
        ("is-userspace"@, "yes"@),
        ("max-download-size"@, "0x10000000"@),
    ];
    match compatible {
        Some(name) => common.push(("compatible"@, name)),
        None => common,
    }
}

fn push_variable(list: &mut Vec<Variable>, name: &str, value: &str)
    ensures
        all_told(final(list)@) == all_told(old(list)@).push((name@, value@)),
{
    let ghost before = list@;
    list.push(Variable { name: owned(name), value: owned(value) });
    assert(all_told(list@) =~= all_told(before).push((name@, value@)));
}

/// The value of the first variable of this name from number `i` on.
pub open spec fn value_from(list: Seq<(Seq<char>, Seq<char>)>, name: Seq<char>, i: int) -> Option<
    Seq<char>,
>
    decreases list.len() - i,
{
    if i < 0 || i >= list.len() {
        None
    } else if list[i].0 == name {
        Some(list[i].1)
    } else {
        value_from(list, name, i + 1)
    }
}

/// What is known of the slots of the device.
#[derive(Clone, Copy, Debug, PartialEq, Eq, Structural)]
pub struct SlotFacts {
    pub count: u64,
    pub current: Option<Slot>,
    pub successful_a: Option<bool>,
    pub successful_b: Option<bool>,
    pub unbootable_a: Option<bool>,
    pub unbootable_b: Option<bool>,
}

/// What is told of a yes or no that may be unknown.
pub open spec fn yes_no(value: Option<bool>) -> Seq<char> {
    match value {
        Some(true) => "yes"@,
        Some(false) => "no"@,
        None => ""@,
    }
}

/// What is told of a yes or no that may be unknown.
pub fn slot_bool(value: Option<bool>) -> (s: &'static str)
    ensures
        s@ == yes_no(value),
{
    match value {
        Some(true) => "yes",
        Some(false) => "no",
        None => "",
    }
}

/// The name of the current slot, or nothing.
pub open spec fn current_text(facts: SlotFacts) -> Seq<char> {
    match facts.current {
        Some(slot) => slot.letter(),
        None => ""@,
    }
}

/// The suffixes of the slots, or nothing.
pub open spec fn suffixes_text(facts: SlotFacts) -> Seq<char> {
    if facts.count > 0 {
        "_a,_b"@
    } else {
        ""@
    }
}

/// The variables that tell of the slots.
pub open spec fn slot_list(facts: SlotFacts) -> Seq<(Seq<char>, Seq<char>)> {
    seq![
        ("slot-count"@, decimal(facts.count as int)),
        ("current-slot"@, current_text(facts)),
        ("slot-suffixes"@, suffixes_text(facts)),
        ("slot-successful:a"@, yes_no(facts.successful_a)),
        ("slot-successful:b"@, yes_no(facts.successful_b)),
        ("slot-unbootable:a"@, yes_no(facts.unbootable_a)),
        ("slot-unbootable:b"@, yes_no(facts.unbootable_b)),
    ]
}

fn current_name(facts: &SlotFacts) -> (s: &'static str)
    ensures
        s@ == current_text(*facts),
{
    match facts.current {
        Some(slot) => slot.name(),
        None => "",
    }
}

fn suffixes(facts: &SlotFacts) -> (s: &'static str)
    ensures
        s@ == suffixes_text(*facts),
{
    if facts.count > 0 {
        "_a,_b"
    } else {
        ""
    }
}

/// The variables that tell of the slots.
pub fn slot_variables(facts: &SlotFacts) -> (r: Vec<Variable>)
    ensures
        all_told(r@) == slot_list(*facts),
{
    let mut list: Vec<Variable> = Vec::new();
    let count = decimal_text(facts.count);
    push_variable(&mut list, "slot-count", count.as_str());
    push_variable(&mut list, "current-slot", current_name(facts));
    push_variable(&mut list, "slot-suffixes", suffixes(facts));
    push_variable(&mut list, "slot-successful:a", slot_bool(facts.successful_a));
    push_variable(&mut list, "slot-successful:b", slot_bool(facts.successful_b));
    push_variable(&mut list, "slot-unbootable:a", slot_bool(facts.unbootable_a));
    push_variable(&mut list, "slot-unbootable:b", slot_bool(facts.unbootable_b));
    assert(all_told(list@) =~= slot_list(*facts));
    list
}

/// The slot that a variable names behind a prefix.
pub open spec fn slot_behind(variable: Seq<char>, prefix: Seq<char>) -> Result<
    Option<Slot>,
    GetvarError,
> {
    match after_prefix(variable, prefix) {
        None => Ok(None),
        Some(name) => if name.len() == 0 {
            Err(GetvarError::EmptySlot)
        } else {
            match slot_named(name) {
                Some(slot) => Ok(Some(slot)),
                None => Err(GetvarError::UnknownSlot),
            }
        },
    }
}

/// The slot that a variable names behind a prefix.
pub fn slot_variable(variable: &str, prefix: &str) -> (r: Result<Option<Slot>, GetvarError>)
    ensures
        r == slot_behind(variable@, prefix@),
{
    match strip_prefix(variable, prefix) {
        None => Ok(None),
        Some(name) => if name.unicode_len() == 0 {
            Err(GetvarError::EmptySlot)
        } else {
            match Slot::parse(name) {
                Some(slot) => Ok(Some(slot)),
                None => Err(GetvarError::UnknownSlot),
            }
        },
    }
}

/// What the slots tell for a variable.
pub open spec fn slot_told(facts: SlotFacts, variable: Seq<char>) -> Result<
    Option<Seq<char>>,
    GetvarError,
> {
    if variable == "slot-count"@ {
        Ok(Some(decimal(facts.count as int)))
    } else if variable == "current-slot"@ {
        Ok(Some(current_text(facts)))
    } else if variable == "slot-suffixes"@ {
        Ok(Some(suffixes_text(facts)))
    } else {
        match slot_behind(variable, "slot-successful:"@) {
            Err(e) => Err(e),
            Ok(Some(Slot::A)) => Ok(Some(yes_no(facts.successful_a))),
            Ok(Some(Slot::B)) => Ok(Some(yes_no(facts.successful_b))),
            Ok(None) => match slot_behind(variable, "slot-unbootable:"@) {
                Err(e) => Err(e),
                Ok(Some(Slot::A)) => Ok(Some(yes_no(facts.unbootable_a))),
                Ok(Some(Slot::B)) => Ok(Some(yes_no(facts.unbootable_b))),
                Ok(None) => Ok(None),
            },
        }
    }
}

/// A text that may be missing, as a plain value.
pub open spec fn text_told(text: Option<String>) -> Option<Seq<char>> {
    match text {
        Some(text) => Some(text@),
        None => None,
    }
}

/// What the slots tell for a variable.
pub fn slot_value(facts: &SlotFacts, variable: &str) -> (r: Result<Option<String>, GetvarError>)
    ensures
        slot_told(*facts, variable@) == (match r {
            Ok(value) => Ok(text_told(value)),
            Err(e) => Err(e),
        }),
{
    if same_text(variable, "slot-count") {
        return Ok(Some(decimal_text(facts.count)));
    }
    if same_text(variable, "current-slot") {
        return Ok(Some(owned(current_name(facts))));
    }
    if same_text(variable, "slot-suffixes") {
        return Ok(Some(owned(suffixes(facts))));
    }
    match slot_variable(variable, "slot-successful:")? {
        Some(Slot::A) => Ok(Some(owned(slot_bool(facts.successful_a)))),
        Some(Slot::B) => Ok(Some(owned(slot_bool(facts.successful_b)))),
        None => match slot_variable(variable, "slot-unbootable:")? {
            Some(Slot::A) => Ok(Some(owned(slot_bool(facts.unbootable_a)))),
            Some(Slot::B) => Ok(Some(owned(slot_bool(facts.unbootable_b)))),
            None => Ok(None),
        },
    }
}

/// The number of the partition that a variable names.
pub open spec fn partition_named(partitions: Seq<Partition>, name: Seq<char>) -> Result<
    Option<int>,
    GetvarError,
> {
    if name.len() == 0 {
        Err(GetvarError::EmptyPartition)
    } else {
        match the_match(partitions, name) {
            Ok(i) => Ok(Some(i)),
            Err(PartitionError::NotFound) => Ok(None),
            Err(_) => Err(GetvarError::Ambiguous),
        }
    }
}

/// The number of the partition that a variable names.
pub fn find_partition_for_getvar(partitions: &[Partition], name: &str) -> (r: Result<
    Option<usize>,
    GetvarError,
>)
    ensures
        partition_named(partitions@, name@) == (match r {
            Ok(Some(i)) => Ok::<Option<int>, GetvarError>(Some(i as int)),
            Ok(None) => Ok(None),
            Err(e) => Err(e),
        }),
        r matches Ok(Some(i)) ==> i < partitions@.len(),
{
    if name.unicode_len() == 0 {
        return Err(GetvarError::EmptyPartition);
    }
    match find_optional(partitions, name) {
        Ok(Some(i)) => Ok(Some(i)),
        Ok(None) => Ok(None),
        Err(_) => Err(GetvarError::Ambiguous),
    }
}

/// What is told of a variable that is not fixed and not of the slots. The last argument says
/// whether the partition behind `has-slot:` has slots.
pub open spec fn other_value(
    partitions: Seq<Partition>,
    variable: Seq<char>,
    has_slot: bool,
) -> Result<Option<Seq<char>>, GetvarError> {
    match after_prefix(variable, "partition-size:"@) {
        Some(name) => match partition_named(partitions, name) {
            Err(e) => Err(e),
            Ok(None) => Ok(None),
            Ok(Some(i)) => Ok(Some("0x"@ + hex(partitions[i].size_bytes as int))),
        },
        None => match after_prefix(variable, "partition-type:"@) {
            Some(name) => match partition_named(partitions, name) {
                Err(e) => Err(e),
                Ok(None) => Ok(None),
                Ok(Some(_)) => Ok(Some("raw"@)),
            },
            None => match after_prefix(variable, "has-slot:"@) {
                Some(name) => if name.len() == 0 {
                    Err(GetvarError::EmptyPartition)
                } else if has_slot {
                    Ok(Some("yes"@))
                } else {
                    Ok(Some("no"@))
                },
                None => Ok(None),
            },
        },
    }
}

/// What the device tells when it is asked for variables.
#[derive(Debug)]
pub struct FastbootGetvar {
    pub serialno: String,
    pub compatible: Option<String>,
}

impl FastbootGetvar {
    /// The variables that do not change, as plain values.
    pub open spec fn fixed_list(&self) -> Seq<(Seq<char>, Seq<char>)> {
        fixed(self.serialno@, text_told(self.compatible))
    }

    /// The variables of a device with a serial number and a name.
    pub fn new(serialno: String, compatible: Option<String>) -> (r: FastbootGetvar)
        ensures
            r.serialno == serialno,
            r.compatible == compatible,
    {
        FastbootGetvar { serialno, compatible }
    }

    /// The variables that do not change.
    pub fn fixed_variables(&self) -> (r: Vec<Variable>)
        ensures
            all_told(r@) == self.fixed_list(),
    {
        let mut list: Vec<Variable> = Vec::new();
        push_variable(&mut list, "version", "0.4");
        push_variable(&mut list, "version-bootloader", "pocketboot");
        push_variable(&mut list, "product", "pocketboot");
        push_variable(&mut list, "serialno", self.serialno.as_str());
        push_variable(&mut list, "secure", "no");
        push_variable(&mut list, "unlocked", "yes");
        push_variable(&mut list, "is-userspace", "yes");
        push_variable(&mut list, "max-download-size", "0x10000000");
        let ghost common = all_told(list@);
        if let Some(name) = &self.compatible {
            push_variable(&mut list, "compatible", name.as_str());
        }
        assert(all_told(list@) =~= self.fixed_list());
        list
    }

    /// The value of a variable that does not change.
    pub fn fixed_value(&self, variable: &str) -> (r: Option<String>)
        ensures
            value_from(self.fixed_list(), variable@, 0) == text_told(r),
    {
        let list = self.fixed_variables();
        let ghost all = all_told(list@);
        let mut i: usize = 0;
        while i < list.len()
            invariant
                i <= list@.len(),
                all == all_told(list@),
                all == self.fixed_list(),
                value_from(all, variable@, 0) == value_from(all, variable@, i as int),
            decreases list@.len() - i,
        {
            assert(all[i as int] == told(list@[i as int]));
            if same_text(list[i].name.as_str(), variable) {
                return Some(owned(list[i].value.as_str()));
            }
            i += 1;
        }
        None
    }

    /// The value of a variable. The last argument says whether the partition behind `has-slot:`
    /// has slots.
    pub fn value(
        &self,
        facts: &SlotFacts,
        partitions: &[Partition],
        variable: &str,
        has_slot: bool,
    ) -> (r: Result<Option<String>, GetvarError>)
        ensures
            ({
                let fixed = value_from(self.fixed_list(), variable@, 0);
                let expected = if fixed is Some {
                    Ok(fixed)
                } else {
                    match slot_told(*facts, variable@) {
                        Err(e) => Err(e),
                        Ok(Some(value)) => Ok(Some(value)),
                        Ok(None) => other_value(partitions@, variable@, has_slot),
                    }
                };
                expected == (match r {
                    Ok(value) => Ok(text_told(value)),
                    Err(e) => Err(e),
                })
            }),
    {
        if let Some(value) = self.fixed_value(variable) {
            return Ok(Some(value));
        }
        if let Some(value) = slot_value(facts, variable)? {
            return Ok(Some(value));
        }
        if let Some(name) = strip_prefix(variable, "partition-size:") {
            return match find_partition_for_getvar(partitions, name)? {
                None => Ok(None),
                Some(i) => Ok(Some(cat("0x", hex_text(partitions[i].size_bytes).as_str()))),
            };
        }
        if let Some(name) = strip_prefix(variable, "partition-type:") {
            return match find_partition_for_getvar(partitions, name)? {
                None => Ok(None),
                Some(_) => Ok(Some(owned("raw"))),
            };
        }
        if let Some(name) = strip_prefix(variable, "has-slot:") {
            if name.unicode_len() == 0 {
                return Err(GetvarError::EmptyPartition);
            }
            return Ok(
                Some(
                    if has_slot {
                        owned("yes")
                    } else {
                        owned("no")
                    },
                ),
            );
        }
        Ok(None)
    }
}

/// A variable and its value in one line.
pub open spec fn variable_line(v: (Seq<char>, Seq<char>)) -> Seq<char> {
    v.0 + ": "@ + v.1
}

/// The lines that tell of the first `n` partitions.
pub open spec fn partition_lines(partitions: Seq<Partition>, n: int) -> Seq<Seq<char>>
    decreases n,
{
    if n <= 0 {
        Seq::empty()
    } else {
        let p = partitions[n - 1];
        partition_lines(partitions, n - 1).push(
            "partition-size:"@ + p.shown_name() + ": 0x"@ + hex(p.size_bytes as int),
        ).push("partition-type:"@ + p.shown_name() + ": raw"@)
    }
}

fn push_line(out: &mut Vec<String>, line: String)
    ensures
        texts(final(out)@) == texts(old(out)@).push(line@),
{
    let ghost before = out@;
    out.push(line);
    assert(texts(out@) =~= texts(before).push(line@));
}

fn push_variables(out: &mut Vec<String>, list: &[Variable])
    ensures
        texts(final(out)@) == texts(old(out)@) + all_told(list@).map_values(
            |v: (Seq<char>, Seq<char>)| variable_line(v),
        ),
{
    let ghost wanted = all_told(list@).map_values(|v: (Seq<char>, Seq<char>)| variable_line(v));
    let mut i: usize = 0;
    assert(texts(out@) =~= texts(old(out)@) + wanted.take(0));
    while i < list.len()
        invariant
            i <= list@.len(),
            wanted == all_told(list@).map_values(|v: (Seq<char>, Seq<char>)| variable_line(v)),
            texts(out@) == texts(old(out)@) + wanted.take(i as int),
        decreases list@.len() - i,
    {
        assert(wanted[i as int] == variable_line(told(list@[i as int])));
        let mut line = cat(list[i].name.as_str(), ": ");
        line.append(list[i].value.as_str());
        push_line(out, line);
        i += 1;
        assert(texts(out@) =~= texts(old(out)@) + wanted.take(i as int));
    }
    assert(wanted.take(i as int) =~= wanted);
}

/// The lines that are told when all variables are asked for.
pub fn all_lines(getvar: &FastbootGetvar, facts: &SlotFacts, partitions: &[Partition]) -> (r: Vec<
    String,
>)
    ensures
        texts(r@) == getvar.fixed_list().map_values(|v: (Seq<char>, Seq<char>)| variable_line(v))
            + slot_list(*facts).map_values(|v: (Seq<char>, Seq<char>)| variable_line(v))
            + partition_lines(partitions@, partitions@.len() as int),
{
    let mut out: Vec<String> = Vec::new();
    assert(texts(out@) =~= Seq::<Seq<char>>::empty());
    let fixed = getvar.fixed_variables();
    push_variables(&mut out, &fixed);
    let slots = slot_variables(facts);
    push_variables(&mut out, &slots);
    let ghost front = getvar.fixed_list().map_values(
        |v: (Seq<char>, Seq<char>)| variable_line(v),
    ) + slot_list(*facts).map_values(|v: (Seq<char>, Seq<char>)| variable_line(v));
    assert(texts(out@) =~= front);
    let mut i: usize = 0;
    while i < partitions.len()
        invariant
            i <= partitions@.len(),
            texts(out@) == front + partition_lines(partitions@, i as int),
        decreases partitions@.len() - i,
    {
        let p = &partitions[i];
        let mut line = cat("partition-size:", p.fastboot_name());
        line.append(": 0x");
        push_hex(&mut line, p.size_bytes);
        push_line(&mut out, line);
        let mut line = cat("partition-type:", p.fastboot_name());
        line.append(": raw");
        push_line(&mut out, line);
        i += 1;
        assert(texts(out@) =~= front + partition_lines(partitions@, i as int));
    }
    out
}

/// A variable is asked for by its name behind `getvar:`.
pub proof fn law_variables_are_asked_for_by_name(name: Seq<char>)
    ensures
        name.len() > 0 ==> variable_asked("getvar:"@ + name) == Ok::<Seq<char>, GetvarError>(name),
        !"getvar:"@.is_prefix_of(name) ==> variable_asked(name) is Err,
{
    law_beginnings_and_ends_are_taken_off("getvar:"@, name);
}

proof fn lemma_value_from(
    list: Seq<(Seq<char>, Seq<char>)>,
    name: Seq<char>,
    i: int,
    k: int,
)
    requires
        0 <= i <= k <= list.len(),
        forall|j: int| i <= j < k ==> (#[trigger] list[j]).0 != name,
    ensures
        value_from(list, name, i) == value_from(list, name, k),
    decreases k - i,
{
    if i < k {
        lemma_value_from(list, name, i + 1, k);
    }
}

/// A listed variable has the value that the list gives for the first of its name, and none where
/// the list has none of its name.
pub proof fn law_listed_variables_have_their_values(
    list: Seq<(Seq<char>, Seq<char>)>,
    name: Seq<char>,
    k: int,
)
    requires
        0 <= k <= list.len(),
        forall|j: int| 0 <= j < k ==> (#[trigger] list[j]).0 != name,
    ensures
        k < list.len() && list[k].0 == name ==> value_from(list, name, 0) == Some(list[k].1),
        k == list.len() ==> value_from(list, name, 0) is None,
{
    lemma_value_from(list, name, 0, k);
}

/// What is told of a slot is what is known of that slot: whether it was booted with success, and
/// whether it cannot be booted, `yes`, `no` or nothing.
pub proof fn law_slots_are_told_apart(facts: SlotFacts)
    ensures
        slot_told(facts, "slot-successful:"@ + "a"@) == Ok::<Option<Seq<char>>, GetvarError>(
            Some(yes_no(facts.successful_a)),
        ),
        slot_told(facts, "slot-successful:"@ + "b"@) == Ok::<Option<Seq<char>>, GetvarError>(
            Some(yes_no(facts.successful_b)),
        ),
        slot_told(facts, "slot-unbootable:"@ + "a"@) == Ok::<Option<Seq<char>>, GetvarError>(
            Some(yes_no(facts.unbootable_a)),
        ),
        slot_told(facts, "slot-unbootable:"@ + "b"@) == Ok::<Option<Seq<char>>, GetvarError>(
            Some(yes_no(facts.unbootable_b)),
        ),
        yes_no(Some(true)) == "yes"@,
        yes_no(Some(false)) == "no"@,
        yes_no(None) == ""@,
        facts.current == Some(Slot::A) ==> slot_told(facts, "current-slot"@) == Ok::<
            Option<Seq<char>>,
            GetvarError,
        >(Some("a"@)),
        facts.current == Some(Slot::B) ==> slot_told(facts, "current-slot"@) == Ok::<
            Option<Seq<char>>,
            GetvarError,
        >(Some("b"@)),
        slot_told(facts, "slot-count"@) == Ok::<Option<Seq<char>>, GetvarError>(
            Some(decimal(facts.count as int)),
        ),
{
    reveal_strlit("slot-successful:");
    reveal_strlit("slot-unbootable:");
    reveal_strlit("slot-count");
    reveal_strlit("current-slot");
    reveal_strlit("slot-suffixes");
    reveal_strlit("a");
    reveal_strlit("b");
    reveal_strlit("_a");
    law_beginnings_and_ends_are_taken_off("slot-successful:"@, "a"@);
    law_beginnings_and_ends_are_taken_off("slot-successful:"@, "b"@);
    law_beginnings_and_ends_are_taken_off("slot-unbootable:"@, "a"@);
    law_beginnings_and_ends_are_taken_off("slot-unbootable:"@, "b"@);
    let ua = "slot-unbootable:"@ + "a"@;
    let ub = "slot-unbootable:"@ + "b"@;
    assert(ua[5] == 'u' && ub[5] == 'u' && "slot-successful:"@[5] == 's');
    assert(("slot-successful:"@ + "a"@).len() == 17);
    assert("a"@[0] == 'a' && "b"@[0] == 'b');
    assert("current-slot"@[0] == 'c' && "slot-count"@[0] == 's');
}

/// The size of a partition is told in hexadecimal behind `0x`, its type is `raw`, and whether it has
/// slots is told by yes or no.
pub proof fn law_partitions_are_told_of(
    partitions: Seq<Partition>,
    name: Seq<char>,
    i: int,
    has_slot: bool,
)
    requires
        name.len() > 0,
        the_match(partitions, name) == Ok::<int, PartitionError>(i),
    ensures
        other_value(partitions, "partition-size:"@ + name, has_slot) == Ok::<
            Option<Seq<char>>,
            GetvarError,
        >(Some("0x"@ + hex(partitions[i].size_bytes as int))),
        other_value(partitions, "partition-type:"@ + name, has_slot) == Ok::<
            Option<Seq<char>>,
            GetvarError,
        >(Some("raw"@)),
        other_value(partitions, "has-slot:"@ + name, has_slot) == Ok::<
            Option<Seq<char>>,
            GetvarError,
        >(
            Some(
                if has_slot {
                    "yes"@
                } else {
                    "no"@
                },
            ),
        ),
{
    reveal_strlit("partition-size:");
    reveal_strlit("partition-type:");
    reveal_strlit("has-slot:");
    law_beginnings_and_ends_are_taken_off("partition-size:"@, name);
    law_beginnings_and_ends_are_taken_off("partition-type:"@, name);
    law_beginnings_and_ends_are_taken_off("has-slot:"@, name);
    let kind = "partition-type:"@ + name;
    let slot = "has-slot:"@ + name;
    assert(kind[10] == 't' && "partition-size:"@[10] == 's');
    assert(slot[0] == 'h' && "partition-size:"@[0] == 'p' && "partition-type:"@[0] == 'p');
}

/// The host is told the serial number of the device, that it is unlocked and can be flashed, and
/// that a download may have 256 mebibytes.
pub proof fn law_host_is_told_what_it_needs(serialno: Seq<char>, compatible: Option<Seq<char>>)
    ensures
        ({
            let list = fixed(serialno, compatible);
            &&& list.contains(("serialno"@, serialno))
            &&& list.contains(("product"@, "pocketboot"@))
            &&& list.contains(("version"@, "0.4"@))
            &&& list.contains(("secure"@, "no"@))
            &&& list.contains(("unlocked"@, "yes"@))
            &&& list.contains(("is-userspace"@, "yes"@))
            &&& list.contains(("max-download-size"@, seq!['0', 'x'] + hex(0x1000_0000)))
            &&& compatible matches Some(name) ==> list.contains(("compatible"@, name))
            &&& list.len() == (if compatible is Some {
                9int
            } else {
                8
            })
        }),
{
    reveal_strlit("0x10000000");
    reveal_with_fuel(hex, 9);
    assert(hex(0x1000_0000) =~= seq!['1', '0', '0', '0', '0', '0', '0', '0']);
    assert("0x10000000"@ =~= seq!['0', 'x'] + hex(0x1000_0000));
    let list = fixed(serialno, compatible);
    assert(list[0] == ("version"@, "0.4"@));
    assert(list[2] == ("product"@, "pocketboot"@));
    assert(list[3] == ("serialno"@, serialno));
    assert(list[4] == ("secure"@, "no"@));
    assert(list[5] == ("unlocked"@, "yes"@));
    assert(list[6] == ("is-userspace"@, "yes"@));
    assert(list[7] == ("max-download-size"@, "0x10000000"@));
    if compatible is Some {
        assert(list[8] == ("compatible"@, compatible->0));
    }
}

} // verus!
