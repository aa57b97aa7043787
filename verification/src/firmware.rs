//! Where the firmware of a device is taken from.
use vstd::prelude::*;
use vstd::string::*;
use vstd::utf8::*;

use crate::ab_slots::Slot;
use crate::android_lp::mapped::{names, MappedPartitions};
use crate::errors::{ErrorKind, Fault, is_fault};
use crate::partitions::{
    find_optional, law_names_mean_their_partitions, the_match, Partition, PartitionError,
};
use crate::text::{
    before_suffix, cat, decode, ended, insert_text, law_ended_pieces_are_cut_again, owned, pieces,
    quoted, quoted_text, split_state, strip_suffix, text_set, texts, trim, trimmed,
    utf8_error_text, utf8_fault,
};

verus! {

/// The slot that the name of a partition ends in.
pub open spec fn named_slot(name: Seq<char>) -> Option<Slot> {
    if before_suffix(name, "_a"@) is Some {
        Some(Slot::A)
    } else if before_suffix(name, "_b"@) is Some {
        Some(Slot::B)
    } else {
        None
    }
}

/// The slot that the name of a partition ends in.
pub fn partition_slot_name(name: &str) -> (r: Option<Slot>)
    ensures
        r == named_slot(name@),
{
    if strip_suffix(name, "_a").is_some() {
        Some(Slot::A)
    } else if strip_suffix(name, "_b").is_some() {
        Some(Slot::B)
    } else {
        None
    }
}

/// The name of a partition without its slot.
pub open spec fn base_of(name: Seq<char>) -> Seq<char> {
    match before_suffix(name, "_a"@) {
        Some(base) => base,
        None => match before_suffix(name, "_b"@) {
            Some(base) => base,
            None => name,
        },
    }
}

/// The name of a partition without its slot.
pub fn partition_base(name: &str) -> (r: &str)
    ensures
        r@ == base_of(name@),
{
    match strip_suffix(name, "_a") {
        Some(base) => base,
        None => match strip_suffix(name, "_b") {
            Some(base) => base,
            None => name,
        },
    }
}

/// The number of a slot.
pub fn slot_index(slot: Slot) -> (r: u32)
    ensures
        r == (if slot == Slot::A {
            0u32
        } else {
            1u32
        }),
{
    match slot {
        Slot::A => 0,
        Slot::B => 1,
    }
}

/// Whether a partition is one of a slot that is not the current one.
pub open spec fn is_inactive(name: Seq<char>, current: Option<Slot>) -> bool {
    named_slot(name) is Some && current is Some && named_slot(name) != current
}

fn inactive(name: &str, current: Option<Slot>) -> (r: bool)
    ensures
        r == is_inactive(name@, current),
{
    match partition_slot_name(name) {
        Some(requested) => match current {
            Some(slot) => requested != slot,
            None => false,
        },
        None => false,
    }
}

/// The names by which a partition is looked for, in order: one with a slot by its own, unless the
/// slot is not the current one; any other in the current slot, then without a slot.
pub open spec fn candidates(name: Seq<char>, current: Option<Slot>) -> Seq<Seq<char>> {
    if named_slot(name) is Some {
        if is_inactive(name, current) {
            Seq::empty()
        } else {
            seq![name]
        }
    } else {
        match current {
            Some(slot) => seq![name + slot.ending(), name],
            None => seq![name],
        }
    }
}

/// The names by which a partition is looked for.
pub fn partition_candidates(name: &str, current_slot: Option<Slot>) -> (r: Vec<String>)
    ensures
        texts(r@) == candidates(name@, current_slot),
{
    let mut out: Vec<String> = Vec::new();
    if partition_slot_name(name).is_some() {
        if !inactive(name, current_slot) {
            out.push(owned(name));
        }
    } else {
        if let Some(slot) = current_slot {
            out.push(cat(name, slot.suffix()));
        }
        out.push(owned(name));
    }
    assert(texts(out@) =~= candidates(name@, current_slot));
    out
}

/// The first partition that one of some names finds, from the name at `i` on: names that find none
/// are passed over, one that finds several is an error.
pub open spec fn first_found(list: Seq<Partition>, tried: Seq<Seq<char>>, i: int) -> Result<
    Option<int>,
    PartitionError,
>
    decreases tried.len() - i,
{
    if i >= tried.len() {
        Ok(None)
    } else {
        match the_match(list, tried[i]) {
            Ok(found) => Ok(Some(found)),
            Err(PartitionError::NotFound) => first_found(list, tried, i + 1),
            Err(e) => Err(e),
        }
    }
}

/// The partition of a name, by the current slot.
pub fn find_physical_partition(partitions: &[Partition], name: &str, current_slot: Option<Slot>) -> (r:
    Result<Option<usize>, PartitionError>)
    ensures
        first_found(partitions@, candidates(name@, current_slot), 0) == (match r {
            Ok(Some(i)) => Ok::<Option<int>, PartitionError>(Some(i as int)),
            Ok(None) => Ok(None),
            Err(e) => Err(e),
        }),
        r matches Ok(Some(i)) ==> i < partitions@.len(),
{
    let tried = partition_candidates(name, current_slot);
    let ghost wanted = candidates(name@, current_slot);
    let mut i: usize = 0;
    while i < tried.len()
        invariant
            i <= tried@.len(),
            texts(tried@) == wanted,
            wanted == candidates(name@, current_slot),
            first_found(partitions@, wanted, i as int) == first_found(partitions@, wanted, 0),
        decreases tried@.len() - i,
    {
        assert(wanted[i as int] == tried@[i as int]@);
        if let Some(found) = find_optional(partitions, tried[i].as_str())? {
            return Ok(Some(found));
        }
        i += 1;
    }
    Ok(None)
}

/// Where the firmware of a partition is taken from.
#[derive(Debug)]
pub enum Resolution {
    /// Nowhere: the partition is one of the other slot.
    Refused,
    /// A mapped partition, by its device.
    Mapped(String),
    /// The partition of the device, if there is one.
    Physical,
}

/// Where the firmware of a partition is taken from: never from the other slot, and from a mapped
/// partition before any other.
pub fn resolve(partition: &str, current_slot: Option<Slot>, mappings: Option<&MappedPartitions>) -> (r:
    Resolution)
    requires
        mappings matches Some(mapped) ==> mapped.wf(),
    ensures
        match r {
            Resolution::Refused => is_inactive(partition@, current_slot),
            Resolution::Mapped(path) => {
                &&& !is_inactive(partition@, current_slot)
                &&& mappings matches Some(mapped)
                &&& exists|i: int|
                    0 <= i < mapped.mappings@.len() && (#[trigger] mapped.mappings@[i]).base_name@
                        == base_of(partition@) && mapped.mappings@[i].path@ == path@
            },
            Resolution::Physical => !is_inactive(partition@, current_slot) && (
            mappings matches Some(mapped) ==> !names(mapped.mappings@).contains(
                base_of(partition@),
            )),
        },
{
    if inactive(partition, current_slot) {
        return Resolution::Refused;
    }
    if let Some(mapped) = mappings {
        if let Some(path) = mapped.path_for(partition_base(partition)) {
            return Resolution::Mapped(owned(path));
        }
    }
    Resolution::Physical
}

/// Firmware is never taken from a slot that is not the current one: such a partition has no
/// candidates.
pub proof fn law_other_slot_is_left_alone(name: Seq<char>, current: Option<Slot>)
    ensures
        is_inactive(name, current) <==> candidates(name, current).len() == 0,
{
}

/// The name of the metadata of dynamic partitions, and the number of its slot.
pub fn dynamic_metadata(metadata_partition: Option<&str>, current_slot: Option<Slot>) -> (r: Result<
    Option<(String, u32)>,
    Fault,
>)
    ensures
        match metadata_partition {
            None => r matches Ok(None),
            Some(name) => match current_slot {
                None => r matches Err(fault) && is_fault(
                    fault,
                    ErrorKind::NotFound,
                    "current A/B slot is required for dynamic firmware partitions"@,
                ),
                Some(slot) => r matches Ok(Some((full, index))) && full@ == name@ + slot.ending()
                    && index == (if slot == Slot::A {
                    0u32
                } else {
                    1u32
                }),
            },
        },
{
    match metadata_partition {
        None => Ok(None),
        Some(name) => match current_slot {
            None => Err(
                Fault {
                    kind: ErrorKind::NotFound,
                    text: owned("current A/B slot is required for dynamic firmware partitions"),
                },
            ),
            Some(slot) => Ok(Some((cat(name, slot.suffix()), slot_index(slot)))),
        },
    }
}

/// The failure to find the metadata of dynamic partitions.
pub fn missing_metadata(name: &str) -> (r: Fault)
    ensures
        is_fault(
            r,
            ErrorKind::NotFound,
            "dynamic partition metadata "@ + quoted_text(name@) + " not found"@,
        ),
{
    let text = cat(
        cat("dynamic partition metadata ", quoted(name).as_str()).as_str(),
        " not found",
    );
    Fault { kind: ErrorKind::NotFound, text }
}

/// The names of some partitions without their slots.
pub open spec fn bases(list: Seq<Seq<char>>) -> Seq<Seq<char>> {
    Seq::new(list.len(), |i: int| base_of(list[i]))
}

/// The partitions that a configuration refers to: without their slots, in order, each once.
pub fn requested_partitions(referenced: &[String]) -> (r: Vec<String>)
    ensures
        texts(r@) == text_set(bases(texts(referenced@))),
{
    let mut out: Vec<String> = Vec::new();
    let ghost all = bases(texts(referenced@));
    let mut i: usize = 0;
    assert(all.take(0) =~= Seq::<Seq<char>>::empty());
    assert(texts(out@) =~= Seq::<Seq<char>>::empty());
    while i < referenced.len()
        invariant
            i <= referenced@.len(),
            all == bases(texts(referenced@)),
            texts(out@) == text_set(all.take(i as int)),
        decreases referenced@.len() - i,
    {
        assert(all.take(i + 1).drop_last() =~= all.take(i as int));
        insert_text(&mut out, partition_base(referenced[i].as_str()));
        i += 1;
    }
    assert(all.take(i as int) =~= all);
    out
}

/// The texts of the pieces of a property that are not empty, trimmed; or the first piece that is no
/// text.
pub open spec fn strict_texts(list: Seq<Seq<u8>>) -> Result<Seq<Seq<char>>, Seq<u8>>
    decreases list.len(),
{
    if list.len() == 0 {
        Ok(Seq::empty())
    } else {
        match strict_texts(list.drop_last()) {
            Err(piece) => Err(piece),
            Ok(front) => if list.last().len() == 0 {
                Ok(front)
            } else if valid_utf8(list.last()) {
                Ok(front.push(trim(decode_utf8(list.last()))))
            } else {
                Err(list.last())
            },
        }
    }
}

fn push_strict(out: &mut Vec<String>, piece: &[u8]) -> (r: bool)
    ensures
        r == (piece@.len() == 0 || valid_utf8(piece@)),
        texts(final(out)@) == (if piece@.len() > 0 && valid_utf8(piece@) {
            texts(old(out)@).push(trim(decode_utf8(piece@)))
        } else {
            texts(old(out)@)
        }),
{
    if piece.len() == 0 {
        return true;
    }
    match decode(piece) {
        Some(text) => {
            let ghost before = out@;
            let short = trimmed(text.as_str());
            out.push(short);
            assert(texts(out@) =~= texts(before).push(short@));
            true
        },
        None => false,
    }
}

/// Whether strings are those of a property that has to be there.
pub open spec fn told_compatibles(bytes: Seq<u8>, r: Result<Vec<String>, Fault>) -> bool {
    match strict_texts(pieces(bytes, 0u8)) {
        Err(piece) => r matches Err(fault) && is_fault(
            fault,
            ErrorKind::InvalidData,
            utf8_error_text(piece),
        ),
        Ok(list) => if list.len() == 0 {
            r matches Err(fault) && is_fault(
                fault,
                ErrorKind::InvalidData,
                "device compatible property is empty"@,
            )
        } else {
            r matches Ok(values) && texts(values@) == list
        },
    }
}

proof fn lemma_strict_failure(list: Seq<Seq<u8>>, n: int)
    requires
        0 <= n <= list.len(),
        strict_texts(list.take(n)) is Err,
    ensures
        strict_texts(list) == strict_texts(list.take(n)),
    decreases list.len() - n,
{
    if n == list.len() {
        assert(list.take(n) =~= list);
    } else {
        assert(list.take(n + 1).drop_last() =~= list.take(n));
        lemma_strict_failure(list, n + 1);
    }
}

proof fn lemma_pieces_grow(s: Seq<u8>, sep: u8, n: int)
    requires
        0 <= n <= s.len(),
    ensures
        ({
            let done = split_state(s.take(n), sep).0;
            let all = pieces(s, sep);
            done.len() < all.len() && all.take(done.len() as int) == done
        }),
    decreases s.len() - n,
{
    if n == s.len() {
        assert(s.take(n) =~= s);
        let done = split_state(s, sep).0;
        assert(pieces(s, sep).take(done.len() as int) =~= done);
    } else {
        lemma_pieces_grow(s, sep, n + 1);
        assert(s.take(n + 1).drop_last() =~= s.take(n));
        assert(s.take(n + 1).last() == s[n]);
        let done = split_state(s.take(n), sep).0;
        let next = split_state(s.take(n + 1), sep).0;
        let all = pieces(s, sep);
        assert(all.take(done.len() as int) =~= next.take(done.len() as int));
        assert(next.take(done.len() as int) =~= done);
    }
}

/// The strings of a property that has to be there and to be text.
pub fn read_fdt_strings(bytes: &[u8]) -> (r: Result<Vec<String>, Fault>)
    ensures
        told_compatibles(bytes@, r),
{
    let mut out: Vec<String> = Vec::new();
    let mut start: usize = 0;
    let mut i: usize = 0;
    let ghost mut done: Seq<Seq<u8>> = Seq::empty();
    let ghost all = pieces(bytes@, 0u8);
    assert(bytes@.take(0) =~= Seq::<u8>::empty());
    assert(bytes@.subrange(0, 0) =~= Seq::<u8>::empty());
    assert(texts(out@) =~= Seq::<Seq<char>>::empty());
    while i < bytes.len()
        invariant
            start <= i <= bytes@.len(),
            all == pieces(bytes@, 0u8),
            split_state(bytes@.take(i as int), 0u8) == (done, bytes@.subrange(
                start as int,
                i as int,
            )),
            strict_texts(done) == Ok::<Seq<Seq<char>>, Seq<u8>>(texts(out@)),
        decreases bytes@.len() - i,
    {
        assert(bytes@.take(i + 1).drop_last() =~= bytes@.take(i as int));
        assert(bytes@.take(i + 1).last() == bytes@[i as int]);
        let ghost piece = bytes@.subrange(start as int, i as int);
        if bytes[i] == 0 {
            proof {
                assert(done.push(piece).drop_last() =~= done);
                done = done.push(piece);
                assert(split_state(bytes@.take(i + 1), 0u8).0 == done);
            }
            if !push_strict(&mut out, &bytes[start..i]) {
                proof {
                    lemma_pieces_grow(bytes@, 0u8, i + 1);
                    lemma_strict_failure(all, done.len() as int);
                }
                return Err(
                    Fault { kind: ErrorKind::InvalidData, text: utf8_fault(&bytes[start..i]) },
                );
            }
            start = i + 1;
            assert(bytes@.subrange(i + 1, i + 1) =~= Seq::<u8>::empty());
        } else {
            assert(piece.push(bytes@[i as int]) =~= bytes@.subrange(start as int, i + 1));
        }
        i += 1;
    }
    let ghost piece = bytes@.subrange(start as int, i as int);
    assert(bytes@.take(i as int) =~= bytes@);
    assert(all =~= done.push(piece));
    assert(all.drop_last() =~= done);
    if !push_strict(&mut out, &bytes[start..i]) {
        return Err(Fault { kind: ErrorKind::InvalidData, text: utf8_fault(&bytes[start..i]) });
    }
    if out.len() == 0 {
        assert(texts(out@).len() == 0);
        return Err(
            Fault {
                kind: ErrorKind::InvalidData,
                text: owned("device compatible property is empty"),
            },
        );
    }
    assert(texts(out@).len() == out@.len());
    Ok(out)
}

/// A step of the extraction of firmware that can fail.
#[derive(Clone, Copy, Debug, PartialEq, Eq, Structural)]
pub enum LoadStep {
    Compatibles,
    Configuration,
    Mapping,
    Extraction,
}

/// What precedes the failure of a step.
pub open spec fn step_words(step: LoadStep) -> Seq<char> {
    match step {
        LoadStep::Compatibles => "read device compatibles: "@,
        LoadStep::Configuration => "parse bundled firmware configuration: "@,
        LoadStep::Mapping => "map Android dynamic partitions: "@,
        LoadStep::Extraction => "extract firmware: "@,
    }
}

/// The failure of the extraction of firmware, in words.
pub fn load_failure(step: LoadStep, error: &str) -> (s: String)
    ensures
        s@ == step_words(step) + error@,
{
    match step {
        LoadStep::Compatibles => cat("read device compatibles: ", error),
        LoadStep::Configuration => cat("parse bundled firmware configuration: ", error),
        LoadStep::Mapping => cat("map Android dynamic partitions: ", error),
        LoadStep::Extraction => cat("extract firmware: ", error),
    }
}

proof fn lemma_strict(parts: Seq<Seq<u8>>)
    requires
        forall|i: int| 0 <= i < parts.len() ==> (#[trigger] parts[i]).len() > 0 && valid_utf8(parts[i]),
    ensures
        strict_texts(parts) == Ok::<Seq<Seq<char>>, Seq<u8>>(
            Seq::new(parts.len(), |i: int| trim(decode_utf8(parts[i]))),
        ),
    decreases parts.len(),
{
    let all = Seq::new(parts.len(), |i: int| trim(decode_utf8(parts[i])));
    if parts.len() > 0 {
        let fewer = parts.drop_last();
        assert forall|i: int| 0 <= i < fewer.len() implies (#[trigger] fewer[i]).len() > 0
            && valid_utf8(fewer[i]) by {
            assert(fewer[i] == parts[i]);
        }
        lemma_strict(fewer);
        assert(parts[parts.len() - 1].len() > 0);
        assert(all =~= Seq::new(fewer.len(), |i: int| trim(decode_utf8(fewer[i]))).push(
            trim(decode_utf8(parts.last())),
        ));
    } else {
        assert(all =~= Seq::empty());
    }
}

/// What a device is compatible with is told by the texts of its property, each ended by a zero byte,
/// without the white space around them and in their order. A property without texts is an error.
pub proof fn law_compatibles_are_read(parts: Seq<Seq<u8>>, r: Result<Vec<String>, Fault>)
    requires
        forall|i: int|
            0 <= i < parts.len() ==> (#[trigger] parts[i]).len() > 0 && valid_utf8(parts[i])
                && !parts[i].contains(0u8),
        told_compatibles(ended(parts, 0u8), r),
    ensures
        r is Ok <==> parts.len() > 0,
        r matches Ok(list) ==> {
            &&& list@.len() == parts.len()
            &&& forall|i: int|
                0 <= i < parts.len() ==> (#[trigger] list@[i])@ == trim(decode_utf8(parts[i]))
        },
{
    law_ended_pieces_are_cut_again(parts, 0u8);
    lemma_strict(parts);
    let cut = parts.push(Seq::empty());
    assert(cut.drop_last() =~= parts);
    assert(cut.last().len() == 0);
    if let Ok(list) = r {
        assert(texts(list@).len() == list@.len());
        assert forall|i: int| 0 <= i < parts.len() implies (#[trigger] list@[i])@ == trim(
            decode_utf8(parts[i]),
        ) by {
            assert(texts(list@)[i] == list@[i]@);
        }
    }
}

/// Firmware is taken from the partition of the slot that was started from, where there is one: its
/// name is the one asked for with the ending of the slot. Where there is none, the partition of the
/// name itself is taken.
pub proof fn law_firmware_is_taken_from_the_current_slot(
    list: Seq<Partition>,
    name: Seq<char>,
    slot: Slot,
    i: int,
)
    requires
        named_slot(name) is None,
        0 <= i < list.len(),
    ensures
        ({
            let ending = match slot {
                Slot::A => seq!['_', 'a'],
                Slot::B => seq!['_', 'b'],
            };
            let only = |text: Seq<char>|
                list[i].is_named(text) && forall|k: int|
                    0 <= k < list.len() && k != i ==> !(#[trigger] list[k]).is_named(text);
            let none = |text: Seq<char>|
                forall|k: int| 0 <= k < list.len() ==> !(#[trigger] list[k]).is_named(text);
            let found = first_found(list, candidates(name, Some(slot)), 0);
            &&& only(name + ending) ==> found == Ok::<Option<int>, PartitionError>(Some(i))
            &&& none(name + ending) && only(name) ==> found == Ok::<Option<int>, PartitionError>(
                Some(i),
            )
            &&& none(name + ending) && none(name) ==> found == Ok::<Option<int>, PartitionError>(
                None,
            )
            &&& only(name) ==> first_found(list, candidates(name, None), 0) == Ok::<
                Option<int>,
                PartitionError,
            >(Some(i))
        }),
{
    reveal_strlit("_a");
    reveal_strlit("_b");
    assert("_a"@ =~= seq!['_', 'a']);
    assert("_b"@ =~= seq!['_', 'b']);
    reveal_with_fuel(first_found, 3);
    law_names_mean_their_partitions(list, name + slot.ending(), i, i);
    law_names_mean_their_partitions(list, name, i, i);
}

} // verus!
