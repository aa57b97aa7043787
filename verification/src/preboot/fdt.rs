//! Reading a device tree where it lies.
use vstd::prelude::*;

use crate::bytes::{
    be32, be64, be_u32, be_u64, c_bytes, c_length, find_byte, lemma_next_byte, next_byte, parts,
    push_bytes, same_bytes, utf8,
};
use crate::kexec::fdt::{
    header_fields, lemma_token_at, property_at, property_parts, read_token,
    skip_node_subtree, string_at, string_of, subtree_end, token_at, word_at, FdtError, Header, Token,
    FDT_BEGIN_NODE, FDT_END, FDT_END_NODE, FDT_MAGIC, FDT_NOP, FDT_PROP, HEADER_SIZE,
};
use crate::text::{ended, pieces, split_state};

verus! {

/// The greatest depth of a node.
pub const MAX_DEPTH: usize = 32;

/// What is wrong with a tree, or was not found in it.
#[derive(Clone, Copy, Debug, PartialEq, Eq, Structural)]
pub enum Error {
    BadMagic,
    BadOffset,
    BadToken,
    BadValue,
    NotFound,
    TooDeep,
    Unterminated,
}

/// What a fault of a structure block means here.
pub open spec fn fault(e: FdtError) -> Error {
    match e {
        FdtError::UnterminatedName | FdtError::SubtreeUnterminated => Error::Unterminated,
        FdtError::UnknownToken(_) | FdtError::TooManyEnds => Error::BadToken,
        _ => Error::BadOffset,
    }
}

fn fault_of(e: FdtError) -> (r: Error)
    ensures
        r == fault(e),
{
    match e {
        FdtError::UnterminatedName | FdtError::SubtreeUnterminated => Error::Unterminated,
        FdtError::UnknownToken(_) | FdtError::TooManyEnds => Error::BadToken,
        _ => Error::BadOffset,
    }
}

/// The 32-bit integer at `offset`.
pub open spec fn word(data: Seq<u8>, offset: int) -> Result<u32, Error> {
    if offset + 4 > data.len() {
        Err(Error::BadOffset)
    } else {
        Ok(be32(data, offset))
    }
}

/// The 32-bit integer at `offset`.
pub fn read_be32(data: &[u8], offset: usize) -> (r: Result<u32, Error>)
    ensures
        r == word(data@, offset as int),
{
    if offset > data.len() || data.len() - offset < 4 {
        Err(Error::BadOffset)
    } else {
        Ok(be_u32(data, offset))
    }
}

/// The integer of one or two cells at `offset`.
pub open spec fn cells(data: Seq<u8>, offset: int, count: int) -> Result<u64, Error> {
    if count == 1 {
        match word(data, offset) {
            Ok(value) => Ok(value as u64),
            Err(e) => Err(e),
        }
    } else if count == 2 {
        if offset + 8 > data.len() {
            Err(Error::BadOffset)
        } else {
            Ok((be32(data, offset) * 0x1_0000_0000 + be32(data, offset + 4)) as u64)
        }
    } else {
        Err(Error::BadValue)
    }
}

/// The integer of one or two cells at `offset`.
pub fn read_cells(data: &[u8], offset: usize, count: usize) -> (r: Result<u64, Error>)
    ensures
        r == cells(data@, offset as int, count as int),
{
    if count == 0 || count > 2 {
        return Err(Error::BadValue);
    }
    let size = data.len();
    let high = read_be32(data, offset)?;
    if count == 1 {
        return Ok(high as u64);
    }
    let low = read_be32(data, offset + 4)?;
    Ok(high as u64 * 0x1_0000_0000 + low as u64)
}

/// The token at `cursor`.
pub open spec fn tok(structure: Seq<u8>, cursor: int) -> Result<Token, Error> {
    match token_at(structure, cursor) {
        Ok(token) => Ok(token),
        Err(e) => Err(fault(e)),
    }
}

/// The token at `cursor`.
pub fn token(structure: &[u8], cursor: usize) -> (r: Result<Token, Error>)
    ensures
        r == tok(structure@, cursor as int),
{
    match read_token(structure, cursor) {
        Ok(token) => Ok(token),
        Err(e) => Err(fault_of(e)),
    }
}

/// What stands at a place inside a node.
#[derive(Clone, Copy, Debug, PartialEq, Eq, Structural)]
pub enum Item {
    Prop { nameoff: u32, value_start: usize, value_end: usize, next: usize },
    Nop,
    /// A child begins.
    Child,
    /// The node ends.
    Stop,
}

/// What stands at a place inside a node.
#[verifier::opaque]
pub open spec fn item_at(structure: Seq<u8>, cursor: int) -> Result<Item, Error> {
    match word_at(structure, cursor) {
        Err(_) => Err(Error::BadOffset),
        Ok(word) => if word == FDT_PROP {
            match property_at(structure, cursor + 4) {
                Ok(Token::Prop { nameoff, value_start, value_end, next, .. }) => Ok(
                    Item::Prop { nameoff, value_start, value_end, next },
                ),
                Ok(_) => Err(Error::BadToken),
                Err(e) => Err(fault(e)),
            }
        } else if word == FDT_BEGIN_NODE {
            Ok(Item::Child)
        } else if word == FDT_END_NODE || word == FDT_END {
            Ok(Item::Stop)
        } else if word == FDT_NOP {
            Ok(Item::Nop)
        } else {
            Err(Error::BadToken)
        },
    }
}

proof fn lemma_item_at(structure: Seq<u8>, cursor: int)
    requires
        0 <= cursor,
    ensures
        item_at(structure, cursor) matches Ok(item) ==> {
            &&& cursor + 4 <= structure.len()
            &&& cursor + 4 <= usize::MAX
            &&& item matches Item::Prop { value_start, value_end, next, .. } ==> {
                &&& cursor + 12 == value_start
                &&& value_start <= value_end <= next <= structure.len()
            }
        },
{
    reveal(item_at);
}

fn read_item(structure: &[u8], cursor: usize) -> (r: Result<Item, Error>)
    ensures
        r == item_at(structure@, cursor as int),
{
    proof {
        reveal(item_at);
    }
    if cursor > structure.len() || structure.len() - cursor < 4 {
        return Err(Error::BadOffset);
    }
    let word = be_u32(structure, cursor);
    if word == FDT_PROP {
        match property_parts(structure, cursor + 4) {
            Ok(Token::Prop { nameoff, value_start, value_end, next, .. }) => Ok(
                Item::Prop { nameoff, value_start, value_end, next },
            ),
            Ok(_) => Err(Error::BadToken),
            Err(e) => Err(fault_of(e)),
        }
    } else if word == FDT_BEGIN_NODE {
        Ok(Item::Child)
    } else if word == FDT_END_NODE || word == FDT_END {
        Ok(Item::Stop)
    } else if word == FDT_NOP {
        Ok(Item::Nop)
    } else {
        Err(Error::BadToken)
    }
}

/// Where the header says the parts of a sound tree are.
pub open spec fn header_told(data: Seq<u8>) -> Result<Header, Error> {
    let h = header_fields(data);
    if data.len() < HEADER_SIZE {
        Err(Error::BadOffset)
    } else if be32(data, 0) != FDT_MAGIC {
        Err(Error::BadMagic)
    } else if h.totalsize < HEADER_SIZE || h.totalsize > data.len() || h.off_dt_struct
        + h.size_dt_struct > h.totalsize || h.off_dt_strings + h.size_dt_strings > h.totalsize
        || h.version < 17 || h.last_comp_version > 17 || h.off_dt_struct < HEADER_SIZE
        || h.off_dt_struct % 4 != 0 || h.off_dt_strings < HEADER_SIZE || h.off_mem_rsvmap
        < HEADER_SIZE || h.off_mem_rsvmap % 8 != 0 || h.off_mem_rsvmap >= h.totalsize {
        Err(Error::BadOffset)
    } else {
        Ok(h)
    }
}

/// Where the header says the parts of a sound tree are.
pub fn parse_header(data: &[u8]) -> (r: Result<Header, Error>)
    ensures
        r == header_told(data@),
{
    if data.len() < HEADER_SIZE {
        return Err(Error::BadOffset);
    }
    if be_u32(data, 0) != FDT_MAGIC {
        return Err(Error::BadMagic);
    }
    let h = Header {
        totalsize: be_u32(data, 4) as usize,
        off_dt_struct: be_u32(data, 8) as usize,
        off_dt_strings: be_u32(data, 12) as usize,
        off_mem_rsvmap: be_u32(data, 16) as usize,
        version: be_u32(data, 20),
        last_comp_version: be_u32(data, 24),
        boot_cpuid_phys: be_u32(data, 28),
        size_dt_strings: be_u32(data, 32) as usize,
        size_dt_struct: be_u32(data, 36) as usize,
    };
    if h.totalsize < HEADER_SIZE || h.totalsize > data.len() || h.off_dt_struct > h.totalsize
        || h.size_dt_struct > h.totalsize - h.off_dt_struct || h.off_dt_strings > h.totalsize
        || h.size_dt_strings > h.totalsize - h.off_dt_strings || h.version < 17
        || h.last_comp_version > 17 || h.off_dt_struct < HEADER_SIZE || h.off_dt_struct % 4 != 0
        || h.off_dt_strings < HEADER_SIZE || h.off_mem_rsvmap < HEADER_SIZE || h.off_mem_rsvmap % 8
        != 0 || h.off_mem_rsvmap >= h.totalsize {
        return Err(Error::BadOffset);
    }
    Ok(h)
}

/// The greatest length of a tree that is read.
pub const MAX_TREE_SIZE: usize = 0x8_0000;

/// Checks that there is a tree at all: none stands at the first address.
pub fn tree_is_given(address: u64) -> (r: Result<(), Error>)
    ensures
        r == (if address == 0 {
            Err::<(), Error>(Error::BadOffset)
        } else {
            Ok(())
        }),
{
    if address == 0 {
        Err(Error::BadOffset)
    } else {
        Ok(())
    }
}

/// The length of the tree at an address, by its header: one that starts with the magic, has room
/// for its header, is not too long and ends at an address.
pub open spec fn length_told(address: u64, header: Seq<u8>) -> Result<usize, Error> {
    let length = be32(header, 4);
    if header.len() < HEADER_SIZE {
        Err(Error::BadOffset)
    } else if be32(header, 0) != FDT_MAGIC {
        Err(Error::BadMagic)
    } else if !(HEADER_SIZE <= length <= MAX_TREE_SIZE) || address + length > u64::MAX {
        Err(Error::BadOffset)
    } else {
        Ok(length as usize)
    }
}

/// The length of the tree at an address, by its header.
pub fn tree_length(address: u64, header: &[u8]) -> (r: Result<usize, Error>)
    ensures
        r == length_told(address, header@),
{
    if header.len() < HEADER_SIZE {
        return Err(Error::BadOffset);
    }
    if be_u32(header, 0) != FDT_MAGIC {
        return Err(Error::BadMagic);
    }
    let length = be_u32(header, 4) as usize;
    if length < HEADER_SIZE || length > MAX_TREE_SIZE || length as u64 > u64::MAX - address {
        return Err(Error::BadOffset);
    }
    Ok(length)
}

/// A node, by the place of its first token.
#[derive(Clone, Copy, Debug, PartialEq, Eq, Structural)]
pub struct Node {
    pub offset: usize,
}

/// A sound tree.
#[derive(Clone, Copy)]
pub struct Reader<'a> {
    pub data: &'a [u8],
    pub header: Header,
    pub structure: &'a [u8],
    pub strings: &'a [u8],
}

impl<'a> Reader<'a> {
    /// The tree that bytes hold.
    pub fn new(data: &'a [u8]) -> (r: Result<Reader<'a>, Error>)
        ensures
            match r {
                Ok(reader) => header_told(data@) == Ok::<Header, Error>(reader.header) && reader.of(
                    data@,
                ),
                Err(e) => header_told(data@) == Err::<Header, Error>(e),
            },
    {
        let header = parse_header(data)?;
        let whole = &data[0..header.totalsize];
        let structure = &data[header.off_dt_struct..header.off_dt_struct + header.size_dt_struct];
        let strings = &data[header.off_dt_strings..header.off_dt_strings + header.size_dt_strings];
        Ok(Reader { data: whole, header, structure, strings })
    }

    /// Whether this is the tree of the bytes.
    pub open spec fn of(&self, data: Seq<u8>) -> bool {
        let h = self.header;
        &&& self.data@ == data.subrange(0, h.totalsize as int)
        &&& self.structure@ == data.subrange(
            h.off_dt_struct as int,
            h.off_dt_struct + h.size_dt_struct,
        )
        &&& self.strings@ == data.subrange(
            h.off_dt_strings as int,
            h.off_dt_strings + h.size_dt_strings,
        )
    }
}

/// Where the list of reserved memory ends that goes on at `cursor`: behind the first entry of
/// zeros.
pub open spec fn reserve_end(data: Seq<u8>, cursor: int) -> Result<int, Error>
    decreases data.len() - cursor,
{
    if cursor < 0 || cursor + 16 > data.len() {
        Err(Error::BadOffset)
    } else if be64(data, cursor) == 0 && be64(data, cursor + 8) == 0 {
        Ok(cursor + 16)
    } else {
        reserve_end(data, cursor + 16)
    }
}

/// The list of reserved memory.
pub open spec fn reserve_list(data: Seq<u8>, offset: int) -> Result<Seq<u8>, Error> {
    match reserve_end(data, offset) {
        Ok(end) => Ok(data.subrange(offset, end)),
        Err(e) => Err(e),
    }
}

/// The node at the top of a tree.
pub open spec fn root_of(structure: Seq<u8>) -> Result<int, Error> {
    match word(structure, 0) {
        Err(e) => Err(e),
        Ok(value) => if value == FDT_BEGIN_NODE {
            Ok(0)
        } else {
            Err(Error::BadToken)
        },
    }
}

/// Whether one of the names is empty.
pub open spec fn has_empty(names: Seq<Seq<u8>>) -> bool {
    exists|i: int| 0 <= i < names.len() && (#[trigger] names[i]).len() == 0
}

/// The names on a path, without the slash in front; a single slash may stand at the end. A path
/// with an empty name is refused.
pub open spec fn path_names(path: Seq<u8>) -> Result<Seq<Seq<u8>>, Error> {
    let all = pieces(path.skip(1), 0x2fu8);
    let names = if all.last().len() == 0 {
        all.drop_last()
    } else {
        all
    };
    if path.len() == 0 || path[0] != 0x2f {
        Err(Error::BadValue)
    } else if has_empty(names) {
        Err(Error::BadValue)
    } else {
        Ok(names)
    }
}

fn split_path(path: &[u8]) -> (r: Result<Vec<Vec<u8>>, Error>)
    ensures
        path_names(path@) == (match r {
            Ok(names) => Ok(parts(names@)),
            Err(e) => Err(e),
        }),
{
    if path.len() == 0 || path[0] != 0x2f {
        return Err(Error::BadValue);
    }
    let body = &path[1..path.len()];
    assert(body@ =~= path@.skip(1));
    let mut done: Vec<Vec<u8>> = Vec::new();
    let mut start: usize = 0;
    let mut i: usize = 0;
    let mut empty = false;
    let ghost all = pieces(body@, 0x2fu8);
    assert(body@.subrange(0, 0) =~= Seq::<u8>::empty());
    assert(parts(done@) =~= Seq::<Seq<u8>>::empty());
    while i < body.len()
        invariant
            start <= i <= body@.len(),
            body@ == path@.skip(1),
            split_state(body@.take(i as int), 0x2fu8) == (parts(done@), body@.subrange(
                start as int,
                i as int,
            )),
            empty == has_empty(parts(done@)),
        decreases body@.len() - i,
    {
        proof {
            assert(body@.take(i + 1).drop_last() =~= body@.take(i as int));
            assert(body@.take(i + 1).last() == body@[i as int]);
        }
        let ghost before = done@;
        if body[i] == 0x2f {
            let mut piece: Vec<u8> = Vec::new();
            push_bytes(&mut piece, &body[start..i]);
            assert(piece@ =~= body@.subrange(start as int, i as int));
            done.push(piece);
            assert(parts(done@) =~= parts(before).push(piece@));
            proof {
                if i == start {
                    assert(parts(done@)[before.len() as int].len() == 0);
                } else {
                    assert forall|k: int|
                        0 <= k < done@.len() && (#[trigger] parts(done@)[k]).len() == 0 implies k
                        < before.len() && parts(before)[k].len() == 0 by {}
                    if empty {
                        let k = choose|k: int|
                            0 <= k < before.len() && (#[trigger] parts(before)[k]).len() == 0;
                        assert(parts(done@)[k].len() == 0);
                    }
                }
            }
            if i == start {
                empty = true;
            }
            start = i + 1;
            assert(body@.subrange(start as int, i + 1) =~= Seq::<u8>::empty());
        } else {
            assert(body@.subrange(start as int, i + 1) =~= body@.subrange(
                start as int,
                i as int,
            ).push(body@[i as int]));
        }
        i += 1;
    }
    assert(body@.take(i as int) =~= body@);
    let ghost front = parts(done@);
    let ghost last = body@.subrange(start as int, i as int);
    assert(all == front.push(last));
    if start < i {
        let mut piece: Vec<u8> = Vec::new();
        push_bytes(&mut piece, &body[start..i]);
        assert(piece@ =~= last);
        let ghost before = done@;
        done.push(piece);
        assert(parts(done@) =~= parts(before).push(piece@));
        proof {
            if empty {
                let k = choose|k: int|
                    0 <= k < before.len() && (#[trigger] parts(before)[k]).len() == 0;
                assert(parts(done@)[k].len() == 0);
            } else {
                assert forall|k: int| 0 <= k < done@.len() implies (
                #[trigger] parts(done@)[k]).len() != 0 by {
                    if k < before.len() {
                        assert(parts(done@)[k] == parts(before)[k]);
                    }
                }
            }
        }
    } else {
        assert(all.drop_last() =~= front);
        assert(all.last() == last && last.len() == 0);
    }
    if empty {
        return Err(Error::BadValue);
    }
    Ok(done)
}

#[via_fn]
proof fn path_from_decreases(
    structure: Seq<u8>,
    names: Seq<Seq<u8>>,
    cursor: int,
    depth: int,
    good: int,
) {
    lemma_token_at(structure, cursor);
}

/// The node at the end of a path, looked for from `cursor` on with `depth` nodes open, the first
/// `good` of which lie on the path.
pub open spec fn path_from(
    structure: Seq<u8>,
    names: Seq<Seq<u8>>,
    cursor: int,
    depth: int,
    good: int,
) -> Result<int, Error>
    decreases (if cursor < structure.len() { structure.len() - cursor } else { 0 }),
    when 0 <= cursor
    via path_from_decreases
{
    match tok(structure, cursor) {
        Err(e) => Err(e),
        Ok(Token::Begin { name_end, next }) => {
            let name = structure.subrange(cursor + 4, name_end as int);
            let hit = if depth == 0 {
                name.len() == 0
            } else {
                good == depth && depth - 1 < names.len() && names[depth - 1] == name
            };
            if depth >= MAX_DEPTH {
                Err(Error::TooDeep)
            } else if hit && names.len() == depth {
                Ok(cursor)
            } else {
                path_from(
                    structure,
                    names,
                    next as int,
                    depth + 1,
                    if hit {
                        depth + 1
                    } else {
                        good
                    },
                )
            }
        },
        Ok(Token::End) => if depth == 0 {
            Err(Error::BadToken)
        } else {
            path_from(
                structure,
                names,
                cursor + 4,
                depth - 1,
                if good < depth {
                    good
                } else {
                    depth - 1
                },
            )
        },
        Ok(Token::Prop { next, .. }) => path_from(structure, names, next as int, depth, good),
        Ok(Token::Nop) => path_from(structure, names, cursor + 4, depth, good),
        Ok(Token::Finish) => Err(Error::NotFound),
    }
}

/// The node at the end of a path.
pub open spec fn node_at(structure: Seq<u8>, path: Seq<u8>) -> Result<int, Error> {
    if path == seq![0x2fu8] {
        root_of(structure)
    } else {
        match path_names(path) {
            Err(e) => Err(e),
            Ok(names) => path_from(structure, names, 0, 0, 0),
        }
    }
}

/// Where the contents of a node start.
pub open spec fn content_start(structure: Seq<u8>, node: int) -> Result<int, Error> {
    match word(structure, node) {
        Err(e) => Err(e),
        Ok(value) => if value != FDT_BEGIN_NODE {
            Err(Error::BadToken)
        } else {
            match tok(structure, node) {
                Ok(Token::Begin { next, .. }) => Ok(next as int),
                Ok(_) => Err(Error::BadToken),
                Err(e) => Err(e),
            }
        },
    }
}

/// The name of a node.
pub open spec fn name_of(structure: Seq<u8>, node: int) -> Result<Seq<u8>, Error> {
    let end = next_byte(structure, node + 4, 0);
    match word(structure, node) {
        Err(e) => Err(e),
        Ok(value) => if value != FDT_BEGIN_NODE {
            Err(Error::BadToken)
        } else if !(node + 4 <= end < structure.len()) {
            Err(Error::Unterminated)
        } else {
            Ok(structure.subrange(node + 4, end))
        },
    }
}

#[via_fn]
proof fn prop_from_decreases(structure: Seq<u8>, strings: Seq<u8>, name: Seq<u8>, cursor: int) {
    lemma_item_at(structure, cursor);
}

/// The value of the first property of this name at or behind `cursor`.
pub open spec fn prop_from(structure: Seq<u8>, strings: Seq<u8>, name: Seq<u8>, cursor: int) -> Result<
    Seq<u8>,
    Error,
>
    decreases (if cursor < structure.len() { structure.len() - cursor } else { 0 }),
    when 0 <= cursor
    via prop_from_decreases
{
    match item_at(structure, cursor) {
        Err(e) => Err(e),
        Ok(Item::Prop { nameoff, value_start, value_end, next }) => match string_of(
            strings,
            nameoff as int,
        ) {
            None => Err(Error::BadOffset),
            Some(own) => if own == name {
                Ok(structure.subrange(value_start as int, value_end as int))
            } else {
                prop_from(structure, strings, name, next as int)
            },
        },
        Ok(Item::Nop) => prop_from(structure, strings, name, cursor + 4),
        Ok(Item::Child) | Ok(Item::Stop) => Err(Error::NotFound),
    }
}

/// The value of a property of a node.
#[verifier::opaque]
pub open spec fn prop_of(structure: Seq<u8>, strings: Seq<u8>, node: int, name: Seq<u8>) -> Result<
    Seq<u8>,
    Error,
> {
    match content_start(structure, node) {
        Err(e) => Err(e),
        Ok(start) => prop_from(structure, strings, name, start),
    }
}

/// The text of a property of a node, which ends with a zero.
pub open spec fn prop_text(structure: Seq<u8>, strings: Seq<u8>, node: int, name: Seq<u8>) -> Result<
    Seq<u8>,
    Error,
> {
    match prop_of(structure, strings, node, name) {
        Err(e) => Err(e),
        Ok(value) => if c_length(value) < value.len() {
            Ok(c_bytes(value))
        } else {
            Err(Error::BadValue)
        },
    }
}

/// The first cell of a property of a node.
pub open spec fn prop_cell(structure: Seq<u8>, strings: Seq<u8>, node: int, name: Seq<u8>) -> Result<
    u32,
    Error,
> {
    match prop_of(structure, strings, node, name) {
        Err(e) => Err(e),
        Ok(value) => word(value, 0),
    }
}

/// The number by which other nodes refer to a node.
pub open spec fn phandle_of(structure: Seq<u8>, strings: Seq<u8>, node: int) -> Result<u32, Error> {
    match prop_cell(structure, strings, node, utf8("phandle"@)) {
        Ok(value) => Ok(value),
        Err(_) => prop_cell(structure, strings, node, utf8("linux,phandle"@)),
    }
}

#[via_fn]
proof fn phandle_from_decreases(structure: Seq<u8>, strings: Seq<u8>, phandle: u32, cursor: int) {
    lemma_token_at(structure, cursor);
}

/// The first node at or behind `cursor` that others refer to by this number.
pub open spec fn phandle_from(structure: Seq<u8>, strings: Seq<u8>, phandle: u32, cursor: int) -> Result<
    int,
    Error,
>
    decreases (if cursor < structure.len() { structure.len() - cursor } else { 0 }),
    when 0 <= cursor
    via phandle_from_decreases
{
    match tok(structure, cursor) {
        Err(e) => Err(e),
        Ok(Token::Begin { next, .. }) => if phandle_of(structure, strings, cursor) == Ok::<
            u32,
            Error,
        >(phandle) {
            Ok(cursor)
        } else {
            phandle_from(structure, strings, phandle, next as int)
        },
        Ok(Token::Prop { next, .. }) => phandle_from(structure, strings, phandle, next as int),
        Ok(Token::End) | Ok(Token::Nop) => phandle_from(structure, strings, phandle, cursor + 4),
        Ok(Token::Finish) => Err(Error::NotFound),
    }
}

#[via_fn]
proof fn child_from_decreases(structure: Seq<u8>, cursor: int) {
    lemma_item_at(structure, cursor);
}

/// The first child at or behind `cursor`, and where it ends.
pub open spec fn child_from(structure: Seq<u8>, cursor: int) -> Result<Option<(int, int)>, Error>
    decreases (if cursor < structure.len() { structure.len() - cursor } else { 0 }),
    when 0 <= cursor
    via child_from_decreases
{
    match item_at(structure, cursor) {
        Err(e) => Err(e),
        Ok(Item::Child) => match subtree_end(structure, cursor, 0) {
            Err(e) => Err(fault(e)),
            Ok(next) => Ok(Some((cursor, next))),
        },
        Ok(Item::Stop) => Ok(None),
        Ok(Item::Prop { next, .. }) => child_from(structure, next as int),
        Ok(Item::Nop) => child_from(structure, cursor + 4),
    }
}

impl<'a> Reader<'a> {
    /// The list of reserved memory.
    pub fn reserve_map(&self) -> (r: Result<&'a [u8], Error>)
        ensures
            reserve_list(self.data@, self.header.off_mem_rsvmap as int) == (match r {
                Ok(list) => Ok(list@),
                Err(e) => Err(e),
            }),
    {
        let start = self.header.off_mem_rsvmap;
        let mut cursor: usize = start;
        loop
            invariant
                start <= cursor,
                start == self.header.off_mem_rsvmap,
                reserve_end(self.data@, start as int) == reserve_end(self.data@, cursor as int),
            decreases (if cursor < self.data@.len() { self.data@.len() - cursor } else { 0 }),
        {
            if cursor > self.data.len() || self.data.len() - cursor < 16 {
                return Err(Error::BadOffset);
            }
            let address = be_u64(self.data, cursor);
            let size = be_u64(self.data, cursor + 8);
            cursor += 16;
            if address == 0 && size == 0 {
                return Ok(&self.data[start..cursor]);
            }
        }
    }

    /// The node at the top of the tree.
    pub fn root(&self) -> (r: Result<Node, Error>)
        ensures
            root_of(self.structure@) == (match r {
                Ok(node) => Ok(node.offset as int),
                Err(e) => Err(e),
            }),
    {
        if read_be32(self.structure, 0)? != FDT_BEGIN_NODE {
            return Err(Error::BadToken);
        }
        Ok(Node { offset: 0 })
    }

    /// The node at the end of a path.
    pub fn find_path(&self, path: &[u8]) -> (r: Result<Node, Error>)
        ensures
            node_at(self.structure@, path@) == (match r {
                Ok(node) => Ok(node.offset as int),
                Err(e) => Err(e),
            }),
    {
        if path.len() == 1 && path[0] == 0x2f {
            assert(path@ =~= seq![0x2fu8]);
            return self.root();
        }
        let names = split_path(path)?;
        let structure = self.structure;
        let ghost told = parts(names@);
        let mut cursor: usize = 0;
        let mut depth: usize = 0;
        let mut good: usize = 0;
        loop
            invariant
                path@ != seq![0x2fu8],
                structure@ == self.structure@,
                told == parts(names@),
                path_names(path@) == Ok::<Seq<Seq<u8>>, Error>(told),
                good <= depth <= MAX_DEPTH,
                path_from(structure@, told, 0, 0, 0) == path_from(
                    structure@,
                    told,
                    cursor as int,
                    depth as int,
                    good as int,
                ),
            decreases (if cursor < structure@.len() { structure@.len() - cursor } else { 0 }),
        {
            proof {
                lemma_token_at(structure@, cursor as int);
            }
            match token(structure, cursor)? {
                Token::Begin { name_end, next } => {
                    let name = &structure[cursor + 4..name_end];
                    let hit = if depth == 0 {
                        name.len() == 0
                    } else {
                        good == depth && depth - 1 < names.len() && same_bytes(
                            &names[depth - 1],
                            name,
                        )
                    };
                    proof {
                        if 0 < depth && depth - 1 < names@.len() {
                            assert(told[depth - 1] == names@[depth - 1]@);
                        }
                    }
                    if depth >= MAX_DEPTH {
                        return Err(Error::TooDeep);
                    }
                    if hit && names.len() == depth {
                        return Ok(Node { offset: cursor });
                    }
                    depth += 1;
                    if hit {
                        good = depth;
                    }
                    cursor = next;
                },
                Token::End => {
                    if depth == 0 {
                        return Err(Error::BadToken);
                    }
                    if good >= depth {
                        good = depth - 1;
                    }
                    depth -= 1;
                    cursor += 4;
                },
                Token::Prop { next, .. } => {
                    cursor = next;
                },
                Token::Nop => {
                    cursor += 4;
                },
                Token::Finish => {
                    return Err(Error::NotFound);
                },
            }
        }
    }

    /// Where the contents of a node start.
    pub fn node_content_start(&self, node: Node) -> (r: Result<usize, Error>)
        ensures
            content_start(self.structure@, node.offset as int) == (match r {
                Ok(start) => Ok(start as int),
                Err(e) => Err(e),
            }),
    {
        if read_be32(self.structure, node.offset)? != FDT_BEGIN_NODE {
            return Err(Error::BadToken);
        }
        match token(self.structure, node.offset)? {
            Token::Begin { next, .. } => Ok(next),
            _ => Err(Error::BadToken),
        }
    }

    /// The name of a node.
    pub fn node_name(&self, node: Node) -> (r: Result<&'a [u8], Error>)
        ensures
            name_of(self.structure@, node.offset as int) == (match r {
                Ok(name) => Ok(name@),
                Err(e) => Err(e),
            }),
    {
        if read_be32(self.structure, node.offset)? != FDT_BEGIN_NODE {
            return Err(Error::BadToken);
        }
        let size = self.structure.len();
        let end = find_byte(self.structure, node.offset + 4, 0);
        if end >= size {
            return Err(Error::Unterminated);
        }
        Ok(&self.structure[node.offset + 4..end])
    }

    /// The value of a property of a node.
    pub fn prop(&self, node: Node, name: &[u8]) -> (r: Result<&'a [u8], Error>)
        ensures
            prop_of(self.structure@, self.strings@, node.offset as int, name@) == (match r {
                Ok(value) => Ok(value@),
                Err(e) => Err(e),
            }),
    {
        proof {
            reveal(prop_of);
        }
        let start = self.node_content_start(node)?;
        let structure = self.structure;
        let strings = self.strings;
        let mut cursor: usize = start;
        loop
            invariant
                prop_from(structure@, strings@, name@, start as int) == prop_from(
                    structure@,
                    strings@,
                    name@,
                    cursor as int,
                ),
                structure@ == self.structure@,
                strings@ == self.strings@,
                content_start(structure@, node.offset as int) == Ok::<int, Error>(start as int),
            decreases (if cursor < structure@.len() { structure@.len() - cursor } else { 0 }),
        {
            proof {
                lemma_item_at(structure@, cursor as int);
                reveal(prop_of);
            }
            match read_item(structure, cursor)? {
                Item::Prop { nameoff, value_start, value_end, next } => {
                    match string_at(strings, nameoff) {
                        None => {
                            return Err(Error::BadOffset);
                        },
                        Some(own) => {
                            if same_bytes(own, name) {
                                return Ok(&structure[value_start..value_end]);
                            }
                        },
                    }
                    cursor = next;
                },
                Item::Nop => {
                    cursor += 4;
                },
                Item::Child | Item::Stop => {
                    return Err(Error::NotFound);
                },
            }
        }
    }

    /// The text of a property of a node.
    pub fn prop_str(&self, node: Node, name: &[u8]) -> (r: Result<&'a [u8], Error>)
        ensures
            prop_text(self.structure@, self.strings@, node.offset as int, name@) == (match r {
                Ok(value) => Ok(value@),
                Err(e) => Err(e),
            }),
    {
        let value = self.prop(node, name)?;
        let end = find_byte(value, 0, 0);
        if end >= value.len() {
            return Err(Error::BadValue);
        }
        let text = &value[0..end];
        assert(text@ =~= c_bytes(value@));
        Ok(text)
    }

    /// The first cell of a property of a node.
    pub fn prop_u32(&self, node: Node, name: &[u8]) -> (r: Result<u32, Error>)
        ensures
            r == prop_cell(self.structure@, self.strings@, node.offset as int, name@),
    {
        let value = self.prop(node, name)?;
        read_be32(value, 0)
    }

    /// The number by which other nodes refer to a node.
    pub fn node_phandle(&self, node: Node) -> (r: Result<u32, Error>)
        ensures
            r == phandle_of(self.structure@, self.strings@, node.offset as int),
    {
        match self.prop_u32(node, "phandle".as_bytes()) {
            Ok(value) => Ok(value),
            Err(_) => self.prop_u32(node, "linux,phandle".as_bytes()),
        }
    }

    /// The first node that others refer to by this number.
    pub fn find_phandle(&self, phandle: u32) -> (r: Result<Node, Error>)
        ensures
            phandle_from(self.structure@, self.strings@, phandle, 0) == (match r {
                Ok(node) => Ok(node.offset as int),
                Err(e) => Err(e),
            }),
    {
        let structure = self.structure;
        let mut cursor: usize = 0;
        loop
            invariant
                structure@ == self.structure@,
                phandle_from(structure@, self.strings@, phandle, 0) == phandle_from(
                    structure@,
                    self.strings@,
                    phandle,
                    cursor as int,
                ),
            decreases (if cursor < structure@.len() { structure@.len() - cursor } else { 0 }),
        {
            proof {
                lemma_token_at(structure@, cursor as int);
            }
            match token(structure, cursor)? {
                Token::Begin { next, .. } => {
                    let node = Node { offset: cursor };
                    if let Ok(own) = self.node_phandle(node) {
                        if own == phandle {
                            return Ok(node);
                        }
                    }
                    cursor = next;
                },
                Token::Prop { next, .. } => {
                    cursor = next;
                },
                Token::End | Token::Nop => {
                    cursor += 4;
                },
                Token::Finish => {
                    return Err(Error::NotFound);
                },
            }
        }
    }

    /// The first child of a node at or behind `start`, and where it ends.
    pub fn next_child(&self, start: usize) -> (r: Result<Option<(Node, usize)>, Error>)
        ensures
            child_from(self.structure@, start as int) == (match r {
                Ok(Some((node, next))) => Ok::<Option<(int, int)>, Error>(
                    Some((node.offset as int, next as int)),
                ),
                Ok(None) => Ok(None),
                Err(e) => Err(e),
            }),
            r matches Ok(Some((node, next))) ==> start <= node.offset < next
                <= self.structure@.len(),
    {
        let structure = self.structure;
        let mut cursor: usize = start;
        loop
            invariant
                start <= cursor,
                structure@ == self.structure@,
                child_from(structure@, start as int) == child_from(structure@, cursor as int),
            decreases (if cursor < structure@.len() { structure@.len() - cursor } else { 0 }),
        {
            proof {
                lemma_item_at(structure@, cursor as int);
            }
            match read_item(structure, cursor)? {
                Item::Child => {
                    return match skip_node_subtree(structure, cursor) {
                        Err(e) => Err(fault_of(e)),
                        Ok(next) => Ok(Some((Node { offset: cursor }, next))),
                    };
                },
                Item::Stop => {
                    return Ok(None);
                },
                Item::Prop { next, .. } => {
                    cursor = next;
                },
                Item::Nop => {
                    cursor += 4;
                },
            }
        }
    }
}

/// Whether a list of strings, each ended by a zero, has `needle` from `cursor` on.
pub open spec fn listed_from(value: Seq<u8>, needle: Seq<u8>, cursor: int) -> bool
    decreases value.len() - cursor,
{
    let end = next_byte(value, cursor, 0);
    if cursor < 0 || cursor >= value.len() || end < cursor || end >= value.len() {
        false
    } else {
        value.subrange(cursor, end) == needle || listed_from(value, needle, end + 1)
    }
}

/// Whether a list of strings, each ended by a zero, has `needle`.
pub open spec fn lists(value: Seq<u8>, needle: Seq<u8>) -> bool {
    listed_from(value, needle, 0)
}

/// Whether a list of strings, each ended by a zero, has `needle`.
pub fn stringlist_contains(value: &[u8], needle: &[u8]) -> (r: bool)
    ensures
        r == lists(value@, needle@),
{
    let mut cursor: usize = 0;
    while cursor < value.len()
        invariant
            cursor <= value@.len(),
            lists(value@, needle@) == listed_from(value@, needle@, cursor as int),
        decreases value@.len() - cursor,
    {
        let end = find_byte(value, cursor, 0);
        if end >= value.len() {
            return false;
        }
        if same_bytes(&value[cursor..end], needle) {
            return true;
        }
        cursor = end + 1;
    }
    false
}

/// A name without its address, which follows an at sign.
pub open spec fn base_name(name: Seq<u8>) -> Seq<u8> {
    name.take(next_byte(name, 0, 0x40u8))
}

/// Whether a name without its address is `basename`.
pub fn basename_eq(name: &[u8], basename: &[u8]) -> (r: bool)
    ensures
        r == (base_name(name@) == basename@),
{
    let end = find_byte(name, 0, 0x40);
    let base = &name[0..end];
    assert(base@ =~= base_name(name@));
    same_bytes(base, basename)
}

/// A tree, as plain values.
pub struct Tree {
    pub structure: Seq<u8>,
    pub strings: Seq<u8>,
}

impl<'a> Reader<'a> {
    /// The tree, as plain values.
    pub open spec fn tree(&self) -> Tree {
        Tree { structure: self.structure@, strings: self.strings@ }
    }
}

impl Tree {
    /// The value of a property of a node.
    pub open spec fn prop(self, node: int, name: Seq<char>) -> Result<Seq<u8>, Error> {
        prop_of(self.structure, self.strings, node, utf8(name))
    }

    /// The text of a property of a node.
    pub open spec fn text(self, node: int, name: Seq<char>) -> Result<Seq<u8>, Error> {
        prop_text(self.structure, self.strings, node, utf8(name))
    }

    /// The first cell of a property of a node.
    pub open spec fn cell(self, node: int, name: Seq<char>) -> Result<u32, Error> {
        prop_cell(self.structure, self.strings, node, utf8(name))
    }

    /// The node at the end of a path.
    pub open spec fn node(self, path: Seq<char>) -> Result<int, Error> {
        node_at(self.structure, utf8(path))
    }
}

/// A subtree ends behind where it starts, inside the structure.
pub proof fn lemma_subtree_end(structure: Seq<u8>, cursor: int, depth: int)
    requires
        0 <= cursor,
    ensures
        subtree_end(structure, cursor, depth) matches Ok(end) ==> cursor < end <= structure.len(),
    decreases (if cursor < structure.len() { structure.len() - cursor } else { 0 }),
{
    lemma_token_at(structure, cursor);
    if let Ok(found) = token_at(structure, cursor) {
        match found {
            Token::Begin { next, .. } => {
                lemma_subtree_end(structure, next as int, depth + 1);
            },
            Token::End => {
                lemma_subtree_end(structure, cursor + 4, depth - 1);
            },
            Token::Prop { next, .. } => {
                lemma_subtree_end(structure, next as int, depth);
            },
            Token::Nop => {
                lemma_subtree_end(structure, cursor + 4, depth);
            },
            Token::Finish => {},
        }
    }
}

/// A child stands at or behind where it is looked for, and ends behind that, inside the structure.
pub proof fn lemma_child_from(structure: Seq<u8>, cursor: int)
    requires
        0 <= cursor,
    ensures
        child_from(structure, cursor) matches Ok(Some((node, next))) ==> cursor <= node < next
            <= structure.len(),
    decreases (if cursor < structure.len() { structure.len() - cursor } else { 0 }),
{
    lemma_item_at(structure, cursor);
    if let Ok(item) = item_at(structure, cursor) {
        match item {
            Item::Child => {
                lemma_subtree_end(structure, cursor, 0);
            },
            Item::Prop { next, .. } => {
                lemma_child_from(structure, next as int);
            },
            Item::Nop => {
                lemma_child_from(structure, cursor + 4);
            },
            Item::Stop => {},
        }
    }
}

/// Strings one behind the other, each ended by a zero.
proof fn lemma_ended_from(parts: Seq<Seq<u8>>, k: int)
    requires
        0 <= k <= parts.len(),
    ensures
        ended(parts.take(k), 0u8).is_prefix_of(ended(parts, 0u8)),
        k < parts.len() ==> ended(parts.take(k + 1), 0u8) == ended(parts.take(k), 0u8)
            + parts[k].push(0u8),
    decreases parts.len() - k,
{
    if k < parts.len() {
        assert(parts.take(k + 1).drop_last() =~= parts.take(k));
        assert(parts.take(k + 1).last() == parts[k]);
        lemma_ended_from(parts, k + 1);
        let whole = ended(parts, 0u8);
        let short = ended(parts.take(k), 0u8);
        let longer = ended(parts.take(k + 1), 0u8);
        assert(longer =~= whole.take(longer.len() as int));
        assert forall|i: int| 0 <= i < short.len() implies short[i] == whole[i] by {
            assert(longer[i] == short[i]);
        }
    } else {
        assert(parts.take(k) =~= parts);
    }
}

proof fn lemma_listed_from(parts: Seq<Seq<u8>>, needle: Seq<u8>, k: int)
    requires
        0 <= k <= parts.len(),
        forall|i: int| 0 <= i < parts.len() ==> !(#[trigger] parts[i]).contains(0u8),
    ensures
        listed_from(ended(parts, 0u8), needle, ended(parts.take(k), 0u8).len() as int) <==> exists|
            i: int,
        |
            k <= i < parts.len() && #[trigger] parts[i] == needle,
    decreases parts.len() - k,
{
    let whole = ended(parts, 0u8);
    let at = ended(parts.take(k), 0u8).len() as int;
    lemma_ended_from(parts, k);
    if k < parts.len() {
        let longer = ended(parts.take(k + 1), 0u8);
        lemma_ended_from(parts, k + 1);
        lemma_listed_from(parts, needle, k + 1);
        let n = parts[k].len() as int;
        assert(longer =~= whole.take(longer.len() as int));
        assert forall|i: int| 0 <= i < n implies whole[at + i] == parts[k][i] by {
            assert(longer[at + i] == parts[k].push(0u8)[i]);
        }
        assert(longer[at + n] == 0);
        assert(whole[at + n] == 0);
        lemma_next_byte(whole, at, 0);
        let end = next_byte(whole, at, 0);
        assert(end == at + n) by {
            if end < at + n {
                assert(whole[end] == parts[k][end - at]);
                assert(parts[k].contains(parts[k][end - at]));
            }
        }
        assert(whole.subrange(at, end) =~= parts[k]);
        assert(longer.len() == end + 1);
    } else {
        assert(parts.take(k) =~= parts);
    }
}

/// A list of strings, each ended by a zero, lists exactly its strings.
pub proof fn law_lists_have_their_strings(parts: Seq<Seq<u8>>, needle: Seq<u8>)
    requires
        forall|i: int| 0 <= i < parts.len() ==> !(#[trigger] parts[i]).contains(0u8),
    ensures
        lists(ended(parts, 0u8), needle) <==> parts.contains(needle),
{
    lemma_listed_from(parts, needle, 0);
    assert(parts.take(0) =~= Seq::<Seq<u8>>::empty());
}

/// The value of a property is found by its name: where a property of that name is next, its bytes
/// are the value, and where another one is next, it is passed over with its padding. Behind the
/// properties of a node nothing is found.
#[verifier::spinoff_prover]
pub proof fn law_properties_are_found_by_name(
    structure: Seq<u8>,
    strings: Seq<u8>,
    name: Seq<u8>,
    at: int,
)
    requires
        0 <= at,
        at % 4 == 0,
        at + 12 <= structure.len() <= u32::MAX - 3,
    ensures
        ({
            let kind = be32(structure, at);
            let size = be32(structure, at + 4) as int;
            let own = string_of(strings, be32(structure, at + 8) as int);
            let behind = (at + 12 + size + 3) / 4 * 4;
            let value = structure.subrange(at + 12, at + 12 + size);
            let found = prop_from(structure, strings, name, at);
            &&& kind == 3 && behind <= structure.len() && own == Some(name) ==> found == Ok::<Seq<u8>, Error>(
                value,
            )
            &&& kind == 3 && behind <= structure.len() && own is Some && own != Some(name) ==> found
                == prop_from(structure, strings, name, behind)
            &&& kind == 4 ==> found == prop_from(structure, strings, name, at + 4)
            &&& kind == 1 || kind == 2 ==> found is Err
        }),
{
    reveal(item_at);
    reveal_with_fuel(prop_from, 2);
}

} // verus!
