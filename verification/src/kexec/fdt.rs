//! Flattened device trees for the next kernel: the `/chosen` node and the `/memory` nodes.
use vstd::prelude::*;
use vstd::string::*;

use crate::bytes::{
    be32, be32_bytes, be64, be64_bytes, be_u32, be_u64, find_byte, has_prefix, lemma_next_byte,
    next_byte, parts, push_be_u32, push_be_u64, push_bytes, push_parts, round_up, same_bytes, utf8,
};
use crate::errors::ErrorKind;
use crate::text::{cat, decimal, decimal_text, owned};

verus! {

/// The number that a flattened device tree starts with.
pub const FDT_MAGIC: u32 = 0xd00d_feed;

/// Token that opens a node.
pub const FDT_BEGIN_NODE: u32 = 1;

/// Token that closes a node.
pub const FDT_END_NODE: u32 = 2;

/// Token of a property.
pub const FDT_PROP: u32 = 3;

/// Token without meaning.
pub const FDT_NOP: u32 = 4;

/// Token that ends the structure block.
pub const FDT_END: u32 = 9;

/// Length of the header.
pub const HEADER_SIZE: usize = 40;

/// A block that the header places.
#[derive(Clone, Copy, Debug, PartialEq, Eq, Structural)]
pub enum Block {
    Structure,
    Strings,
}

/// Why a device tree was refused.
#[derive(Clone, Copy, Debug, PartialEq, Eq, Structural)]
pub enum FdtError {
    SmallerThanHeader,
    BadMagic,
    TotalSize,
    RangeOverflow(Block),
    PastPayload(Block),
    ReserveMapOffset,
    ReserveMapUnterminated,
    OffsetOverflow,
    Truncated,
    UnterminatedName,
    NamePadding,
    AlignmentOverflow,
    PropertyLength,
    PropertyPastEnd,
    UnknownToken(u32),
    RootName,
    TooManyEnds,
    NoRoot,
    Unclosed,
    MultipleRoots,
    SubtreeUnterminated,
    NameOffset(u32),
    StringOffset,
    TooLarge,
    NoLiveMemory,
}

impl Block {
    /// The name of the block.
    pub open spec fn words(self) -> Seq<char> {
        match self {
            Block::Structure => "DTB structure block"@,
            Block::Strings => "DTB strings block"@,
        }
    }

    /// The name of the block.
    pub fn label(self) -> (s: &'static str)
        ensures
            s@ == self.words(),
    {
        match self {
            Block::Structure => "DTB structure block",
            Block::Strings => "DTB strings block",
        }
    }
}

impl FdtError {
    /// The error in words.
    pub open spec fn words(self) -> Seq<char> {
        match self {
            FdtError::SmallerThanHeader => "DTB is smaller than its header"@,
            FdtError::BadMagic => "DTB has invalid magic"@,
            FdtError::TotalSize => "DTB totalsize exceeds payload size"@,
            FdtError::ReserveMapOffset => "DTB reserve map offset is out of range"@,
            FdtError::ReserveMapUnterminated => "DTB reserve map is unterminated"@,
            FdtError::OffsetOverflow => "u32 offset overflow"@,
            FdtError::Truncated => "unexpected end of data while reading u32"@,
            FdtError::UnterminatedName => "unterminated DTB node name"@,
            FdtError::NamePadding => "DTB node name extends past structure block"@,
            FdtError::AlignmentOverflow => "DTB alignment overflow"@,
            FdtError::PropertyLength => "DTB property length overflow"@,
            FdtError::PropertyPastEnd => "DTB property extends past structure block"@,
            FdtError::RootName => "DTB root node name is not empty"@,
            FdtError::TooManyEnds => "DTB structure has too many END_NODE tokens"@,
            FdtError::NoRoot => "DTB structure has no root node"@,
            FdtError::Unclosed => "DTB structure ended before all nodes were closed"@,
            FdtError::MultipleRoots => "DTB structure has multiple root nodes"@,
            FdtError::SubtreeUnterminated => "DTB node subtree is unterminated"@,
            FdtError::StringOffset => "DTB string offset does not fit u32"@,
            FdtError::TooLarge => "DTB totalsize does not fit u32"@,
            FdtError::NoLiveMemory => "live DTB has no root memory nodes"@,
            FdtError::RangeOverflow(block) => block.words() + " range overflow"@,
            FdtError::PastPayload(block) => block.words() + " extends past DTB payload"@,
            FdtError::UnknownToken(token) => "DTB has unknown structure token "@ + decimal(
                token as int,
            ),
            FdtError::NameOffset(offset) => "DTB property name offset "@ + decimal(offset as int)
                + " is out of range"@,
        }
    }

    /// The error in words.
    pub fn message(self) -> (s: String)
        ensures
            s@ == self.words(),
    {
        match self {
            FdtError::SmallerThanHeader => owned("DTB is smaller than its header"),
            FdtError::BadMagic => owned("DTB has invalid magic"),
            FdtError::TotalSize => owned("DTB totalsize exceeds payload size"),
            FdtError::ReserveMapOffset => owned("DTB reserve map offset is out of range"),
            FdtError::ReserveMapUnterminated => owned("DTB reserve map is unterminated"),
            FdtError::OffsetOverflow => owned("u32 offset overflow"),
            FdtError::Truncated => owned("unexpected end of data while reading u32"),
            FdtError::UnterminatedName => owned("unterminated DTB node name"),
            FdtError::NamePadding => owned("DTB node name extends past structure block"),
            FdtError::AlignmentOverflow => owned("DTB alignment overflow"),
            FdtError::PropertyLength => owned("DTB property length overflow"),
            FdtError::PropertyPastEnd => owned("DTB property extends past structure block"),
            FdtError::RootName => owned("DTB root node name is not empty"),
            FdtError::TooManyEnds => owned("DTB structure has too many END_NODE tokens"),
            FdtError::NoRoot => owned("DTB structure has no root node"),
            FdtError::Unclosed => owned("DTB structure ended before all nodes were closed"),
            FdtError::MultipleRoots => owned("DTB structure has multiple root nodes"),
            FdtError::SubtreeUnterminated => owned("DTB node subtree is unterminated"),
            FdtError::StringOffset => owned("DTB string offset does not fit u32"),
            FdtError::TooLarge => owned("DTB totalsize does not fit u32"),
            FdtError::NoLiveMemory => owned("live DTB has no root memory nodes"),
            FdtError::RangeOverflow(block) => cat(block.label(), " range overflow"),
            FdtError::PastPayload(block) => cat(block.label(), " extends past DTB payload"),
            FdtError::UnknownToken(token) => cat(
                "DTB has unknown structure token ",
                decimal_text(token as u64).as_str(),
            ),
            FdtError::NameOffset(offset) => cat(
                cat("DTB property name offset ", decimal_text(offset as u64).as_str()).as_str(),
                " is out of range",
            ),
        }
    }

    /// What kind of error it is.
    pub fn kind(self) -> (r: ErrorKind)
        ensures
            r == ErrorKind::InvalidData,
    {
        ErrorKind::InvalidData
    }
}

/// Where the header says the parts of a tree are.
#[derive(Clone, Copy, Debug, PartialEq, Eq, Structural)]
pub struct Header {
    pub totalsize: usize,
    pub off_dt_struct: usize,
    pub off_dt_strings: usize,
    pub off_mem_rsvmap: usize,
    pub version: u32,
    pub last_comp_version: u32,
    pub boot_cpuid_phys: u32,
    pub size_dt_strings: usize,
    pub size_dt_struct: usize,
}

/// One token of a structure block. `next` is where the following token starts.
#[derive(Clone, Copy, Debug, PartialEq, Eq, Structural)]
pub enum Token {
    /// The name runs from behind the token to `name_end`.
    Begin { name_end: usize, next: usize },
    End,
    /// The value runs from `value_start` to `value_end`.
    Prop { len: u32, nameoff: u32, value_start: usize, value_end: usize, next: usize },
    Nop,
    Finish,
}

/// Offsets in the strings block of the property names of `/chosen`.
#[derive(Clone, Copy, Debug, PartialEq, Eq, Structural)]
pub struct ChosenOffsets {
    pub bootargs: u32,
    pub initrd_start: u32,
    pub initrd_end: u32,
    pub booted_from_kexec: u32,
}

/// The 32-bit integer at `offset`.
pub open spec fn word_at(data: Seq<u8>, offset: int) -> Result<u32, FdtError> {
    if offset + 4 > usize::MAX {
        Err(FdtError::OffsetOverflow)
    } else if offset + 4 > data.len() {
        Err(FdtError::Truncated)
    } else {
        Ok(be32(data, offset))
    }
}

/// The 32-bit integer at `offset`.
pub fn read_be32(data: &[u8], offset: usize) -> (r: Result<u32, FdtError>)
    ensures
        r == word_at(data@, offset as int),
{
    if offset > usize::MAX - 4 {
        return Err(FdtError::OffsetOverflow);
    }
    if offset + 4 > data.len() {
        return Err(FdtError::Truncated);
    }
    Ok(be_u32(data, offset))
}

/// `value` rounded up to a multiple of four.
pub open spec fn aligned(value: int) -> Result<usize, FdtError> {
    if value + 3 > usize::MAX {
        Err(FdtError::AlignmentOverflow)
    } else {
        Ok(round_up(value, 4) as usize)
    }
}

/// `value` rounded up to a multiple of four.
pub fn align_usize(value: usize) -> (r: Result<usize, FdtError>)
    ensures
        r == aligned(value as int),
{
    if value > usize::MAX - 3 {
        return Err(FdtError::AlignmentOverflow);
    }
    Ok((value + 3) / 4 * 4)
}

/// The node that opens with the name at `start`.
pub open spec fn begin_at(block: Seq<u8>, start: int) -> Result<Token, FdtError> {
    let name_end = next_byte(block, start, 0);
    if !(start <= name_end < block.len()) {
        Err(FdtError::UnterminatedName)
    } else {
        match aligned(name_end + 1) {
            Err(e) => Err(e),
            Ok(next) => Ok(Token::Begin { name_end: name_end as usize, next }),
        }
    }
}

/// The property whose length stands at `at`.
pub open spec fn property_at(block: Seq<u8>, at: int) -> Result<Token, FdtError> {
    match word_at(block, at) {
        Err(e) => Err(e),
        Ok(len) => match word_at(block, at + 4) {
            Err(e) => Err(e),
            Ok(nameoff) => {
                let value_end = at + 8 + len;
                if value_end > usize::MAX {
                    Err(FdtError::PropertyLength)
                } else {
                    match aligned(value_end) {
                        Err(e) => Err(e),
                        Ok(next) => if next > block.len() {
                            Err(FdtError::PropertyPastEnd)
                        } else {
                            Ok(
                                Token::Prop {
                                    len,
                                    nameoff,
                                    value_start: (at + 8) as usize,
                                    value_end: value_end as usize,
                                    next,
                                },
                            )
                        },
                    }
                }
            },
        },
    }
}

/// The token at `cursor`.
#[verifier::opaque]
pub open spec fn token_at(block: Seq<u8>, cursor: int) -> Result<Token, FdtError> {
    match word_at(block, cursor) {
        Err(e) => Err(e),
        Ok(word) => if word == FDT_BEGIN_NODE {
            begin_at(block, cursor + 4)
        } else if word == FDT_END_NODE {
            Ok(Token::End)
        } else if word == FDT_PROP {
            property_at(block, cursor + 4)
        } else if word == FDT_NOP {
            Ok(Token::Nop)
        } else if word == FDT_END {
            Ok(Token::Finish)
        } else {
            Err(FdtError::UnknownToken(word))
        },
    }
}

/// Where the token after the one at `cursor` starts.
pub open spec fn after_token(cursor: int, token: Token) -> int {
    match token {
        Token::Begin { next, .. } => next as int,
        Token::Prop { next, .. } => next as int,
        _ => cursor + 4,
    }
}

/// What a token tells about its place in the block.
pub proof fn lemma_token_at(block: Seq<u8>, cursor: int)
    requires
        0 <= cursor,
    ensures
        token_at(block, cursor) matches Ok(token) ==> {
            &&& cursor + 4 <= block.len()
            &&& cursor + 4 <= usize::MAX
            &&& cursor + 4 <= after_token(cursor, token) <= block.len() + 3
            &&& token matches Token::Begin { name_end, next } ==> {
                &&& cursor + 4 <= name_end < block.len()
                &&& name_end < next <= name_end + 4
                &&& block[name_end as int] == 0
                &&& cursor % 4 == 0 ==> next % 4 == 0
            }
            &&& token matches Token::Prop { len, value_start, value_end, next, .. } ==> {
                &&& value_start == cursor + 12
                &&& value_end == value_start + len
                &&& value_end <= next <= block.len()
                &&& next % 4 == 0
            }
        },
{
    reveal(token_at);
    if word_at(block, cursor) == Ok::<u32, FdtError>(FDT_BEGIN_NODE) {
        lemma_next_byte(block, cursor + 4, 0);
    }
}

/// The token at `cursor`.
pub fn read_token(block: &[u8], cursor: usize) -> (r: Result<Token, FdtError>)
    ensures
        r == token_at(block@, cursor as int),
{
    reveal(token_at);
    let word = read_be32(block, cursor)?;
    if word == FDT_BEGIN_NODE {
        let name_end = find_byte(block, cursor + 4, 0);
        if name_end >= block.len() {
            return Err(FdtError::UnterminatedName);
        }
        let next = align_usize(name_end + 1)?;
        Ok(Token::Begin { name_end, next })
    } else if word == FDT_END_NODE {
        Ok(Token::End)
    } else if word == FDT_PROP {
        property_parts(block, cursor + 4)
    } else if word == FDT_NOP {
        Ok(Token::Nop)
    } else if word == FDT_END {
        Ok(Token::Finish)
    } else {
        Err(FdtError::UnknownToken(word))
    }
}

/// The property whose length stands at `cursor`.
pub fn property_parts(data: &[u8], cursor: usize) -> (r: Result<Token, FdtError>)
    ensures
        r == property_at(data@, cursor as int),
{
    let len = read_be32(data, cursor)?;
    let nameoff = read_be32(data, cursor + 4)?;
    let value_start = cursor + 8;
    if len as usize > usize::MAX - value_start {
        return Err(FdtError::PropertyLength);
    }
    let value_end = value_start + len as usize;
    let next = align_usize(value_end)?;
    if next > data.len() {
        return Err(FdtError::PropertyPastEnd);
    }
    Ok(Token::Prop { len, nameoff, value_start, value_end, next })
}

/// The block of `size` bytes at `offset`.
pub open spec fn block_at(data: Seq<u8>, offset: int, size: int, which: Block) -> Result<
    Seq<u8>,
    FdtError,
> {
    if offset + size > usize::MAX {
        Err(FdtError::RangeOverflow(which))
    } else if offset + size > data.len() {
        Err(FdtError::PastPayload(which))
    } else {
        Ok(data.subrange(offset, offset + size))
    }
}

/// The block of `size` bytes at `offset`.
pub fn checked_slice<'a>(data: &'a [u8], offset: usize, size: usize, which: Block) -> (r: Result<
    &'a [u8],
    FdtError,
>)
    ensures
        block_at(data@, offset as int, size as int, which) == (match r {
            Ok(s) => Ok(s@),
            Err(e) => Err(e),
        }),
{
    if size > usize::MAX - offset {
        return Err(FdtError::RangeOverflow(which));
    }
    if offset + size > data.len() {
        return Err(FdtError::PastPayload(which));
    }
    Ok(&data[offset..offset + size])
}

/// The fields of the header, as they stand.
pub open spec fn header_fields(dtb: Seq<u8>) -> Header {
    Header {
        totalsize: be32(dtb, 4) as usize,
        off_dt_struct: be32(dtb, 8) as usize,
        off_dt_strings: be32(dtb, 12) as usize,
        off_mem_rsvmap: be32(dtb, 16) as usize,
        version: be32(dtb, 20),
        last_comp_version: be32(dtb, 24),
        boot_cpuid_phys: be32(dtb, 28),
        size_dt_strings: be32(dtb, 32) as usize,
        size_dt_struct: be32(dtb, 36) as usize,
    }
}

/// The structure block that `header` places.
pub open spec fn struct_block(dtb: Seq<u8>, header: Header) -> Seq<u8> {
    dtb.subrange(
        header.off_dt_struct as int,
        header.off_dt_struct + header.size_dt_struct,
    )
}

/// The strings block that `header` places.
pub open spec fn strings_block(dtb: Seq<u8>, header: Header) -> Seq<u8> {
    dtb.subrange(
        header.off_dt_strings as int,
        header.off_dt_strings + header.size_dt_strings,
    )
}

/// The header of a tree, or why it is refused.
pub open spec fn header_of(dtb: Seq<u8>) -> Result<Header, FdtError> {
    let h = header_fields(dtb);
    let structure = block_at(
        dtb,
        h.off_dt_struct as int,
        h.size_dt_struct as int,
        Block::Structure,
    );
    let strings = block_at(
        dtb,
        h.off_dt_strings as int,
        h.size_dt_strings as int,
        Block::Strings,
    );
    if dtb.len() < HEADER_SIZE {
        Err(FdtError::SmallerThanHeader)
    } else if be32(dtb, 0) != FDT_MAGIC {
        Err(FdtError::BadMagic)
    } else if h.totalsize > dtb.len() {
        Err(FdtError::TotalSize)
    } else if structure is Err {
        Err(structure->Err_0)
    } else if strings is Err {
        Err(strings->Err_0)
    } else if h.off_mem_rsvmap >= h.totalsize {
        Err(FdtError::ReserveMapOffset)
    } else {
        Ok(h)
    }
}

impl Header {
    /// The header of a tree, or why it is refused.
    pub fn parse(dtb: &[u8]) -> (r: Result<Header, FdtError>)
        ensures
            r == header_of(dtb@),
    {
        if dtb.len() < HEADER_SIZE {
            return Err(FdtError::SmallerThanHeader);
        }
        if be_u32(dtb, 0) != FDT_MAGIC {
            return Err(FdtError::BadMagic);
        }
        let header = Header {
            totalsize: be_u32(dtb, 4) as usize,
            off_dt_struct: be_u32(dtb, 8) as usize,
            off_dt_strings: be_u32(dtb, 12) as usize,
            off_mem_rsvmap: be_u32(dtb, 16) as usize,
            version: be_u32(dtb, 20),
            last_comp_version: be_u32(dtb, 24),
            boot_cpuid_phys: be_u32(dtb, 28),
            size_dt_strings: be_u32(dtb, 32) as usize,
            size_dt_struct: be_u32(dtb, 36) as usize,
        };
        if header.totalsize > dtb.len() {
            return Err(FdtError::TotalSize);
        }
        checked_slice(dtb, header.off_dt_struct, header.size_dt_struct, Block::Structure)?;
        checked_slice(dtb, header.off_dt_strings, header.size_dt_strings, Block::Strings)?;
        if header.off_mem_rsvmap >= header.totalsize {
            return Err(FdtError::ReserveMapOffset);
        }
        Ok(header)
    }
}

/// `front` followed by what `rest` holds.
pub open spec fn prepend(front: Seq<u8>, rest: Result<Seq<u8>, FdtError>) -> Result<
    Seq<u8>,
    FdtError,
> {
    match rest {
        Ok(tail) => Ok(front + tail),
        Err(e) => Err(e),
    }
}

proof fn lemma_prepend(a: Seq<u8>, b: Seq<u8>, rest: Result<Seq<u8>, FdtError>)
    ensures
        prepend(a, prepend(b, rest)) == prepend(a + b, rest),
        prepend(Seq::empty(), rest) == rest,
{
    match rest {
        Ok(tail) => {
            assert(a + (b + tail) =~= (a + b) + tail);
            assert(Seq::empty() + tail =~= tail);
        },
        Err(_) => {},
    }
}

proof fn lemma_assoc(a: Seq<u8>, b: Seq<u8>, c: Seq<u8>)
    ensures
        (a + b) + c == a + (b + c),
        a + Seq::<u8>::empty() == a,
        Seq::<u8>::empty() + a == a,
{
    assert((a + b) + c =~= a + (b + c));
    assert(a + Seq::<u8>::empty() =~= a);
    assert(Seq::<u8>::empty() + a =~= a);
}

/// The memory reservations from `cursor` on, up to and with the closing one.
pub open spec fn reservations(dtb: Seq<u8>, totalsize: int, cursor: int) -> Result<
    Seq<u8>,
    FdtError,
>
    decreases totalsize - cursor,
{
    if cursor + 16 > totalsize {
        Err(FdtError::ReserveMapUnterminated)
    } else {
        let entry = dtb.subrange(cursor, cursor + 16);
        if be64(dtb, cursor) == 0 && be64(dtb, cursor + 8) == 0 {
            Ok(entry)
        } else {
            prepend(entry, reservations(dtb, totalsize, cursor + 16))
        }
    }
}

/// The memory reservations of a tree.
pub fn reserve_map(dtb: &[u8], header: &Header) -> (r: Result<Vec<u8>, FdtError>)
    requires
        header.totalsize <= dtb@.len(),
    ensures
        reservations(dtb@, header.totalsize as int, header.off_mem_rsvmap as int) == (match r {
            Ok(v) => Ok(v@),
            Err(e) => Err(e),
        }),
{
    let ghost whole = reservations(dtb@, header.totalsize as int, header.off_mem_rsvmap as int);
    let mut cursor = header.off_mem_rsvmap;
    let mut map: Vec<u8> = Vec::new();
    proof {
        lemma_prepend(Seq::empty(), Seq::empty(), whole);
    }
    loop
        invariant
            header.totalsize <= dtb@.len(),
            whole == reservations(dtb@, header.totalsize as int, header.off_mem_rsvmap as int),
            whole == prepend(
                map@,
                reservations(dtb@, header.totalsize as int, cursor as int),
            ),
        decreases (if cursor <= header.totalsize { header.totalsize - cursor } else { 0 }),
    {
        if header.totalsize < 16 || cursor > header.totalsize - 16 {
            return Err(FdtError::ReserveMapUnterminated);
        }
        let entry = &dtb[cursor..cursor + 16];
        let ghost rest = reservations(dtb@, header.totalsize as int, cursor + 16);
        let address = be_u64(dtb, cursor);
        let size = be_u64(dtb, cursor + 8);
        proof {
            lemma_prepend(map@, entry@, rest);
        }
        push_bytes(&mut map, entry);
        cursor += 16;
        if address == 0 && size == 0 {
            return Ok(map);
        }
    }
}

/// `s` with zero bytes behind it up to a multiple of four.
pub open spec fn padded4(s: Seq<u8>) -> Seq<u8> {
    s + Seq::new(((4 - s.len() % 4) % 4) as nat, |i: int| 0u8)
}

/// Zero bytes up to a multiple of four.
pub fn pad_to(output: &mut Vec<u8>)
    ensures
        final(output)@ == padded4(old(output)@),
{
    let ghost start = output@;
    while output.len() % 4 != 0
        invariant
            start.len() <= output@.len(),
            output@ == start + Seq::new((output@.len() - start.len()) as nat, |i: int| 0u8),
            output@.len() - start.len() <= (4 - start.len() % 4) % 4,
        decreases (4 - output@.len() % 4) % 4,
    {
        let ghost before = output@;
        output.push(0);
        assert(output@ =~= start + Seq::new((output@.len() - start.len()) as nat, |i: int| 0u8));
    }
    assert(output@ =~= padded4(start));
}

/// Padding a sequence behind one of full words pads the sequence alone.
proof fn lemma_padded4(front: Seq<u8>, s: Seq<u8>)
    requires
        front.len() % 4 == 0,
    ensures
        padded4(front + s) == front + padded4(s),
        padded4(s).len() % 4 == 0,
{
    assert(padded4(front + s) =~= front + padded4(s));
}

/// The bytes that open a node.
#[verifier::opaque]
pub open spec fn begin_node_bytes(name: Seq<u8>) -> Seq<u8> {
    padded4(be32_bytes(FDT_BEGIN_NODE) + name + seq![0u8])
}

/// The bytes of a property.
#[verifier::opaque]
pub open spec fn prop_bytes(nameoff: u32, value: Seq<u8>) -> Seq<u8> {
    padded4(
        be32_bytes(FDT_PROP) + be32_bytes(value.len() as u32) + be32_bytes(nameoff) + value,
    )
}

/// Opens a node.
pub fn write_begin_node(output: &mut Vec<u8>, name: &[u8])
    requires
        old(output)@.len() % 4 == 0,
    ensures
        final(output)@ == old(output)@ + begin_node_bytes(name@),
        final(output)@.len() % 4 == 0,
{
    reveal(begin_node_bytes);
    let ghost start = output@;
    push_be_u32(output, FDT_BEGIN_NODE);
    push_bytes(output, name);
    output.push(0);
    let ghost body = be32_bytes(FDT_BEGIN_NODE) + name@ + seq![0u8];
    assert(output@ =~= start + body);
    proof {
        lemma_padded4(start, body);
    }
    pad_to(output);
}

/// Adds a property.
pub fn write_prop(output: &mut Vec<u8>, nameoff: u32, value: &[u8])
    requires
        old(output)@.len() % 4 == 0,
    ensures
        final(output)@ == old(output)@ + prop_bytes(nameoff, value@),
        final(output)@.len() % 4 == 0,
{
    reveal(prop_bytes);
    let ghost start = output@;
    push_be_u32(output, FDT_PROP);
    push_be_u32(output, value.len() as u32);
    push_be_u32(output, nameoff);
    push_bytes(output, value);
    let ghost body = be32_bytes(FDT_PROP) + be32_bytes(value@.len() as u32) + be32_bytes(nameoff)
        + value@;
    assert(output@ =~= start + body);
    proof {
        lemma_padded4(start, body);
    }
    pad_to(output);
}

/// The offset of the string `name` in the strings from `cursor` on.
pub open spec fn string_offset(strings: Seq<u8>, cursor: int, name: Seq<u8>) -> Option<int>
    decreases strings.len() - cursor,
{
    let end = next_byte(strings, cursor, 0);
    if cursor < 0 || cursor >= strings.len() || end < cursor || end >= strings.len() {
        None
    } else if strings.subrange(cursor, end) == name {
        Some(cursor)
    } else {
        string_offset(strings, end + 1, name)
    }
}

/// The strings with `name` among them, and its offset.
pub open spec fn with_string(strings: Seq<u8>, name: Seq<u8>) -> Result<(Seq<u8>, u32), FdtError> {
    match string_offset(strings, 0, name) {
        Some(offset) => if offset > u32::MAX {
            Err(FdtError::StringOffset)
        } else {
            Ok((strings, offset as u32))
        },
        None => if strings.len() > u32::MAX {
            Err(FdtError::StringOffset)
        } else {
            Ok((strings + name + seq![0u8], strings.len() as u32))
        },
    }
}

/// The offset of the string `name` in the strings block.
pub fn find_string(strings: &[u8], name: &[u8]) -> (r: Option<usize>)
    ensures
        string_offset(strings@, 0, name@) == (match r {
            Some(offset) => Some(offset as int),
            None => None,
        }),
        r matches Some(offset) ==> offset < strings@.len(),
{
    let mut cursor: usize = 0;
    while cursor < strings.len()
        invariant
            cursor <= strings@.len(),
            string_offset(strings@, 0, name@) == string_offset(strings@, cursor as int, name@),
        decreases strings@.len() - cursor,
    {
        let end = find_byte(strings, cursor, 0);
        if end >= strings.len() {
            return None;
        }
        if same_bytes(&strings[cursor..end], name) {
            return Some(cursor);
        }
        cursor = end + 1;
    }
    None
}

/// The offset of `name` in the strings, which get it where it is missing.
pub fn ensure_string(strings: &mut Vec<u8>, name: &[u8]) -> (r: Result<u32, FdtError>)
    ensures
        with_string(old(strings)@, name@) == (match r {
            Ok(offset) => Ok((final(strings)@, offset)),
            Err(e) => Err(e),
        }),
{
    let offset: usize = match find_string(strings.as_slice(), name) {
        Some(offset) => offset,
        None => {
            let offset = strings.len();
            push_bytes(strings, name);
            strings.push(0);
            assert(strings@ =~= old(strings)@ + name@ + seq![0u8]);
            offset
        },
    };
    if offset > 0xffff_ffff {
        return Err(FdtError::StringOffset);
    }
    Ok(offset as u32)
}

/// The string at `offset` of the strings block.
pub open spec fn string_of(strings: Seq<u8>, offset: int) -> Option<Seq<u8>> {
    let end = next_byte(strings, offset, 0);
    if offset >= strings.len() || end >= strings.len() {
        None
    } else {
        Some(strings.subrange(offset, end))
    }
}

/// The string at `offset` of the strings block.
pub fn string_at<'a>(strings: &'a [u8], offset: u32) -> (r: Option<&'a [u8]>)
    ensures
        string_of(strings@, offset as int) == (match r {
            Some(s) => Some(s@),
            None => None,
        }),
{
    let start = offset as usize;
    if start >= strings.len() {
        return None;
    }
    let end = find_byte(strings, start, 0);
    if end >= strings.len() {
        return None;
    }
    Some(&strings[start..end])
}

/// The properties that the next kernel finds in `/chosen`: the command line unless it is empty,
/// the bounds of the initial ramdisk if there is one, and the mark of this way of booting.
pub open spec fn chosen_props(
    offsets: ChosenOffsets,
    cmdline: Seq<u8>,
    initrd: Option<(u64, u64)>,
) -> Seq<u8> {
    let bootargs = if cmdline.len() == 0 {
        Seq::empty()
    } else {
        prop_bytes(offsets.bootargs, cmdline + seq![0u8])
    };
    let ramdisk = match initrd {
        Some((start, end)) => prop_bytes(offsets.initrd_start, be64_bytes(start)) + prop_bytes(
            offsets.initrd_end,
            be64_bytes(end),
        ),
        None => Seq::empty(),
    };
    bootargs + ramdisk + prop_bytes(offsets.booted_from_kexec, Seq::empty())
}

/// Adds the properties that the next kernel finds in `/chosen`.
pub fn append_chosen_props(
    output: &mut Vec<u8>,
    offsets: &ChosenOffsets,
    cmdline: &str,
    initrd: Option<(u64, u64)>,
)
    requires
        old(output)@.len() % 4 == 0,
    ensures
        final(output)@ == old(output)@ + chosen_props(*offsets, utf8(cmdline@), initrd),
        final(output)@.len() % 4 == 0,
{
    let ghost start = output@;
    let line = cmdline.as_bytes();
    if line.len() > 0 {
        let mut value: Vec<u8> = Vec::new();
        push_bytes(&mut value, line);
        value.push(0);
        assert(value@ =~= utf8(cmdline@) + seq![0u8]);
        write_prop(output, offsets.bootargs, value.as_slice());
    } else {
        assert(start + Seq::<u8>::empty() =~= start);
    }
    let ghost middle = output@;
    match initrd {
        Some((first, last)) => {
            let mut value: Vec<u8> = Vec::new();
            push_be_u64(&mut value, first);
            assert(value@ =~= be64_bytes(first));
            write_prop(output, offsets.initrd_start, value.as_slice());
            let mut value: Vec<u8> = Vec::new();
            push_be_u64(&mut value, last);
            assert(value@ =~= be64_bytes(last));
            write_prop(output, offsets.initrd_end, value.as_slice());
        },
        None => {},
    }
    let empty: Vec<u8> = Vec::new();
    assert(empty@ =~= Seq::<u8>::empty());
    write_prop(output, offsets.booted_from_kexec, empty.as_slice());
    assert(output@ =~= start + chosen_props(*offsets, utf8(cmdline@), initrd));
}

/// Whether `/chosen` gets a property of this name anew.
pub open spec fn replaces(name: Seq<u8>) -> bool {
    ||| name == utf8("bootargs"@)
    ||| name == utf8("linux,initrd-start"@)
    ||| name == utf8("linux,initrd-end"@)
    ||| name == utf8("linux,booted-from-kexec"@)
}

/// Whether `/chosen` gets a property of this name anew.
pub fn should_replace_chosen_prop(name: &[u8]) -> (r: bool)
    ensures
        r == replaces(name@),
{
    same_bytes(name, "bootargs".as_bytes()) || same_bytes(name, "linux,initrd-start".as_bytes())
        || same_bytes(name, "linux,initrd-end".as_bytes()) || same_bytes(
        name,
        "linux,booted-from-kexec".as_bytes(),
    )
}

/// What has been seen of a tree: how many nodes are open, whether the open node of depth two is
/// `/chosen`, and whether the root and `/chosen` have come by.
#[derive(Clone, Copy, Debug, PartialEq, Eq, Structural)]
pub struct PatchState {
    pub depth: usize,
    pub in_chosen: bool,
    pub saw_root: bool,
    pub saw_chosen: bool,
}

/// The state before the first token.
pub open spec fn patch_start() -> PatchState {
    PatchState { depth: 0, in_chosen: false, saw_root: false, saw_chosen: false }
}

/// A `/chosen` node with `props` and nothing else.
pub open spec fn chosen_node(props: Seq<u8>) -> Seq<u8> {
    begin_node_bytes(utf8("chosen"@)) + props + be32_bytes(FDT_END_NODE)
}

/// The name of a property, empty where its offset is out of range.
pub open spec fn prop_name(strings: Seq<u8>, nameoff: u32) -> Seq<u8> {
    match string_of(strings, nameoff as int) {
        Some(name) => name,
        None => Seq::empty(),
    }
}

/// What stands in the patched block for the token at `cursor`, and the state behind it. The
/// properties that the next kernel finds stand first in `/chosen`, those of the same names are
/// left out there, and a root without such a node gets one at its end.
pub open spec fn patch_step(
    block: Seq<u8>,
    strings: Seq<u8>,
    props: Seq<u8>,
    cursor: int,
    token: Token,
    st: PatchState,
) -> Result<(Seq<u8>, PatchState), FdtError> {
    match token {
        Token::Begin { name_end, .. } => {
            let name = block.subrange(cursor + 4, name_end as int);
            let opens = st.depth == 1 && name == utf8("chosen"@);
            if st.depth == 0 && name.len() > 0 {
                Err(FdtError::RootName)
            } else {
                Ok(
                    (
                        if opens {
                            begin_node_bytes(name) + props
                        } else {
                            begin_node_bytes(name)
                        },
                        PatchState {
                            depth: (st.depth + 1) as usize,
                            in_chosen: if st.depth == 1 {
                                opens
                            } else {
                                st.in_chosen
                            },
                            saw_root: true,
                            saw_chosen: st.saw_chosen || opens,
                        },
                    ),
                )
            }
        },
        Token::End => if st.depth == 0 {
            Err(FdtError::TooManyEnds)
        } else if st.depth == 1 && !st.saw_chosen {
            Ok(
                (
                    chosen_node(props) + be32_bytes(FDT_END_NODE),
                    PatchState { depth: 0, saw_chosen: true, ..st },
                ),
            )
        } else {
            Ok(
                (
                    be32_bytes(FDT_END_NODE),
                    PatchState { depth: (st.depth - 1) as usize, ..st },
                ),
            )
        },
        Token::Prop { nameoff, next, .. } => if st.depth == 2 && st.in_chosen && replaces(
            prop_name(strings, nameoff),
        ) {
            Ok((Seq::empty(), st))
        } else {
            Ok((block.subrange(cursor, next as int), st))
        },
        Token::Nop => Ok((block.subrange(cursor, cursor + 4), st)),
        Token::Finish => if !st.saw_root {
            Err(FdtError::NoRoot)
        } else if st.depth != 0 {
            Err(FdtError::Unclosed)
        } else {
            Ok((be32_bytes(FDT_END), st))
        },
    }
}

#[via_fn]
proof fn patched_from_decreases(block: Seq<u8>, strings: Seq<u8>, props: Seq<u8>, cursor: int, st: PatchState) {
    lemma_token_at(block, cursor);
}

/// The patched block from the token at `cursor` on.
pub open spec fn patched_from(
    block: Seq<u8>,
    strings: Seq<u8>,
    props: Seq<u8>,
    cursor: int,
    st: PatchState,
) -> Result<Seq<u8>, FdtError>
    decreases (if cursor < block.len() { block.len() - cursor } else { 0 }),
    when 0 <= cursor
    via patched_from_decreases
{
    match token_at(block, cursor) {
        Err(e) => Err(e),
        Ok(token) => match patch_step(block, strings, props, cursor, token, st) {
            Err(e) => Err(e),
            Ok((emitted, st)) => if token is Finish {
                Ok(emitted)
            } else {
                prepend(
                    emitted,
                    patched_from(block, strings, props, after_token(cursor, token), st),
                )
            },
        },
    }
}

/// Writes what stands in the patched block for the token at `cursor`.
fn patch_token(
    struct_block: &[u8],
    strings: &[u8],
    offsets: &ChosenOffsets,
    cmdline: &str,
    initrd: Option<(u64, u64)>,
    cursor: usize,
    token: Token,
    st: PatchState,
    output: &mut Vec<u8>,
) -> (r: Result<PatchState, FdtError>)
    requires
        token_at(struct_block@, cursor as int) == Ok::<Token, FdtError>(token),
        old(output)@.len() % 4 == 0,
        cursor % 4 == 0,
        st.depth <= cursor,
        st.depth > 0 ==> st.saw_root,
    ensures
        r matches Ok(after) ==> {
            &&& final(output)@.len() % 4 == 0
            &&& after.depth <= after_token(cursor as int, token)
            &&& after.depth > 0 ==> after.saw_root
            &&& after_token(cursor as int, token) % 4 == 0
        },
        match patch_step(
            struct_block@,
            strings@,
            chosen_props(*offsets, utf8(cmdline@), initrd),
            cursor as int,
            token,
            st,
        ) {
            Ok((emitted, after)) => r == Ok::<PatchState, FdtError>(after) && final(output)@
                == old(output)@ + emitted,
            Err(e) => r == Err::<PatchState, FdtError>(e),
        },
{
    let ghost before = output@;
    let ghost props = chosen_props(*offsets, utf8(cmdline@), initrd);
    proof {
        lemma_token_at(struct_block@, cursor as int);
    }
    let mut st = st;
    match token {
        Token::Begin { name_end, next } => {
            let name = &struct_block[cursor + 4..name_end];
            if st.depth == 0 && name.len() > 0 {
                return Err(FdtError::RootName);
            }
            write_begin_node(output, name);
            st.saw_root = true;
            let opens = st.depth == 1 && same_bytes(name, "chosen".as_bytes());
            if st.depth == 1 {
                st.in_chosen = opens;
            }
            st.depth += 1;
            if opens {
                st.saw_chosen = true;
                append_chosen_props(output, offsets, cmdline, initrd);
                proof {
                    lemma_assoc(before, begin_node_bytes(name@), props);
                }
            }
        },
        Token::End => {
            if st.depth == 0 {
                return Err(FdtError::TooManyEnds);
            }
            if st.depth == 1 && !st.saw_chosen {
                write_begin_node(output, "chosen".as_bytes());
                append_chosen_props(output, offsets, cmdline, initrd);
                push_be_u32(output, FDT_END_NODE);
                st.saw_chosen = true;
                proof {
                    let open = begin_node_bytes(utf8("chosen"@));
                    let close = be32_bytes(FDT_END_NODE);
                    lemma_assoc(before, open, props);
                    lemma_assoc(before, open + props, close);
                    lemma_assoc(before, chosen_node(props), close);
                }
            }
            push_be_u32(output, FDT_END_NODE);
            st.depth -= 1;
        },
        Token::Prop { nameoff, next, .. } => {
            let unnamed: Vec<u8> = Vec::new();
            let name = match string_at(strings, nameoff) {
                Some(name) => name,
                None => unnamed.as_slice(),
            };
            assert(name@ =~= prop_name(strings@, nameoff));
            if !(st.depth == 2 && st.in_chosen && should_replace_chosen_prop(name)) {
                push_bytes(output, &struct_block[cursor..next]);
            } else {
                proof {
                    lemma_assoc(before, Seq::empty(), Seq::empty());
                }
            }
        },
        Token::Nop => {
            push_bytes(output, &struct_block[cursor..cursor + 4]);
        },
        Token::Finish => {
            if !st.saw_root {
                return Err(FdtError::NoRoot);
            }
            if st.depth != 0 {
                return Err(FdtError::Unclosed);
            }
            push_be_u32(output, FDT_END);
        },
    }
    Ok(st)
}

/// Where the token after the one at `cursor` starts.
fn following(cursor: usize, token: Token) -> (next: usize)
    requires
        cursor + 4 <= usize::MAX,
    ensures
        next == after_token(cursor as int, token),
{
    match token {
        Token::Begin { next, .. } => next,
        Token::Prop { next, .. } => next,
        _ => cursor + 4,
    }
}

/// The structure block with the properties of `/chosen` replaced.
pub fn patch_structure_block(
    struct_block: &[u8],
    strings: &[u8],
    offsets: &ChosenOffsets,
    cmdline: &str,
    initrd: Option<(u64, u64)>,
) -> (r: Result<Vec<u8>, FdtError>)
    ensures
        patched_from(
            struct_block@,
            strings@,
            chosen_props(*offsets, utf8(cmdline@), initrd),
            0,
            patch_start(),
        ) == (match r {
            Ok(v) => Ok(v@),
            Err(e) => Err(e),
        }),
{
    let ghost props = chosen_props(*offsets, utf8(cmdline@), initrd);
    let ghost whole = patched_from(struct_block@, strings@, props, 0, patch_start());
    let mut cursor: usize = 0;
    let mut output: Vec<u8> = Vec::new();
    let mut st = PatchState { depth: 0, in_chosen: false, saw_root: false, saw_chosen: false };
    proof {
        lemma_prepend(Seq::empty(), Seq::empty(), whole);
    }
    loop
        invariant
            props == chosen_props(*offsets, utf8(cmdline@), initrd),
            whole == patched_from(struct_block@, strings@, props, 0, patch_start()),
            whole == prepend(
                output@,
                patched_from(struct_block@, strings@, props, cursor as int, st),
            ),
            output@.len() % 4 == 0,
            cursor % 4 == 0,
            st.depth <= cursor,
            st.depth > 0 ==> st.saw_root,
        decreases (if cursor < struct_block@.len() { struct_block@.len() - cursor } else { 0 }),
    {
        let ghost before = output@;
        let ghost st_before = st;
        proof {
            lemma_token_at(struct_block@, cursor as int);
        }
        let token = read_token(struct_block, cursor)?;
        st = patch_token(
            struct_block,
            strings,
            offsets,
            cmdline,
            initrd,
            cursor,
            token,
            st,
            &mut output,
        )?;
        if matches!(token, Token::Finish) {
            return Ok(output);
        }
        let next = following(cursor, token);
        proof {
            let rest = patched_from(struct_block@, strings@, props, next as int, st);
            let step = patch_step(
                struct_block@,
                strings@,
                props,
                cursor as int,
                token,
                st_before,
            );
            lemma_prepend(before, step->Ok_0.0, rest);
        }
        cursor = next;
    }
}

/// The header of a tree with the given block sizes; the reservations follow it at once.
pub open spec fn header_bytes(
    old: Header,
    off_struct: int,
    size_struct: int,
    size_strings: int,
) -> Seq<u8> {
    be32_bytes(FDT_MAGIC) + be32_bytes((off_struct + size_struct + size_strings) as u32)
        + be32_bytes(off_struct as u32) + be32_bytes((off_struct + size_struct) as u32)
        + be32_bytes(40) + be32_bytes(old.version) + be32_bytes(old.last_comp_version)
        + be32_bytes(old.boot_cpuid_phys) + be32_bytes(size_strings as u32) + be32_bytes(
        size_struct as u32,
    )
}

/// The tree made of its parts, refused where its size does not fit the header.
pub open spec fn built(
    old: Header,
    reserve: Seq<u8>,
    structure: Seq<u8>,
    strings: Seq<u8>,
) -> Result<Seq<u8>, FdtError> {
    let off_struct = 40 + padded4(reserve).len();
    if off_struct + structure.len() + strings.len() > u32::MAX {
        Err(FdtError::TooLarge)
    } else {
        Ok(
            header_bytes(
                old,
                off_struct as int,
                structure.len() as int,
                strings.len() as int,
            ) + padded4(reserve) + structure + strings,
        )
    }
}

/// The tree made of its parts.
pub fn build_dtb(
    old_header: &Header,
    reserve_map: &[u8],
    struct_block: &[u8],
    strings: &[u8],
) -> (r: Result<Vec<u8>, FdtError>)
    ensures
        built(*old_header, reserve_map@, struct_block@, strings@) == (match r {
            Ok(v) => Ok(v@),
            Err(e) => Err(e),
        }),
{
    let total: u128 = 40 + (reserve_map.len() as u128 + 3) / 4 * 4 + struct_block.len() as u128
        + strings.len() as u128;
    assert(padded4(reserve_map@).len() == (reserve_map@.len() + 3) / 4 * 4);
    if total > 0xffff_ffff {
        return Err(FdtError::TooLarge);
    }
    let mut reserve: Vec<u8> = Vec::new();
    push_bytes(&mut reserve, reserve_map);
    assert(reserve@ =~= reserve_map@);
    pad_to(&mut reserve);
    let off_struct: u32 = 40 + reserve.len() as u32;
    let size_struct: u32 = struct_block.len() as u32;
    let size_strings: u32 = strings.len() as u32;
    let mut output: Vec<u8> = Vec::new();
    push_be_u32(&mut output, FDT_MAGIC);
    push_be_u32(&mut output, total as u32);
    push_be_u32(&mut output, off_struct);
    push_be_u32(&mut output, off_struct + size_struct);
    push_be_u32(&mut output, 40);
    push_be_u32(&mut output, old_header.version);
    push_be_u32(&mut output, old_header.last_comp_version);
    push_be_u32(&mut output, old_header.boot_cpuid_phys);
    push_be_u32(&mut output, size_strings);
    push_be_u32(&mut output, size_struct);
    proof {
        lemma_assoc(be32_bytes(FDT_MAGIC), Seq::empty(), Seq::empty());
    }
    push_bytes(&mut output, reserve.as_slice());
    push_bytes(&mut output, struct_block);
    push_bytes(&mut output, strings);
    Ok(output)
}

/// The strings with the property names of `/chosen` among them, and where those are.
pub open spec fn chosen_strings(strings: Seq<u8>) -> Result<(Seq<u8>, ChosenOffsets), FdtError> {
    match with_string(strings, utf8("bootargs"@)) {
        Err(e) => Err(e),
        Ok((strings, bootargs)) => match with_string(strings, utf8("linux,initrd-start"@)) {
            Err(e) => Err(e),
            Ok((strings, initrd_start)) => match with_string(strings, utf8("linux,initrd-end"@)) {
                Err(e) => Err(e),
                Ok((strings, initrd_end)) => match with_string(
                    strings,
                    utf8("linux,booted-from-kexec"@),
                ) {
                    Err(e) => Err(e),
                    Ok((strings, booted_from_kexec)) => Ok(
                        (
                            strings,
                            ChosenOffsets { bootargs, initrd_start, initrd_end, booted_from_kexec },
                        ),
                    ),
                },
            },
        },
    }
}

/// The tree for the next kernel: its `/chosen` node tells the command line, the initial ramdisk
/// and the way of booting.
#[verifier::opaque]
pub open spec fn chosen_patched(
    dtb: Seq<u8>,
    cmdline: Seq<char>,
    initrd: Option<(u64, u64)>,
) -> Result<Seq<u8>, FdtError> {
    match header_of(dtb) {
        Err(e) => Err(e),
        Ok(h) => match reservations(dtb, h.totalsize as int, h.off_mem_rsvmap as int) {
            Err(e) => Err(e),
            Ok(reserve) => match chosen_strings(strings_block(dtb, h)) {
                Err(e) => Err(e),
                Ok((strings, offsets)) => match patched_from(
                    struct_block(dtb, h),
                    strings,
                    chosen_props(offsets, utf8(cmdline), initrd),
                    0,
                    patch_start(),
                ) {
                    Err(e) => Err(e),
                    Ok(structure) => built(h, reserve, structure, strings),
                },
            },
        },
    }
}

/// The tree for the next kernel.
pub fn patch_chosen(dtb: &[u8], cmdline: &str, initrd: Option<(u64, u64)>) -> (r: Result<
    Vec<u8>,
    FdtError,
>)
    ensures
        chosen_patched(dtb@, cmdline@, initrd) == (match r {
            Ok(v) => Ok(v@),
            Err(e) => Err(e),
        }),
{
    reveal(chosen_patched);
    let header = Header::parse(dtb)?;
    let reserve = reserve_map(dtb, &header)?;
    let block = checked_slice(
        dtb,
        header.off_dt_struct,
        header.size_dt_struct,
        Block::Structure,
    )?;
    let found = checked_slice(
        dtb,
        header.off_dt_strings,
        header.size_dt_strings,
        Block::Strings,
    )?;
    let mut strings: Vec<u8> = Vec::new();
    push_bytes(&mut strings, found);
    assert(strings@ =~= strings_block(dtb@, header));
    let bootargs = ensure_string(&mut strings, "bootargs".as_bytes())?;
    let initrd_start = ensure_string(&mut strings, "linux,initrd-start".as_bytes())?;
    let initrd_end = ensure_string(&mut strings, "linux,initrd-end".as_bytes())?;
    let booted_from_kexec = ensure_string(&mut strings, "linux,booted-from-kexec".as_bytes())?;
    let offsets = ChosenOffsets { bootargs, initrd_start, initrd_end, booted_from_kexec };
    let structure = patch_structure_block(block, strings.as_slice(), &offsets, cmdline, initrd)?;
    build_dtb(&header, reserve.as_slice(), structure.as_slice(), strings.as_slice())
}

/// Whether a node of this name under the root describes memory.
pub open spec fn names_memory(name: Seq<u8>) -> bool {
    name == utf8("memory"@) || utf8("memory@"@).is_prefix_of(name)
}

/// Whether a node of this name under the root describes memory.
pub fn is_memory_node_name(name: &[u8]) -> (r: bool)
    ensures
        r == names_memory(name@),
{
    same_bytes(name, "memory".as_bytes()) || has_prefix(name, "memory@".as_bytes())
}

/// A copied subtree with `front` before it.
pub open spec fn prepend_copy(
    front: Seq<u8>,
    rest: Result<(Seq<u8>, int, Seq<u8>), FdtError>,
) -> Result<(Seq<u8>, int, Seq<u8>), FdtError> {
    match rest {
        Ok((tail, next, strings)) => Ok((front + tail, next, strings)),
        Err(e) => Err(e),
    }
}

#[via_fn]
proof fn copied_from_decreases(block: Seq<u8>, strings: Seq<u8>, cursor: int, depth: int, to: Seq<u8>) {
    lemma_token_at(block, cursor);
}

/// The subtree whose tokens go on at `cursor`, with `depth` nodes open: its copy for a tree with
/// the strings `to`, where it ends, and the strings with the names of its properties among them.
pub open spec fn copied_from(
    block: Seq<u8>,
    strings: Seq<u8>,
    cursor: int,
    depth: int,
    to: Seq<u8>,
) -> Result<(Seq<u8>, int, Seq<u8>), FdtError>
    decreases (if cursor < block.len() { block.len() - cursor } else { 0 }),
    when 0 <= cursor
    via copied_from_decreases
{
    match token_at(block, cursor) {
        Err(e) => Err(e),
        Ok(Token::Begin { next, .. }) => if next > block.len() {
            Err(FdtError::NamePadding)
        } else {
            prepend_copy(
                block.subrange(cursor, next as int),
                copied_from(block, strings, next as int, depth + 1, to),
            )
        },
        Ok(Token::End) => {
            let raw = block.subrange(cursor, cursor + 4);
            if depth == 0 {
                Err(FdtError::TooManyEnds)
            } else if depth == 1 {
                Ok((raw, cursor + 4, to))
            } else {
                prepend_copy(raw, copied_from(block, strings, cursor + 4, depth - 1, to))
            }
        },
        Ok(Token::Prop { nameoff, value_start, value_end, next, .. }) => match string_of(
            strings,
            nameoff as int,
        ) {
            None => Err(FdtError::NameOffset(nameoff)),
            Some(name) => match with_string(to, name) {
                Err(e) => Err(e),
                Ok((to, offset)) => prepend_copy(
                    prop_bytes(offset, block.subrange(value_start as int, value_end as int)),
                    copied_from(block, strings, next as int, depth, to),
                ),
            },
        },
        Ok(Token::Nop) => prepend_copy(
            block.subrange(cursor, cursor + 4),
            copied_from(block, strings, cursor + 4, depth, to),
        ),
        Ok(Token::Finish) => Err(FdtError::SubtreeUnterminated),
    }
}

/// A subtree ends behind its first token, inside the block.
pub proof fn lemma_copied_from(
    block: Seq<u8>,
    strings: Seq<u8>,
    cursor: int,
    depth: int,
    to: Seq<u8>,
)
    requires
        0 <= cursor,
    ensures
        copied_from(block, strings, cursor, depth, to) matches Ok((_, next, _)) ==> cursor < next
            <= block.len() && (cursor % 4 == 0 ==> next % 4 == 0),
    decreases (if cursor < block.len() { block.len() - cursor } else { 0 }),
{
    lemma_token_at(block, cursor);
    match token_at(block, cursor) {
        Ok(Token::Begin { next, .. }) => {
            lemma_copied_from(block, strings, next as int, depth + 1, to);
        },
        Ok(Token::End) => {
            lemma_copied_from(block, strings, cursor + 4, depth - 1, to);
        },
        Ok(Token::Prop { nameoff, next, .. }) => match string_of(strings, nameoff as int) {
            None => {},
            Some(name) => match with_string(to, name) {
                Err(_) => {},
                Ok((to, _)) => {
                    lemma_copied_from(block, strings, next as int, depth, to);
                },
            },
        },
        Ok(Token::Nop) => {
            lemma_copied_from(block, strings, cursor + 4, depth, to);
        },
        _ => {},
    }
}

proof fn lemma_prepend_copy(
    a: Seq<u8>,
    b: Seq<u8>,
    rest: Result<(Seq<u8>, int, Seq<u8>), FdtError>,
)
    ensures
        prepend_copy(a, prepend_copy(b, rest)) == prepend_copy(a + b, rest),
        prepend_copy(Seq::empty(), rest) == rest,
{
    match rest {
        Ok((tail, _, _)) => {
            lemma_assoc(a, b, tail);
            lemma_assoc(tail, Seq::empty(), Seq::empty());
        },
        Err(_) => {},
    }
}

/// The subtree that starts at `start`, copied for a tree with the strings `output_strings`, and
/// where it ends.
pub fn copy_node_subtree(
    struct_block: &[u8],
    strings: &[u8],
    start: usize,
    output_strings: &mut Vec<u8>,
) -> (r: Result<(Vec<u8>, usize), FdtError>)
    requires
        start % 4 == 0,
    ensures
        copied_from(struct_block@, strings@, start as int, 0, old(output_strings)@) == (match r {
            Ok((data, next)) => Ok((data@, next as int, final(output_strings)@)),
            Err(e) => Err(e),
        }),
{
    let ghost whole = copied_from(struct_block@, strings@, start as int, 0, output_strings@);
    let mut cursor = start;
    let mut depth: usize = 0;
    let mut output: Vec<u8> = Vec::new();
    proof {
        lemma_prepend_copy(Seq::empty(), Seq::empty(), whole);
    }
    loop
        invariant
            whole == copied_from(
                struct_block@,
                strings@,
                start as int,
                0,
                old(output_strings)@,
            ),
            whole == prepend_copy(
                output@,
                copied_from(
                    struct_block@,
                    strings@,
                    cursor as int,
                    depth as int,
                    output_strings@,
                ),
            ),
            output@.len() % 4 == 0,
            cursor % 4 == 0,
            depth <= cursor,
        decreases (if cursor < struct_block@.len() { struct_block@.len() - cursor } else { 0 }),
    {
        let ghost before = output@;
        proof {
            lemma_token_at(struct_block@, cursor as int);
        }
        match read_token(struct_block, cursor)? {
            Token::Begin { next, .. } => {
                if next > struct_block.len() {
                    return Err(FdtError::NamePadding);
                }
                push_bytes(&mut output, &struct_block[cursor..next]);
                proof {
                    lemma_prepend_copy(
                        before,
                        struct_block@.subrange(cursor as int, next as int),
                        copied_from(
                            struct_block@,
                            strings@,
                            next as int,
                            depth + 1,
                            output_strings@,
                        ),
                    );
                }
                cursor = next;
                depth += 1;
            },
            Token::End => {
                if depth == 0 {
                    return Err(FdtError::TooManyEnds);
                }
                push_bytes(&mut output, &struct_block[cursor..cursor + 4]);
                proof {
                    lemma_prepend_copy(
                        before,
                        struct_block@.subrange(cursor as int, cursor + 4),
                        copied_from(
                            struct_block@,
                            strings@,
                            cursor + 4,
                            depth - 1,
                            output_strings@,
                        ),
                    );
                }
                cursor += 4;
                depth -= 1;
                if depth == 0 {
                    return Ok((output, cursor));
                }
            },
            Token::Prop { nameoff, value_start, value_end, next, .. } => {
                let name = match string_at(strings, nameoff) {
                    Some(name) => name,
                    None => return Err(FdtError::NameOffset(nameoff)),
                };
                let offset = ensure_string(output_strings, name)?;
                write_prop(&mut output, offset, &struct_block[value_start..value_end]);
                proof {
                    lemma_prepend_copy(
                        before,
                        prop_bytes(
                            offset,
                            struct_block@.subrange(value_start as int, value_end as int),
                        ),
                        copied_from(
                            struct_block@,
                            strings@,
                            next as int,
                            depth as int,
                            output_strings@,
                        ),
                    );
                }
                cursor = next;
            },
            Token::Nop => {
                push_bytes(&mut output, &struct_block[cursor..cursor + 4]);
                proof {
                    lemma_prepend_copy(
                        before,
                        struct_block@.subrange(cursor as int, cursor + 4),
                        copied_from(
                            struct_block@,
                            strings@,
                            cursor + 4,
                            depth as int,
                            output_strings@,
                        ),
                    );
                }
                cursor += 4;
            },
            Token::Finish => {
                return Err(FdtError::SubtreeUnterminated);
            },
        }
    }
}

#[via_fn]
proof fn subtree_end_decreases(block: Seq<u8>, cursor: int, depth: int) {
    lemma_token_at(block, cursor);
}

/// Where the subtree ends whose tokens go on at `cursor`, with `depth` nodes open.
pub open spec fn subtree_end(block: Seq<u8>, cursor: int, depth: int) -> Result<int, FdtError>
    decreases (if cursor < block.len() { block.len() - cursor } else { 0 }),
    when 0 <= cursor
    via subtree_end_decreases
{
    match token_at(block, cursor) {
        Err(e) => Err(e),
        Ok(Token::Begin { next, .. }) => subtree_end(block, next as int, depth + 1),
        Ok(Token::End) => if depth == 0 {
            Err(FdtError::TooManyEnds)
        } else if depth == 1 {
            Ok(cursor + 4)
        } else {
            subtree_end(block, cursor + 4, depth - 1)
        },
        Ok(Token::Prop { next, .. }) => subtree_end(block, next as int, depth),
        Ok(Token::Nop) => subtree_end(block, cursor + 4, depth),
        Ok(Token::Finish) => Err(FdtError::SubtreeUnterminated),
    }
}

/// Where the subtree that starts at `start` ends.
pub fn skip_node_subtree(struct_block: &[u8], start: usize) -> (r: Result<usize, FdtError>)
    ensures
        subtree_end(struct_block@, start as int, 0) == (match r {
            Ok(next) => Ok(next as int),
            Err(e) => Err(e),
        }),
        r matches Ok(next) ==> start < next <= struct_block@.len() && (start % 4 == 0 ==> next % 4
            == 0),
{
    let mut cursor = start;
    let mut depth: usize = 0;
    loop
        invariant
            subtree_end(struct_block@, start as int, 0) == subtree_end(
                struct_block@,
                cursor as int,
                depth as int,
            ),
            start <= cursor,
            start % 4 == 0 ==> cursor % 4 == 0,
            depth <= cursor,
        decreases (if cursor < struct_block@.len() { struct_block@.len() - cursor } else { 0 }),
    {
        proof {
            lemma_token_at(struct_block@, cursor as int);
        }
        match read_token(struct_block, cursor)? {
            Token::Begin { next, .. } => {
                cursor = next;
                depth += 1;
            },
            Token::End => {
                if depth == 0 {
                    return Err(FdtError::TooManyEnds);
                }
                cursor += 4;
                depth -= 1;
                if depth == 0 {
                    return Ok(cursor);
                }
            },
            Token::Prop { next, .. } => {
                cursor = next;
            },
            Token::Nop => {
                cursor += 4;
            },
            Token::Finish => {
                return Err(FdtError::SubtreeUnterminated);
            },
        }
    }
}

#[via_fn]
proof fn memory_from_decreases(
    block: Seq<u8>,
    strings: Seq<u8>,
    cursor: int,
    depth: int,
    saw_root: bool,
    found: Seq<Seq<u8>>,
    to: Seq<u8>,
) {
    lemma_token_at(block, cursor);
    lemma_copied_from(block, strings, cursor, 0, to);
}

/// The memory nodes under the root from `cursor` on, behind those in `found`, copied for a tree
/// with the strings `to`, and the strings with the names of their properties among them.
pub open spec fn memory_from(
    block: Seq<u8>,
    strings: Seq<u8>,
    cursor: int,
    depth: int,
    saw_root: bool,
    found: Seq<Seq<u8>>,
    to: Seq<u8>,
) -> Result<(Seq<Seq<u8>>, Seq<u8>), FdtError>
    decreases (if cursor < block.len() { block.len() - cursor } else { 0 }),
    when 0 <= cursor
    via memory_from_decreases
{
    match token_at(block, cursor) {
        Err(e) => Err(e),
        Ok(Token::Begin { name_end, next }) => {
            let name = block.subrange(cursor + 4, name_end as int);
            if depth == 0 {
                if saw_root {
                    Err(FdtError::MultipleRoots)
                } else if name.len() > 0 {
                    Err(FdtError::RootName)
                } else {
                    memory_from(block, strings, next as int, 1, true, found, to)
                }
            } else if depth == 1 && names_memory(name) {
                match copied_from(block, strings, cursor, 0, to) {
                    Err(e) => Err(e),
                    Ok((data, next, to)) => memory_from(
                        block,
                        strings,
                        next,
                        depth,
                        saw_root,
                        found.push(data),
                        to,
                    ),
                }
            } else {
                memory_from(block, strings, next as int, depth + 1, saw_root, found, to)
            }
        },
        Ok(Token::End) => if depth == 0 {
            Err(FdtError::TooManyEnds)
        } else {
            memory_from(block, strings, cursor + 4, depth - 1, saw_root, found, to)
        },
        Ok(Token::Prop { next, .. }) => memory_from(
            block,
            strings,
            next as int,
            depth,
            saw_root,
            found,
            to,
        ),
        Ok(Token::Nop) => memory_from(block, strings, cursor + 4, depth, saw_root, found, to),
        Ok(Token::Finish) => if !saw_root {
            Err(FdtError::NoRoot)
        } else if depth != 0 {
            Err(FdtError::Unclosed)
        } else {
            Ok((found, to))
        },
    }
}

/// The memory nodes under the root, copied for a tree with the strings `output_strings`.
pub fn extract_memory_fragments(
    struct_block: &[u8],
    strings: &[u8],
    output_strings: &mut Vec<u8>,
) -> (r: Result<Vec<Vec<u8>>, FdtError>)
    ensures
        memory_from(
            struct_block@,
            strings@,
            0,
            0,
            false,
            Seq::empty(),
            old(output_strings)@,
        ) == (match r {
            Ok(found) => Ok((parts(found@), final(output_strings)@)),
            Err(e) => Err(e),
        }),
{
    let mut cursor: usize = 0;
    let mut depth: usize = 0;
    let mut saw_root = false;
    let mut memory: Vec<Vec<u8>> = Vec::new();
    assert(parts(memory@) =~= Seq::<Seq<u8>>::empty());
    loop
        invariant
            memory_from(
                struct_block@,
                strings@,
                0,
                0,
                false,
                Seq::empty(),
                old(output_strings)@,
            ) == memory_from(
                struct_block@,
                strings@,
                cursor as int,
                depth as int,
                saw_root,
                parts(memory@),
                output_strings@,
            ),
            cursor % 4 == 0,
            depth <= cursor,
        decreases (if cursor < struct_block@.len() { struct_block@.len() - cursor } else { 0 }),
    {
        proof {
            lemma_token_at(struct_block@, cursor as int);
            lemma_copied_from(struct_block@, strings@, cursor as int, 0, output_strings@);
        }
        match read_token(struct_block, cursor)? {
            Token::Begin { name_end, next } => {
                let name = &struct_block[cursor + 4..name_end];
                if depth == 0 {
                    if saw_root {
                        return Err(FdtError::MultipleRoots);
                    }
                    if name.len() > 0 {
                        return Err(FdtError::RootName);
                    }
                    saw_root = true;
                    depth = 1;
                    cursor = next;
                } else if depth == 1 && is_memory_node_name(name) {
                    let ghost before = memory@;
                    let (data, next) = copy_node_subtree(
                        struct_block,
                        strings,
                        cursor,
                        output_strings,
                    )?;
                    memory.push(data);
                    assert(parts(memory@) =~= parts(before).push(data@));
                    cursor = next;
                } else {
                    depth += 1;
                    cursor = next;
                }
            },
            Token::End => {
                if depth == 0 {
                    return Err(FdtError::TooManyEnds);
                }
                depth -= 1;
                cursor += 4;
            },
            Token::Prop { next, .. } => {
                cursor = next;
            },
            Token::Nop => {
                cursor += 4;
            },
            Token::Finish => {
                if !saw_root {
                    return Err(FdtError::NoRoot);
                }
                if depth != 0 {
                    return Err(FdtError::Unclosed);
                }
                return Ok(memory);
            },
        }
    }
}

/// What has been seen of a tree that gets memory nodes: how many nodes are open, whether the root
/// has come by, and whether the memory nodes have been put in.
#[derive(Clone, Copy, Debug, PartialEq, Eq, Structural)]
pub struct GraftState {
    pub depth: usize,
    pub saw_root: bool,
    pub inserted: bool,
}

/// What stands in the grafted block for the token at `cursor`, where the next token is, and the
/// state behind it. The memory nodes of the block are left out, and `memory` stands before the
/// first other node under the root, or at the end of the root.
pub open spec fn graft_step(
    block: Seq<u8>,
    memory: Seq<u8>,
    cursor: int,
    token: Token,
    st: GraftState,
) -> Result<(Seq<u8>, int, GraftState), FdtError> {
    let front = if st.depth == 1 && !st.inserted {
        memory
    } else {
        Seq::empty()
    };
    match token {
        Token::Begin { name_end, next } => {
            let name = block.subrange(cursor + 4, name_end as int);
            if st.depth == 0 && st.saw_root {
                Err(FdtError::MultipleRoots)
            } else if st.depth == 0 && name.len() > 0 {
                Err(FdtError::RootName)
            } else if st.depth == 1 && names_memory(name) {
                match subtree_end(block, cursor, 0) {
                    Err(e) => Err(e),
                    Ok(next) => Ok((Seq::empty(), next, st)),
                }
            } else if next > block.len() {
                Err(FdtError::NamePadding)
            } else {
                Ok(
                    (
                        front + block.subrange(cursor, next as int),
                        next as int,
                        GraftState {
                            depth: (st.depth + 1) as usize,
                            saw_root: true,
                            inserted: st.inserted || st.depth == 1,
                        },
                    ),
                )
            }
        },
        Token::End => if st.depth == 0 {
            Err(FdtError::TooManyEnds)
        } else {
            Ok(
                (
                    front + block.subrange(cursor, cursor + 4),
                    cursor + 4,
                    GraftState {
                        depth: (st.depth - 1) as usize,
                        inserted: st.inserted || st.depth == 1,
                        ..st
                    },
                ),
            )
        },
        Token::Prop { next, .. } => Ok((block.subrange(cursor, next as int), next as int, st)),
        Token::Nop => Ok((block.subrange(cursor, cursor + 4), cursor + 4, st)),
        Token::Finish => if !st.saw_root {
            Err(FdtError::NoRoot)
        } else if st.depth != 0 {
            Err(FdtError::Unclosed)
        } else {
            Ok((block.subrange(cursor, cursor + 4), cursor + 4, st))
        },
    }
}

/// The grafted block from the token at `cursor` on.
pub open spec fn grafted_from(
    block: Seq<u8>,
    memory: Seq<u8>,
    cursor: int,
    st: GraftState,
) -> Result<Seq<u8>, FdtError>
    decreases (if cursor < block.len() { block.len() - cursor } else { 0 }),
    when 0 <= cursor
{
    match token_at(block, cursor) {
        Err(e) => Err(e),
        Ok(token) => match graft_step(block, memory, cursor, token, st) {
            Err(e) => Err(e),
            Ok((emitted, next, st)) => if token is Finish || !(cursor < next && cursor
                < block.len()) {
                Ok(emitted)
            } else {
                prepend(emitted, grafted_from(block, memory, next, st))
            },
        },
    }
}

/// The state before the first token.
pub open spec fn graft_start() -> GraftState {
    GraftState { depth: 0, saw_root: false, inserted: false }
}

/// Writes what stands in the grafted block for the token at `cursor`.
fn graft_token(
    struct_block: &[u8],
    memory: &[Vec<u8>],
    cursor: usize,
    token: Token,
    st: GraftState,
    output: &mut Vec<u8>,
) -> (r: Result<(usize, GraftState), FdtError>)
    requires
        token_at(struct_block@, cursor as int) == Ok::<Token, FdtError>(token),
        cursor % 4 == 0,
        st.depth <= cursor,
        st.depth > 0 ==> st.saw_root,
    ensures
        r matches Ok((next, after)) ==> {
            &&& cursor < next
            &&& next % 4 == 0
            &&& after.depth <= next
            &&& after.depth > 0 ==> after.saw_root
        },
        match graft_step(
            struct_block@,
            parts(memory@).flatten(),
            cursor as int,
            token,
            st,
        ) {
            Ok((emitted, next, after)) => {
                &&& r matches Ok((n, a)) && n == next && a == after
                &&& final(output)@ == old(output)@ + emitted
            },
            Err(e) => r matches Err(f) && f == e,
        },
{
    let ghost before = output@;
    let ghost all = parts(memory@).flatten();
    proof {
        lemma_token_at(struct_block@, cursor as int);
        lemma_assoc(before, Seq::empty(), Seq::empty());
    }
    let mut st = st;
    let next = following(cursor, token);
    if let Token::Begin { name_end, .. } = token {
        let name = &struct_block[cursor + 4..name_end];
        if st.depth == 0 && st.saw_root {
            return Err(FdtError::MultipleRoots);
        }
        if st.depth == 0 && name.len() > 0 {
            return Err(FdtError::RootName);
        }
        if st.depth == 1 && is_memory_node_name(name) {
            let next = skip_node_subtree(struct_block, cursor)?;
            return Ok((next, st));
        }
        if next > struct_block.len() {
            return Err(FdtError::NamePadding);
        }
    }
    if matches!(token, Token::End) && st.depth == 0 {
        return Err(FdtError::TooManyEnds);
    }
    if matches!(token, Token::Finish) {
        if !st.saw_root {
            return Err(FdtError::NoRoot);
        }
        if st.depth != 0 {
            return Err(FdtError::Unclosed);
        }
    }
    let ghost raw = struct_block@.subrange(cursor as int, next as int);
    if matches!(token, Token::Begin { .. }) || matches!(token, Token::End) {
        if st.depth == 1 && !st.inserted {
            append_memory_fragments(output, memory);
            proof {
                lemma_assoc(before, all, raw);
            }
        } else {
            proof {
                lemma_assoc(raw, Seq::empty(), Seq::empty());
            }
        }
        if st.depth == 1 {
            st.inserted = true;
        }
    }
    push_bytes(output, &struct_block[cursor..next]);
    if matches!(token, Token::Begin { .. }) {
        st.depth += 1;
        st.saw_root = true;
    }
    if matches!(token, Token::End) {
        st.depth -= 1;
    }
    Ok((next, st))
}

/// Adds all memory nodes.
pub fn append_memory_fragments(output: &mut Vec<u8>, memory: &[Vec<u8>])
    ensures
        final(output)@ == old(output)@ + parts(memory@).flatten(),
{
    push_parts(output, memory);
}

/// The structure block with `memory` in place of its own memory nodes.
pub fn graft_memory_structure(struct_block: &[u8], memory: &[Vec<u8>]) -> (r: Result<
    Vec<u8>,
    FdtError,
>)
    ensures
        grafted_from(struct_block@, parts(memory@).flatten(), 0, graft_start()) == (match r {
            Ok(v) => Ok(v@),
            Err(e) => Err(e),
        }),
{
    let ghost all = parts(memory@).flatten();
    let ghost whole = grafted_from(struct_block@, all, 0, graft_start());
    let mut cursor: usize = 0;
    let mut output: Vec<u8> = Vec::new();
    let mut st = GraftState { depth: 0, saw_root: false, inserted: false };
    proof {
        lemma_prepend(Seq::empty(), Seq::empty(), whole);
    }
    loop
        invariant
            all == parts(memory@).flatten(),
            whole == grafted_from(struct_block@, all, 0, graft_start()),
            whole == prepend(output@, grafted_from(struct_block@, all, cursor as int, st)),
            cursor % 4 == 0,
            st.depth <= cursor,
            st.depth > 0 ==> st.saw_root,
        decreases (if cursor < struct_block@.len() { struct_block@.len() - cursor } else { 0 }),
    {
        let ghost before = output@;
        let ghost st_before = st;
        proof {
            lemma_token_at(struct_block@, cursor as int);
        }
        let token = read_token(struct_block, cursor)?;
        let (next, after) = graft_token(struct_block, memory, cursor, token, st, &mut output)?;
        st = after;
        if matches!(token, Token::Finish) {
            return Ok(output);
        }
        proof {
            let rest = grafted_from(struct_block@, all, next as int, st);
            let step = graft_step(struct_block@, all, cursor as int, token, st_before);
            lemma_prepend(before, step->Ok_0.0, rest);
        }
        cursor = next;
    }
}

/// The tree `dtb` with the memory nodes of `live` in place of its own.
pub open spec fn memory_grafted(dtb: Seq<u8>, live: Seq<u8>) -> Result<Seq<u8>, FdtError> {
    match header_of(dtb) {
        Err(e) => Err(e),
        Ok(h) => match reservations(dtb, h.totalsize as int, h.off_mem_rsvmap as int) {
            Err(e) => Err(e),
            Ok(reserve) => match header_of(live) {
                Err(e) => Err(e),
                Ok(live_h) => match memory_from(
                    struct_block(live, live_h),
                    strings_block(live, live_h),
                    0,
                    0,
                    false,
                    Seq::empty(),
                    strings_block(dtb, h),
                ) {
                    Err(e) => Err(e),
                    Ok((memory, strings)) => if memory.len() == 0 {
                        Err(FdtError::NoLiveMemory)
                    } else {
                        match grafted_from(
                            struct_block(dtb, h),
                            memory.flatten(),
                            0,
                            graft_start(),
                        ) {
                            Err(e) => Err(e),
                            Ok(structure) => built(h, reserve, structure, strings),
                        }
                    },
                },
            },
        },
    }
}

/// The tree `dtb` with the memory nodes of `live_dtb` in place of its own.
pub fn graft_memory(dtb: &[u8], live_dtb: &[u8]) -> (r: Result<Vec<u8>, FdtError>)
    ensures
        memory_grafted(dtb@, live_dtb@) == (match r {
            Ok(v) => Ok(v@),
            Err(e) => Err(e),
        }),
{
    let header = Header::parse(dtb)?;
    let reserve = reserve_map(dtb, &header)?;
    let block = checked_slice(
        dtb,
        header.off_dt_struct,
        header.size_dt_struct,
        Block::Structure,
    )?;
    let found = checked_slice(
        dtb,
        header.off_dt_strings,
        header.size_dt_strings,
        Block::Strings,
    )?;
    let mut strings: Vec<u8> = Vec::new();
    push_bytes(&mut strings, found);
    assert(strings@ =~= strings_block(dtb@, header));
    let live = Header::parse(live_dtb)?;
    let live_block = checked_slice(
        live_dtb,
        live.off_dt_struct,
        live.size_dt_struct,
        Block::Structure,
    )?;
    let live_strings = checked_slice(
        live_dtb,
        live.off_dt_strings,
        live.size_dt_strings,
        Block::Strings,
    )?;
    let memory = extract_memory_fragments(live_block, live_strings, &mut strings)?;
    if memory.len() == 0 {
        return Err(FdtError::NoLiveMemory);
    }
    let structure = graft_memory_structure(block, memory.as_slice())?;
    build_dtb(&header, reserve.as_slice(), structure.as_slice(), strings.as_slice())
}

} // verus!
