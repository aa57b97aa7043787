//! Writing staged images to partitions.
use vstd::arithmetic::div_mod::*;
use vstd::arithmetic::mul::*;
use vstd::prelude::*;
use vstd::string::*;

use crate::bytes::{le16, le32, le_u16, le_u32};
use crate::errors::ErrorKind;
use crate::partitions::Partition;
use crate::text::{
    after_prefix, before_suffix, cat, chars, decimal, is_line, joined,
    law_beginnings_and_ends_are_taken_off, law_lines_are_read, lines, owned, push_decimal, quoted,
    quoted_text, same_text, split_lines, split_words, strip_prefix, strip_suffix, texts, words,
};

verus! {

/// The greatest number of bytes that are copied at once.
pub const COPY_CHUNK: u64 = 0x10_0000;

/// The number that a sparse image starts with.
pub const ANDROID_SPARSE_MAGIC_LE: u32 = 0xed26_ff3a;

/// The least length of the header of a sparse image.
pub const SPARSE_HEADER_SIZE: u16 = 28;

/// The least length of the header of a chunk.
pub const SPARSE_CHUNK_HEADER_SIZE: u16 = 12;

/// A chunk of data.
pub const SPARSE_CHUNK_RAW: u16 = 0xcac1;

/// A chunk of one repeated word.
pub const SPARSE_CHUNK_FILL: u16 = 0xcac2;

/// A chunk that leaves the target as it is.
pub const SPARSE_CHUNK_DONT_CARE: u16 = 0xcac3;

/// A chunk with a checksum.
pub const SPARSE_CHUNK_CRC32: u16 = 0xcac4;

/// Why a sparse image was refused.
#[derive(Clone, Copy, Debug, PartialEq, Eq, Structural)]
pub enum SparseError {
    Eof,
    Magic,
    Version(u16, u16),
    FileHeaderSize(u16),
    ChunkHeaderSize(u16),
    BlockSize(u32),
    /// The image expands to more bytes than the partition has.
    TooLarge(u64, u64),
    ChunkTotal(u32, u16),
    PositionOverflow,
    Exceeds,
    RawSize,
    FillSize,
    DontCareSize,
    CrcSize,
    UnknownChunk,
    /// The chunks end at another size than the header declares.
    EndedAt(u64, u64),
    /// Bytes follow the last chunk, or are missing from it.
    Trailing(u64, u64),
}

impl SparseError {
    /// The kind of the error.
    pub open spec fn spec_kind(self) -> ErrorKind {
        match self {
            SparseError::Eof => ErrorKind::UnexpectedEof,
            SparseError::TooLarge(_, _) => ErrorKind::InvalidInput,
            _ => ErrorKind::InvalidData,
        }
    }

    /// The kind of the error.
    pub fn kind(self) -> (k: ErrorKind)
        ensures
            k == self.spec_kind(),
    {
        match self {
            SparseError::Eof => ErrorKind::UnexpectedEof,
            SparseError::TooLarge(_, _) => ErrorKind::InvalidInput,
            _ => ErrorKind::InvalidData,
        }
    }

    /// The error in words.
    pub open spec fn words(self) -> Seq<char> {
        match self {
            SparseError::Eof => "failed to fill whole buffer"@,
            SparseError::Magic => "invalid Android sparse image magic"@,
            SparseError::Version(major, minor) => "unsupported Android sparse image version "@
                + decimal(major as int) + "."@ + decimal(minor as int),
            SparseError::FileHeaderSize(size) => "Android sparse file header is too small: "@
                + decimal(size as int),
            SparseError::ChunkHeaderSize(size) => "Android sparse chunk header is too small: "@
                + decimal(size as int),
            SparseError::BlockSize(size) => "Android sparse block size is invalid: "@ + decimal(
                size as int,
            ),
            SparseError::TooLarge(expanded, partition) =>
                "sparse image expands beyond target partition: "@ + decimal(expanded as int)
                + " > "@ + decimal(partition as int) + " bytes"@,
            SparseError::ChunkTotal(total, header) => "Android sparse chunk total size "@
                + decimal(total as int) + " is smaller than header size "@ + decimal(header as int),
            SparseError::PositionOverflow => "Android sparse write position overflows"@,
            SparseError::Exceeds => "Android sparse chunks exceed declared expanded size"@,
            SparseError::RawSize => "Android sparse raw chunk size is invalid"@,
            SparseError::FillSize => "Android sparse fill chunk size is invalid"@,
            SparseError::DontCareSize => "Android sparse don't-care chunk size is invalid"@,
            SparseError::CrcSize => "Android sparse CRC chunk size is invalid"@,
            SparseError::UnknownChunk => "unknown Android sparse chunk type"@,
            SparseError::EndedAt(at, expected) => "Android sparse image ended at "@ + decimal(
                at as int,
            ) + " bytes, expected "@ + decimal(expected as int),
            SparseError::Trailing(consumed, staged) =>
                "Android sparse image has trailing data: consumed "@ + decimal(consumed as int)
                + " of "@ + decimal(staged as int) + " bytes"@,
        }
    }

    /// The error in words.
    pub fn message(self) -> (s: String)
        ensures
            s@ == self.words(),
    {
        match self {
            SparseError::Eof => owned("failed to fill whole buffer"),
            SparseError::Magic => owned("invalid Android sparse image magic"),
            SparseError::Version(major, minor) => {
                let mut s = owned("unsupported Android sparse image version ");
                push_decimal(&mut s, major as u64);
                s.append(".");
                push_decimal(&mut s, minor as u64);
                s
            },
            SparseError::FileHeaderSize(size) => {
                let mut s = owned("Android sparse file header is too small: ");
                push_decimal(&mut s, size as u64);
                s
            },
            SparseError::ChunkHeaderSize(size) => {
                let mut s = owned("Android sparse chunk header is too small: ");
                push_decimal(&mut s, size as u64);
                s
            },
            SparseError::BlockSize(size) => {
                let mut s = owned("Android sparse block size is invalid: ");
                push_decimal(&mut s, size as u64);
                s
            },
            SparseError::TooLarge(expanded, partition) => {
                let mut s = owned("sparse image expands beyond target partition: ");
                push_decimal(&mut s, expanded);
                s.append(" > ");
                push_decimal(&mut s, partition);
                s.append(" bytes");
                s
            },
            SparseError::ChunkTotal(total, header) => {
                let mut s = owned("Android sparse chunk total size ");
                push_decimal(&mut s, total as u64);
                s.append(" is smaller than header size ");
                push_decimal(&mut s, header as u64);
                s
            },
            SparseError::PositionOverflow => owned("Android sparse write position overflows"),
            SparseError::Exceeds => owned("Android sparse chunks exceed declared expanded size"),
            SparseError::RawSize => owned("Android sparse raw chunk size is invalid"),
            SparseError::FillSize => owned("Android sparse fill chunk size is invalid"),
            SparseError::DontCareSize => owned("Android sparse don't-care chunk size is invalid"),
            SparseError::CrcSize => owned("Android sparse CRC chunk size is invalid"),
            SparseError::UnknownChunk => owned("unknown Android sparse chunk type"),
            SparseError::EndedAt(at, expected) => {
                let mut s = owned("Android sparse image ended at ");
                push_decimal(&mut s, at);
                s.append(" bytes, expected ");
                push_decimal(&mut s, expected);
                s
            },
            SparseError::Trailing(consumed, staged) => {
                let mut s = owned("Android sparse image has trailing data: consumed ");
                push_decimal(&mut s, consumed);
                s.append(" of ");
                push_decimal(&mut s, staged);
                s.append(" bytes");
                s
            },
        }
    }
}

/// What the header of a sparse image tells.
#[derive(Clone, Copy, Debug, PartialEq, Eq, Structural)]
pub struct SparseHeader {
    pub chunk_header_size: u16,
    pub block_size: u32,
    pub total_blocks: u32,
    pub total_chunks: u32,
}

impl SparseHeader {
    /// Whether the chunk headers and the blocks have sound lengths.
    pub open spec fn wf(self) -> bool {
        &&& self.chunk_header_size >= SPARSE_CHUNK_HEADER_SIZE
        &&& self.block_size > 0
        &&& self.block_size % 4 == 0
    }

    /// The size of the image when it is expanded.
    pub open spec fn expanded(self) -> int {
        self.total_blocks * self.block_size
    }

    /// What the header of a sparse image tells, and the length of the header.
    pub fn read_from(source: &[u8]) -> (r: Result<(SparseHeader, u16), SparseError>)
        ensures
            r == sparse_header(source@),
            r matches Ok((header, _)) ==> header.wf(),
    {
        if source.len() < 4 {
            return Err(SparseError::Eof);
        }
        if le_u32(source, 0) != ANDROID_SPARSE_MAGIC_LE {
            return Err(SparseError::Magic);
        }
        if source.len() < 8 {
            return Err(SparseError::Eof);
        }
        let major = le_u16(source, 4);
        let minor = le_u16(source, 6);
        if major != 1 || minor != 0 {
            return Err(SparseError::Version(major, minor));
        }
        if source.len() < 28 {
            return Err(SparseError::Eof);
        }
        let file_header_size = le_u16(source, 8);
        let chunk_header_size = le_u16(source, 10);
        let block_size = le_u32(source, 12);
        if file_header_size < SPARSE_HEADER_SIZE {
            return Err(SparseError::FileHeaderSize(file_header_size));
        }
        if chunk_header_size < SPARSE_CHUNK_HEADER_SIZE {
            return Err(SparseError::ChunkHeaderSize(chunk_header_size));
        }
        if block_size == 0 || block_size % 4 != 0 {
            return Err(SparseError::BlockSize(block_size));
        }
        Ok(
            (
                SparseHeader {
                    chunk_header_size,
                    block_size,
                    total_blocks: le_u32(source, 16),
                    total_chunks: le_u32(source, 20),
                },
                file_header_size,
            ),
        )
    }

    /// The size of the image when it is expanded.
    pub fn expanded_size(&self) -> (r: Result<u64, SparseError>)
        ensures
            r == Ok::<u64, SparseError>(self.expanded() as u64),
            0 <= self.expanded() <= u64::MAX,
    {
        proof {
            lemma_product_fits(self.total_blocks, self.block_size);
        }
        Ok(self.total_blocks as u64 * self.block_size as u64)
    }
}

proof fn lemma_product_fits(a: u32, b: u32)
    ensures
        0 <= a * b <= 0xffff_ffff * 0xffff_ffff,
{
    assert(0 <= a * b <= 0xffff_ffff * 0xffff_ffff) by (nonlinear_arith)
        requires
            0 <= a <= 0xffff_ffff,
            0 <= b <= 0xffff_ffff,
    ;
}

/// What the header of a sparse image tells, and the length of the header.
pub open spec fn sparse_header(source: Seq<u8>) -> Result<(SparseHeader, u16), SparseError> {
    let major = le16(source, 4);
    let minor = le16(source, 6);
    let file_header_size = le16(source, 8);
    let chunk_header_size = le16(source, 10);
    let block_size = le32(source, 12);
    if source.len() < 4 {
        Err(SparseError::Eof)
    } else if le32(source, 0) != ANDROID_SPARSE_MAGIC_LE {
        Err(SparseError::Magic)
    } else if source.len() < 8 {
        Err(SparseError::Eof)
    } else if major != 1 || minor != 0 {
        Err(SparseError::Version(major, minor))
    } else if source.len() < 28 {
        Err(SparseError::Eof)
    } else if file_header_size < SPARSE_HEADER_SIZE {
        Err(SparseError::FileHeaderSize(file_header_size))
    } else if chunk_header_size < SPARSE_CHUNK_HEADER_SIZE {
        Err(SparseError::ChunkHeaderSize(chunk_header_size))
    } else if block_size == 0 || block_size % 4 != 0 {
        Err(SparseError::BlockSize(block_size))
    } else {
        Ok(
            (
                SparseHeader {
                    chunk_header_size,
                    block_size,
                    total_blocks: le32(source, 16),
                    total_chunks: le32(source, 20),
                },
                file_header_size,
            ),
        )
    }
}

/// What the header of a chunk tells.
#[derive(Clone, Copy, Debug, PartialEq, Eq, Structural)]
pub struct SparseChunkHeader {
    pub chunk_type: u16,
    pub chunk_blocks: u32,
    pub data_size: u64,
}

/// What the header of the chunk at `at` tells.
pub open spec fn chunk_header(source: Seq<u8>, at: int, header_size: u16) -> Result<
    SparseChunkHeader,
    SparseError,
> {
    let total = le32(source, at + 8);
    if at + 12 > source.len() {
        Err(SparseError::Eof)
    } else if total < header_size {
        Err(SparseError::ChunkTotal(total, header_size))
    } else {
        Ok(
            SparseChunkHeader {
                chunk_type: le16(source, at),
                chunk_blocks: le32(source, at + 4),
                data_size: (total - header_size) as u64,
            },
        )
    }
}

impl SparseChunkHeader {
    /// The number of bytes that the chunk expands to.
    pub open spec fn output(self, block_size: u32) -> int {
        self.chunk_blocks * block_size
    }

    /// What the header of the chunk at `at` tells.
    pub fn read_from(source: &[u8], at: u64, header_size: u16) -> (r: Result<
        SparseChunkHeader,
        SparseError,
    >)
        ensures
            r == chunk_header(source@, at as int, header_size),
    {
        if at > source.len() as u64 || source.len() - (at as usize) < 12 {
            return Err(SparseError::Eof);
        }
        let at = at as usize;
        let total = le_u32(source, at + 8);
        if total < header_size as u32 {
            return Err(SparseError::ChunkTotal(total, header_size));
        }
        Ok(
            SparseChunkHeader {
                chunk_type: le_u16(source, at),
                chunk_blocks: le_u32(source, at + 4),
                data_size: (total - header_size as u32) as u64,
            },
        )
    }

    /// The number of bytes that the chunk expands to.
    pub fn output_size(&self, block_size: u32) -> (r: Result<u64, SparseError>)
        ensures
            r == Ok::<u64, SparseError>(self.output(block_size) as u64),
            0 <= self.output(block_size) <= u64::MAX,
    {
        proof {
            lemma_product_fits(self.chunk_blocks, block_size);
        }
        Ok(self.chunk_blocks as u64 * block_size as u64)
    }
}

/// One write to the target: bytes of the source, or a word of four bytes over and over.
#[derive(Clone, Copy, Debug, PartialEq, Eq, Structural)]
pub enum SparseOp {
    Copy { from: usize, at: u64, len: u64 },
    Fill { b0: u8, b1: u8, b2: u8, b3: u8, at: u64, len: u64 },
}

impl SparseOp {
    /// The first byte of the target that is written.
    pub open spec fn start(self) -> int {
        match self {
            SparseOp::Copy { at, .. } => at as int,
            SparseOp::Fill { at, .. } => at as int,
        }
    }

    /// The number of bytes that are written.
    pub open spec fn length(self) -> int {
        match self {
            SparseOp::Copy { len, .. } => len as int,
            SparseOp::Fill { len, .. } => len as int,
        }
    }

    /// The byte that is written to place `i` of the target.
    pub open spec fn byte(self, source: Seq<u8>, i: int) -> u8 {
        match self {
            SparseOp::Copy { from, at, .. } => source[from + (i - at)],
            SparseOp::Fill { b0, b1, b2, b3, at, .. } => {
                let k = (i - at) % 4;
                if k == 0 {
                    b0
                } else if k == 1 {
                    b1
                } else if k == 2 {
                    b2
                } else {
                    b3
                }
            },
        }
    }
}

/// How far an image has been expanded: the place in the source and in the target, the number of
/// bytes written, and the writes.
pub struct SparseState {
    pub pos: int,
    pub position: int,
    pub written: int,
    pub ops: Seq<SparseOp>,
}

/// The copies that a chunk of data needs, of at most one mebibyte each, as far as the source has
/// the data.
pub open spec fn copies(source_len: int, from: int, at: int, remaining: int) -> Seq<SparseOp>
    decreases remaining,
{
    let len = if remaining < COPY_CHUNK {
        remaining
    } else {
        COPY_CHUNK as int
    };
    if remaining <= 0 || from + len > source_len {
        Seq::empty()
    } else {
        seq![SparseOp::Copy { from: from as usize, at: at as u64, len: len as u64 }] + copies(
            source_len,
            from + len,
            at + len,
            remaining - len,
        )
    }
}

/// The state behind the chunk at `st.pos`, or why the chunk is refused. What was written before
/// the refusal stays in the state.
pub open spec fn chunk_step(
    source: Seq<u8>,
    header: SparseHeader,
    st: SparseState,
) -> (SparseState, Option<SparseError>) {
    match chunk_header(source, st.pos, header.chunk_header_size) {
        Err(e) => (st, Some(e)),
        Ok(chunk) => {
            let data = st.pos + header.chunk_header_size;
            let output = chunk.output(header.block_size);
            let next = st.position + output;
            if next > u64::MAX {
                (st, Some(SparseError::PositionOverflow))
            } else if next > header.expanded() {
                (st, Some(SparseError::Exceeds))
            } else if chunk.chunk_type == SPARSE_CHUNK_RAW {
                let ops = st.ops + copies(source.len() as int, data, st.position, output);
                if chunk.data_size != output {
                    (st, Some(SparseError::RawSize))
                } else if output > 0 && data + output > source.len() {
                    (SparseState { ops, ..st }, Some(SparseError::Eof))
                } else {
                    (
                        SparseState {
                            pos: data + output,
                            position: next,
                            written: st.written + output,
                            ops,
                        },
                        None,
                    )
                }
            } else if chunk.chunk_type == SPARSE_CHUNK_FILL {
                if chunk.data_size != 4 {
                    (st, Some(SparseError::FillSize))
                } else if data + 4 > source.len() {
                    (st, Some(SparseError::Eof))
                } else {
                    (
                        SparseState {
                            pos: data + 4,
                            position: next,
                            written: st.written + output,
                            ops: st.ops.push(
                                SparseOp::Fill {
                                    b0: source[data],
                                    b1: source[data + 1],
                                    b2: source[data + 2],
                                    b3: source[data + 3],
                                    at: st.position as u64,
                                    len: output as u64,
                                },
                            ),
                        },
                        None,
                    )
                }
            } else if chunk.chunk_type == SPARSE_CHUNK_DONT_CARE {
                if chunk.data_size != 0 {
                    (st, Some(SparseError::DontCareSize))
                } else {
                    (SparseState { pos: data, position: next, ..st }, None)
                }
            } else if chunk.chunk_type == SPARSE_CHUNK_CRC32 {
                if output != 0 || chunk.data_size != 4 {
                    (st, Some(SparseError::CrcSize))
                } else {
                    (SparseState { pos: data + 4, position: next, ..st }, None)
                }
            } else {
                (st, Some(SparseError::UnknownChunk))
            }
        },
    }
}

/// The state behind the first `n` chunks, or behind the writes before a refused one.
pub open spec fn expanded_upto(
    source: Seq<u8>,
    header: SparseHeader,
    start: int,
    n: int,
) -> (SparseState, Option<SparseError>)
    decreases n,
{
    if n <= 0 {
        (SparseState { pos: start, position: 0, written: 0, ops: Seq::empty() }, None)
    } else {
        let (st, failure) = expanded_upto(source, header, start, n - 1);
        if failure is Some {
            (st, failure)
        } else {
            chunk_step(source, header, st)
        }
    }
}

/// What was written.
#[derive(Clone, Copy, Debug, PartialEq, Eq, Structural)]
pub struct SparseFlashStats {
    pub expanded_size: u64,
    pub written_size: u64,
    pub chunks: u32,
}

/// The writes that expand an image into a partition, and what comes of it. The writes before a
/// refusal are made.
pub open spec fn sparse_run(source: Seq<u8>, partition_size: u64, staged_size: u64) -> (
    Seq<SparseOp>,
    Result<SparseFlashStats, SparseError>,
) {
    match sparse_header(source) {
        Err(e) => (Seq::empty(), Err(e)),
        Ok((header, start)) => {
            let expanded = header.expanded() as u64;
            if header.expanded() > partition_size {
                (Seq::empty(), Err(SparseError::TooLarge(expanded, partition_size)))
            } else {
                let (st, failure) = expanded_upto(
                    source,
                    header,
                    start as int,
                    header.total_chunks as int,
                );
                match failure {
                    Some(e) => (st.ops, Err(e)),
                    None => if st.position != header.expanded() {
                        (st.ops, Err(SparseError::EndedAt(st.position as u64, expanded)))
                    } else if st.pos != staged_size {
                        (st.ops, Err(SparseError::Trailing(st.pos as u64, staged_size)))
                    } else {
                        (
                            st.ops,
                            Ok(
                                SparseFlashStats {
                                    expanded_size: expanded,
                                    written_size: st.written as u64,
                                    chunks: header.total_chunks,
                                },
                            ),
                        )
                    },
                }
            }
        },
    }
}

/// Where the expansion of an image stands: the place in the source and in the target, and the
/// number of bytes written.
#[derive(Clone, Copy, Debug, PartialEq, Eq, Structural)]
pub struct SparseCursor {
    pub pos: u64,
    pub position: u64,
    pub written: u64,
}

/// The state with the places of `cursor` and the writes `ops`.
pub open spec fn sparse_state(cursor: SparseCursor, ops: Seq<SparseOp>) -> SparseState {
    SparseState {
        pos: cursor.pos as int,
        position: cursor.position as int,
        written: cursor.written as int,
        ops,
    }
}

/// Appends the copies that a chunk of data needs. Returns whether the source has all of the data.
fn copy_exact(source_len: usize, from: u64, at: u64, length: u64, ops: &mut Vec<SparseOp>) -> (r:
    bool)
    requires
        source_len <= i64::MAX,
        from <= i64::MAX + 0x1_0000,
        at + length <= u64::MAX,
    ensures
        final(ops)@ == old(ops)@ + copies(
            source_len as int,
            from as int,
            at as int,
            length as int,
        ),
        r == (length == 0 || from + length <= source_len),
{
    let mut read: u64 = from;
    let mut write: u64 = at;
    let mut remaining: u64 = length;
    let ghost all = old(ops)@ + copies(source_len as int, from as int, at as int, length as int);
    while remaining > 0
        invariant
            source_len <= i64::MAX,
            read <= i64::MAX + 0x1_0000,
            write + remaining <= u64::MAX,
            read + remaining == from + length,
            remaining <= length,
            remaining == 0 ==> length == 0 || from + length <= source_len,
            all == old(ops)@ + copies(
                source_len as int,
                from as int,
                at as int,
                length as int,
            ),
            all == ops@ + copies(source_len as int, read as int, write as int, remaining as int),
        decreases remaining,
    {
        let len = if remaining < COPY_CHUNK {
            remaining
        } else {
            COPY_CHUNK
        };
        if read > source_len as u64 || source_len as u64 - read < len {
            assert(all =~= ops@);
            return false;
        }
        let op = SparseOp::Copy { from: read as usize, at: write, len };
        let ghost before = ops@;
        ops.push(op);
        proof {
            let rest = copies(source_len as int, read + len, write + len, remaining - len);
            assert(before + (seq![op] + rest) =~= before.push(op) + rest);
        }
        read = read + len;
        write = write + len;
        remaining = remaining - len;
    }
    assert(all =~= ops@);
    true
}

/// Expands the chunk at `cursor.pos`.
fn expand_chunk(
    source: &[u8],
    header: &SparseHeader,
    cursor: SparseCursor,
    ops: &mut Vec<SparseOp>,
) -> (r: Result<SparseCursor, SparseError>)
    requires
        source@.len() <= i64::MAX,
        header.wf(),
        cursor.written <= cursor.position <= header.expanded() <= u64::MAX,
    ensures
        match r {
            Ok(next) => {
                &&& chunk_step(source@, *header, sparse_state(cursor, old(ops)@)) == (
                    sparse_state(next, final(ops)@),
                    None::<SparseError>,
                )
                &&& next.written <= next.position <= header.expanded()
                &&& next.pos <= i64::MAX + 0x2_0000
            },
            Err(e) => chunk_step(source@, *header, sparse_state(cursor, old(ops)@)) == (
                sparse_state(cursor, final(ops)@),
                Some(e),
            ),
        },
{
    let chunk = SparseChunkHeader::read_from(source, cursor.pos, header.chunk_header_size)?;
    let expanded = header.expanded_size()?;
    let output = chunk.output_size(header.block_size)?;
    if output > u64::MAX - cursor.position {
        return Err(SparseError::PositionOverflow);
    }
    let next = cursor.position + output;
    if next > expanded {
        return Err(SparseError::Exceeds);
    }
    let data = cursor.pos + header.chunk_header_size as u64;
    if chunk.chunk_type == SPARSE_CHUNK_RAW {
        if chunk.data_size != output {
            return Err(SparseError::RawSize);
        }
        if !copy_exact(source.len(), data, cursor.position, output, ops) {
            return Err(SparseError::Eof);
        }
        Ok(SparseCursor { pos: data + output, position: next, written: cursor.written + output })
    } else if chunk.chunk_type == SPARSE_CHUNK_FILL {
        if chunk.data_size != 4 {
            return Err(SparseError::FillSize);
        }
        if data > source.len() as u64 || source.len() as u64 - data < 4 {
            return Err(SparseError::Eof);
        }
        let at = data as usize;
        ops.push(
            SparseOp::Fill {
                b0: source[at],
                b1: source[at + 1],
                b2: source[at + 2],
                b3: source[at + 3],
                at: cursor.position,
                len: output,
            },
        );
        Ok(SparseCursor { pos: data + 4, position: next, written: cursor.written + output })
    } else if chunk.chunk_type == SPARSE_CHUNK_DONT_CARE {
        if chunk.data_size != 0 {
            return Err(SparseError::DontCareSize);
        }
        Ok(SparseCursor { pos: data, position: next, written: cursor.written })
    } else if chunk.chunk_type == SPARSE_CHUNK_CRC32 {
        if output != 0 || chunk.data_size != 4 {
            return Err(SparseError::CrcSize);
        }
        Ok(SparseCursor { pos: data + 4, position: next, written: cursor.written })
    } else {
        Err(SparseError::UnknownChunk)
    }
}

/// A refused chunk stays refused, however many chunks follow.
proof fn lemma_refused(source: Seq<u8>, header: SparseHeader, start: int, i: int, n: int)
    requires
        0 <= i <= n,
        expanded_upto(source, header, start, i).1 is Some,
    ensures
        expanded_upto(source, header, start, n) == expanded_upto(source, header, start, i),
    decreases n - i,
{
    if i < n {
        lemma_refused(source, header, start, i, n - 1);
    }
}

/// Whether the partition is opened for an image: its header is sound, and it does not expand
/// beyond the partition.
pub open spec fn opens_target(source: Seq<u8>, partition_size: u64) -> bool {
    match sparse_header(source) {
        Ok((header, _)) => header.expanded() <= partition_size,
        Err(_) => false,
    }
}

/// Whether the partition is opened for the image `source`, before anything is written.
pub fn sparse_target_opens(source: &[u8], partition_size: u64) -> (r: bool)
    ensures
        r == opens_target(source@, partition_size),
{
    match SparseHeader::read_from(source) {
        Err(_) => false,
        Ok((header, _)) => match header.expanded_size() {
            Err(_) => false,
            Ok(expanded) => expanded <= partition_size,
        },
    }
}

/// Nothing is written for an image for which the partition is not opened, and it is refused.
pub proof fn law_unopened_targets_are_left_alone(
    source: Seq<u8>,
    partition_size: u64,
    staged_size: u64,
)
    requires
        !opens_target(source, partition_size),
    ensures
        sparse_run(source, partition_size, staged_size).0 == Seq::<SparseOp>::empty(),
        sparse_run(source, partition_size, staged_size).1 is Err,
{
}

/// The writes that expand the image `source` into a partition, and what comes of it. The writes
/// are to be made in order, those before a refusal too. `staged_size` is the length of the
/// staged file.
pub fn flash_sparse(source: &[u8], partition_size: u64, staged_size: u64) -> (r: (
    Vec<SparseOp>,
    Result<SparseFlashStats, SparseError>,
))
    requires
        source@.len() <= i64::MAX,
    ensures
        (r.0@, r.1) == sparse_run(source@, partition_size, staged_size),
{
    let mut ops: Vec<SparseOp> = Vec::new();
    let (header, start) = match SparseHeader::read_from(source) {
        Ok(x) => x,
        Err(e) => {
            return (ops, Err(e));
        },
    };
    let expanded = match header.expanded_size() {
        Ok(x) => x,
        Err(e) => {
            return (ops, Err(e));
        },
    };
    if expanded > partition_size {
        return (ops, Err(SparseError::TooLarge(expanded, partition_size)));
    }
    let mut cursor = SparseCursor { pos: start as u64, position: 0, written: 0 };
    let mut i: u32 = 0;
    while i < header.total_chunks
        invariant
            source@.len() <= i64::MAX,
            header.wf(),
            i <= header.total_chunks,
            cursor.written <= cursor.position <= header.expanded() <= u64::MAX,
            sparse_header(source@) == Ok::<(SparseHeader, u16), SparseError>((header, start)),
            expanded == header.expanded(),
            expanded <= partition_size,
            expanded_upto(source@, header, start as int, i as int) == (
                sparse_state(cursor, ops@),
                None::<SparseError>,
            ),
        decreases header.total_chunks - i,
    {
        match expand_chunk(source, &header, cursor, &mut ops) {
            Ok(next) => {
                cursor = next;
            },
            Err(e) => {
                proof {
                    lemma_refused(
                        source@,
                        header,
                        start as int,
                        i + 1,
                        header.total_chunks as int,
                    );
                }
                return (ops, Err(e));
            },
        }
        i = i + 1;
    }
    if cursor.position != expanded {
        return (ops, Err(SparseError::EndedAt(cursor.position, expanded)));
    }
    if cursor.pos != staged_size {
        return (ops, Err(SparseError::Trailing(cursor.pos, staged_size)));
    }
    (
        ops,
        Ok(
            SparseFlashStats {
                expanded_size: expanded,
                written_size: cursor.written,
                chunks: header.total_chunks,
            },
        ),
    )
}

/// Whether a write stays inside a source of `source_len` bytes and a target of `target_len` bytes.
pub open spec fn fits(op: SparseOp, source_len: int, target_len: int) -> bool {
    &&& op.start() + op.length() <= target_len
    &&& op matches SparseOp::Copy { from, len, .. } ==> from + len <= source_len
}

/// The target after one write.
pub open spec fn written(op: SparseOp, source: Seq<u8>, target: Seq<u8>) -> Seq<u8> {
    Seq::new(
        target.len(),
        |i: int|
            if op.start() <= i < op.start() + op.length() {
                op.byte(source, i)
            } else {
                target[i]
            },
    )
}

/// The target after the writes `ops`.
pub open spec fn all_written(ops: Seq<SparseOp>, source: Seq<u8>, target: Seq<u8>) -> Seq<u8>
    decreases ops.len(),
{
    if ops.len() == 0 {
        target
    } else {
        written(ops.last(), source, all_written(ops.drop_last(), source, target))
    }
}

/// Makes one write.
fn write_op(op: SparseOp, source: &[u8], target: &mut Vec<u8>)
    requires
        fits(op, source@.len() as int, old(target)@.len() as int),
    ensures
        final(target)@ == written(op, source@, old(target)@),
{
    let (at, len) = match op {
        SparseOp::Copy { at, len, .. } => (at, len),
        SparseOp::Fill { at, len, .. } => (at, len),
    };
    let mut k: u64 = 0;
    let size = target.len();
    let source_size = source.len();
    while k < len
        invariant
            k <= len,
            at == op.start(),
            len == op.length(),
            size == target@.len(),
            source_size == source@.len(),
            target@.len() == old(target)@.len(),
            fits(op, source@.len() as int, target@.len() as int),
            forall|i: int|
                0 <= i < target@.len() ==> #[trigger] target@[i] == (if at <= i < at + k {
                    op.byte(source@, i)
                } else {
                    old(target)@[i]
                }),
        decreases len - k,
    {
        let place = (at + k) as usize;
        let byte = match op {
            SparseOp::Copy { from, .. } => source[from + k as usize],
            SparseOp::Fill { b0, b1, b2, b3, .. } => {
                let r = k % 4;
                if r == 0 {
                    b0
                } else if r == 1 {
                    b1
                } else if r == 2 {
                    b2
                } else {
                    b3
                }
            },
        };
        target.set(place, byte);
        k = k + 1;
    }
    assert(target@ =~= written(op, source@, old(target)@));
}

/// Makes the writes `ops` in a target that is held in memory.
pub fn write_all(ops: &Vec<SparseOp>, source: &[u8], target: &mut Vec<u8>)
    requires
        forall|i: int|
            0 <= i < ops@.len() ==> #[trigger] fits(
                ops@[i],
                source@.len() as int,
                old(target)@.len() as int,
            ),
    ensures
        final(target)@ == all_written(ops@, source@, old(target)@),
{
    let mut i: usize = 0;
    while i < ops.len()
        invariant
            i <= ops@.len(),
            target@.len() == old(target)@.len(),
            target@ == all_written(ops@.take(i as int), source@, old(target)@),
            forall|i: int|
                0 <= i < ops@.len() ==> #[trigger] fits(
                    ops@[i],
                    source@.len() as int,
                    old(target)@.len() as int,
                ),
        decreases ops.len() - i,
    {
        assert(fits(ops@[i as int], source@.len() as int, old(target)@.len() as int));
        write_op(ops[i], source, target);
        proof {
            assert(ops@.take(i + 1).drop_last() =~= ops@.take(i as int));
        }
        i = i + 1;
    }
    assert(ops@.take(i as int) =~= ops@);
}

/// A byte that no write covers stays as it was.
pub proof fn law_uncovered_bytes_stay(
    ops: Seq<SparseOp>,
    source: Seq<u8>,
    target: Seq<u8>,
    i: int,
)
    requires
        0 <= i < target.len(),
        forall|k: int|
            0 <= k < ops.len() ==> !((#[trigger] ops[k]).start() <= i < ops[k].start()
                + ops[k].length()),
    ensures
        all_written(ops, source, target).len() == target.len(),
        all_written(ops, source, target)[i] == target[i],
    decreases ops.len(),
{
    if ops.len() > 0 {
        assert(ops.last() == ops[ops.len() - 1]);
        assert forall|k: int| 0 <= k < ops.drop_last().len() implies !((
        #[trigger] ops.drop_last()[k]).start() <= i < ops.drop_last()[k].start()
            + ops.drop_last()[k].length()) by {
            assert(ops.drop_last()[k] == ops[k]);
        }
        law_uncovered_bytes_stay(ops.drop_last(), source, target, i);
    }
}

/// Whether the writes lie one behind the other between `low` and `high`, and copy from a source of
/// `source_len` bytes.
pub open spec fn ascending(ops: Seq<SparseOp>, source_len: int, low: int, high: int) -> bool {
    &&& forall|k: int|
        0 <= k < ops.len() ==> low <= (#[trigger] ops[k]).start() && ops[k].length() >= 0 && fits(
            ops[k],
            source_len,
            high,
        )
    &&& forall|j: int, k: int|
        0 <= j < k < ops.len() ==> (#[trigger] ops[j]).start() + ops[j].length() <= (
        #[trigger] ops[k]).start()
}

proof fn lemma_ascending_join(
    a: Seq<SparseOp>,
    b: Seq<SparseOp>,
    source_len: int,
    low: int,
    mid: int,
    high: int,
)
    requires
        ascending(a, source_len, low, mid),
        ascending(b, source_len, mid, high),
        low <= mid <= high,
    ensures
        ascending(a + b, source_len, low, high),
{
    assert forall|j: int, k: int| 0 <= j < k < (a + b).len() implies (#[trigger] (a
        + b)[j]).start() + (a + b)[j].length() <= (#[trigger] (a + b)[k]).start() by {
        if j < a.len() && k >= a.len() {
            assert((a + b)[j] == a[j]);
            assert((a + b)[k] == b[k - a.len()]);
        }
    }
    assert forall|k: int| 0 <= k < (a + b).len() implies low <= (#[trigger] (a + b)[k]).start()
        && (a + b)[k].length() >= 0 && fits((a + b)[k], source_len, high) by {
        if k < a.len() {
            assert((a + b)[k] == a[k]);
        } else {
            assert((a + b)[k] == b[k - a.len()]);
        }
    }
}

proof fn lemma_copies_ascend(source_len: int, from: int, at: int, remaining: int)
    requires
        0 <= from,
        0 <= at,
        source_len <= i64::MAX,
        source_len <= usize::MAX,
        0 <= remaining,
        at + remaining <= u64::MAX,
    ensures
        ascending(copies(source_len, from, at, remaining), source_len, at, at + remaining),
    decreases remaining,
{
    let len = if remaining < COPY_CHUNK {
        remaining
    } else {
        COPY_CHUNK as int
    };
    if remaining > 0 && from + len <= source_len {
        let op = SparseOp::Copy { from: from as usize, at: at as u64, len: len as u64 };
        lemma_copies_ascend(source_len, from + len, at + len, remaining - len);
        assert(ascending(seq![op], source_len, at, at + len));
        lemma_ascending_join(
            seq![op],
            copies(source_len, from + len, at + len, remaining - len),
            source_len,
            at,
            at + len,
            at + remaining,
        );
    }
}

proof fn lemma_expansion_ascends(source: Seq<u8>, header: SparseHeader, start: int, n: int)
    requires
        source.len() <= i64::MAX,
        source.len() <= usize::MAX,
        0 <= start,
    ensures
        ({
            let (st, failure) = expanded_upto(source, header, start, n);
            &&& 0 <= st.position <= header.expanded()
            &&& 0 <= st.pos
            &&& failure is None ==> ascending(st.ops, source.len() as int, 0, st.position)
            &&& ascending(st.ops, source.len() as int, 0, header.expanded())
        }),
    decreases n,
{
    lemma_product_fits(header.total_blocks, header.block_size);
    if n > 0 {
        lemma_expansion_ascends(source, header, start, n - 1);
        let (st, failure) = expanded_upto(source, header, start, n - 1);
        if failure is None {
            match chunk_header(source, st.pos, header.chunk_header_size) {
                Err(_) => {},
                Ok(chunk) => {
                    lemma_product_fits(chunk.chunk_blocks, header.block_size);
                    let data = st.pos + header.chunk_header_size;
                    let output = chunk.output(header.block_size);
                    let next = st.position + output;
                    let len = source.len() as int;
                    if next <= header.expanded() {
                        let more = copies(len, data, st.position, output);
                        lemma_copies_ascend(len, data, st.position, output);
                        lemma_ascending_join(st.ops, more, len, 0, st.position, next);
                        let fill = SparseOp::Fill {
                            b0: source[data],
                            b1: source[data + 1],
                            b2: source[data + 2],
                            b3: source[data + 3],
                            at: st.position as u64,
                            len: output as u64,
                        };
                        assert(ascending(seq![fill], len, st.position, next));
                        lemma_ascending_join(st.ops, seq![fill], len, 0, st.position, next);
                        assert(st.ops.push(fill) =~= st.ops + seq![fill]);
                    }
                },
            }
        }
    }
}

/// Every write of an image stays inside the partition and inside the source, and no two writes
/// meet, whether the image is refused or not.
pub proof fn law_writes_stay_in_partition(source: Seq<u8>, partition_size: u64, staged_size: u64)
    requires
        source.len() <= i64::MAX,
        source.len() <= usize::MAX,
    ensures
        ascending(
            sparse_run(source, partition_size, staged_size).0,
            source.len() as int,
            0,
            partition_size as int,
        ),
{
    match sparse_header(source) {
        Err(_) => {},
        Ok((header, start)) => {
            lemma_expansion_ascends(source, header, start as int, header.total_chunks as int);
        },
    }
}

proof fn lemma_written_join(
    a: Seq<SparseOp>,
    b: Seq<SparseOp>,
    source: Seq<u8>,
    target: Seq<u8>,
)
    ensures
        all_written(a + b, source, target) == all_written(b, source, all_written(a, source, target)),
        all_written(a, source, target).len() == target.len(),
    decreases b.len(), a.len(),
{
    if b.len() > 0 {
        assert((a + b).last() == b.last());
        assert((a + b).drop_last() =~= a + b.drop_last());
        lemma_written_join(a, b.drop_last(), source, target);
    } else {
        assert(a + b =~= a);
        if a.len() > 0 {
            lemma_written_join(a.drop_last(), b, source, target);
        }
    }
}

/// `target` with `length` bytes of the source from `from` on at `at`.
pub open spec fn overlaid(target: Seq<u8>, at: int, source: Seq<u8>, from: int, length: int) -> Seq<
    u8,
> {
    Seq::new(
        target.len(),
        |i: int|
            if at <= i < at + length {
                source[from + (i - at)]
            } else {
                target[i]
            },
    )
}

/// The copies of a chunk that the source has lay its data over the target.
proof fn lemma_copies_overlay(
    source: Seq<u8>,
    from: int,
    at: int,
    remaining: int,
    target: Seq<u8>,
)
    requires
        0 <= from,
        0 <= at,
        0 <= remaining,
        from + remaining <= source.len(),
        source.len() <= usize::MAX,
        at + remaining <= u64::MAX,
    ensures
        all_written(copies(source.len() as int, from, at, remaining), source, target) == overlaid(
            target,
            at,
            source,
            from,
            remaining,
        ),
    decreases remaining,
{
    let n = source.len() as int;
    let len = if remaining < COPY_CHUNK {
        remaining
    } else {
        COPY_CHUNK as int
    };
    if remaining > 0 {
        let op = SparseOp::Copy { from: from as usize, at: at as u64, len: len as u64 };
        let rest = copies(n, from + len, at + len, remaining - len);
        let first = all_written(seq![op], source, target);
        assert(seq![op].drop_last() =~= Seq::<SparseOp>::empty());
        assert(all_written(seq![op].drop_last(), source, target) == target);
        assert(first =~= overlaid(target, at, source, from, len));
        lemma_written_join(seq![op], rest, source, target);
        lemma_copies_overlay(source, from + len, at + len, remaining - len, first);
        assert(overlaid(first, at + len, source, from + len, remaining - len) =~= overlaid(
            target,
            at,
            source,
            from,
            remaining,
        ));
    } else {
        assert(overlaid(target, at, source, from, remaining) =~= target);
    }
}

/// What the chunk at a place of an image says of the bytes that it stands for: which they are, or
/// that they are to stay.
pub open spec fn chunk_content(source: Seq<u8>, header: SparseHeader, pos: int) -> Seq<
    Option<u8>,
> {
    let chunk = chunk_header(source, pos, header.chunk_header_size)->Ok_0;
    let data = pos + header.chunk_header_size;
    Seq::new(
        chunk.output(header.block_size) as nat,
        |i: int|
            if chunk.chunk_type == SPARSE_CHUNK_RAW {
                Some(source[data + i])
            } else if chunk.chunk_type == SPARSE_CHUNK_FILL {
                Some(source[data + i % 4])
            } else {
                None
            },
    )
}

/// What the first `n` chunks of an image say of the bytes from the first one on.
pub open spec fn image_content(source: Seq<u8>, header: SparseHeader, start: int, n: int) -> Seq<
    Option<u8>,
>
    decreases n,
{
    if n <= 0 {
        Seq::empty()
    } else {
        image_content(source, header, start, n - 1) + chunk_content(
            source,
            header,
            expanded_upto(source, header, start, n - 1).0.pos,
        )
    }
}

/// `target` with the bytes that an image tells.
pub open spec fn imaged(content: Seq<Option<u8>>, target: Seq<u8>) -> Seq<u8> {
    Seq::new(
        target.len(),
        |i: int|
            if i < content.len() && content[i] is Some {
                content[i]->0
            } else {
                target[i]
            },
    )
}

proof fn lemma_expansion_content(
    source: Seq<u8>,
    header: SparseHeader,
    start: int,
    n: int,
    target: Seq<u8>,
)
    requires
        source.len() <= i64::MAX,
        source.len() <= usize::MAX,
        0 <= start,
        expanded_upto(source, header, start, n).1 is None,
    ensures
        ({
            let st = expanded_upto(source, header, start, n).0;
            let content = image_content(source, header, start, n);
            &&& content.len() == st.position
            &&& all_written(st.ops, source, target) == imaged(content, target)
        }),
    decreases n,
{
    let content = image_content(source, header, start, n);
    if n <= 0 {
        assert(imaged(content, target) =~= target);
    } else {
        lemma_expansion_content(source, header, start, n - 1, target);
        lemma_expansion_ascends(source, header, start, n - 1);
        lemma_product_fits(header.total_blocks, header.block_size);
        let before = expanded_upto(source, header, start, n - 1).0;
        let st = expanded_upto(source, header, start, n).0;
        let chunk = chunk_header(source, before.pos, header.chunk_header_size)->Ok_0;
        lemma_product_fits(chunk.chunk_blocks, header.block_size);
        let data = before.pos + header.chunk_header_size;
        let output = chunk.output(header.block_size);
        let old = image_content(source, header, start, n - 1);
        let now = chunk_content(source, header, before.pos);
        let middle = imaged(old, target);
        assert(content == old + now);
        if chunk.chunk_type == SPARSE_CHUNK_RAW {
            let more = copies(source.len() as int, data, before.position, output);
            lemma_written_join(before.ops, more, source, target);
            if output > 0 {
                lemma_copies_overlay(source, data, before.position, output, middle);
            } else {
                assert(more =~= Seq::<SparseOp>::empty());
            }
            assert(all_written(st.ops, source, target) =~= imaged(content, target));
        } else if chunk.chunk_type == SPARSE_CHUNK_FILL {
            let fill = st.ops.last();
            assert(st.ops.drop_last() =~= before.ops);
            assert(all_written(st.ops, source, target) == written(fill, source, middle));
            assert(written(fill, source, middle) =~= imaged(content, target)) by {
                assert forall|i: int| 0 <= i < target.len() implies written(fill, source, middle)[i]
                    == imaged(content, target)[i] by {
                    if before.position <= i < before.position + output {
                        let k = (i - before.position) % 4;
                        assert(content[i] == now[i - before.position]);
                        assert(now[i - before.position] == Some(source[data + k]));
                        assert(fill.byte(source, i) == source[data + k]);
                    }
                }
            }
        } else {
            assert(imaged(content, target) =~= imaged(old, target));
        }
    }
}

/// A sparse image that is flashed without complaint is what the partition holds afterwards: every
/// byte that the image tells is there at its place, and every other byte is as it was.
pub proof fn law_sparse_images_are_written(
    source: Seq<u8>,
    partition_size: u64,
    staged_size: u64,
    target: Seq<u8>,
)
    requires
        source.len() <= i64::MAX,
        source.len() <= usize::MAX,
        sparse_run(source, partition_size, staged_size).1 is Ok,
    ensures
        ({
            let (header, start) = sparse_header(source)->Ok_0;
            let content = image_content(source, header, start as int, header.total_chunks as int);
            &&& content.len() == header.expanded()
            &&& all_written(sparse_run(source, partition_size, staged_size).0, source, target)
                == imaged(content, target)
        }),
{
    let (header, start) = sparse_header(source)->Ok_0;
    lemma_expansion_content(source, header, start as int, header.total_chunks as int, target);
}

/// A raw image that is flashed is what the partition starts with afterwards, and what is behind it
/// is as it was.
pub proof fn law_raw_images_are_written(source: Seq<u8>, size: u64, target: Seq<u8>)
    requires
        source.len() <= usize::MAX,
        size <= source.len(),
        size <= target.len(),
    ensures
        all_written(copies(source.len() as int, 0, 0, size as int), source, target) == source.take(
            size as int,
        ) + target.skip(size as int),
{
    lemma_copies_overlay(source, 0, 0, size as int, target);
    assert(overlaid(target, 0, source, 0, size as int) =~= source.take(size as int) + target.skip(
        size as int,
    ));
}

/// The writes of a raw image of `size` bytes, as far as the source has them, and the number of
/// bytes written.
pub fn flash_raw(source_len: usize, size: u64) -> (r: (Vec<SparseOp>, Result<u64, SparseError>))
    requires
        source_len <= i64::MAX,
    ensures
        r.0@ == copies(source_len as int, 0, 0, size as int),
        r.1 == (if size <= source_len {
            Ok::<u64, SparseError>(size)
        } else {
            Err(SparseError::Eof)
        }),
{
    let mut ops: Vec<SparseOp> = Vec::new();
    let complete = copy_exact(source_len, 0, 0, size, &mut ops);
    assert(Seq::<SparseOp>::empty() + copies(source_len as int, 0, 0, size as int) =~= copies(
        source_len as int,
        0,
        0,
        size as int,
    ));
    if complete {
        (ops, Ok(size))
    } else {
        (ops, Err(SparseError::Eof))
    }
}

/// Why a partition was not flashed.
#[derive(Clone, Copy, Debug, PartialEq, Eq, Structural)]
pub enum FlashError {
    Command,
    EmptyName,
    NotAllowed,
    ReadOnly,
    Mounted,
    EmptyPayload,
    /// The payload and the partition, in bytes.
    TooLarge(u64, u64),
}

impl FlashError {
    /// The kind of the error.
    pub open spec fn spec_kind(self) -> ErrorKind {
        match self {
            FlashError::ReadOnly => ErrorKind::PermissionDenied,
            FlashError::Mounted => ErrorKind::ResourceBusy,
            _ => ErrorKind::InvalidInput,
        }
    }

    /// The kind of the error.
    pub fn kind(self) -> (k: ErrorKind)
        ensures
            k == self.spec_kind(),
    {
        match self {
            FlashError::ReadOnly => ErrorKind::PermissionDenied,
            FlashError::Mounted => ErrorKind::ResourceBusy,
            _ => ErrorKind::InvalidInput,
        }
    }

    /// The error in words, for what was asked for and the name of the partition.
    pub open spec fn words(self, requested: Seq<char>, name: Seq<char>) -> Seq<char> {
        match self {
            FlashError::Command => "invalid flash command"@,
            FlashError::EmptyName => "flash partition is empty"@,
            FlashError::NotAllowed => "flashing partition "@ + quoted_text(requested)
                + " is not allowed"@,
            FlashError::ReadOnly => name + " is read-only"@,
            FlashError::Mounted => name + " is mounted"@,
            FlashError::EmptyPayload => "staged flash payload is empty"@,
            FlashError::TooLarge(size, room) => "staged payload is larger than "@ + name + ": "@
                + decimal(size as int) + " > "@ + decimal(room as int) + " bytes"@,
        }
    }

    /// The error in words, for what was asked for and the name of the partition.
    pub fn message(self, requested: &str, name: &str) -> (s: String)
        ensures
            s@ == self.words(requested@, name@),
    {
        match self {
            FlashError::Command => owned("invalid flash command"),
            FlashError::EmptyName => owned("flash partition is empty"),
            FlashError::NotAllowed => {
                let mut s = cat("flashing partition ", quoted(requested).as_str());
                s.append(" is not allowed");
                s
            },
            FlashError::ReadOnly => cat(name, " is read-only"),
            FlashError::Mounted => cat(name, " is mounted"),
            FlashError::EmptyPayload => owned("staged flash payload is empty"),
            FlashError::TooLarge(size, room) => {
                let mut s = cat("staged payload is larger than ", name);
                s.append(": ");
                push_decimal(&mut s, size);
                s.append(" > ");
                push_decimal(&mut s, room);
                s.append(" bytes");
                s
            },
        }
    }
}

/// The name of the partition that a command asks to flash.
pub open spec fn flash_target(command: Seq<char>) -> Result<Seq<char>, FlashError> {
    match after_prefix(command, "flash:"@) {
        None => Err(FlashError::Command),
        Some(name) => if name.len() == 0 {
            Err(FlashError::EmptyName)
        } else {
            Ok(name)
        },
    }
}

/// The name of the partition that a command asks to flash.
pub fn parse_partition(command: &str) -> (r: Result<&str, FlashError>)
    ensures
        flash_target(command@) == (match r {
            Ok(name) => Ok(name@),
            Err(e) => Err(e),
        }),
{
    match strip_prefix(command, "flash:") {
        None => Err(FlashError::Command),
        Some(name) => if chars(name).len() == 0 {
            Err(FlashError::EmptyName)
        } else {
            Ok(name)
        },
    }
}

/// A partition's name without the suffix of its slot.
pub open spec fn base_name(name: Seq<char>) -> Seq<char> {
    match before_suffix(name, "_a"@) {
        Some(base) => base,
        None => match before_suffix(name, "_b"@) {
            Some(base) => base,
            None => name,
        },
    }
}

/// Whether a partition of this name may be flashed.
pub open spec fn flashable(name: Seq<char>) -> bool {
    let base = base_name(name);
    ||| base == "boot"@
    ||| base == "recovery"@
    ||| base == "vendor_boot"@
    ||| base == "init_boot"@
    ||| base == "dtbo"@
    ||| base == "dtb"@
    ||| base == "userdata"@
}

/// Whether a partition of this name may be flashed.
pub fn is_allowed_partition_name(name: &str) -> (r: bool)
    ensures
        r == flashable(name@),
{
    let base = match strip_suffix(name, "_a") {
        Some(base) => base,
        None => match strip_suffix(name, "_b") {
            Some(base) => base,
            None => name,
        },
    };
    same_text(base, "boot") || same_text(base, "recovery") || same_text(base, "vendor_boot")
        || same_text(base, "init_boot") || same_text(base, "dtbo") || same_text(base, "dtb")
        || same_text(base, "userdata")
}

/// Whether a partition may be flashed, by what was asked for or by its own name.
pub fn is_allowed_partition(requested: &str, partition: &Partition) -> (r: bool)
    ensures
        r == (flashable(requested@) || (partition.partname matches Some(name) && flashable(
            name@,
        ))),
{
    is_allowed_partition_name(requested) || match &partition.partname {
        Some(name) => is_allowed_partition_name(name.as_str()),
        None => false,
    }
}

/// The device number that a line of `mountinfo` tells.
pub open spec fn mounted_device(line: Seq<char>) -> Option<Seq<char>> {
    if words(line).len() > 2 {
        Some(words(line)[2])
    } else {
        None
    }
}

/// The device number that a line of `mountinfo` tells.
pub fn mountinfo_devnum(line: &str) -> (r: Option<String>)
    ensures
        mounted_device(line@) == (match r {
            Some(device) => Some(device@),
            None => None,
        }),
{
    let found = split_words(line);
    assert(texts(found@).len() == found@.len());
    if found.len() > 2 {
        assert(texts(found@)[2] == found@[2]@);
        Some(owned(found[2].as_str()))
    } else {
        None
    }
}

/// Whether `mountinfo` has a line for the device.
pub open spec fn is_mounted(mountinfo: Seq<char>, device: Seq<char>) -> bool {
    exists|i: int|
        0 <= i < lines(mountinfo).len() && mounted_device(#[trigger] lines(mountinfo)[i]) == Some(
            device,
        )
}

/// Refuses a partition that is mounted.
pub fn ensure_not_mounted(partition: &Partition, mountinfo: &str) -> (r: Result<(), FlashError>)
    ensures
        r == (if is_mounted(mountinfo@, partition.devnum@) {
            Err::<(), FlashError>(FlashError::Mounted)
        } else {
            Ok(())
        }),
{
    let map = split_lines(mountinfo);
    let mut i: usize = 0;
    while i < map.len()
        invariant
            i <= map@.len(),
            texts(map@) == lines(mountinfo@),
            forall|k: int|
                0 <= k < i ==> mounted_device(#[trigger] lines(mountinfo@)[k]) != Some(
                    partition.devnum@,
                ),
        decreases map@.len() - i,
    {
        assert(lines(mountinfo@)[i as int] == map@[i as int]@);
        if let Some(device) = mountinfo_devnum(map[i].as_str()) {
            if same_text(device.as_str(), partition.devnum.as_str()) {
                return Err(FlashError::Mounted);
            }
        }
        i += 1;
    }
    Ok(())
}

/// Whether a partition may be flashed as it was asked for, whatever is mounted.
pub open spec fn target_check(requested: Seq<char>, partition: &Partition) -> Result<
    (),
    FlashError,
> {
    if !(flashable(requested) || (partition.partname matches Some(name) && flashable(name@))) {
        Err(FlashError::NotAllowed)
    } else if partition.read_only {
        Err(FlashError::ReadOnly)
    } else {
        Ok(())
    }
}

/// Refuses a partition that may not be flashed, or that is read-only.
pub fn check_target(requested: &str, partition: &Partition) -> (r: Result<(), FlashError>)
    ensures
        r == target_check(requested@, partition),
{
    if !is_allowed_partition(requested, partition) {
        Err(FlashError::NotAllowed)
    } else if partition.read_only {
        Err(FlashError::ReadOnly)
    } else {
        Ok(())
    }
}

/// Refuses a partition that may not be flashed, that is read-only or that is mounted.
pub fn validate_target(requested: &str, partition: &Partition, mountinfo: &str) -> (r: Result<
    (),
    FlashError,
>)
    ensures
        r == (match target_check(requested@, partition) {
            Err(e) => Err::<(), FlashError>(e),
            Ok(()) => if is_mounted(mountinfo@, partition.devnum@) {
                Err(FlashError::Mounted)
            } else {
                Ok(())
            },
        }),
{
    check_target(requested, partition)?;
    ensure_not_mounted(partition, mountinfo)
}

/// Whether bytes start as a sparse image does.
pub open spec fn sparse_start(data: Seq<u8>) -> bool {
    data.len() >= 4 && le32(data, 0) == ANDROID_SPARSE_MAGIC_LE
}

/// Whether bytes start as a sparse image does.
pub fn is_sparse_image(data: &[u8]) -> (r: bool)
    ensures
        r == sparse_start(data@),
{
    data.len() >= 4 && le_u32(data, 0) == ANDROID_SPARSE_MAGIC_LE
}

/// How a payload is written.
#[derive(Clone, Copy, Debug, PartialEq, Eq, Structural)]
pub enum FlashMode {
    Raw,
    Sparse,
}

/// How a payload of `size` bytes that starts with `start` is written to a partition.
pub fn flash_mode(size: u64, start: &[u8], partition: &Partition) -> (r: Result<
    FlashMode,
    FlashError,
>)
    ensures
        r == (if size == 0 {
            Err::<FlashMode, FlashError>(FlashError::EmptyPayload)
        } else if sparse_start(start@) {
            Ok(FlashMode::Sparse)
        } else if size > partition.size_bytes {
            Err(FlashError::TooLarge(size, partition.size_bytes))
        } else {
            Ok(FlashMode::Raw)
        }),
{
    if size == 0 {
        Err(FlashError::EmptyPayload)
    } else if is_sparse_image(start) {
        Ok(FlashMode::Sparse)
    } else if size > partition.size_bytes {
        Err(FlashError::TooLarge(size, partition.size_bytes))
    } else {
        Ok(FlashMode::Raw)
    }
}

/// What is told before a partition is flashed.
pub fn start_text(mode: FlashMode, size: u64, partition: &Partition) -> (s: String)
    ensures
        s@ == (match mode {
            FlashMode::Sparse => "flashing sparse image to "@,
            FlashMode::Raw => "flashing "@ + decimal(size as int) + " bytes to "@,
        }) + partition.shown_name() + " ("@ + partition.dev_path@ + ")"@,
{
    let mut s = match mode {
        FlashMode::Sparse => owned("flashing sparse image to "),
        FlashMode::Raw => {
            let mut s = owned("flashing ");
            push_decimal(&mut s, size);
            s.append(" bytes to ");
            s
        },
    };
    s.append(partition.fastboot_name());
    s.append(" (");
    s.append(partition.dev_path.as_str());
    s.append(")");
    s
}

/// What is told of an expanded image.
pub fn sparse_text(stats: &SparseFlashStats) -> (s: String)
    ensures
        s@ == "wrote "@ + decimal(stats.written_size as int) + " data bytes from "@ + decimal(
            stats.chunks as int,
        ) + " sparse chunks; expanded size "@ + decimal(stats.expanded_size as int) + " bytes"@,
{
    let mut s = owned("wrote ");
    push_decimal(&mut s, stats.written_size);
    s.append(" data bytes from ");
    push_decimal(&mut s, stats.chunks as u64);
    s.append(" sparse chunks; expanded size ");
    push_decimal(&mut s, stats.expanded_size);
    s.append(" bytes");
    s
}

/// What is told of a raw image.
pub fn raw_text(count: u64) -> (s: String)
    ensures
        s@ == "wrote "@ + decimal(count as int) + " bytes"@,
{
    let mut s = owned("wrote ");
    push_decimal(&mut s, count);
    s.append(" bytes");
    s
}

/// What is answered when a partition has been flashed.
pub fn flashed_text(partition: &Partition) -> (s: String)
    ensures
        s@ == "flashed "@ + partition.shown_name(),
{
    cat("flashed ", partition.fastboot_name())
}

/// A part of what a sparse image stands for: bytes, a word of four bytes over and over, a gap that
/// stays as it is, or a checksum that stands for nothing.
pub enum SparsePart {
    Data(Seq<u8>),
    Fill { word: Seq<u8>, blocks: int },
    Gap { blocks: int },
    Checksum(Seq<u8>),
}

impl SparsePart {
    /// The number by which the format tells the kinds of parts apart.
    pub open spec fn code(self) -> int {
        match self {
            SparsePart::Data(_) => 0xcac1,
            SparsePart::Fill { .. } => 0xcac2,
            SparsePart::Gap { .. } => 0xcac3,
            SparsePart::Checksum(_) => 0xcac4,
        }
    }

    /// The bytes that stand in the image behind the header of the part.
    pub open spec fn stored(self) -> Seq<u8> {
        match self {
            SparsePart::Data(data) => data,
            SparsePart::Fill { word, .. } => word,
            SparsePart::Gap { .. } => Seq::empty(),
            SparsePart::Checksum(word) => word,
        }
    }

    /// The number of blocks that the part stands for.
    pub open spec fn blocks(self, block_size: int) -> int {
        match self {
            SparsePart::Data(data) => data.len() as int / block_size,
            SparsePart::Fill { blocks, .. } => blocks,
            SparsePart::Gap { blocks } => blocks,
            SparsePart::Checksum(_) => 0,
        }
    }

    /// Whether the part is one of the format: data fills whole blocks, and a word has four bytes.
    pub open spec fn sound(self, block_size: int) -> bool {
        match self {
            SparsePart::Data(data) => data.len() as int % block_size == 0,
            SparsePart::Fill { word, blocks } => word.len() == 4 && blocks >= 0,
            SparsePart::Gap { blocks } => blocks >= 0,
            SparsePart::Checksum(word) => word.len() == 4,
        }
    }

    /// What the part says of the bytes that it stands for: which they are, or that they are to stay.
    pub open spec fn content(self, block_size: int) -> Seq<Option<u8>> {
        match self {
            SparsePart::Data(data) => Seq::new(data.len(), |i: int| Some(data[i])),
            SparsePart::Fill { word, blocks } => Seq::new(
                (blocks * block_size) as nat,
                |i: int| Some(word[i % 4]),
            ),
            SparsePart::Gap { blocks } => Seq::new((blocks * block_size) as nat, |i: int| None),
            SparsePart::Checksum(_) => Seq::empty(),
        }
    }

    /// Whether the part stands in an image at a place: its code, the number of its blocks, and its
    /// length with that of its header, and its bytes behind the header.
    pub open spec fn stands_at(
        self,
        source: Seq<u8>,
        at: int,
        header_size: int,
        block_size: int,
    ) -> bool {
        let data = at + header_size;
        let end = data + self.stored().len();
        &&& end <= source.len()
        &&& le16(source, at) == self.code()
        &&& le32(source, at + 4) == self.blocks(block_size)
        &&& le32(source, at + 8) == header_size + self.stored().len()
        &&& source.subrange(data, end) == self.stored()
    }
}

/// Where part `n` stands, with the first one at `start` and each behind the one before it.
pub open spec fn part_place(
    parts: Seq<SparsePart>,
    start: int,
    header_size: int,
    n: int,
) -> int
    decreases n,
{
    if n <= 0 {
        start
    } else {
        part_place(parts, start, header_size, n - 1) + header_size + parts[n - 1].stored().len()
    }
}

/// The number of blocks that the first `n` parts stand for.
pub open spec fn blocks_of(parts: Seq<SparsePart>, block_size: int, n: int) -> int
    decreases n,
{
    if n <= 0 {
        0
    } else {
        blocks_of(parts, block_size, n - 1) + parts[n - 1].blocks(block_size)
    }
}

/// What the first `n` parts say of the bytes that they stand for.
pub open spec fn content_of(parts: Seq<SparsePart>, block_size: int, n: int) -> Seq<Option<u8>>
    decreases n,
{
    if n <= 0 {
        Seq::empty()
    } else {
        content_of(parts, block_size, n - 1) + parts[n - 1].content(block_size)
    }
}

/// Whether a file is the sparse image of some parts, as the format has it: the magic, version 1.0,
/// the lengths of the headers, the size and the number of the blocks, the number of the parts, and
/// the parts one behind the other up to the end of the file.
pub open spec fn is_sparse_image_of(source: Seq<u8>, parts: Seq<SparsePart>) -> bool {
    let start = le16(source, 8) as int;
    let header_size = le16(source, 10) as int;
    let block_size = le32(source, 12) as int;
    let n = parts.len() as int;
    &&& source.len() >= 28
    &&& source[0] == 0x3a && source[1] == 0xff && source[2] == 0x26 && source[3] == 0xed
    &&& le16(source, 4) == 1
    &&& le16(source, 6) == 0
    &&& start >= 28
    &&& header_size >= 12
    &&& block_size > 0
    &&& block_size % 4 == 0
    &&& le32(source, 16) == blocks_of(parts, block_size, n)
    &&& le32(source, 20) == n
    &&& forall|i: int|
        0 <= i < n ==> (#[trigger] parts[i]).sound(block_size) && parts[i].stands_at(
            source,
            part_place(parts, start, header_size, i),
            header_size,
            block_size,
        )
    &&& part_place(parts, start, header_size, n) == source.len()
}

proof fn lemma_blocks_of(parts: Seq<SparsePart>, block_size: int, n: int, m: int)
    requires
        0 <= n <= m <= parts.len(),
        0 < block_size,
        forall|i: int| 0 <= i < parts.len() ==> (#[trigger] parts[i]).sound(block_size),
    ensures
        0 <= blocks_of(parts, block_size, n) <= blocks_of(parts, block_size, m),
    decreases m,
{
    if m > 0 {
        assert(parts[m - 1].sound(block_size));
        if let SparsePart::Data(data) = parts[m - 1] {
            lemma_div_pos_is_pos(data.len() as int, block_size);
        }
        if n < m {
            lemma_blocks_of(parts, block_size, n, m - 1);
        } else {
            lemma_blocks_of(parts, block_size, n - 1, m - 1);
        }
    }
}

/// The header that the file of some parts has.
spec fn header_told(source: Seq<u8>) -> SparseHeader {
    SparseHeader {
        chunk_header_size: le16(source, 10),
        block_size: le32(source, 12),
        total_blocks: le32(source, 16),
        total_chunks: le32(source, 20),
    }
}

proof fn lemma_part_length(part: SparsePart, block_size: int)
    requires
        0 < block_size,
        part.sound(block_size),
    ensures
        part.content(block_size).len() == part.blocks(block_size) * block_size,
        part is Data ==> part.stored().len() == part.blocks(block_size) * block_size,
        0 <= part.blocks(block_size),
{
    match part {
        SparsePart::Data(data) => {
            lemma_fundamental_div_mod(data.len() as int, block_size);
            lemma_div_pos_is_pos(data.len() as int, block_size);
            lemma_mul_is_commutative(data.len() as int / block_size, block_size);
        },
        SparsePart::Fill { blocks, .. } => {
            assert(0 <= blocks * block_size) by (nonlinear_arith)
                requires
                    0 <= blocks,
                    0 < block_size,
            ;
        },
        SparsePart::Gap { blocks } => {
            assert(0 <= blocks * block_size) by (nonlinear_arith)
                requires
                    0 <= blocks,
                    0 < block_size,
            ;
        },
        SparsePart::Checksum(_) => {
            assert(0 * block_size == 0) by (nonlinear_arith);
        },
    }
}

/// One part that stands in an image is expanded, where what it stands for stays inside the image.
proof fn lemma_part_step(
    source: Seq<u8>,
    header: SparseHeader,
    st: SparseState,
    part: SparsePart,
)
    requires
        source.len() <= i64::MAX,
        header.wf(),
        part.sound(header.block_size as int),
        part.stands_at(
            source,
            st.pos,
            header.chunk_header_size as int,
            header.block_size as int,
        ),
        0 <= st.pos,
        st.position + part.blocks(header.block_size as int) * header.block_size
            <= header.expanded(),
    ensures
        ({
            let output = part.blocks(header.block_size as int) * header.block_size;
            let (next, failure) = chunk_step(source, header, st);
            &&& failure is None
            &&& next.pos == st.pos + header.chunk_header_size + part.stored().len()
            &&& next.position == st.position + output
            &&& next.written == st.written + if part is Data || part is Fill {
                output
            } else {
                0
            }
        }),
        chunk_content(source, header, st.pos) == part.content(header.block_size as int),
{
    let size = header.block_size as int;
    let blocks = part.blocks(size);
    lemma_part_length(part, size);
    lemma_product_fits(header.total_blocks, header.block_size);
    let chunk = chunk_header(source, st.pos, header.chunk_header_size)->Ok_0;
    assert(chunk.output(header.block_size) == blocks * size);
    let data = st.pos + header.chunk_header_size;
    let stored = part.stored();
    assert forall|i: int| 0 <= i < stored.len() implies #[trigger] stored[i] == source[data + i] by {
        assert(source.subrange(data, data + stored.len())[i] == source[data + i]);
    }
    assert(chunk_content(source, header, st.pos) =~= part.content(size));
}

proof fn lemma_parts_expand(source: Seq<u8>, parts: Seq<SparsePart>, n: int)
    requires
        source.len() <= i64::MAX,
        is_sparse_image_of(source, parts),
        0 <= n <= parts.len(),
    ensures
        ({
            let header = header_told(source);
            let start = le16(source, 8) as int;
            let size = header.block_size as int;
            let (st, failure) = expanded_upto(source, header, start, n);
            &&& failure is None
            &&& st.pos == part_place(parts, start, header.chunk_header_size as int, n)
            &&& 0 <= st.pos
            &&& st.position == blocks_of(parts, size, n) * size
            &&& image_content(source, header, start, n) == content_of(parts, size, n)
            &&& content_of(parts, size, n).len() == st.position
        }),
    decreases n,
{
    let header = header_told(source);
    let start = le16(source, 8) as int;
    let size = header.block_size as int;
    if n > 0 {
        lemma_parts_expand(source, parts, n - 1);
        let st = expanded_upto(source, header, start, n - 1).0;
        let part = parts[n - 1];
        let before = blocks_of(parts, size, n - 1);
        lemma_blocks_of(parts, size, n, parts.len() as int);
        lemma_part_length(part, size);
        assert((before + part.blocks(size)) * size == before * size + part.blocks(size) * size)
            by (nonlinear_arith);
        assert(blocks_of(parts, size, n) * size <= header.total_blocks * size) by (nonlinear_arith)
            requires
                blocks_of(parts, size, n) <= header.total_blocks,
                0 < size,
        ;
        lemma_part_step(source, header, st, part);
    } else {
        assert(0 * size == 0) by (nonlinear_arith);
    }
}

/// The number of bytes that the first `n` parts have written.
pub open spec fn bytes_written(parts: Seq<SparsePart>, block_size: int, n: int) -> int
    decreases n,
{
    if n <= 0 {
        0
    } else {
        bytes_written(parts, block_size, n - 1) + match parts[n - 1] {
            SparsePart::Data(data) => data.len() as int,
            SparsePart::Fill { blocks, .. } => blocks * block_size,
            _ => 0,
        }
    }
}

proof fn lemma_parts_written(source: Seq<u8>, parts: Seq<SparsePart>, n: int)
    requires
        source.len() <= i64::MAX,
        is_sparse_image_of(source, parts),
        0 <= n <= parts.len(),
    ensures
        expanded_upto(source, header_told(source), le16(source, 8) as int, n).0.written
            == bytes_written(parts, le32(source, 12) as int, n),
        0 <= bytes_written(parts, le32(source, 12) as int, n) <= blocks_of(
            parts,
            le32(source, 12) as int,
            n,
        ) * le32(source, 12),
    decreases n,
{
    let header = header_told(source);
    let size = header.block_size as int;
    if n > 0 {
        lemma_parts_written(source, parts, n - 1);
        lemma_parts_expand(source, parts, n - 1);
        let st = expanded_upto(source, header, le16(source, 8) as int, n - 1).0;
        let part = parts[n - 1];
        let before = blocks_of(parts, size, n - 1);
        lemma_blocks_of(parts, size, n, parts.len() as int);
        lemma_part_length(part, size);
        assert((before + part.blocks(size)) * size == before * size + part.blocks(size) * size)
            by (nonlinear_arith);
        assert(blocks_of(parts, size, n) * size <= header.total_blocks * size) by (nonlinear_arith)
            requires
                blocks_of(parts, size, n) <= header.total_blocks,
                0 < size,
        ;
        lemma_part_step(source, header, st, part);
    } else {
        assert(0 * size == 0) by (nonlinear_arith);
    }
}

/// Every sparse image that fits its partition is flashed: the file of any parts is accepted, and
/// the partition holds afterwards what the parts say, part behind part from its start on, and is as
/// it was where they say nothing. What is told of it is the size of the whole, the number of bytes
/// that were written, and the number of parts.
pub proof fn law_sparse_images_are_flashed(
    source: Seq<u8>,
    parts: Seq<SparsePart>,
    partition_size: u64,
    target: Seq<u8>,
)
    requires
        source.len() <= i64::MAX,
        source.len() <= usize::MAX,
        is_sparse_image_of(source, parts),
        le32(source, 16) * le32(source, 12) <= partition_size,
    ensures
        ({
            let size = le32(source, 12) as int;
            let n = parts.len() as int;
            let (ops, outcome) = sparse_run(source, partition_size, source.len() as u64);
            &&& outcome matches Ok(stats) && stats.expanded_size == le32(source, 16) * size
                && stats.written_size == bytes_written(parts, size, n) && stats.chunks == n
            &&& content_of(parts, size, n).len() == le32(source, 16) * size
            &&& all_written(ops, source, target) == imaged(content_of(parts, size, n), target)
        }),
{
    let header = header_told(source);
    let n = parts.len() as int;
    lemma_product_fits(header.total_blocks, header.block_size);
    assert(le32(source, 0) == ANDROID_SPARSE_MAGIC_LE);
    lemma_parts_expand(source, parts, n);
    lemma_parts_written(source, parts, n);
    law_sparse_images_are_written(source, partition_size, source.len() as u64, target);
}

/// The part that the chunk at a place of an image is.
spec fn part_read(source: Seq<u8>, header: SparseHeader, at: int) -> SparsePart {
    let chunk = chunk_header(source, at, header.chunk_header_size)->Ok_0;
    let data = at + header.chunk_header_size;
    if chunk.chunk_type == 0xcac1 {
        SparsePart::Data(source.subrange(data, data + chunk.data_size))
    } else if chunk.chunk_type == 0xcac2 {
        SparsePart::Fill { word: source.subrange(data, data + 4), blocks: chunk.chunk_blocks as int }
    } else if chunk.chunk_type == 0xcac3 {
        SparsePart::Gap { blocks: chunk.chunk_blocks as int }
    } else {
        SparsePart::Checksum(source.subrange(data, data + 4))
    }
}

proof fn lemma_places_grow(source: Seq<u8>, header: SparseHeader, start: int, n: int, m: int)
    requires
        0 <= start,
        0 <= n <= m,
        expanded_upto(source, header, start, m).1 is None,
    ensures
        expanded_upto(source, header, start, n).1 is None,
        0 <= expanded_upto(source, header, start, n).0.pos <= expanded_upto(
            source,
            header,
            start,
            m,
        ).0.pos,
    decreases m,
{
    if m > 0 {
        let st = expanded_upto(source, header, start, m - 1).0;
        let chunk = chunk_header(source, st.pos, header.chunk_header_size)->Ok_0;
        lemma_product_fits(chunk.chunk_blocks, header.block_size);
        if n < m {
            lemma_places_grow(source, header, start, n, m - 1);
        } else {
            lemma_places_grow(source, header, start, m - 1, m - 1);
        }
    }
}

proof fn lemma_part_read(source: Seq<u8>, header: SparseHeader, st: SparseState)
    requires
        header.wf(),
        0 <= st.pos,
        chunk_step(source, header, st).1 is None,
        chunk_step(source, header, st).0.pos <= source.len(),
    ensures
        ({
            let size = header.block_size as int;
            let part = part_read(source, header, st.pos);
            &&& part.sound(size)
            &&& part.stands_at(source, st.pos, header.chunk_header_size as int, size)
            &&& chunk_step(source, header, st).0.pos == st.pos + header.chunk_header_size
                + part.stored().len()
            &&& chunk_step(source, header, st).0.position == st.position + part.blocks(size) * size
        }),
{
    let size = header.block_size as int;
    let chunk = chunk_header(source, st.pos, header.chunk_header_size)->Ok_0;
    lemma_product_fits(chunk.chunk_blocks, header.block_size);
    let blocks = chunk.chunk_blocks as int;
    let part = part_read(source, header, st.pos);
    let data = st.pos + header.chunk_header_size;
    if chunk.chunk_type == 0xcac1 {
        lemma_mul_is_commutative(blocks, size);
        assert(blocks * size == size * blocks + 0);
        lemma_fundamental_div_mod_converse(blocks * size, size, blocks, 0);
        assert(part.stored().len() == blocks * size);
        assert(part.blocks(size) == blocks);
    } else if chunk.chunk_type == 0xcac3 {
        assert(source.subrange(data, data) =~= Seq::<u8>::empty());
    } else if chunk.chunk_type == 0xcac4 {
        assert(blocks == 0) by (nonlinear_arith)
            requires
                blocks * size == 0,
                0 < size,
                0 <= blocks,
        ;
        assert(0 * size == 0) by (nonlinear_arith);
    }
    assert(part.blocks(size) == blocks);
    assert(part.stands_at(source, st.pos, header.chunk_header_size as int, size));
}

/// The parts that an image has.
spec fn parts_read(source: Seq<u8>) -> Seq<SparsePart> {
    let header = header_told(source);
    let start = le16(source, 8) as int;
    Seq::new(
        header.total_chunks as nat,
        |i: int| part_read(source, header, expanded_upto(source, header, start, i).0.pos),
    )
}

proof fn lemma_parts_read(source: Seq<u8>, n: int)
    requires
        header_told(source).wf(),
        0 <= n <= header_told(source).total_chunks,
        ({
            let header = header_told(source);
            let (st, failure) = expanded_upto(
                source,
                header,
                le16(source, 8) as int,
                header.total_chunks as int,
            );
            failure is None && st.pos == source.len()
        }),
    ensures
        ({
            let header = header_told(source);
            let start = le16(source, 8) as int;
            let size = header.block_size as int;
            let parts = parts_read(source);
            let st = expanded_upto(source, header, start, n).0;
            &&& st.pos == part_place(parts, start, header.chunk_header_size as int, n)
            &&& st.position == blocks_of(parts, size, n) * size
            &&& n > 0 ==> parts[n - 1].sound(size) && parts[n - 1].stands_at(
                source,
                part_place(parts, start, header.chunk_header_size as int, n - 1),
                header.chunk_header_size as int,
                size,
            )
        }),
    decreases n,
{
    let header = header_told(source);
    let start = le16(source, 8) as int;
    let size = header.block_size as int;
    let parts = parts_read(source);
    let all = header.total_chunks as int;
    if n > 0 {
        lemma_parts_read(source, n - 1);
        lemma_places_grow(source, header, start, n - 1, all);
        lemma_places_grow(source, header, start, n, all);
        let st = expanded_upto(source, header, start, n - 1).0;
        lemma_part_read(source, header, st);
        assert(parts[n - 1] == part_read(source, header, st.pos));
        let before = blocks_of(parts, size, n - 1);
        let more = parts[n - 1].blocks(size);
        assert((before + more) * size == before * size + more * size) by (nonlinear_arith);
    } else {
        assert(0 * size == 0) by (nonlinear_arith);
    }
}

/// Nothing else is flashed: a file that is accepted is the sparse image of some parts, and they fit
/// the partition.
pub proof fn law_only_sparse_images_are_flashed(source: Seq<u8>, partition_size: u64)
    requires
        source.len() <= u64::MAX,
        sparse_run(source, partition_size, source.len() as u64).1 is Ok,
    ensures
        le32(source, 16) * le32(source, 12) <= partition_size,
        exists|parts: Seq<SparsePart>| #[trigger] is_sparse_image_of(source, parts),
{
    let header = header_told(source);
    let start = le16(source, 8) as int;
    let size = header.block_size as int;
    let parts = parts_read(source);
    let n = header.total_chunks as int;
    lemma_product_fits(header.total_blocks, header.block_size);
    assert(le32(source, 0) == 0xed26_ff3a);
    assert(source[0] == 0x3a && source[1] == 0xff && source[2] == 0x26 && source[3] == 0xed);
    lemma_expanded_position(source, header, start, n);
    lemma_places_grow(source, header, start, n, n);
    lemma_parts_read(source, n);
    assert(blocks_of(parts, size, n) == header.total_blocks) by (nonlinear_arith)
        requires
            blocks_of(parts, size, n) * size == header.total_blocks * size,
            0 < size,
    ;
    let header_size = header.chunk_header_size as int;
    assert forall|i: int| 0 <= i < n implies (#[trigger] parts[i]).sound(size)
        && parts[i].stands_at(
        source,
        part_place(parts, start, header_size, i),
        header_size,
        size,
    ) by {
        lemma_parts_read(source, i + 1);
    }
    assert(is_sparse_image_of(source, parts));
}

proof fn lemma_expanded_position(source: Seq<u8>, header: SparseHeader, start: int, n: int)
    requires
        0 <= start,
    ensures
        expanded_upto(source, header, start, n).1 is None ==> 0 <= expanded_upto(
            source,
            header,
            start,
            n,
        ).0.position,
    decreases n,
{
    if n > 0 {
        lemma_expanded_position(source, header, start, n - 1);
        let (st, failure) = expanded_upto(source, header, start, n - 1);
        if failure is None {
            if let Ok(chunk) = chunk_header(source, st.pos, header.chunk_header_size) {
                lemma_product_fits(chunk.chunk_blocks, header.block_size);
            }
        }
    }
}

/// The names of the partitions that may be flashed, without the suffixes of slots.
pub open spec fn known_name(base: Seq<char>) -> bool {
    ||| base == "boot"@
    ||| base == "recovery"@
    ||| base == "vendor_boot"@
    ||| base == "init_boot"@
    ||| base == "dtbo"@
    ||| base == "dtb"@
    ||| base == "userdata"@
}

proof fn lemma_known_names(base: Seq<char>)
    requires
        known_name(base),
    ensures
        base_name(base) == base,
        base_name(base + "_a"@) == base,
        base_name(base + "_b"@) == base,
{
    reveal_strlit("boot");
    reveal_strlit("recovery");
    reveal_strlit("vendor_boot");
    reveal_strlit("init_boot");
    reveal_strlit("dtbo");
    reveal_strlit("dtb");
    reveal_strlit("userdata");
    reveal_strlit("_a");
    reveal_strlit("_b");
    law_beginnings_and_ends_are_taken_off(base, "_a"@);
    law_beginnings_and_ends_are_taken_off(base, "_b"@);
    law_beginnings_and_ends_are_taken_off(base + "_b"@, "_a"@);
    let other = base + "_b"@;
    assert(other.skip(other.len() - 2)[1] == 'b');
    assert("_a"@[1] == 'a' && "_b"@[1] == 'b' && "_a"@[0] == '_' && "_b"@[0] == '_');
    let n = base.len() as int;
    assert(base.len() >= 3);
    assert(base.skip(n - 2)[0] == base[n - 2]);
    assert(base[n - 2] != '_');
    if before_suffix(base, "_a"@) is Some {
        law_beginnings_and_ends_are_taken_off(base, "_a"@);
        assert(base.skip(n - 2) == "_a"@);
    }
    if before_suffix(base, "_b"@) is Some {
        law_beginnings_and_ends_are_taken_off(base, "_b"@);
        assert(base.skip(n - 2) == "_b"@);
    }
}

/// The partitions that may be flashed are those that hold what is booted and the data of users, with
/// the suffix of a slot or without one, and no others.
pub proof fn law_only_known_partitions_are_flashed(base: Seq<char>, name: Seq<char>)
    ensures
        known_name(base) ==> flashable(base) && flashable(base + "_a"@) && flashable(base + "_b"@),
        flashable(name) ==> known_name(name) || (name.len() > 2 && known_name(
            name.take(name.len() - 2),
        ) && (name.skip(name.len() - 2) == "_a"@ || name.skip(name.len() - 2) == "_b"@)),
{
    reveal_strlit("_a");
    reveal_strlit("_b");
    reveal_strlit("boot");
    reveal_strlit("recovery");
    reveal_strlit("vendor_boot");
    reveal_strlit("init_boot");
    reveal_strlit("dtbo");
    reveal_strlit("dtb");
    reveal_strlit("userdata");
    if known_name(base) {
        lemma_known_names(base);
    }
    law_beginnings_and_ends_are_taken_off(name, "_a"@);
    law_beginnings_and_ends_are_taken_off(name, "_b"@);
    if flashable(name) {
        let found = base_name(name);
        assert(known_name(found));
        assert(found.len() >= 3);
        if before_suffix(name, "_a"@) is Some {
            assert(found == name.take(name.len() - 2));
            assert(name.skip(name.len() - 2) == "_a"@);
        } else if before_suffix(name, "_b"@) is Some {
            assert(found == name.take(name.len() - 2));
            assert(name.skip(name.len() - 2) == "_b"@);
        } else {
            assert(found == name);
        }
    }
}

/// A partition is mounted where a line of the mounts has its device as the third word.
pub proof fn law_mounted_partitions_are_known(parts: Seq<Seq<char>>, k: int, device: Seq<char>)
    requires
        0 <= k < parts.len(),
        forall|i: int| 0 <= i < parts.len() ==> is_line(#[trigger] parts[i]),
    ensures
        words(parts[k]).len() > 2 && words(parts[k])[2] == device ==> is_mounted(
            joined(parts, seq!['\n']).push('\n'),
            device,
        ),
        (forall|i: int|
            0 <= i < parts.len() ==> words(#[trigger] parts[i]).len() <= 2 || words(parts[i])[2]
                != device) ==> !is_mounted(joined(parts, seq!['\n']).push('\n'), device),
{
    law_lines_are_read(parts);
    let text = joined(parts, seq!['\n']).push('\n');
    assert(lines(text)[k] == parts[k]);
}

/// A command that flashes names its partition behind `flash:`.
pub proof fn law_flash_commands_name_their_partitions(name: Seq<char>)
    ensures
        name.len() > 0 ==> flash_target("flash:"@ + name) == Ok::<Seq<char>, FlashError>(name),
        !"flash:"@.is_prefix_of(name) ==> flash_target(name) is Err,
{
    law_beginnings_and_ends_are_taken_off("flash:"@, name);
}

} // verus!
