//! Android logical-partition metadata, for read-only access to firmware.
use vstd::prelude::*;
use vstd::set_lib::lemma_subset_equality;
use vstd::string::*;

use crate::bytes::{
    find_byte, le16, le32, le64, le_u16, le_u32, le_u64, lemma_next_byte, next_byte, push_bytes,
    same_bytes,
};
use crate::collect::{
    collected, lemma_collected_all, lemma_collected_failure, lemma_collected_success,
};
use crate::digest::{sha256, sha256_digest};
use crate::partitions::{find, the_match, Partition, PartitionError};
use crate::text::{
    alphanumeric, ascii_text, before_suffix, cat, chars, is_alphanumeric,
    law_beginnings_and_ends_are_taken_off, owned, same_text, strip_suffix, text_of_ascii, texts,
};

pub mod copies;
pub mod device_mapper;
pub mod mapped;
pub mod words;

verus! {

/// Length of a sector.
pub const SECTOR_SIZE: u64 = 512;

/// Length of the area in front of the geometry.
pub const PARTITION_RESERVED_BYTES: u64 = 4096;

/// Length of a geometry block.
pub const GEOMETRY_SIZE: usize = 4096;

/// Length of the geometry in its block.
pub const GEOMETRY_STRUCT_SIZE: usize = 52;

/// The number that a geometry starts with.
pub const GEOMETRY_MAGIC: u32 = 0x616c_4467;

/// The number that a metadata header starts with.
pub const HEADER_MAGIC: u32 = 0x414c_5030;

/// The supported major version.
pub const HEADER_MAJOR: u16 = 10;

/// Length of the header before minor version two.
pub const HEADER_V1_0_SIZE: usize = 128;

/// Length of the header from minor version two on.
pub const HEADER_V1_2_SIZE: usize = 256;

/// The greatest length of one copy of the metadata.
pub const MAX_METADATA_SIZE: usize = 0x100_0000;

/// The greatest number of metadata slots.
pub const MAX_METADATA_SLOTS: u32 = 3;

/// Length of an entry of the partition table.
pub const PARTITION_ENTRY_SIZE: usize = 52;

/// Length of an entry of the extent table.
pub const EXTENT_ENTRY_SIZE: usize = 24;

/// Length of an entry of the group table.
pub const GROUP_ENTRY_SIZE: usize = 48;

/// Length of an entry of the block device table.
pub const BLOCK_DEVICE_ENTRY_SIZE: usize = 64;

/// A partition that is not written to.
pub const PARTITION_ATTR_READONLY: u32 = 1;

/// A partition whose name gets the suffix of the slot.
pub const PARTITION_ATTR_SLOT_SUFFIXED: u32 = 2;

/// A partition that an update made.
pub const PARTITION_ATTR_UPDATED: u32 = 4;

/// A partition that is not in use.
pub const PARTITION_ATTR_DISABLED: u32 = 8;

/// The attributes of minor version zero.
pub const PARTITION_ATTR_MASK_V0: u32 = 3;

/// The attributes of minor version one.
pub const PARTITION_ATTR_MASK_V1: u32 = 12;

/// A block device whose name gets the suffix of the slot.
pub const BLOCK_DEVICE_SLOT_SUFFIXED: u32 = 1;

/// A group whose name gets the suffix of the slot.
pub const GROUP_SLOT_SUFFIXED: u32 = 1;

/// An extent on a block device.
pub const TARGET_LINEAR: u32 = 0;

/// An extent of zeros.
pub const TARGET_ZERO: u32 = 1;

/// One of the two copies of the metadata of a slot.
#[derive(Clone, Copy, Debug, PartialEq, Eq, Structural)]
pub enum MetadataCopy {
    Primary,
    Backup,
}

/// A table of the metadata.
#[derive(Clone, Copy, Debug, PartialEq, Eq, Structural)]
pub enum Table {
    Partition,
    Extent,
    Group,
    BlockDevice,
}

/// A part that a checksum covers.
#[derive(Clone, Copy, Debug, PartialEq, Eq, Structural)]
pub enum Checked {
    Geometry,
    Header,
    Tables,
}

/// Why metadata was refused. Numbers are those of table entries, except where a field says so.
#[derive(Clone, Copy, Debug, PartialEq, Eq, Structural)]
pub enum LpError {
    GeometryTruncated,
    GeometryMagic,
    GeometryStructSize,
    Checksum(Checked),
    MetadataMaxSize(u32),
    SlotCount(u32),
    LogicalBlockSize(u32),
    /// The slot and how many there are.
    SlotOutside(u32, u32),
    BackupSlotOverflow,
    OffsetOverflow,
    Truncated,
    HeaderMagic,
    Version(u16, u16),
    /// The length and the version of the header.
    HeaderSize(u32, u16, u16),
    TablesOverflow,
    TablesExceed,
    EntrySize(Table, u32),
    TableSizeOverflow,
    TableRangeOverflow,
    TableExceeds,
    TablesGap,
    TablesUncovered,
    NoBlockDevices,
    EntryOverflow(Table),
    EntryTruncated(Table),
    Name(Table),
    GroupFlags(usize, u32),
    DuplicateBlockDevice(usize),
    BlockDeviceFlags(usize, u32),
    BlockDeviceSize(usize, u64),
    EmptyExtent(usize),
    ZeroExtent(usize),
    TargetType(usize, u32),
    MissingBlockDevice(usize, usize),
    DuplicatePartition(usize),
    PartitionAttributes(usize, u32),
    ExtentRangeOverflow,
    ExtentsExceed(usize),
    NoExtents(usize),
    MissingGroup(usize, usize),
    UnsupportedSlot(u32),
    DuplicateRequest,
    InvalidRequest,
    Disabled(usize),
    SeveralMatch(usize),
    /// The partition and the device that it names.
    PlanMissingBlockDevice(usize, usize),
    UnresolvedBlockDevice,
    PhysicalOverflow,
    PhysicalOutOfBounds(usize),
    LogicalOverflow,
    LogicalSizeOverflow,
    LogicalSize(usize, u64),
    /// A block device that no partition, or more than one, is named like.
    Unresolved(usize, PartitionError),
    MetadataElsewhere,
    /// The device, its size and that which the metadata tells.
    DeviceTooSmall(usize, u64, u64),
    FirstSectorOutOfBounds(usize),
}

/// How the metadata is laid out.
#[derive(Clone, Copy, Debug, PartialEq, Eq, Structural)]
pub struct Geometry {
    pub metadata_max_size: usize,
    pub metadata_slot_count: u32,
    pub logical_block_size: u32,
}

impl Geometry {
    /// Whether the sizes are such as a geometry may tell.
    pub open spec fn wf(self) -> bool {
        &&& 0 < self.metadata_max_size <= MAX_METADATA_SIZE
        &&& self.metadata_max_size % 512 == 0
        &&& 1 <= self.metadata_slot_count <= MAX_METADATA_SLOTS
        &&& self.logical_block_size > 0
        &&& self.logical_block_size % 512 == 0
    }
}

/// What a checksum is made over: `bytes` with zeros in place of the thirty-two at `at`.
pub open spec fn zeroed(bytes: Seq<u8>, at: int) -> Seq<u8> {
    bytes.take(at) + Seq::new(32, |i: int| 0u8) + bytes.skip(at + 32)
}

/// What a checksum is made over.
fn zeroed_at(bytes: &[u8], at: usize) -> (v: Vec<u8>)
    requires
        at + 32 <= bytes.len(),
    ensures
        v@ == zeroed(bytes@, at as int),
{
    let mut v: Vec<u8> = Vec::new();
    push_bytes(&mut v, &bytes[0..at]);
    assert(v@ =~= bytes@.take(at as int));
    let ghost front = v@;
    let mut i: usize = 0;
    while i < 32
        invariant
            i <= 32,
            v@ == front + Seq::new(i as nat, |k: int| 0u8),
        decreases 32 - i,
    {
        v.push(0);
        i += 1;
        assert(v@ =~= front + Seq::new(i as nat, |k: int| 0u8));
    }
    let rest = &bytes[at + 32..bytes.len()];
    assert(rest@ =~= bytes@.skip(at + 32));
    push_bytes(&mut v, rest);
    v
}

/// The geometry in `block`, given the digest of it.
pub open spec fn geometry_given(block: Seq<u8>, digest: Seq<u8>) -> Result<Geometry, LpError> {
    let max_size = le32(block, 40);
    let slots = le32(block, 44);
    let block_size = le32(block, 48);
    if block.len() < GEOMETRY_STRUCT_SIZE {
        Err(LpError::GeometryTruncated)
    } else if le32(block, 0) != GEOMETRY_MAGIC {
        Err(LpError::GeometryMagic)
    } else if le32(block, 4) != 52 {
        Err(LpError::GeometryStructSize)
    } else if digest != block.subrange(8, 40) {
        Err(LpError::Checksum(Checked::Geometry))
    } else if max_size == 0 || max_size > MAX_METADATA_SIZE || max_size % 512 != 0 {
        Err(LpError::MetadataMaxSize(max_size))
    } else if !(1 <= slots <= MAX_METADATA_SLOTS) {
        Err(LpError::SlotCount(slots))
    } else if block_size == 0 || block_size % 512 != 0 {
        Err(LpError::LogicalBlockSize(block_size))
    } else {
        Ok(
            Geometry {
                metadata_max_size: max_size as usize,
                metadata_slot_count: slots,
                logical_block_size: block_size,
            },
        )
    }
}

/// The geometry in `block`.
pub open spec fn geometry_of(block: Seq<u8>) -> Result<Geometry, LpError> {
    geometry_given(block, sha256(zeroed(block.take(52), 8)))
}

/// The geometry in `block`, given the digest of it.
pub fn parse_geometry_with(block: &[u8], digest: &[u8]) -> (r: Result<Geometry, LpError>)
    ensures
        r == geometry_given(block@, digest@),
        r matches Ok(geometry) ==> geometry.wf(),
{
    if block.len() < GEOMETRY_STRUCT_SIZE {
        return Err(LpError::GeometryTruncated);
    }
    if le_u32(block, 0) != GEOMETRY_MAGIC {
        return Err(LpError::GeometryMagic);
    }
    if le_u32(block, 4) != 52 {
        return Err(LpError::GeometryStructSize);
    }
    if !same_bytes(digest, &block[8..40]) {
        return Err(LpError::Checksum(Checked::Geometry));
    }
    let max_size = le_u32(block, 40);
    if max_size == 0 || max_size as usize > MAX_METADATA_SIZE || max_size % 512 != 0 {
        return Err(LpError::MetadataMaxSize(max_size));
    }
    let slots = le_u32(block, 44);
    if slots < 1 || slots > MAX_METADATA_SLOTS {
        return Err(LpError::SlotCount(slots));
    }
    let block_size = le_u32(block, 48);
    if block_size == 0 || block_size % 512 != 0 {
        return Err(LpError::LogicalBlockSize(block_size));
    }
    Ok(
        Geometry {
            metadata_max_size: max_size as usize,
            metadata_slot_count: slots,
            logical_block_size: block_size,
        },
    )
}

/// The geometry in `block`.
pub fn parse_geometry(block: &[u8]) -> (r: Result<Geometry, LpError>)
    ensures
        r == geometry_of(block@),
        r matches Ok(geometry) ==> geometry.wf(),
{
    if block.len() < GEOMETRY_STRUCT_SIZE {
        return Err(LpError::GeometryTruncated);
    }
    let own = &block[0..GEOMETRY_STRUCT_SIZE];
    assert(own@ =~= block@.take(52));
    let covered = zeroed_at(own, 8);
    let digest = sha256_digest(covered.as_slice());
    parse_geometry_with(block, digest.as_slice())
}

/// Where a copy of the metadata of a slot stands: behind the reserved area and the two geometry
/// blocks, first the primary copies of all slots, then the backup copies.
pub open spec fn copy_offset(geometry: Geometry, slot: u32, copy: MetadataCopy) -> Result<
    u64,
    LpError,
> {
    let number: int = match copy {
        MetadataCopy::Primary => slot as int,
        MetadataCopy::Backup => geometry.metadata_slot_count + slot,
    };
    if number > u32::MAX {
        Err(LpError::BackupSlotOverflow)
    } else if 12288 + geometry.metadata_max_size * number > u64::MAX {
        Err(LpError::OffsetOverflow)
    } else {
        Ok((12288 + geometry.metadata_max_size * number) as u64)
    }
}

/// Where a copy of the metadata of a slot stands.
pub fn metadata_offset(geometry: &Geometry, slot: u32, copy: MetadataCopy) -> (r: Result<
    u64,
    LpError,
>)
    ensures
        r == copy_offset(*geometry, slot, copy),
{
    let number: u32 = match copy {
        MetadataCopy::Primary => slot,
        MetadataCopy::Backup => {
            if slot > u32::MAX - geometry.metadata_slot_count {
                return Err(LpError::BackupSlotOverflow);
            }
            geometry.metadata_slot_count + slot
        },
    };
    match (geometry.metadata_max_size as u64).checked_mul(number as u64) {
        None => Err(LpError::OffsetOverflow),
        Some(skipped) => if skipped > u64::MAX - 12288 {
            Err(LpError::OffsetOverflow)
        } else {
            Ok(12288 + skipped)
        },
    }
}

/// The copies stand behind one another: the primary copy of each slot before that of the next,
/// all primary copies before the first backup copy, and no copy reaches into the next.
pub proof fn law_copies_do_not_overlap(
    geometry: Geometry,
    slot: u32,
    copy: MetadataCopy,
    other_slot: u32,
    other_copy: MetadataCopy,
)
    requires
        geometry.wf(),
        slot < geometry.metadata_slot_count,
        other_slot < geometry.metadata_slot_count,
        (copy == MetadataCopy::Primary && other_copy == MetadataCopy::Backup) || (copy
            == other_copy && slot < other_slot),
    ensures
        copy_offset(geometry, slot, copy) is Ok,
        copy_offset(geometry, other_slot, other_copy) is Ok,
        copy_offset(geometry, slot, copy)->Ok_0 + geometry.metadata_max_size <= copy_offset(
            geometry,
            other_slot,
            other_copy,
        )->Ok_0,
{
    let size = geometry.metadata_max_size as int;
    let a: int = match copy {
        MetadataCopy::Primary => slot as int,
        MetadataCopy::Backup => geometry.metadata_slot_count + slot,
    };
    let b: int = match other_copy {
        MetadataCopy::Primary => other_slot as int,
        MetadataCopy::Backup => geometry.metadata_slot_count + other_slot,
    };
    assert(size * (a + 1) <= size * b) by (nonlinear_arith)
        requires
            a + 1 <= b,
            0 < size,
    ;
    assert(size * (a + 1) == size * a + size) by (nonlinear_arith);
    assert(size * b <= 0x100_0000 * 6) by (nonlinear_arith)
        requires
            0 <= b <= 6,
            0 < size <= 0x100_0000,
    ;
    assert(0 <= size * a) by (nonlinear_arith)
        requires
            0 <= a,
            0 < size,
    ;
}

/// Where a table stands among the tables, and how many entries of what length it has.
#[derive(Clone, Copy, Debug, PartialEq, Eq, Structural)]
pub struct TableDescriptor {
    pub offset: usize,
    pub entries: usize,
    pub entry_size: usize,
}

impl TableDescriptor {
    /// The length of the table, where it fits an address.
    pub open spec fn length(self) -> Result<usize, LpError> {
        if self.entries * self.entry_size > usize::MAX {
            Err(LpError::TableSizeOverflow)
        } else {
            Ok((self.entries * self.entry_size) as usize)
        }
    }

    /// The length of the table.
    pub fn bytes(self) -> (r: Result<usize, LpError>)
        ensures
            r == self.length(),
    {
        match self.entries.checked_mul(self.entry_size) {
            Some(bytes) => Ok(bytes),
            None => Err(LpError::TableSizeOverflow),
        }
    }
}

/// The descriptor of a table, at `offset` of the header.
pub open spec fn descriptor_at(
    bytes: Seq<u8>,
    offset: int,
    expected: int,
    table: Table,
) -> Result<TableDescriptor, LpError> {
    let size = le32(bytes, offset + 8);
    if offset + 12 > bytes.len() {
        Err(LpError::Truncated)
    } else if size != expected {
        Err(LpError::EntrySize(table, size))
    } else {
        Ok(
            TableDescriptor {
                offset: le32(bytes, offset) as usize,
                entries: le32(bytes, offset + 4) as usize,
                entry_size: size as usize,
            },
        )
    }
}

/// The descriptor of a table, at `offset` of the header.
pub fn parse_descriptor(bytes: &[u8], offset: usize, expected: usize, table: Table) -> (r: Result<
    TableDescriptor,
    LpError,
>)
    requires
        offset <= 0x1000,
    ensures
        r == descriptor_at(bytes@, offset as int, expected as int, table),
{
    if bytes.len() < offset + 12 {
        return Err(LpError::Truncated);
    }
    let size = le_u32(bytes, offset + 8);
    if size as usize != expected {
        return Err(LpError::EntrySize(table, size));
    }
    Ok(
        TableDescriptor {
            offset: le_u32(bytes, offset) as usize,
            entries: le_u32(bytes, offset + 4) as usize,
            entry_size: size as usize,
        },
    )
}

/// The bytes from `start` up to `end`.
#[derive(Clone, Copy, Debug, PartialEq, Eq, Structural)]
pub struct ByteRange {
    pub start: usize,
    pub end: usize,
}

/// Where the table stands, if it fits the tables.
pub open spec fn table_range(descriptor: TableDescriptor, tables_size: int) -> Result<
    ByteRange,
    LpError,
> {
    match descriptor.length() {
        Err(e) => Err(e),
        Ok(bytes) => if descriptor.offset + bytes > usize::MAX {
            Err(LpError::TableRangeOverflow)
        } else if descriptor.offset + bytes > tables_size {
            Err(LpError::TableExceeds)
        } else {
            Ok(
                ByteRange {
                    start: descriptor.offset,
                    end: (descriptor.offset + bytes) as usize,
                },
            )
        },
    }
}

/// The ranges of the tables, in the order of the descriptors.
pub open spec fn range_reader(
    descriptors: Seq<TableDescriptor>,
    tables_size: int,
) -> spec_fn(int) -> Result<ByteRange, LpError> {
    |i: int| table_range(descriptors[i], tables_size)
}

/// The range that starts at `cursor` and holds a byte, among the first `n`.
pub open spec fn range_starting(ranges: Seq<ByteRange>, cursor: int, n: int) -> Option<int>
    decreases n,
{
    if n <= 0 {
        None
    } else if ranges[n - 1].start == cursor && ranges[n - 1].end > cursor {
        Some(n - 1)
    } else {
        range_starting(ranges, cursor, n - 1)
    }
}

/// Whether the range holds a byte.
pub open spec fn holds_byte(range: ByteRange) -> bool {
    range.start < range.end
}

/// How many of the first `n` ranges hold a byte.
pub open spec fn filled(ranges: Seq<ByteRange>, n: int) -> int
    decreases n,
{
    if n <= 0 {
        0
    } else {
        filled(ranges, n - 1) + if holds_byte(ranges[n - 1]) {
            1int
        } else {
            0
        }
    }
}

/// Where a chain of `steps` ranges ends that starts at `cursor`, each range where the one before
/// it ends.
pub open spec fn chain_end(ranges: Seq<ByteRange>, cursor: int, steps: int) -> Option<int>
    decreases steps,
{
    if steps <= 0 {
        Some(cursor)
    } else {
        match range_starting(ranges, cursor, ranges.len() as int) {
            None => None,
            Some(i) => chain_end(ranges, ranges[i].end as int, steps - 1),
        }
    }
}

/// Whether the tables that hold a byte follow one another from the start to the end.
pub open spec fn layout(descriptors: Seq<TableDescriptor>, tables_size: int) -> Result<
    (),
    LpError,
> {
    match collected(range_reader(descriptors, tables_size), descriptors.len() as int) {
        Err(e) => Err(e),
        Ok(ranges) => match chain_end(ranges, 0, filled(ranges, ranges.len() as int)) {
            None => Err(LpError::TablesGap),
            Some(end) => if end != tables_size {
                Err(LpError::TablesUncovered)
            } else {
                Ok(())
            },
        },
    }
}

/// Checks that the tables that hold a byte follow one another from the start to the end.
pub fn validate_table_layout(tables_size: usize, descriptors: &[TableDescriptor]) -> (r: Result<
    (),
    LpError,
>)
    ensures
        r == layout(descriptors@, tables_size as int),
{
    let ghost reader = range_reader(descriptors@, tables_size as int);
    let mut ranges: Vec<ByteRange> = Vec::new();
    let mut count: usize = 0;
    let mut i: usize = 0;
    assert(ranges@ =~= Seq::<ByteRange>::empty());
    while i < descriptors.len()
        invariant
            i <= descriptors@.len(),
            reader == range_reader(descriptors@, tables_size as int),
            collected(reader, i as int) == Ok::<Seq<ByteRange>, LpError>(ranges@),
            ranges@.len() == i,
            count <= i,
            count == filled(ranges@, i as int),
        decreases descriptors@.len() - i,
    {
        let descriptor = descriptors[i];
        let range = match descriptor.bytes() {
            Err(e) => Err(e),
            Ok(bytes) => if bytes > usize::MAX - descriptor.offset {
                Err(LpError::TableRangeOverflow)
            } else if descriptor.offset + bytes > tables_size {
                Err(LpError::TableExceeds)
            } else {
                Ok(ByteRange { start: descriptor.offset, end: descriptor.offset + bytes })
            },
        };
        match range {
            Err(e) => {
                proof {
                    lemma_collected_failure(reader, i + 1, descriptors@.len() as int);
                }
                return Err(e);
            },
            Ok(range) => {
                let ghost before = ranges@;
                ranges.push(range);
                proof {
                    lemma_filled_prefix(before, ranges@, i as int);
                }
                if range.start < range.end {
                    count += 1;
                }
            },
        }
        i += 1;
    }
    let mut cursor: usize = 0;
    let mut steps: usize = count;
    while steps > 0
        invariant
            layout(descriptors@, tables_size as int) == (match chain_end(
                ranges@,
                cursor as int,
                steps as int,
            ) {
                None => Err::<(), LpError>(LpError::TablesGap),
                Some(end) => if end != tables_size {
                    Err(LpError::TablesUncovered)
                } else {
                    Ok(())
                },
            }),
        decreases steps,
    {
        match find_range(ranges.as_slice(), cursor) {
            None => {
                return Err(LpError::TablesGap);
            },
            Some(k) => {
                cursor = ranges[k].end;
            },
        }
        steps -= 1;
    }
    if cursor != tables_size {
        return Err(LpError::TablesUncovered);
    }
    Ok(())
}

/// The bytes of table `i`.
pub open spec fn table_bytes(
    descriptors: Seq<TableDescriptor>,
    tables_size: int,
    i: int,
) -> ByteRange {
    table_range(descriptors[i], tables_size)->Ok_0
}

/// Whether byte `b` is one of some table.
pub open spec fn is_of_a_table(
    descriptors: Seq<TableDescriptor>,
    tables_size: int,
    b: int,
) -> bool {
    exists|i: int|
        0 <= i < descriptors.len() && (#[trigger] table_bytes(descriptors, tables_size, i)).start
            <= b < table_bytes(descriptors, tables_size, i).end
}

/// Where a table layout is accepted, the tables lie inside the area, no two tables that hold a byte
/// overlap, and every byte of the area is one of some table.
pub proof fn law_tables_tile_their_area(descriptors: Seq<TableDescriptor>, tables_size: int)
    requires
        layout(descriptors, tables_size) is Ok,
    ensures
        forall|i: int|
            0 <= i < descriptors.len() ==> (#[trigger] table_bytes(
                descriptors,
                tables_size,
                i,
            )).start <= table_bytes(descriptors, tables_size, i).end <= tables_size,
        forall|i: int, j: int|
            0 <= i < j < descriptors.len() && holds_byte(
                #[trigger] table_bytes(descriptors, tables_size, i),
            ) && holds_byte(#[trigger] table_bytes(descriptors, tables_size, j)) ==> apart(
                table_bytes(descriptors, tables_size, i),
                table_bytes(descriptors, tables_size, j),
            ),
        forall|b: int|
            0 <= b < tables_size ==> #[trigger] is_of_a_table(descriptors, tables_size, b),
{
    let reader = range_reader(descriptors, tables_size);
    let n = descriptors.len() as int;
    let ranges = collected(reader, n)->Ok_0;
    lemma_collected_success(reader, n);
    assert forall|i: int| 0 <= i < n implies #[trigger] table_bytes(descriptors, tables_size, i)
        == ranges[i] && ranges[i].start <= ranges[i].end <= tables_size by {
        assert(reader(i) == Ok::<ByteRange, LpError>(ranges[i]));
    }
    lemma_filled_places(ranges, n);
    lemma_chain_tiles(ranges, 0, filled(ranges, n), Set::empty());
    assert forall|b: int| 0 <= b < tables_size implies #[trigger] is_of_a_table(
        descriptors,
        tables_size,
        b,
    ) by {
        assert(covered(ranges, filled_places(ranges, n), b));
        let i = choose|i: int| #[trigger]
            filled_places(ranges, n).contains(i) && ranges[i].start <= b < ranges[i].end;
        assert(table_bytes(descriptors, tables_size, i) == ranges[i]);
    }
}

/// Whether two ranges have no byte in common.
pub open spec fn apart(a: ByteRange, b: ByteRange) -> bool {
    a.end <= b.start || b.end <= a.start
}

/// The places of the ranges that hold a byte, among the first `n`.
pub open spec fn filled_places(ranges: Seq<ByteRange>, n: int) -> Set<int>
    decreases n,
{
    if n <= 0 {
        Set::empty()
    } else if holds_byte(ranges[n - 1]) {
        filled_places(ranges, n - 1).insert(n - 1)
    } else {
        filled_places(ranges, n - 1)
    }
}

proof fn lemma_filled_places(ranges: Seq<ByteRange>, n: int)
    requires
        0 <= n,
    ensures
        filled_places(ranges, n).finite(),
        filled_places(ranges, n).len() == filled(ranges, n),
        forall|i: int| #[trigger]
            filled_places(ranges, n).contains(i) <==> 0 <= i < n && holds_byte(ranges[i]),
    decreases n,
{
    if n > 0 {
        lemma_filled_places(ranges, n - 1);
    }
}

proof fn lemma_range_starting(ranges: Seq<ByteRange>, cursor: int, n: int)
    requires
        0 <= n,
    ensures
        range_starting(ranges, cursor, n) matches Some(i) ==> 0 <= i < n && ranges[i].start
            == cursor && ranges[i].end > cursor,
    decreases n,
{
    if n > 0 {
        lemma_range_starting(ranges, cursor, n - 1);
    }
}

/// Whether byte `b` is one of a range at the given places.
spec fn covered(ranges: Seq<ByteRange>, places: Set<int>, b: int) -> bool {
    exists|i: int| #[trigger] places.contains(i) && ranges[i].start <= b < ranges[i].end
}

/// Whether the ranges at the given places hold bytes, lie apart, and cover what is before `cursor`.
spec fn tiled(ranges: Seq<ByteRange>, cursor: int, seen: Set<int>) -> bool {
    &&& forall|i: int| #[trigger]
        seen.contains(i) ==> 0 <= i < ranges.len() && holds_byte(ranges[i]) && ranges[i].end
            <= cursor
    &&& forall|i: int, j: int| #[trigger]
        seen.contains(i) && #[trigger] seen.contains(j) && i != j ==> apart(ranges[i], ranges[j])
    &&& forall|b: int| 0 <= b < cursor ==> #[trigger] covered(ranges, seen, b)
}

proof fn lemma_tile_more(ranges: Seq<ByteRange>, cursor: int, seen: Set<int>, i: int)
    requires
        tiled(ranges, cursor, seen),
        0 <= i < ranges.len(),
        ranges[i].start == cursor,
        ranges[i].end > cursor,
    ensures
        tiled(ranges, ranges[i].end as int, seen.insert(i)),
        !seen.contains(i),
{
    let more = seen.insert(i);
    let end = ranges[i].end as int;
    assert forall|b: int| 0 <= b < end implies #[trigger] covered(ranges, more, b) by {
        if b < cursor {
            assert(covered(ranges, seen, b));
            let k = choose|k: int| #[trigger]
                seen.contains(k) && ranges[k].start <= b < ranges[k].end;
            assert(more.contains(k));
        } else {
            assert(more.contains(i));
        }
    }
}

proof fn lemma_chain_tiles(ranges: Seq<ByteRange>, cursor: int, steps: int, seen: Set<int>)
    requires
        0 <= steps,
        chain_end(ranges, cursor, steps) is Some,
        seen.finite(),
        tiled(ranges, cursor, seen),
        seen.len() + steps == filled(ranges, ranges.len() as int),
    ensures
        forall|i: int, j: int|
            0 <= i < j < ranges.len() && holds_byte(#[trigger] ranges[i]) && holds_byte(
                #[trigger] ranges[j],
            ) ==> apart(ranges[i], ranges[j]),
        forall|b: int|
            0 <= b < chain_end(ranges, cursor, steps)->Some_0 ==> #[trigger] covered(
                ranges,
                filled_places(ranges, ranges.len() as int),
                b,
            ),
    decreases steps,
{
    let n = ranges.len() as int;
    if steps == 0 {
        lemma_filled_places(ranges, n);
        let all = filled_places(ranges, n);
        assert(seen.subset_of(all));
        lemma_subset_equality(seen, all);
        assert forall|i: int, j: int|
            0 <= i < j < n && holds_byte(#[trigger] ranges[i]) && holds_byte(
                #[trigger] ranges[j],
            ) implies apart(ranges[i], ranges[j]) by {
            assert(all.contains(i) && all.contains(j));
            assert(seen.contains(i) && seen.contains(j));
        }
    } else {
        lemma_range_starting(ranges, cursor, n);
        let i = range_starting(ranges, cursor, n)->Some_0;
        lemma_tile_more(ranges, cursor, seen, i);
        lemma_chain_tiles(ranges, ranges[i].end as int, steps - 1, seen.insert(i));
    }
}

proof fn lemma_filled_prefix(a: Seq<ByteRange>, b: Seq<ByteRange>, n: int)
    requires
        0 <= n <= a.len(),
        a.is_prefix_of(b),
    ensures
        filled(a, n) == filled(b, n),
    decreases n,
{
    if n > 0 {
        lemma_filled_prefix(a, b, n - 1);
        assert(a[n - 1] == b[n - 1]);
    }
}

/// The range that starts at `cursor` and holds a byte.
fn find_range(ranges: &[ByteRange], cursor: usize) -> (r: Option<usize>)
    ensures
        range_starting(ranges@, cursor as int, ranges@.len() as int) == (match r {
            Some(i) => Some(i as int),
            None => None,
        }),
        r matches Some(i) ==> i < ranges@.len(),
{
    let mut n: usize = ranges.len();
    while n > 0
        invariant
            n <= ranges@.len(),
            range_starting(ranges@, cursor as int, ranges@.len() as int) == range_starting(
                ranges@,
                cursor as int,
                n as int,
            ),
        decreases n,
    {
        if ranges[n - 1].start == cursor && ranges[n - 1].end > cursor {
            return Some(n - 1);
        }
        n -= 1;
    }
    None
}

/// Entry `index` of a table.
pub open spec fn entry_at(
    tables: Seq<u8>,
    descriptor: TableDescriptor,
    index: int,
    table: Table,
) -> Result<Seq<u8>, LpError> {
    let offset = descriptor.offset + index * descriptor.entry_size;
    if index * descriptor.entry_size > usize::MAX || offset > usize::MAX {
        Err(LpError::EntryOverflow(table))
    } else if offset + descriptor.entry_size > tables.len() {
        Err(LpError::EntryTruncated(table))
    } else {
        Ok(tables.subrange(offset, offset + descriptor.entry_size))
    }
}

/// Entry `index` of a table.
pub fn table_entry<'a>(
    tables: &'a [u8],
    descriptor: TableDescriptor,
    index: usize,
    table: Table,
) -> (r: Result<&'a [u8], LpError>)
    ensures
        entry_at(tables@, descriptor, index as int, table) == (match r {
            Ok(entry) => Ok(entry@),
            Err(e) => Err(e),
        }),
{
    let skipped = match index.checked_mul(descriptor.entry_size) {
        Some(skipped) => skipped,
        None => return Err(LpError::EntryOverflow(table)),
    };
    proof {
        assert(0 <= index * descriptor.entry_size) by (nonlinear_arith);
    }
    if skipped > usize::MAX - descriptor.offset {
        return Err(LpError::EntryOverflow(table));
    }
    let offset: usize = descriptor.offset + skipped;
    if offset > tables.len() || descriptor.entry_size > tables.len() - offset {
        return Err(LpError::EntryTruncated(table));
    }
    Ok(&tables[offset..offset + descriptor.entry_size])
}

/// Whether a name may hold the byte `b`.
pub open spec fn name_byte(b: u8, dashes: bool) -> bool {
    is_alphanumeric(b) || b == 0x5f || (dashes && (b == 0x2d || b == 0x2e))
}

/// The name in a field of fixed length: at least one byte of those that a name may hold, and
/// zeros behind it.
pub open spec fn name_in(field: Seq<u8>, dashes: bool) -> Option<Seq<char>> {
    let end = next_byte(field, 0, 0);
    if end == 0 || !(forall|i: int| end <= i < field.len() ==> #[trigger] field[i] == 0) {
        None
    } else if !(forall|i: int| 0 <= i < end ==> name_byte(#[trigger] field[i], dashes)) {
        None
    } else {
        Some(ascii_text(field.take(end)))
    }
}

/// The name in a field of fixed length.
pub fn fixed_name(field: &[u8], dashes: bool) -> (r: Option<String>)
    ensures
        name_in(field@, dashes) == (match r {
            Some(name) => Some(name@),
            None => None,
        }),
{
    let end = find_byte(field, 0, 0);
    if end == 0 {
        return None;
    }
    let mut i: usize = end;
    while i < field.len()
        invariant
            end <= i <= field@.len(),
            end == next_byte(field@, 0, 0),
            forall|k: int| end <= k < i ==> #[trigger] field@[k] == 0,
        decreases field@.len() - i,
    {
        if field[i] != 0 {
            return None;
        }
        i += 1;
    }
    let mut i: usize = 0;
    while i < end
        invariant
            i <= end <= field@.len(),
            end == next_byte(field@, 0, 0),
            forall|k: int| 0 <= k < i ==> name_byte(#[trigger] field@[k], dashes),
        decreases end - i,
    {
        let b = field[i];
        if !(alphanumeric(b) || b == 0x5f || (dashes && (b == 0x2d || b == 0x2e))) {
            return None;
        }
        i += 1;
    }
    assert(field@.subrange(0, end as int) =~= field@.take(end as int));
    Some(text_of_ascii(&field[0..end]))
}

/// The outcome of entry `index` of the group table.
pub open spec fn group_at(tables: Seq<u8>, descriptor: TableDescriptor, index: int) -> Result<
    (),
    LpError,
> {
    match entry_at(tables, descriptor, index, Table::Group) {
        Err(e) => Err(e),
        Ok(entry) => if entry.len() < 40 {
            Err(LpError::EntryTruncated(Table::Group))
        } else if name_in(entry.subrange(0, 36), false) is None {
            Err(LpError::Name(Table::Group))
        } else if le32(entry, 36) & !GROUP_SLOT_SUFFIXED != 0 {
            Err(LpError::GroupFlags(index as usize, le32(entry, 36)))
        } else {
            Ok(())
        },
    }
}

/// The outcomes of the entries of the group table.
pub open spec fn group_reader(tables: Seq<u8>, descriptor: TableDescriptor) -> spec_fn(int) -> Result<
    (),
    LpError,
> {
    |index: int| group_at(tables, descriptor, index)
}

/// Whether the entries of the group table are sound.
pub open spec fn groups_checked(tables: Seq<u8>, descriptor: TableDescriptor) -> Result<
    (),
    LpError,
> {
    match collected(group_reader(tables, descriptor), descriptor.entries as int) {
        Ok(_) => Ok(()),
        Err(e) => Err(e),
    }
}

/// Checks the entries of the group table.
pub fn validate_groups(tables: &[u8], descriptor: TableDescriptor) -> (r: Result<(), LpError>)
    ensures
        r == groups_checked(tables@, descriptor),
{
    let ghost reader = group_reader(tables@, descriptor);
    let mut index: usize = 0;
    while index < descriptor.entries
        invariant
            index <= descriptor.entries,
            reader == group_reader(tables@, descriptor),
            collected(reader, index as int) is Ok,
        decreases descriptor.entries - index,
    {
        let outcome = check_group(tables, descriptor, index);
        if let Err(e) = outcome {
            proof {
                lemma_collected_failure(reader, index + 1, descriptor.entries as int);
            }
            return Err(e);
        }
        index += 1;
    }
    Ok(())
}

/// Checks entry `index` of the group table.
fn check_group(tables: &[u8], descriptor: TableDescriptor, index: usize) -> (r: Result<(), LpError>)
    ensures
        r == group_at(tables@, descriptor, index as int),
{
    let entry = table_entry(tables, descriptor, index, Table::Group)?;
    if entry.len() < 40 {
        return Err(LpError::EntryTruncated(Table::Group));
    }
    if fixed_name(&entry[0..36], false).is_none() {
        return Err(LpError::Name(Table::Group));
    }
    let flags = le_u32(entry, 36);
    if flags & !GROUP_SLOT_SUFFIXED != 0 {
        return Err(LpError::GroupFlags(index, flags));
    }
    Ok(())
}

/// A block device that extents lie on.
#[derive(Debug)]
pub struct PhysicalDevice {
    pub first_logical_sector: u64,
    pub size_bytes: u64,
    pub name: String,
    pub flags: u32,
}

/// What a block device is to the reader of the metadata.
pub struct DeviceView {
    pub first_logical_sector: u64,
    pub size_bytes: u64,
    pub name: Seq<char>,
    pub flags: u32,
}

impl View for PhysicalDevice {
    type V = DeviceView;

    open spec fn view(&self) -> DeviceView {
        DeviceView {
            first_logical_sector: self.first_logical_sector,
            size_bytes: self.size_bytes,
            name: self.name@,
            flags: self.flags,
        }
    }
}

/// The views of a list of block devices.
pub open spec fn device_views(v: Seq<PhysicalDevice>) -> Seq<DeviceView> {
    Seq::new(v.len(), |i: int| v[i]@)
}

/// The name of entry `index` of the block device table.
pub open spec fn device_name(tables: Seq<u8>, descriptor: TableDescriptor, index: int) -> Option<
    Seq<char>,
> {
    match entry_at(tables, descriptor, index, Table::BlockDevice) {
        Ok(entry) => if entry.len() < 64 {
            None
        } else {
            name_in(entry.subrange(24, 60), true)
        },
        Err(_) => None,
    }
}

/// The block device that entry `index` of the table describes.
pub open spec fn device_at(tables: Seq<u8>, descriptor: TableDescriptor, index: int) -> Result<
    DeviceView,
    LpError,
> {
    match entry_at(tables, descriptor, index, Table::BlockDevice) {
        Err(e) => Err(e),
        Ok(entry) => if entry.len() < 64 {
            Err(LpError::EntryTruncated(Table::BlockDevice))
        } else {
            match name_in(entry.subrange(24, 60), true) {
                None => Err(LpError::Name(Table::BlockDevice)),
                Some(name) => if exists|k: int|
                    0 <= k < index && #[trigger] device_name(tables, descriptor, k) == Some(name) {
                    Err(LpError::DuplicateBlockDevice(index as usize))
                } else if le32(entry, 60) & !BLOCK_DEVICE_SLOT_SUFFIXED != 0 {
                    Err(LpError::BlockDeviceFlags(index as usize, le32(entry, 60)))
                } else if le64(entry, 16) == 0 || le64(entry, 16) % SECTOR_SIZE != 0 {
                    Err(LpError::BlockDeviceSize(index as usize, le64(entry, 16)))
                } else {
                    Ok(
                        DeviceView {
                            first_logical_sector: le64(entry, 0),
                            size_bytes: le64(entry, 16),
                            name,
                            flags: le32(entry, 60),
                        },
                    )
                },
            }
        },
    }
}

/// The block devices of the table.
pub open spec fn device_reader(tables: Seq<u8>, descriptor: TableDescriptor) -> spec_fn(
    int,
) -> Result<DeviceView, LpError> {
    |index: int| device_at(tables, descriptor, index)
}

/// Whether one of the devices has the name `name`.
fn has_device(devices: &[PhysicalDevice], name: &str) -> (r: bool)
    ensures
        r == exists|k: int| 0 <= k < devices@.len() && #[trigger] devices@[k].name@ == name@,
{
    let mut i: usize = 0;
    while i < devices.len()
        invariant
            i <= devices@.len(),
            forall|k: int| 0 <= k < i ==> #[trigger] devices@[k].name@ != name@,
        decreases devices@.len() - i,
    {
        if same_text(devices[i].name.as_str(), name) {
            return true;
        }
        i += 1;
    }
    false
}

/// Reads entry `index` of the block device table, behind the entries in `devices`.
fn read_device(
    tables: &[u8],
    descriptor: TableDescriptor,
    index: usize,
    devices: &[PhysicalDevice],
) -> (r: Result<PhysicalDevice, LpError>)
    requires
        devices@.len() == index,
        forall|k: int|
            0 <= k < index ==> #[trigger] device_name(tables@, descriptor, k) == Some(
                devices@[k].name@,
            ),
    ensures
        device_at(tables@, descriptor, index as int) == (match r {
            Ok(device) => Ok(device@),
            Err(e) => Err(e),
        }),
        r matches Ok(device) ==> device_name(tables@, descriptor, index as int) == Some(
            device.name@,
        ),
{
    let entry = table_entry(tables, descriptor, index, Table::BlockDevice)?;
    if entry.len() < 64 {
        return Err(LpError::EntryTruncated(Table::BlockDevice));
    }
    let name = match fixed_name(&entry[24..60], true) {
        Some(name) => name,
        None => return Err(LpError::Name(Table::BlockDevice)),
    };
    if has_device(devices, name.as_str()) {
        proof {
            let k = choose|k: int|
                0 <= k < devices@.len() && #[trigger] devices@[k].name@ == name@;
            assert(device_name(tables@, descriptor, k) == Some(name@));
        }
        return Err(LpError::DuplicateBlockDevice(index));
    }
    proof {
        assert forall|k: int| 0 <= k < index implies #[trigger] device_name(
            tables@,
            descriptor,
            k,
        ) != Some(name@) by {
            assert(devices@[k].name@ != name@);
        }
    }
    let flags = le_u32(entry, 60);
    if flags & !BLOCK_DEVICE_SLOT_SUFFIXED != 0 {
        return Err(LpError::BlockDeviceFlags(index, flags));
    }
    let size_bytes = le_u64(entry, 16);
    if size_bytes == 0 || size_bytes % SECTOR_SIZE != 0 {
        return Err(LpError::BlockDeviceSize(index, size_bytes));
    }
    Ok(PhysicalDevice { first_logical_sector: le_u64(entry, 0), size_bytes, name, flags })
}

/// The block devices of the table.
pub fn parse_block_devices(tables: &[u8], descriptor: TableDescriptor) -> (r: Result<
    Vec<PhysicalDevice>,
    LpError,
>)
    ensures
        collected(device_reader(tables@, descriptor), descriptor.entries as int) == (match r {
            Ok(devices) => Ok(device_views(devices@)),
            Err(e) => Err(e),
        }),
{
    let ghost reader = device_reader(tables@, descriptor);
    let mut devices: Vec<PhysicalDevice> = Vec::new();
    let mut index: usize = 0;
    assert(device_views(devices@) =~= Seq::<DeviceView>::empty());
    while index < descriptor.entries
        invariant
            index <= descriptor.entries,
            reader == device_reader(tables@, descriptor),
            devices@.len() == index,
            forall|k: int|
                0 <= k < index ==> #[trigger] device_name(tables@, descriptor, k) == Some(
                    devices@[k].name@,
                ),
            collected(reader, index as int) == Ok::<Seq<DeviceView>, LpError>(
                device_views(devices@),
            ),
        decreases descriptor.entries - index,
    {
        let ghost before = devices@;
        match read_device(tables, descriptor, index, devices.as_slice()) {
            Err(e) => {
                proof {
                    lemma_collected_failure(reader, index + 1, descriptor.entries as int);
                }
                return Err(e);
            },
            Ok(device) => {
                devices.push(device);
                assert(device_views(devices@) =~= device_views(before).push(device@));
            },
        }
        index += 1;
    }
    Ok(devices)
}

/// What an extent maps to.
#[derive(Clone, Copy, Debug, PartialEq, Eq, Structural)]
pub enum ExtentTarget {
    Linear { physical_sector: u64, block_device: usize },
    Zero,
}

/// A run of sectors of a logical partition.
#[derive(Clone, Copy, Debug, PartialEq, Eq, Structural)]
pub struct Extent {
    pub sectors: u64,
    pub target: ExtentTarget,
}

/// The extent that entry `index` of the table describes.
pub open spec fn extent_at(tables: Seq<u8>, descriptor: TableDescriptor, index: int) -> Result<
    Extent,
    LpError,
> {
    match entry_at(tables, descriptor, index, Table::Extent) {
        Err(e) => Err(e),
        Ok(entry) => {
            let sectors = le64(entry, 0);
            let kind = le32(entry, 8);
            let data = le64(entry, 12);
            let source = le32(entry, 20);
            if entry.len() < 24 {
                Err(LpError::EntryTruncated(Table::Extent))
            } else if sectors == 0 {
                Err(LpError::EmptyExtent(index as usize))
            } else if kind == TARGET_LINEAR {
                Ok(
                    Extent {
                        sectors,
                        target: ExtentTarget::Linear {
                            physical_sector: data,
                            block_device: source as usize,
                        },
                    },
                )
            } else if kind == TARGET_ZERO {
                if data == 0 && source == 0 {
                    Ok(Extent { sectors, target: ExtentTarget::Zero })
                } else {
                    Err(LpError::ZeroExtent(index as usize))
                }
            } else {
                Err(LpError::TargetType(index as usize, kind))
            }
        },
    }
}

/// The extents of the table.
pub open spec fn extent_reader(tables: Seq<u8>, descriptor: TableDescriptor) -> spec_fn(
    int,
) -> Result<Extent, LpError> {
    |index: int| extent_at(tables, descriptor, index)
}

/// Reads entry `index` of the extent table.
fn read_extent(tables: &[u8], descriptor: TableDescriptor, index: usize) -> (r: Result<
    Extent,
    LpError,
>)
    ensures
        r == extent_at(tables@, descriptor, index as int),
{
    let entry = table_entry(tables, descriptor, index, Table::Extent)?;
    if entry.len() < 24 {
        return Err(LpError::EntryTruncated(Table::Extent));
    }
    let sectors = le_u64(entry, 0);
    if sectors == 0 {
        return Err(LpError::EmptyExtent(index));
    }
    let kind = le_u32(entry, 8);
    let data = le_u64(entry, 12);
    let source = le_u32(entry, 20);
    if kind == TARGET_LINEAR {
        Ok(
            Extent {
                sectors,
                target: ExtentTarget::Linear {
                    physical_sector: data,
                    block_device: source as usize,
                },
            },
        )
    } else if kind == TARGET_ZERO {
        if data == 0 && source == 0 {
            Ok(Extent { sectors, target: ExtentTarget::Zero })
        } else {
            Err(LpError::ZeroExtent(index))
        }
    } else {
        Err(LpError::TargetType(index, kind))
    }
}

/// The extents of the table.
pub fn parse_extents(tables: &[u8], descriptor: TableDescriptor) -> (r: Result<
    Vec<Extent>,
    LpError,
>)
    ensures
        collected(extent_reader(tables@, descriptor), descriptor.entries as int) == (match r {
            Ok(extents) => Ok(extents@),
            Err(e) => Err(e),
        }),
{
    let ghost reader = extent_reader(tables@, descriptor);
    let mut extents: Vec<Extent> = Vec::new();
    let mut index: usize = 0;
    assert(extents@ =~= Seq::<Extent>::empty());
    while index < descriptor.entries
        invariant
            index <= descriptor.entries,
            reader == extent_reader(tables@, descriptor),
            collected(reader, index as int) == Ok::<Seq<Extent>, LpError>(extents@),
        decreases descriptor.entries - index,
    {
        match read_extent(tables, descriptor, index) {
            Err(e) => {
                proof {
                    lemma_collected_failure(reader, index + 1, descriptor.entries as int);
                }
                return Err(e);
            },
            Ok(extent) => {
                extents.push(extent);
            },
        }
        index += 1;
    }
    Ok(extents)
}

/// The first extent at or behind number `from` that names a block device out of the table.
pub open spec fn stray_extent(extents: Seq<Extent>, devices: int, from: int) -> Option<(int, usize)>
    decreases extents.len() - from,
{
    if from < 0 || from >= extents.len() {
        None
    } else {
        match extents[from].target {
            ExtentTarget::Linear { block_device, .. } => if block_device >= devices {
                Some((from, block_device))
            } else {
                stray_extent(extents, devices, from + 1)
            },
            ExtentTarget::Zero => stray_extent(extents, devices, from + 1),
        }
    }
}

/// The first extent that names a block device out of the table.
fn find_stray_extent(extents: &[Extent], devices: usize) -> (r: Option<(usize, usize)>)
    ensures
        stray_extent(extents@, devices as int, 0) == (match r {
            Some((index, device)) => Some((index as int, device)),
            None => None,
        }),
{
    let mut i: usize = 0;
    while i < extents.len()
        invariant
            i <= extents@.len(),
            stray_extent(extents@, devices as int, 0) == stray_extent(
                extents@,
                devices as int,
                i as int,
            ),
        decreases extents@.len() - i,
    {
        if let ExtentTarget::Linear { block_device, .. } = extents[i].target {
            if block_device >= devices {
                return Some((i, block_device));
            }
        }
        i += 1;
    }
    None
}

/// A logical partition.
#[derive(Debug)]
pub struct LogicalPartition {
    pub name: String,
    pub attributes: u32,
    pub first_extent: usize,
    pub extent_count: usize,
}

/// What a logical partition is to the reader of the metadata.
pub struct LogicalView {
    pub name: Seq<char>,
    pub attributes: u32,
    pub first_extent: int,
    pub extent_count: int,
}

impl View for LogicalPartition {
    type V = LogicalView;

    open spec fn view(&self) -> LogicalView {
        LogicalView {
            name: self.name@,
            attributes: self.attributes,
            first_extent: self.first_extent as int,
            extent_count: self.extent_count as int,
        }
    }
}

/// The views of a list of logical partitions.
pub open spec fn logical_views(v: Seq<LogicalPartition>) -> Seq<LogicalView> {
    Seq::new(v.len(), |i: int| v[i]@)
}

/// The attributes that a minor version knows.
pub open spec fn known_attributes(minor: u16) -> u32 {
    if minor >= 1 {
        PARTITION_ATTR_MASK_V0 | PARTITION_ATTR_MASK_V1
    } else {
        PARTITION_ATTR_MASK_V0
    }
}

/// The name of entry `index` of the partition table.
pub open spec fn partition_name(tables: Seq<u8>, descriptor: TableDescriptor, index: int) -> Option<
    Seq<char>,
> {
    match entry_at(tables, descriptor, index, Table::Partition) {
        Ok(entry) => if entry.len() < 52 {
            None
        } else {
            name_in(entry.subrange(0, 36), false)
        },
        Err(_) => None,
    }
}

/// The logical partition that entry `index` of the table describes.
pub open spec fn partition_at(
    tables: Seq<u8>,
    descriptor: TableDescriptor,
    minor: u16,
    groups: int,
    extents: int,
    index: int,
) -> Result<LogicalView, LpError> {
    match entry_at(tables, descriptor, index, Table::Partition) {
        Err(e) => Err(e),
        Ok(entry) => if entry.len() < 52 {
            Err(LpError::EntryTruncated(Table::Partition))
        } else {
            let attributes = le32(entry, 36);
            let first = le32(entry, 40);
            let count = le32(entry, 44);
            let group = le32(entry, 48);
            match name_in(entry.subrange(0, 36), false) {
                None => Err(LpError::Name(Table::Partition)),
                Some(name) => if exists|k: int|
                    0 <= k < index && #[trigger] partition_name(tables, descriptor, k) == Some(
                        name,
                    ) {
                    Err(LpError::DuplicatePartition(index as usize))
                } else if attributes & !known_attributes(minor) != 0 {
                    Err(LpError::PartitionAttributes(index as usize, attributes))
                } else if first + count > usize::MAX {
                    Err(LpError::ExtentRangeOverflow)
                } else if first + count > extents {
                    Err(LpError::ExtentsExceed(index as usize))
                } else if attributes & PARTITION_ATTR_DISABLED == 0 && count == 0 {
                    Err(LpError::NoExtents(index as usize))
                } else if group >= groups {
                    Err(LpError::MissingGroup(index as usize, group as usize))
                } else {
                    Ok(
                        LogicalView {
                            name,
                            attributes,
                            first_extent: first as int,
                            extent_count: count as int,
                        },
                    )
                },
            }
        },
    }
}

/// The logical partitions of the table.
pub open spec fn partition_reader(
    tables: Seq<u8>,
    descriptor: TableDescriptor,
    minor: u16,
    groups: int,
    extents: int,
) -> spec_fn(int) -> Result<LogicalView, LpError> {
    |index: int| partition_at(tables, descriptor, minor, groups, extents, index)
}

/// Whether one of the partitions has the name `name`.
fn has_partition(partitions: &[LogicalPartition], name: &str) -> (r: bool)
    ensures
        r == exists|k: int|
            0 <= k < partitions@.len() && #[trigger] partitions@[k].name@ == name@,
{
    let mut i: usize = 0;
    while i < partitions.len()
        invariant
            i <= partitions@.len(),
            forall|k: int| 0 <= k < i ==> #[trigger] partitions@[k].name@ != name@,
        decreases partitions@.len() - i,
    {
        if same_text(partitions[i].name.as_str(), name) {
            return true;
        }
        i += 1;
    }
    false
}

/// Reads entry `index` of the partition table, behind the entries in `partitions`.
fn read_partition(
    tables: &[u8],
    descriptor: TableDescriptor,
    minor: u16,
    groups: usize,
    extents: usize,
    index: usize,
    partitions: &[LogicalPartition],
) -> (r: Result<LogicalPartition, LpError>)
    requires
        partitions@.len() == index,
        forall|k: int|
            0 <= k < index ==> #[trigger] partition_name(tables@, descriptor, k) == Some(
                partitions@[k].name@,
            ),
    ensures
        partition_at(
            tables@,
            descriptor,
            minor,
            groups as int,
            extents as int,
            index as int,
        ) == (match r {
            Ok(partition) => Ok(partition@),
            Err(e) => Err(e),
        }),
        r matches Ok(partition) ==> partition_name(tables@, descriptor, index as int) == Some(
            partition.name@,
        ) && partition.first_extent + partition.extent_count <= extents,
{
    let entry = table_entry(tables, descriptor, index, Table::Partition)?;
    if entry.len() < 52 {
        return Err(LpError::EntryTruncated(Table::Partition));
    }
    let name = match fixed_name(&entry[0..36], false) {
        Some(name) => name,
        None => return Err(LpError::Name(Table::Partition)),
    };
    if has_partition(partitions, name.as_str()) {
        proof {
            let k = choose|k: int|
                0 <= k < partitions@.len() && #[trigger] partitions@[k].name@ == name@;
            assert(partition_name(tables@, descriptor, k) == Some(name@));
        }
        return Err(LpError::DuplicatePartition(index));
    }
    proof {
        assert forall|k: int| 0 <= k < index implies #[trigger] partition_name(
            tables@,
            descriptor,
            k,
        ) != Some(name@) by {
            assert(partitions@[k].name@ != name@);
        }
    }
    let attributes = le_u32(entry, 36);
    let known = if minor >= 1 {
        PARTITION_ATTR_MASK_V0 | PARTITION_ATTR_MASK_V1
    } else {
        PARTITION_ATTR_MASK_V0
    };
    if attributes & !known != 0 {
        return Err(LpError::PartitionAttributes(index, attributes));
    }
    let first = le_u32(entry, 40) as usize;
    let count = le_u32(entry, 44) as usize;
    if count > usize::MAX - first {
        return Err(LpError::ExtentRangeOverflow);
    }
    if first + count > extents {
        return Err(LpError::ExtentsExceed(index));
    }
    if attributes & PARTITION_ATTR_DISABLED == 0 && count == 0 {
        return Err(LpError::NoExtents(index));
    }
    let group = le_u32(entry, 48) as usize;
    if group >= groups {
        return Err(LpError::MissingGroup(index, group));
    }
    Ok(LogicalPartition { name, attributes, first_extent: first, extent_count: count })
}

/// The logical partitions of the table.
pub fn parse_partitions(
    tables: &[u8],
    descriptor: TableDescriptor,
    minor: u16,
    groups: usize,
    extents: usize,
) -> (r: Result<Vec<LogicalPartition>, LpError>)
    ensures
        collected(
            partition_reader(tables@, descriptor, minor, groups as int, extents as int),
            descriptor.entries as int,
        ) == (match r {
            Ok(partitions) => Ok(logical_views(partitions@)),
            Err(e) => Err(e),
        }),
        r matches Ok(partitions) ==> forall|i: int|
            0 <= i < partitions@.len() ==> (#[trigger] partitions@[i]).first_extent
                + partitions@[i].extent_count <= extents,
{
    let ghost reader = partition_reader(
        tables@,
        descriptor,
        minor,
        groups as int,
        extents as int,
    );
    let mut partitions: Vec<LogicalPartition> = Vec::new();
    let mut index: usize = 0;
    assert(logical_views(partitions@) =~= Seq::<LogicalView>::empty());
    while index < descriptor.entries
        invariant
            index <= descriptor.entries,
            reader == partition_reader(
                tables@,
                descriptor,
                minor,
                groups as int,
                extents as int,
            ),
            partitions@.len() == index,
            forall|k: int|
                0 <= k < index ==> #[trigger] partition_name(tables@, descriptor, k) == Some(
                    partitions@[k].name@,
                ),
            forall|i: int|
                0 <= i < partitions@.len() ==> (#[trigger] partitions@[i]).first_extent
                    + partitions@[i].extent_count <= extents,
            collected(reader, index as int) == Ok::<Seq<LogicalView>, LpError>(
                logical_views(partitions@),
            ),
        decreases descriptor.entries - index,
    {
        let ghost before = partitions@;
        match read_partition(
            tables,
            descriptor,
            minor,
            groups,
            extents,
            index,
            partitions.as_slice(),
        ) {
            Err(e) => {
                proof {
                    lemma_collected_failure(reader, index + 1, descriptor.entries as int);
                }
                return Err(e);
            },
            Ok(partition) => {
                partitions.push(partition);
                assert(logical_views(partitions@) =~= logical_views(before).push(partition@));
            },
        }
        index += 1;
    }
    Ok(partitions)
}

/// Validated metadata.
#[derive(Debug)]
pub struct Metadata {
    pub copy: MetadataCopy,
    pub geometry: Geometry,
    pub minor_version: u16,
    pub partitions: Vec<LogicalPartition>,
    pub extents: Vec<Extent>,
    pub block_devices: Vec<PhysicalDevice>,
}

/// What metadata is to its reader.
pub struct MetadataView {
    pub copy: MetadataCopy,
    pub geometry: Geometry,
    pub minor_version: u16,
    pub partitions: Seq<LogicalView>,
    pub extents: Seq<Extent>,
    pub block_devices: Seq<DeviceView>,
}

impl View for Metadata {
    type V = MetadataView;

    open spec fn view(&self) -> MetadataView {
        MetadataView {
            copy: self.copy,
            geometry: self.geometry,
            minor_version: self.minor_version,
            partitions: logical_views(self.partitions@),
            extents: self.extents@,
            block_devices: device_views(self.block_devices@),
        }
    }
}

impl Metadata {
    /// Whether the geometry is sound and every partition has its extents in the table.
    pub open spec fn wf(&self) -> bool {
        &&& self.geometry.wf()
        &&& forall|i: int|
            0 <= i < self.partitions@.len() ==> (#[trigger] self.partitions@[i]).first_extent
                + self.partitions@[i].extent_count <= self.extents@.len()
    }
}

/// The length of the header of a minor version.
pub open spec fn header_length(minor: u16) -> u32 {
    if minor >= 2 {
        256
    } else {
        128
    }
}

/// The minor version of metadata whose header is of the right kind and length.
pub open spec fn header_checked(bytes: Seq<u8>) -> Result<u16, LpError> {
    let major = le16(bytes, 4);
    let minor = le16(bytes, 6);
    let size = le32(bytes, 8);
    if bytes.len() < 4 {
        Err(LpError::Truncated)
    } else if le32(bytes, 0) != HEADER_MAGIC {
        Err(LpError::HeaderMagic)
    } else if bytes.len() < 8 {
        Err(LpError::Truncated)
    } else if major != HEADER_MAJOR || minor > 2 {
        Err(LpError::Version(major, minor))
    } else if bytes.len() < 12 {
        Err(LpError::Truncated)
    } else if size != header_length(minor) || size > bytes.len() {
        Err(LpError::HeaderSize(size, major, minor))
    } else {
        Ok(minor)
    }
}

/// Checks that the header is of the right kind and length, and tells the minor version.
fn check_header(bytes: &[u8]) -> (r: Result<u16, LpError>)
    ensures
        r == header_checked(bytes@),
        r matches Ok(minor) ==> header_length(minor) <= bytes@.len(),
{
    if bytes.len() < 4 {
        return Err(LpError::Truncated);
    }
    if le_u32(bytes, 0) != HEADER_MAGIC {
        return Err(LpError::HeaderMagic);
    }
    if bytes.len() < 8 {
        return Err(LpError::Truncated);
    }
    let major = le_u16(bytes, 4);
    let minor = le_u16(bytes, 6);
    if major != HEADER_MAJOR || minor > 2 {
        return Err(LpError::Version(major, minor));
    }
    if bytes.len() < 12 {
        return Err(LpError::Truncated);
    }
    let size = le_u32(bytes, 8);
    let expected: u32 = if minor >= 2 {
        256
    } else {
        128
    };
    if size != expected || size as usize > bytes.len() {
        return Err(LpError::HeaderSize(size, major, minor));
    }
    Ok(minor)
}

/// Where the tables end that follow a header of the given length.
pub open spec fn tables_end(bytes: Seq<u8>, header_size: int) -> Result<int, LpError> {
    let end = header_size + le32(bytes, 44);
    if end > usize::MAX {
        Err(LpError::TablesOverflow)
    } else if end > bytes.len() {
        Err(LpError::TablesExceed)
    } else {
        Ok(end)
    }
}

/// Where the tables end that follow a header of the given length.
fn end_of_tables(bytes: &[u8], header_size: usize) -> (r: Result<usize, LpError>)
    requires
        128 <= header_size <= bytes@.len(),
    ensures
        tables_end(bytes@, header_size as int) == (match r {
            Ok(end) => Ok(end as int),
            Err(e) => Err(e),
        }),
        r matches Ok(end) ==> header_size <= end <= bytes@.len(),
{
    let size = le_u32(bytes, 44) as usize;
    if size > usize::MAX - header_size {
        return Err(LpError::TablesOverflow);
    }
    if header_size + size > bytes.len() {
        return Err(LpError::TablesExceed);
    }
    Ok(header_size + size)
}

/// The four descriptors of the header: those of partitions, extents, groups and block devices.
pub open spec fn descriptors_of(bytes: Seq<u8>) -> Result<Seq<TableDescriptor>, LpError> {
    match descriptor_at(bytes, 80, 52, Table::Partition) {
        Err(e) => Err(e),
        Ok(partition) => match descriptor_at(bytes, 92, 24, Table::Extent) {
            Err(e) => Err(e),
            Ok(extent) => match descriptor_at(bytes, 104, 48, Table::Group) {
                Err(e) => Err(e),
                Ok(group) => match descriptor_at(bytes, 116, 64, Table::BlockDevice) {
                    Err(e) => Err(e),
                    Ok(block) => Ok(seq![partition, extent, group, block]),
                },
            },
        },
    }
}

/// The four descriptors of the header.
fn read_descriptors(bytes: &[u8]) -> (r: Result<Vec<TableDescriptor>, LpError>)
    ensures
        descriptors_of(bytes@) == (match r {
            Ok(v) => Ok(v@),
            Err(e) => Err(e),
        }),
        r matches Ok(v) ==> v@.len() == 4,
{
    let partition = parse_descriptor(bytes, 80, PARTITION_ENTRY_SIZE, Table::Partition)?;
    let extent = parse_descriptor(bytes, 92, EXTENT_ENTRY_SIZE, Table::Extent)?;
    let group = parse_descriptor(bytes, 104, GROUP_ENTRY_SIZE, Table::Group)?;
    let block = parse_descriptor(bytes, 116, BLOCK_DEVICE_ENTRY_SIZE, Table::BlockDevice)?;
    let mut v: Vec<TableDescriptor> = Vec::new();
    v.push(partition);
    v.push(extent);
    v.push(group);
    v.push(block);
    assert(v@ =~= seq![partition, extent, group, block]);
    Ok(v)
}

/// The metadata that the tables hold.
pub open spec fn tables_parsed(
    tables: Seq<u8>,
    descriptors: Seq<TableDescriptor>,
    minor: u16,
    geometry: Geometry,
    copy: MetadataCopy,
) -> Result<MetadataView, LpError> {
    match layout(descriptors, tables.len() as int) {
        Err(e) => Err(e),
        Ok(_) => if descriptors[3].entries == 0 {
            Err(LpError::NoBlockDevices)
        } else {
            match groups_checked(tables, descriptors[2]) {
                Err(e) => Err(e),
                Ok(_) => match collected(
                    device_reader(tables, descriptors[3]),
                    descriptors[3].entries as int,
                ) {
                    Err(e) => Err(e),
                    Ok(block_devices) => match collected(
                        extent_reader(tables, descriptors[1]),
                        descriptors[1].entries as int,
                    ) {
                        Err(e) => Err(e),
                        Ok(extents) => match stray_extent(
                            extents,
                            block_devices.len() as int,
                            0,
                        ) {
                            Some((index, device)) => Err(
                                LpError::MissingBlockDevice(index as usize, device),
                            ),
                            None => match collected(
                                partition_reader(
                                    tables,
                                    descriptors[0],
                                    minor,
                                    descriptors[2].entries as int,
                                    extents.len() as int,
                                ),
                                descriptors[0].entries as int,
                            ) {
                                Err(e) => Err(e),
                                Ok(partitions) => Ok(
                                    MetadataView {
                                        copy,
                                        geometry,
                                        minor_version: minor,
                                        partitions,
                                        extents,
                                        block_devices,
                                    },
                                ),
                            },
                        },
                    },
                },
            }
        },
    }
}

/// The metadata that the tables hold.
fn parse_tables(
    tables: &[u8],
    descriptors: &[TableDescriptor],
    minor: u16,
    geometry: Geometry,
    copy: MetadataCopy,
) -> (r: Result<Metadata, LpError>)
    requires
        descriptors@.len() == 4,
        geometry.wf(),
    ensures
        tables_parsed(tables@, descriptors@, minor, geometry, copy) == (match r {
            Ok(metadata) => Ok(metadata@),
            Err(e) => Err(e),
        }),
        r matches Ok(metadata) ==> metadata.wf(),
{
    validate_table_layout(tables.len(), descriptors)?;
    if descriptors[3].entries == 0 {
        return Err(LpError::NoBlockDevices);
    }
    validate_groups(tables, descriptors[2])?;
    let block_devices = parse_block_devices(tables, descriptors[3])?;
    let extents = parse_extents(tables, descriptors[1])?;
    if let Some((index, device)) = find_stray_extent(extents.as_slice(), block_devices.len()) {
        return Err(LpError::MissingBlockDevice(index, device));
    }
    let partitions = parse_partitions(
        tables,
        descriptors[0],
        minor,
        descriptors[2].entries,
        extents.len(),
    )?;
    Ok(Metadata { copy, geometry, minor_version: minor, partitions, extents, block_devices })
}

/// The metadata in `bytes`, given the digests of its header and of its tables.
pub open spec fn metadata_given(
    bytes: Seq<u8>,
    header_digest: Seq<u8>,
    tables_digest: Seq<u8>,
    geometry: Geometry,
    copy: MetadataCopy,
) -> Result<MetadataView, LpError> {
    match header_checked(bytes) {
        Err(e) => Err(e),
        Ok(minor) => if header_digest != bytes.subrange(12, 44) {
            Err(LpError::Checksum(Checked::Header))
        } else {
            let size = header_length(minor) as int;
            match tables_end(bytes, size) {
                Err(e) => Err(e),
                Ok(end) => if tables_digest != bytes.subrange(48, 80) {
                    Err(LpError::Checksum(Checked::Tables))
                } else {
                    match descriptors_of(bytes) {
                        Err(e) => Err(e),
                        Ok(descriptors) => tables_parsed(
                            bytes.subrange(size, end),
                            descriptors,
                            minor,
                            geometry,
                            copy,
                        ),
                    }
                },
            }
        },
    }
}

/// The metadata in `bytes`.
pub open spec fn metadata_of(bytes: Seq<u8>, geometry: Geometry, copy: MetadataCopy) -> Result<
    MetadataView,
    LpError,
> {
    let size = le32(bytes, 8) as int;
    metadata_given(
        bytes,
        sha256(zeroed(bytes.take(size), 12)),
        sha256(bytes.subrange(size, size + le32(bytes, 44))),
        geometry,
        copy,
    )
}

/// The metadata in `bytes`, given the digests of its header and of its tables.
pub fn parse_metadata_with(
    bytes: &[u8],
    header_digest: &[u8],
    tables_digest: &[u8],
    geometry: Geometry,
    copy: MetadataCopy,
) -> (r: Result<Metadata, LpError>)
    requires
        geometry.wf(),
    ensures
        metadata_given(bytes@, header_digest@, tables_digest@, geometry, copy) == (match r {
            Ok(metadata) => Ok(metadata@),
            Err(e) => Err(e),
        }),
        r matches Ok(metadata) ==> metadata.wf(),
{
    let minor = check_header(bytes)?;
    let size: usize = if minor >= 2 {
        HEADER_V1_2_SIZE
    } else {
        HEADER_V1_0_SIZE
    };
    if !same_bytes(header_digest, &bytes[12..44]) {
        return Err(LpError::Checksum(Checked::Header));
    }
    let end = end_of_tables(bytes, size)?;
    if !same_bytes(tables_digest, &bytes[48..80]) {
        return Err(LpError::Checksum(Checked::Tables));
    }
    let descriptors = read_descriptors(bytes)?;
    parse_tables(&bytes[size..end], descriptors.as_slice(), minor, geometry, copy)
}

/// The metadata in `bytes`.
pub fn parse_metadata(bytes: &[u8], geometry: Geometry, copy: MetadataCopy) -> (r: Result<
    Metadata,
    LpError,
>)
    requires
        geometry.wf(),
    ensures
        metadata_of(bytes@, geometry, copy) == (match r {
            Ok(metadata) => Ok(metadata@),
            Err(e) => Err(e),
        }),
        r matches Ok(metadata) ==> metadata.wf(),
{
    let minor = check_header(bytes)?;
    let size: usize = if minor >= 2 {
        HEADER_V1_2_SIZE
    } else {
        HEADER_V1_0_SIZE
    };
    let header = &bytes[0..size];
    assert(header@ =~= bytes@.take(size as int));
    let covered = zeroed_at(header, 12);
    let header_digest = sha256_digest(covered.as_slice());
    let tables_digest = match end_of_tables(bytes, size) {
        Ok(end) => sha256_digest(&bytes[size..end]),
        Err(_) => Vec::new(),
    };
    parse_metadata_with(
        bytes,
        header_digest.as_slice(),
        tables_digest.as_slice(),
        geometry,
        copy,
    )
}

/// Where the two copies of the metadata of a slot stand.
pub open spec fn copies_of(geometry: Geometry, slot: u32) -> Result<(u64, u64), LpError> {
    if slot >= geometry.metadata_slot_count {
        Err(LpError::SlotOutside(slot, geometry.metadata_slot_count))
    } else {
        match (
            copy_offset(geometry, slot, MetadataCopy::Primary),
            copy_offset(geometry, slot, MetadataCopy::Backup),
        ) {
            (Ok(primary), Ok(backup)) => Ok((primary, backup)),
            (Err(e), _) => Err(e),
            (_, Err(e)) => Err(e),
        }
    }
}

/// Where the two copies of the metadata of a slot stand.
pub fn metadata_copies(geometry: &Geometry, slot: u32) -> (r: Result<(u64, u64), LpError>)
    ensures
        r == copies_of(*geometry, slot),
{
    if slot >= geometry.metadata_slot_count {
        return Err(LpError::SlotOutside(slot, geometry.metadata_slot_count));
    }
    let primary = metadata_offset(geometry, slot, MetadataCopy::Primary)?;
    let backup = metadata_offset(geometry, slot, MetadataCopy::Backup)?;
    Ok((primary, backup))
}

/// The suffix of a slot.
pub open spec fn suffix_of(slot: u32) -> Result<Seq<char>, LpError> {
    if slot == 0 {
        Ok("_a"@)
    } else if slot == 1 {
        Ok("_b"@)
    } else if slot == 2 {
        Ok("_c"@)
    } else {
        Err(LpError::UnsupportedSlot(slot))
    }
}

/// The suffix of a slot.
pub fn slot_suffix(slot: u32) -> (r: Result<&'static str, LpError>)
    ensures
        suffix_of(slot) == (match r {
            Ok(suffix) => Ok(suffix@),
            Err(e) => Err(e),
        }),
{
    match slot {
        0 => Ok("_a"),
        1 => Ok("_b"),
        2 => Ok("_c"),
        _ => Err(LpError::UnsupportedSlot(slot)),
    }
}

/// The name with the suffix of the slot, where it gets one.
pub open spec fn effective_name(name: Seq<char>, suffixed: bool, suffix: Seq<char>) -> Seq<char> {
    if suffixed {
        name + suffix
    } else {
        name
    }
}

/// The name with the suffix of the slot, where it gets one.
pub(crate) fn suffixed_name(name: &str, suffixed: bool, suffix: &str) -> (r: String)
    ensures
        r@ == effective_name(name@, suffixed, suffix@),
{
    if suffixed {
        cat(name, suffix)
    } else {
        owned(name)
    }
}

/// The partition that block device `index` of the metadata is: the one of its name, not smaller
/// than the metadata declares, and the first one that which the metadata was read from.
pub open spec fn resolved_at(
    devices: Seq<DeviceView>,
    partitions: Seq<Partition>,
    metadata_path: Seq<char>,
    suffix: Seq<char>,
    index: int,
) -> Result<Partition, LpError> {
    let device = devices[index];
    let name = effective_name(
        device.name,
        device.flags & BLOCK_DEVICE_SLOT_SUFFIXED != 0,
        suffix,
    );
    match the_match(partitions, name) {
        Err(e) => Err(LpError::Unresolved(index as usize, e)),
        Ok(found) => if index == 0 && partitions[found].dev_path@ != metadata_path {
            Err(LpError::MetadataElsewhere)
        } else if partitions[found].size_bytes < device.size_bytes {
            Err(
                LpError::DeviceTooSmall(
                    index as usize,
                    partitions[found].size_bytes,
                    device.size_bytes,
                ),
            )
        } else if device.first_logical_sector > device.size_bytes / SECTOR_SIZE {
            Err(LpError::FirstSectorOutOfBounds(index as usize))
        } else {
            Ok(partitions[found])
        },
    }
}

/// The partitions that the block devices of the metadata are.
pub open spec fn resolver(
    devices: Seq<DeviceView>,
    partitions: Seq<Partition>,
    metadata_path: Seq<char>,
    suffix: Seq<char>,
) -> spec_fn(int) -> Result<Partition, LpError> {
    |index: int| resolved_at(devices, partitions, metadata_path, suffix, index)
}

/// The partition that block device `index` of the metadata is.
fn resolve_device(
    device: &PhysicalDevice,
    partitions: &[Partition],
    metadata_path: &str,
    suffix: &str,
    index: usize,
) -> (r: Result<Partition, LpError>)
    ensures
        forall|devices: Seq<DeviceView>|
            index < devices.len() && devices[index as int] == device@ ==> #[trigger] resolved_at(
                devices,
                partitions@,
                metadata_path@,
                suffix@,
                index as int,
            ) == r,
{
    let suffixed = device.flags & BLOCK_DEVICE_SLOT_SUFFIXED != 0;
    let name = suffixed_name(device.name.as_str(), suffixed, suffix);
    let found = match find(partitions, name.as_str()) {
        Ok(found) => found,
        Err(e) => return Err(LpError::Unresolved(index, e)),
    };
    if index == 0 && !same_text(partitions[found].dev_path.as_str(), metadata_path) {
        return Err(LpError::MetadataElsewhere);
    }
    if partitions[found].size_bytes < device.size_bytes {
        return Err(
            LpError::DeviceTooSmall(index, partitions[found].size_bytes, device.size_bytes),
        );
    }
    if device.first_logical_sector > device.size_bytes / SECTOR_SIZE {
        return Err(LpError::FirstSectorOutOfBounds(index));
    }
    Ok(partitions[found].duplicate())
}

/// The partitions that the block devices of the metadata are.
pub fn resolve_physical_devices(
    metadata: &Metadata,
    partitions: &[Partition],
    metadata_path: &str,
    suffix: &str,
) -> (r: Result<Vec<Partition>, LpError>)
    ensures
        collected(
            resolver(metadata@.block_devices, partitions@, metadata_path@, suffix@),
            metadata@.block_devices.len() as int,
        ) == (match r {
            Ok(v) => Ok(v@),
            Err(e) => Err(e),
        }),
{
    let ghost devices = metadata@.block_devices;
    let ghost reader = resolver(devices, partitions@, metadata_path@, suffix@);
    let mut resolved: Vec<Partition> = Vec::new();
    let mut index: usize = 0;
    assert(resolved@ =~= Seq::<Partition>::empty());
    while index < metadata.block_devices.len()
        invariant
            index <= devices.len(),
            devices == device_views(metadata.block_devices@),
            reader == resolver(devices, partitions@, metadata_path@, suffix@),
            collected(reader, index as int) == Ok::<Seq<Partition>, LpError>(resolved@),
        decreases devices.len() - index,
    {
        let ghost outcome = resolved_at(
            devices,
            partitions@,
            metadata_path@,
            suffix@,
            index as int,
        );
        match resolve_device(
            &metadata.block_devices[index],
            partitions,
            metadata_path,
            suffix,
            index,
        ) {
            Err(e) => {
                proof {
                    assert(outcome == Err::<Partition, LpError>(e));
                    lemma_collected_failure(reader, index + 1, devices.len() as int);
                }
                return Err(e);
            },
            Ok(partition) => {
                resolved.push(partition);
            },
        }
        index += 1;
    }
    Ok(resolved)
}

/// A target of a device-mapper table.
#[derive(Debug)]
pub enum DmTarget {
    Linear { logical_start: u64, sectors: u64, devnum: String, physical_start: u64 },
    Zero { logical_start: u64, sectors: u64 },
}

/// What a target is to the device mapper.
pub enum TargetView {
    Linear { logical_start: u64, sectors: u64, devnum: Seq<char>, physical_start: u64 },
    Zero { logical_start: u64, sectors: u64 },
}

impl View for DmTarget {
    type V = TargetView;

    open spec fn view(&self) -> TargetView {
        match self {
            DmTarget::Linear { logical_start, sectors, devnum, physical_start } => {
                TargetView::Linear {
                    logical_start: *logical_start,
                    sectors: *sectors,
                    devnum: devnum@,
                    physical_start: *physical_start,
                }
            },
            DmTarget::Zero { logical_start, sectors } => TargetView::Zero {
                logical_start: *logical_start,
                sectors: *sectors,
            },
        }
    }
}

/// The views of a list of targets.
pub open spec fn target_views(v: Seq<DmTarget>) -> Seq<TargetView> {
    Seq::new(v.len(), |i: int| v[i]@)
}

/// A mapping to make.
#[derive(Debug)]
pub struct MappingPlan {
    pub base_name: String,
    pub dm_name: String,
    pub dm_uuid: String,
    pub targets: Vec<DmTarget>,
}

/// What a mapping to make is to the device mapper.
pub struct PlanView {
    pub base_name: Seq<char>,
    pub dm_name: Seq<char>,
    pub dm_uuid: Seq<char>,
    pub targets: Seq<TargetView>,
}

impl View for MappingPlan {
    type V = PlanView;

    open spec fn view(&self) -> PlanView {
        PlanView {
            base_name: self.base_name@,
            dm_name: self.dm_name@,
            dm_uuid: self.dm_uuid@,
            targets: target_views(self.targets@),
        }
    }
}

/// The views of a list of mappings to make.
pub open spec fn plan_views(v: Seq<MappingPlan>) -> Seq<PlanView> {
    Seq::new(v.len(), |i: int| v[i]@)
}

/// Whether a requested name is sound: one to thirty-six letters, digits, underscores or dashes.
pub open spec fn sound_request(name: Seq<char>) -> bool {
    &&& 0 < name.len() <= 36
    &&& forall|i: int| 0 <= i < name.len() ==> request_char(#[trigger] name[i])
}

/// Whether a requested name may hold the character `c`.
pub open spec fn request_char(c: char) -> bool {
    c == '_' || c == '-' || '0' <= c <= '9' || 'a' <= c <= 'z' || 'A' <= c <= 'Z'
}

/// Checks a requested name.
pub fn validate_mapping_component(name: &str) -> (r: Result<(), LpError>)
    ensures
        r == (if sound_request(name@) {
            Ok(())
        } else {
            Err(LpError::InvalidRequest)
        }),
{
    let v = chars(name);
    if v.len() == 0 || v.len() > 36 {
        return Err(LpError::InvalidRequest);
    }
    let mut i: usize = 0;
    while i < v.len()
        invariant
            i <= v@.len(),
            v@ == name@,
            forall|k: int| 0 <= k < i ==> request_char(#[trigger] v@[k]),
        decreases v@.len() - i,
    {
        let c = v[i];
        if !(c == '_' || c == '-' || ('0' <= c && c <= '9') || ('a' <= c && c <= 'z') || ('A' <= c
            && c <= 'Z')) {
            assert(!request_char(name@[i as int]));
            return Err(LpError::InvalidRequest);
        }
        i += 1;
    }
    Ok(())
}

/// Whether one of the names is `name`.
pub open spec fn lists(names: Seq<Seq<char>>, name: Seq<char>) -> bool {
    exists|k: int| 0 <= k < names.len() && #[trigger] names[k] == name
}

/// Whether one of the first `n` names is `name`.
fn listed(names: &[String], n: usize, name: &str) -> (r: bool)
    requires
        n <= names@.len(),
    ensures
        r == lists(texts(names@).take(n as int), name@),
{
    let ghost views = texts(names@).take(n as int);
    let mut i: usize = 0;
    while i < n
        invariant
            i <= n <= names@.len(),
            views == texts(names@).take(n as int),
            forall|k: int| 0 <= k < i ==> #[trigger] views[k] != name@,
        decreases n - i,
    {
        assert(views[i as int] == names@[i as int]@);
        if same_text(names[i].as_str(), name) {
            return true;
        }
        i += 1;
    }
    false
}

/// Whether the requested names are sound and differ from one another.
pub open spec fn requests_checked(requested: Seq<Seq<char>>) -> Result<(), LpError> {
    if !requested.no_duplicates() {
        Err(LpError::DuplicateRequest)
    } else if exists|k: int| 0 <= k < requested.len() && !sound_request(#[trigger] requested[k]) {
        Err(LpError::InvalidRequest)
    } else {
        Ok(())
    }
}

/// Checks that the requested names are sound and differ from one another.
fn check_requests(requested: &[String]) -> (r: Result<(), LpError>)
    ensures
        r == requests_checked(texts(requested@)),
{
    let ghost views = texts(requested@);
    let mut i: usize = 0;
    while i < requested.len()
        invariant
            i <= requested@.len(),
            views == texts(requested@),
            forall|a: int, b: int| 0 <= a < b < i ==> #[trigger] views[a] != #[trigger] views[b],
        decreases requested@.len() - i,
    {
        assert(views[i as int] == requested@[i as int]@);
        if listed(requested, i, requested[i].as_str()) {
            proof {
                let front = views.take(i as int);
                let k = choose|k: int| 0 <= k < front.len() && #[trigger] front[k] == views[i as int];
                assert(views[k] == views[i as int]);
            }
            return Err(LpError::DuplicateRequest);
        }
        assert forall|a: int, b: int| 0 <= a < b < i + 1 implies #[trigger] views[a]
            != #[trigger] views[b] by {
            if b == i {
                assert(views.take(i as int)[a] == views[a]);
            }
        }
        i += 1;
    }
    assert(views.no_duplicates());
    let mut i: usize = 0;
    while i < requested.len()
        invariant
            i <= requested@.len(),
            views == texts(requested@),
            views.no_duplicates(),
            forall|k: int| 0 <= k < i ==> sound_request(#[trigger] views[k]),
        decreases requested@.len() - i,
    {
        assert(views[i as int] == requested@[i as int]@);
        if validate_mapping_component(requested[i].as_str()).is_err() {
            assert(!sound_request(views[i as int]));
            return Err(LpError::InvalidRequest);
        }
        i += 1;
    }
    Ok(())
}

/// The name of a partition in the slot.
pub open spec fn slot_name(partition: LogicalView, suffix: Seq<char>) -> Seq<char> {
    effective_name(
        partition.name,
        partition.attributes & PARTITION_ATTR_SLOT_SUFFIXED != 0,
        suffix,
    )
}

/// The name of a partition without the suffix of the slot.
pub open spec fn base_of(partition: LogicalView, suffix: Seq<char>) -> Seq<char> {
    match before_suffix(slot_name(partition, suffix), suffix) {
        Some(base) => base,
        None => slot_name(partition, suffix),
    }
}

/// How many sectors the first `n` of the extents from number `first` on have.
pub open spec fn sectors_before(extents: Seq<Extent>, first: int, n: int) -> int
    decreases n,
{
    if n <= 0 {
        0
    } else {
        sectors_before(extents, first, n - 1) + extents[first + n - 1].sectors
    }
}

/// The target for extent `k` of a partition.
pub open spec fn target_at(
    metadata: MetadataView,
    physical: Seq<Partition>,
    index: int,
    k: int,
) -> Result<TargetView, LpError> {
    let first = metadata.partitions[index].first_extent;
    let start = sectors_before(metadata.extents, first, k);
    let extent = metadata.extents[first + k];
    let target = match extent.target {
        ExtentTarget::Zero => Ok(
            TargetView::Zero { logical_start: start as u64, sectors: extent.sectors },
        ),
        ExtentTarget::Linear { physical_sector, block_device } => {
            let end = physical_sector + extent.sectors;
            if block_device >= metadata.block_devices.len() {
                Err(LpError::PlanMissingBlockDevice(index as usize, block_device))
            } else if block_device >= physical.len() {
                Err(LpError::UnresolvedBlockDevice)
            } else if end > u64::MAX {
                Err(LpError::PhysicalOverflow)
            } else if physical_sector
                < metadata.block_devices[block_device as int].first_logical_sector || end
                > metadata.block_devices[block_device as int].size_bytes / SECTOR_SIZE || end
                > physical[block_device as int].size_bytes / SECTOR_SIZE {
                Err(LpError::PhysicalOutOfBounds(index as usize))
            } else {
                Ok(
                    TargetView::Linear {
                        logical_start: start as u64,
                        sectors: extent.sectors,
                        devnum: physical[block_device as int].devnum@,
                        physical_start: physical_sector,
                    },
                )
            }
        },
    };
    match target {
        Err(e) => Err(e),
        Ok(target) => if start + extent.sectors > u64::MAX {
            Err(LpError::LogicalOverflow)
        } else {
            Ok(target)
        },
    }
}

/// The targets for the extents of a partition.
pub open spec fn target_reader(
    metadata: MetadataView,
    physical: Seq<Partition>,
    index: int,
) -> spec_fn(int) -> Result<TargetView, LpError> {
    |k: int| target_at(metadata, physical, index, k)
}

/// The targets for a partition, whose size has to be one of whole logical blocks.
pub open spec fn targets_of(metadata: MetadataView, physical: Seq<Partition>, index: int) -> Result<
    Seq<TargetView>,
    LpError,
> {
    let partition = metadata.partitions[index];
    match collected(target_reader(metadata, physical, index), partition.extent_count) {
        Err(e) => Err(e),
        Ok(targets) => {
            let bytes = sectors_before(
                metadata.extents,
                partition.first_extent,
                partition.extent_count,
            ) * 512;
            if bytes > u64::MAX {
                Err(LpError::LogicalSizeOverflow)
            } else if bytes == 0 || bytes % metadata.geometry.logical_block_size as int != 0 {
                Err(LpError::LogicalSize(index as usize, bytes as u64))
            } else {
                Ok(targets)
            }
        },
    }
}

/// The mapping for partition `index`, if it is requested.
pub open spec fn plan_at(
    metadata: MetadataView,
    physical: Seq<Partition>,
    suffix: Seq<char>,
    requested: Seq<Seq<char>>,
    index: int,
) -> Result<Option<PlanView>, LpError> {
    let partition = metadata.partitions[index];
    let base = base_of(partition, suffix);
    let letter = suffix.skip(1);
    if !lists(requested, base) {
        Ok(None)
    } else if partition.attributes & PARTITION_ATTR_DISABLED != 0 {
        Err(LpError::Disabled(index as usize))
    } else if exists|k: int|
        0 <= k < index && #[trigger] base_of(metadata.partitions[k], suffix) == base {
        Err(LpError::SeveralMatch(index as usize))
    } else {
        match targets_of(metadata, physical, index) {
            Err(e) => Err(e),
            Ok(targets) => Ok(
                Some(
                    PlanView {
                        base_name: base,
                        dm_name: "pocketboot-fw-"@ + base + "-"@ + letter,
                        dm_uuid: "POCKETBOOT-FW-"@ + letter + "-"@ + base,
                        targets,
                    },
                ),
            ),
        }
    }
}

/// The mappings for the requested ones of the first `n` partitions.
pub open spec fn plans_upto(
    metadata: MetadataView,
    physical: Seq<Partition>,
    suffix: Seq<char>,
    requested: Seq<Seq<char>>,
    n: int,
) -> Result<Seq<PlanView>, LpError>
    decreases n,
{
    if n <= 0 {
        Ok(Seq::empty())
    } else {
        match plans_upto(metadata, physical, suffix, requested, n - 1) {
            Err(e) => Err(e),
            Ok(plans) => match plan_at(metadata, physical, suffix, requested, n - 1) {
                Err(e) => Err(e),
                Ok(None) => Ok(plans),
                Ok(Some(plan)) => Ok(plans.push(plan)),
            },
        }
    }
}

/// The mappings for the requested partitions of a slot.
pub open spec fn plans_for(
    metadata: MetadataView,
    physical: Seq<Partition>,
    slot: u32,
    requested: Seq<Seq<char>>,
) -> Result<Seq<PlanView>, LpError> {
    match suffix_of(slot) {
        Err(e) => Err(e),
        Ok(suffix) => match requests_checked(requested) {
            Err(e) => Err(e),
            Ok(_) => plans_upto(
                metadata,
                physical,
                suffix,
                requested,
                metadata.partitions.len() as int,
            ),
        },
    }
}

proof fn lemma_plans_failure(
    metadata: MetadataView,
    physical: Seq<Partition>,
    suffix: Seq<char>,
    requested: Seq<Seq<char>>,
    k: int,
    n: int,
)
    requires
        k <= n,
        plans_upto(metadata, physical, suffix, requested, k) is Err,
    ensures
        plans_upto(metadata, physical, suffix, requested, n) == plans_upto(
            metadata,
            physical,
            suffix,
            requested,
            k,
        ),
    decreases n - k,
{
    if k < n {
        lemma_plans_failure(metadata, physical, suffix, requested, k, n - 1);
    }
}

/// The target for extent `k` of a partition, whose extents before it have `start` sectors.
fn make_target(
    metadata: &Metadata,
    physical: &[Partition],
    index: usize,
    k: usize,
    start: u64,
) -> (r: Result<DmTarget, LpError>)
    requires
        metadata.wf(),
        index < metadata.partitions@.len(),
        k < metadata.partitions@[index as int].extent_count,
        start == sectors_before(
            metadata.extents@,
            metadata.partitions@[index as int].first_extent as int,
            k as int,
        ),
    ensures
        target_at(metadata@, physical@, index as int, k as int) == (match r {
            Ok(target) => Ok(target@),
            Err(e) => Err(e),
        }),
        r is Ok ==> start + metadata.extents@[metadata.partitions@[index as int].first_extent
            + k].sectors <= u64::MAX,
{
    let ghost view = metadata@;
    assert(view.partitions[index as int] == metadata.partitions@[index as int]@);
    assert(metadata.extents.len() <= usize::MAX);
    let extent = metadata.extents[metadata.partitions[index].first_extent + k];
    let target = match extent.target {
        ExtentTarget::Zero => DmTarget::Zero { logical_start: start, sectors: extent.sectors },
        ExtentTarget::Linear { physical_sector, block_device } => {
            if block_device >= metadata.block_devices.len() {
                return Err(LpError::PlanMissingBlockDevice(index, block_device));
            }
            if block_device >= physical.len() {
                return Err(LpError::UnresolvedBlockDevice);
            }
            if extent.sectors > u64::MAX - physical_sector {
                return Err(LpError::PhysicalOverflow);
            }
            assert(view.block_devices[block_device as int]
                == metadata.block_devices@[block_device as int]@);
            let declared = &metadata.block_devices[block_device];
            let end = physical_sector + extent.sectors;
            if physical_sector < declared.first_logical_sector || end > declared.size_bytes
                / SECTOR_SIZE || end > physical[block_device].size_bytes / SECTOR_SIZE {
                return Err(LpError::PhysicalOutOfBounds(index));
            }
            DmTarget::Linear {
                logical_start: start,
                sectors: extent.sectors,
                devnum: physical[block_device].devnum.clone(),
                physical_start: physical_sector,
            }
        },
    };
    if extent.sectors > u64::MAX - start {
        return Err(LpError::LogicalOverflow);
    }
    Ok(target)
}

/// The targets for a partition.
fn make_targets(metadata: &Metadata, physical: &[Partition], index: usize) -> (r: Result<
    Vec<DmTarget>,
    LpError,
>)
    requires
        metadata.wf(),
        index < metadata.partitions@.len(),
    ensures
        targets_of(metadata@, physical@, index as int) == (match r {
            Ok(targets) => Ok(target_views(targets@)),
            Err(e) => Err(e),
        }),
{
    let ghost view = metadata@;
    let ghost reader = target_reader(view, physical@, index as int);
    let first = metadata.partitions[index].first_extent;
    let count = metadata.partitions[index].extent_count;
    let mut targets: Vec<DmTarget> = Vec::new();
    let mut start: u64 = 0;
    let mut k: usize = 0;
    assert(view.partitions[index as int] == metadata.partitions@[index as int]@);
    assert(target_views(targets@) =~= Seq::<TargetView>::empty());
    while k < count
        invariant
            k <= count,
            metadata.wf(),
            view == metadata@,
            index < metadata.partitions@.len(),
            first == metadata.partitions@[index as int].first_extent,
            count == metadata.partitions@[index as int].extent_count,
            view.partitions[index as int] == metadata.partitions@[index as int]@,
            reader == target_reader(view, physical@, index as int),
            start == sectors_before(metadata.extents@, first as int, k as int),
            collected(reader, k as int) == Ok::<Seq<TargetView>, LpError>(target_views(targets@)),
        decreases count - k,
    {
        let ghost before = targets@;
        match make_target(metadata, physical, index, k, start) {
            Err(e) => {
                proof {
                    lemma_collected_failure(reader, k + 1, count as int);
                }
                return Err(e);
            },
            Ok(target) => {
                targets.push(target);
                assert(target_views(targets@) =~= target_views(before).push(target@));
            },
        }
        assert(metadata.extents.len() <= usize::MAX);
        start = start + metadata.extents[first + k].sectors;
        k += 1;
    }
    if start > u64::MAX / SECTOR_SIZE {
        return Err(LpError::LogicalSizeOverflow);
    }
    let bytes = start * SECTOR_SIZE;
    if bytes == 0 || bytes % metadata.geometry.logical_block_size as u64 != 0 {
        return Err(LpError::LogicalSize(index, bytes));
    }
    Ok(targets)
}

/// The name of partition `index` without the suffix of the slot.
fn base_name(metadata: &Metadata, index: usize, suffix: &str) -> (r: String)
    requires
        index < metadata.partitions@.len(),
    ensures
        r@ == base_of(metadata@.partitions[index as int], suffix@),
{
    let partition = &metadata.partitions[index];
    assert(metadata@.partitions[index as int] == partition@);
    let suffixed = partition.attributes & PARTITION_ATTR_SLOT_SUFFIXED != 0;
    let name = suffixed_name(partition.name.as_str(), suffixed, suffix);
    let base = match strip_suffix(name.as_str(), suffix) {
        Some(base) => owned(base),
        None => owned(name.as_str()),
    };
    base
}

/// Whether a partition before number `index` has the same name without the suffix of the slot.
fn base_seen(metadata: &Metadata, index: usize, base: &str, suffix: &str) -> (r: bool)
    requires
        index <= metadata.partitions@.len(),
    ensures
        r == exists|k: int|
            0 <= k < index && #[trigger] base_of(metadata@.partitions[k], suffix@) == base@,
{
    let mut k: usize = 0;
    while k < index
        invariant
            k <= index <= metadata.partitions@.len(),
            forall|i: int|
                0 <= i < k ==> #[trigger] base_of(metadata@.partitions[i], suffix@) != base@,
        decreases index - k,
    {
        let other = base_name(metadata, k, suffix);
        if same_text(other.as_str(), base) {
            return true;
        }
        k += 1;
    }
    false
}

/// The mapping for partition `index`, if it is requested.
fn make_plan(
    metadata: &Metadata,
    physical: &[Partition],
    suffix: &str,
    requested: &[String],
    index: usize,
) -> (r: Result<Option<MappingPlan>, LpError>)
    requires
        metadata.wf(),
        index < metadata.partitions@.len(),
        suffix@.len() >= 1,
    ensures
        plan_at(metadata@, physical@, suffix@, texts(requested@), index as int) == (match r {
            Ok(Some(plan)) => Ok(Some(plan@)),
            Ok(None) => Ok(None),
            Err(e) => Err(e),
        }),
{
    let ghost view = metadata@;
    assert(view.partitions[index as int] == metadata.partitions@[index as int]@);
    let base = base_name(metadata, index, suffix);
    assert(texts(requested@).take(requested@.len() as int) =~= texts(requested@));
    if !listed(requested, requested.len(), base.as_str()) {
        return Ok(None);
    }
    if metadata.partitions[index].attributes & PARTITION_ATTR_DISABLED != 0 {
        return Err(LpError::Disabled(index));
    }
    if base_seen(metadata, index, base.as_str(), suffix) {
        return Err(LpError::SeveralMatch(index));
    }
    let targets = make_targets(metadata, physical, index)?;
    let letter = suffix.substring_char(1, suffix.unicode_len());
    assert(letter@ =~= suffix@.skip(1));
    let mut dm_name = owned("pocketboot-fw-");
    dm_name.append(base.as_str());
    dm_name.append("-");
    dm_name.append(letter);
    let mut dm_uuid = owned("POCKETBOOT-FW-");
    dm_uuid.append(letter);
    dm_uuid.append("-");
    dm_uuid.append(base.as_str());
    Ok(Some(MappingPlan { base_name: base, dm_name, dm_uuid, targets }))
}

/// The mappings for the requested partitions of a slot.
pub fn mapping_plans(
    metadata: &Metadata,
    physical: &[Partition],
    slot: u32,
    requested: &[String],
) -> (r: Result<Vec<MappingPlan>, LpError>)
    requires
        metadata.wf(),
    ensures
        plans_for(metadata@, physical@, slot, texts(requested@)) == (match r {
            Ok(plans) => Ok(plan_views(plans@)),
            Err(e) => Err(e),
        }),
{
    let suffix = slot_suffix(slot)?;
    proof {
        reveal_strlit("_a");
        reveal_strlit("_b");
        reveal_strlit("_c");
    }
    check_requests(requested)?;
    let ghost view = metadata@;
    let ghost names = texts(requested@);
    let mut plans: Vec<MappingPlan> = Vec::new();
    let mut index: usize = 0;
    assert(plan_views(plans@) =~= Seq::<PlanView>::empty());
    while index < metadata.partitions.len()
        invariant
            metadata.wf(),
            index <= metadata.partitions@.len(),
            suffix@.len() >= 1,
            view == metadata@,
            names == texts(requested@),
            plans_for(view, physical@, slot, names) == plans_upto(
                view,
                physical@,
                suffix@,
                names,
                view.partitions.len() as int,
            ),
            plans_upto(view, physical@, suffix@, names, index as int) == Ok::<
                Seq<PlanView>,
                LpError,
            >(plan_views(plans@)),
        decreases metadata.partitions@.len() - index,
    {
        let ghost before = plans@;
        match make_plan(metadata, physical, suffix, requested, index) {
            Err(e) => {
                proof {
                    lemma_plans_failure(
                        view,
                        physical@,
                        suffix@,
                        names,
                        index + 1,
                        view.partitions.len() as int,
                    );
                }
                return Err(e);
            },
            Ok(None) => {},
            Ok(Some(plan)) => {
                plans.push(plan);
                assert(plan_views(plans@) =~= plan_views(before).push(plan@));
            },
        }
        index += 1;
    }
    Ok(plans)
}

/// The first logical sector of a target.
pub open spec fn target_start(target: TargetView) -> u64 {
    match target {
        TargetView::Linear { logical_start, .. } => logical_start,
        TargetView::Zero { logical_start, .. } => logical_start,
    }
}

/// The number of sectors of a target.
pub open spec fn target_sectors(target: TargetView) -> u64 {
    match target {
        TargetView::Linear { sectors, .. } => sectors,
        TargetView::Zero { sectors, .. } => sectors,
    }
}

/// The targets of a mapping follow one another without a gap from sector zero on.
pub proof fn law_targets_are_contiguous(
    metadata: MetadataView,
    physical: Seq<Partition>,
    index: int,
    k: int,
)
    requires
        0 <= k,
    ensures
        targets_of(metadata, physical, index) matches Ok(targets) ==> {
            &&& targets.len() > 0 ==> target_start(targets[0]) == 0
            &&& k + 1 < targets.len() ==> target_start(targets[k + 1]) == target_start(targets[k])
                + target_sectors(targets[k])
        },
{
    if let Ok(targets) = targets_of(metadata, physical, index) {
        let reader = target_reader(metadata, physical, index);
        let count = metadata.partitions[index].extent_count;
        if 0 < count {
            lemma_collected_success(reader, count);
            assert(reader(0) == Ok::<TargetView, LpError>(targets[0]));
            if k + 1 < targets.len() {
                assert(reader(k) == Ok::<TargetView, LpError>(targets[k]));
                assert(reader(k + 1) == Ok::<TargetView, LpError>(targets[k + 1]));
                let first = metadata.partitions[index].first_extent;
                assert(sectors_before(metadata.extents, first, k + 1) == sectors_before(
                    metadata.extents,
                    first,
                    k,
                ) + metadata.extents[first + k].sectors);
                lemma_sectors_not_negative(metadata.extents, first, k);
            }
        }
    }
}

proof fn lemma_sectors_not_negative(extents: Seq<Extent>, first: int, n: int)
    ensures
        0 <= sectors_before(extents, first, n),
    decreases n,
{
    if n > 0 {
        lemma_sectors_not_negative(extents, first, n - 1);
    }
}

/// A linear target maps the sectors that its extent names, on the device that the extent names. It
/// lies behind what the device reserves, inside the size that the metadata tells of the device, and
/// inside the device itself.
pub proof fn law_linear_targets_are_in_bounds(
    metadata: MetadataView,
    physical: Seq<Partition>,
    index: int,
    k: int,
)
    requires
        0 <= k,
    ensures
        targets_of(metadata, physical, index) matches Ok(targets) ==> (k < targets.len() ==> (
        targets[k] matches TargetView::Linear { sectors, devnum, physical_start, .. } ==> {
            let extent = metadata.extents[metadata.partitions[index].first_extent + k];
            let d = extent.target->block_device as int;
            &&& extent.target is Linear
            &&& extent.target->physical_sector == physical_start
            &&& extent.sectors == sectors
            &&& d < physical.len() && d < metadata.block_devices.len()
            &&& physical[d].devnum@ == devnum
            &&& metadata.block_devices[d].first_logical_sector <= physical_start
            &&& physical_start + sectors <= metadata.block_devices[d].size_bytes / 512
            &&& physical_start + sectors <= physical[d].size_bytes / 512
        })),
{
    if let Ok(targets) = targets_of(metadata, physical, index) {
        let reader = target_reader(metadata, physical, index);
        let count = metadata.partitions[index].extent_count;
        if 0 < count {
            lemma_collected_success(reader, count);
            if k < targets.len() {
                assert(reader(k) == Ok::<TargetView, LpError>(targets[k]));
            }
        }
    }
}

/// Every mapping is for a requested name, and no two mappings are for the same one.
pub proof fn law_plans_are_for_distinct_requests(
    metadata: MetadataView,
    physical: Seq<Partition>,
    slot: u32,
    requested: Seq<Seq<char>>,
)
    ensures
        plans_for(metadata, physical, slot, requested) matches Ok(plans) ==> {
            &&& forall|i: int|
                0 <= i < plans.len() ==> lists(requested, (#[trigger] plans[i]).base_name)
            &&& forall|i: int, j: int|
                0 <= i < j < plans.len() ==> (#[trigger] plans[i]).base_name != (
                #[trigger] plans[j]).base_name
        },
{
    if let Ok(plans) = plans_for(metadata, physical, slot, requested) {
        let suffix = suffix_of(slot)->Ok_0;
        lemma_plan_names(
            metadata,
            physical,
            suffix,
            requested,
            metadata.partitions.len() as int,
        );
    }
}

proof fn lemma_plan_names(
    metadata: MetadataView,
    physical: Seq<Partition>,
    suffix: Seq<char>,
    requested: Seq<Seq<char>>,
    n: int,
)
    ensures
        plans_upto(metadata, physical, suffix, requested, n) matches Ok(plans) ==> {
            &&& forall|i: int|
                0 <= i < plans.len() ==> lists(requested, (#[trigger] plans[i]).base_name)
            &&& forall|i: int, j: int|
                0 <= i < j < plans.len() ==> (#[trigger] plans[i]).base_name != (
                #[trigger] plans[j]).base_name
            &&& forall|i: int|
                0 <= i < plans.len() ==> exists|k: int|
                    0 <= k < n && #[trigger] base_of(metadata.partitions[k], suffix) == (
                    #[trigger] plans[i]).base_name
        },
    decreases n,
{
    if n > 0 {
        lemma_plan_names(metadata, physical, suffix, requested, n - 1);
        if let Ok(plans) = plans_upto(metadata, physical, suffix, requested, n) {
            let before = plans_upto(metadata, physical, suffix, requested, n - 1)->Ok_0;
            assert forall|i: int| 0 <= i < plans.len() implies exists|k: int|
                0 <= k < n && #[trigger] base_of(metadata.partitions[k], suffix) == (
                #[trigger] plans[i]).base_name by {
                if i < before.len() {
                    assert(plans[i] == before[i]);
                    let k = choose|k: int|
                        0 <= k < n - 1 && #[trigger] base_of(metadata.partitions[k], suffix)
                            == before[i].base_name;
                    assert(base_of(metadata.partitions[k], suffix) == plans[i].base_name);
                } else {
                    assert(base_of(metadata.partitions[n - 1], suffix) == plans[i].base_name);
                }
            }
            assert forall|i: int, j: int| 0 <= i < j < plans.len() implies (
            #[trigger] plans[i]).base_name != (#[trigger] plans[j]).base_name by {
                assert(plans[i] == before[i]);
                if j < before.len() {
                    assert(plans[j] == before[j]);
                }
            }
            assert forall|i: int| 0 <= i < plans.len() implies lists(
                requested,
                (#[trigger] plans[i]).base_name,
            ) by {
                if i < before.len() {
                    assert(plans[i] == before[i]);
                }
            }
        }
    }
}

proof fn lemma_entry_there(tables: Seq<u8>, descriptor: TableDescriptor, index: int, table: Table)
    requires
        0 <= index,
        tables.len() <= usize::MAX,
        descriptor.offset + index * descriptor.entry_size + descriptor.entry_size <= tables.len(),
    ensures
        entry_at(tables, descriptor, index, table) == Ok::<Seq<u8>, LpError>(
            tables.subrange(
                descriptor.offset + index * descriptor.entry_size,
                descriptor.offset + index * descriptor.entry_size + descriptor.entry_size,
            ),
        ),
        0 <= index * descriptor.entry_size,
{
    assert(0 <= index * descriptor.entry_size) by (nonlinear_arith)
        requires
            0 <= index,
            0 <= descriptor.entry_size,
    ;
}

/// An extent is read as the format has it: its sectors, its kind, and for a linear one the first
/// sector and the number of the block device that it maps. Neither may be there for an extent of
/// zeros, and no extent is empty.
pub proof fn law_extents_are_read(tables: Seq<u8>, descriptor: TableDescriptor, index: int)
    requires
        0 <= index,
        tables.len() <= usize::MAX,
        descriptor.entry_size == 24,
        descriptor.offset + index * 24 + 24 <= tables.len(),
    ensures
        ({
            let at = descriptor.offset + index * 24;
            let sectors = le64(tables, at);
            let kind = le32(tables, at + 8);
            let data = le64(tables, at + 12);
            let source = le32(tables, at + 20);
            let r = extent_at(tables, descriptor, index);
            &&& sectors > 0 && kind == 0 ==> r == Ok::<Extent, LpError>(
                Extent {
                    sectors,
                    target: ExtentTarget::Linear {
                        physical_sector: data,
                        block_device: source as usize,
                    },
                },
            )
            &&& sectors > 0 && kind == 1 && data == 0 && source == 0 ==> r == Ok::<Extent, LpError>(
                Extent { sectors, target: ExtentTarget::Zero },
            )
            &&& sectors == 0 || kind > 1 || (kind == 1 && (data != 0 || source != 0)) ==> r is Err
        }),
{
    let at = descriptor.offset + index * 24;
    lemma_entry_there(tables, descriptor, index, Table::Extent);
    let entry = tables.subrange(at, at + 24);
    assert(le64(entry, 0) == le64(tables, at));
    assert(le32(entry, 8) == le32(tables, at + 8));
    assert(le64(entry, 12) == le64(tables, at + 12));
    assert(le32(entry, 20) == le32(tables, at + 20));
}

/// A field that holds a name: its letters, and zeros behind them.
pub open spec fn holds_name(field: Seq<u8>, name: Seq<u8>) -> bool {
    &&& 0 < name.len() <= field.len()
    &&& field.take(name.len() as int) == name
    &&& forall|i: int| name.len() <= i < field.len() ==> #[trigger] field[i] == 0
}

/// Whether a byte is a letter, a digit or an underscore, or where they may be a hyphen or a dot.
pub open spec fn is_name_byte(b: u8, dashes: bool) -> bool {
    ||| 0x61 <= b <= 0x7a
    ||| 0x41 <= b <= 0x5a
    ||| 0x30 <= b <= 0x39
    ||| b == 0x5f
    ||| (dashes && (b == 0x2d || b == 0x2e))
}

/// A name of letters, digits and underscores is read from its field.
pub proof fn law_names_are_read(field: Seq<u8>, name: Seq<u8>, dashes: bool)
    requires
        holds_name(field, name),
        forall|i: int| 0 <= i < name.len() ==> is_name_byte(#[trigger] name[i], dashes),
    ensures
        name_in(field, dashes) matches Some(text) && text.len() == name.len() && forall|i: int|
            0 <= i < text.len() ==> #[trigger] text[i] == name[i] as char,
{
    lemma_next_byte(field, 0, 0u8);
    let end = next_byte(field, 0, 0u8);
    let n = name.len() as int;
    assert forall|i: int| 0 <= i < n implies #[trigger] field[i] == name[i] by {
        assert(field.take(n)[i] == field[i]);
    }
    if end < n {
        assert(field[end] == name[end]);
        assert(is_name_byte(name[end], dashes));
    }
    if end > n {
        assert(field[n] == 0);
    }
    assert(end == n);
    assert forall|i: int| 0 <= i < end implies name_byte(#[trigger] field[i], dashes) by {
        assert(is_name_byte(name[i], dashes));
    }
    assert(field.take(end) == name);
}

/// A partition is read as the format has it: its name, its attributes, and which extents are its
/// own. It is taken where its name is no other's, its attributes are known, its extents and its group
/// are in their tables, and it has extents unless it is disabled.
pub proof fn law_partitions_are_read(
    tables: Seq<u8>,
    descriptor: TableDescriptor,
    minor: u16,
    groups: int,
    extents: int,
    index: int,
    name: Seq<char>,
)
    requires
        0 <= index,
        tables.len() <= usize::MAX,
        descriptor.entry_size == 52,
        descriptor.offset + index * 52 + 52 <= tables.len(),
        extents <= usize::MAX,
        ({
            let at = descriptor.offset + index * 52;
            &&& name_in(tables.subrange(at, at + 36), false) == Some(name)
            &&& forall|k: int|
                0 <= k < index ==> #[trigger] partition_name(tables, descriptor, k) != Some(name)
            &&& le32(tables, at + 36) & !known_attributes(minor) == 0
            &&& le32(tables, at + 40) + le32(tables, at + 44) <= extents
            &&& le32(tables, at + 44) > 0
            &&& le32(tables, at + 48) < groups
        }),
    ensures
        ({
            let at = descriptor.offset + index * 52;
            partition_at(tables, descriptor, minor, groups, extents, index) == Ok::<
                LogicalView,
                LpError,
            >(
                LogicalView {
                    name,
                    attributes: le32(tables, at + 36),
                    first_extent: le32(tables, at + 40) as int,
                    extent_count: le32(tables, at + 44) as int,
                },
            )
        }),
{
    let at = descriptor.offset + index * 52;
    lemma_entry_there(tables, descriptor, index, Table::Partition);
    let entry = tables.subrange(at, at + 52);
    assert(entry.subrange(0, 36) =~= tables.subrange(at, at + 36));
    assert(le32(entry, 36) == le32(tables, at + 36));
    assert(le32(entry, 40) == le32(tables, at + 40));
    assert(le32(entry, 44) == le32(tables, at + 44));
    assert(le32(entry, 48) == le32(tables, at + 48));
}

/// A block device is read as the format has it: the first sector that partitions may have, its size
/// in bytes, its name and its flags.
pub proof fn law_block_devices_are_read(
    tables: Seq<u8>,
    descriptor: TableDescriptor,
    index: int,
    name: Seq<char>,
)
    requires
        0 <= index,
        tables.len() <= usize::MAX,
        descriptor.entry_size == 64,
        descriptor.offset + index * 64 + 64 <= tables.len(),
        ({
            let at = descriptor.offset + index * 64;
            &&& name_in(tables.subrange(at + 24, at + 60), true) == Some(name)
            &&& forall|k: int|
                0 <= k < index ==> #[trigger] device_name(tables, descriptor, k) != Some(name)
            &&& le32(tables, at + 60) & !1u32 == 0
            &&& le64(tables, at + 16) > 0
            &&& le64(tables, at + 16) % 512 == 0
        }),
    ensures
        ({
            let at = descriptor.offset + index * 64;
            device_at(tables, descriptor, index) == Ok::<DeviceView, LpError>(
                DeviceView {
                    first_logical_sector: le64(tables, at),
                    size_bytes: le64(tables, at + 16),
                    name,
                    flags: le32(tables, at + 60),
                },
            )
        }),
{
    let at = descriptor.offset + index * 64;
    lemma_entry_there(tables, descriptor, index, Table::BlockDevice);
    let entry = tables.subrange(at, at + 64);
    assert(entry.subrange(24, 60) =~= tables.subrange(at + 24, at + 60));
    assert(le64(entry, 0) == le64(tables, at));
    assert(le64(entry, 16) == le64(tables, at + 16));
    assert(le32(entry, 60) == le32(tables, at + 60));
}

/// A geometry is taken where it has its magic, its length and its checksum and tells sizes in whole
/// sectors, up to sixteen mebibytes of metadata and three slots; what it tells is read from the
/// places that the format has for it.
pub proof fn law_sound_geometries_are_read(block: Seq<u8>, digest: Seq<u8>)
    requires
        block.len() >= 52,
        le32(block, 0) == 0x616c_4467,
        le32(block, 4) == 52,
        digest == block.subrange(8, 40),
        0 < le32(block, 40) <= 0x100_0000,
        le32(block, 40) % 512 == 0,
        1 <= le32(block, 44) <= 3,
        le32(block, 48) > 0,
        le32(block, 48) % 512 == 0,
    ensures
        geometry_given(block, digest) matches Ok(geometry) && geometry.metadata_max_size == le32(
            block,
            40,
        ) && geometry.metadata_slot_count == le32(block, 44) && geometry.logical_block_size == le32(
            block,
            48,
        ),
{
}

/// The metadata of a slot stands behind the first four kibibytes and the two blocks of the geometry:
/// the copies of all slots one behind the other, and behind them the backup copies.
pub proof fn law_copies_stand_behind_the_geometry(geometry: Geometry, slot: u32)
    requires
        geometry.wf(),
        slot < geometry.metadata_slot_count,
    ensures
        copies_of(geometry, slot) matches Ok((primary, backup)) && primary == 4096 + 2 * 4096
            + geometry.metadata_max_size * slot && backup == 4096 + 2 * 4096
            + geometry.metadata_max_size * (geometry.metadata_slot_count + slot),
{
    let size = geometry.metadata_max_size as int;
    let count = geometry.metadata_slot_count as int;
    assert(size * (count + slot) <= 0x100_0000 * 6) by (nonlinear_arith)
        requires
            0 <= size <= 0x100_0000,
            0 <= count + slot <= 6,
    ;
    assert(size * slot <= 0x100_0000 * 6) by (nonlinear_arith)
        requires
            0 <= size <= 0x100_0000,
            0 <= slot <= 6,
    ;
}

/// A header of metadata is taken in the versions from 10.0 to 10.2, with the length of its version;
/// its four tables are told behind one another, and end where the header says.
pub proof fn law_sound_headers_are_read(bytes: Seq<u8>, minor: u16)
    requires
        minor <= 2,
        bytes.len() >= (if minor >= 2 {
            256int
        } else {
            128
        }),
        bytes.len() <= usize::MAX,
        le32(bytes, 0) == 0x414c_5030,
        le16(bytes, 4) == 10,
        le16(bytes, 6) == minor,
        le32(bytes, 8) == (if minor >= 2 {
            256int
        } else {
            128
        }),
        le32(bytes, 8) + le32(bytes, 44) <= bytes.len(),
        le32(bytes, 88) == 52,
        le32(bytes, 100) == 24,
        le32(bytes, 112) == 48,
        le32(bytes, 124) == 64,
    ensures
        header_checked(bytes) == Ok::<u16, LpError>(minor),
        header_length(minor) == le32(bytes, 8),
        tables_end(bytes, le32(bytes, 8) as int) == Ok::<int, LpError>(
            le32(bytes, 8) + le32(bytes, 44),
        ),
        descriptors_of(bytes) matches Ok(tables) && tables.len() == 4 && forall|k: int|
            0 <= k < 4 ==> (#[trigger] tables[k]).offset == le32(bytes, 80 + 12 * k)
                && tables[k].entries == le32(bytes, 84 + 12 * k) && tables[k].entry_size == le32(
                bytes,
                88 + 12 * k,
            ),
{
}

proof fn lemma_sound_targets(
    metadata: MetadataView,
    physical: Seq<Partition>,
    index: int,
    n: int,
)
    requires
        0 <= n,
        forall|k: int|
            0 <= k < n ==> #[trigger] extent_fits(
                metadata,
                physical,
                metadata.extents[metadata.partitions[index].first_extent + k],
            ),
        sectors_before(metadata.extents, metadata.partitions[index].first_extent, n) <= u64::MAX,
    ensures
        collected(target_reader(metadata, physical, index), n) is Ok,
    decreases n,
{
    if n > 0 {
        let first = metadata.partitions[index].first_extent;
        lemma_sectors_not_negative(metadata.extents, first, n - 1);
        lemma_sound_targets(metadata, physical, index, n - 1);
        assert(extent_fits(metadata, physical, metadata.extents[first + (n - 1)]));
        assert(target_reader(metadata, physical, index)(n - 1) == target_at(
            metadata,
            physical,
            index,
            n - 1,
        ));
    }
}

/// Whether an extent is one of zeros, or lies on its block device: behind what the device reserves,
/// inside the size that the metadata tells of it, and inside the partition that it is.
pub open spec fn extent_fits(
    metadata: MetadataView,
    physical: Seq<Partition>,
    extent: Extent,
) -> bool {
    match extent.target {
        ExtentTarget::Zero => true,
        ExtentTarget::Linear { physical_sector, block_device } => {
            let end = physical_sector + extent.sectors;
            &&& block_device < metadata.block_devices.len()
            &&& block_device < physical.len()
            &&& end <= u64::MAX
            &&& metadata.block_devices[block_device as int].first_logical_sector <= physical_sector
            &&& end <= metadata.block_devices[block_device as int].size_bytes / 512
            &&& end <= physical[block_device as int].size_bytes / 512
        },
    }
}

/// A sound partition is mapped: where each of its extents fits its device, and they are together a
/// number of whole logical blocks, there is one target for each extent, in their order, a linear one
/// for a linear extent and one of zeros for one of zeros, each as long as its extent.
pub proof fn law_sound_partitions_are_mapped(
    metadata: MetadataView,
    physical: Seq<Partition>,
    index: int,
)
    requires
        metadata.partitions[index].extent_count > 0,
        metadata.geometry.logical_block_size > 0,
        ({
            let partition = metadata.partitions[index];
            let sectors = sectors_before(
                metadata.extents,
                partition.first_extent,
                partition.extent_count,
            );
            &&& forall|k: int|
                0 <= k < partition.extent_count ==> #[trigger] extent_fits(
                    metadata,
                    physical,
                    metadata.extents[partition.first_extent + k],
                )
            &&& 0 < sectors
            &&& sectors * 512 <= u64::MAX
            &&& sectors * 512 % metadata.geometry.logical_block_size as int == 0
        }),
    ensures
        targets_of(metadata, physical, index) matches Ok(targets) && targets.len()
            == metadata.partitions[index].extent_count && forall|k: int|
            0 <= k < targets.len() ==> {
                let extent = metadata.extents[metadata.partitions[index].first_extent + k];
                &&& target_sectors(#[trigger] targets[k]) == extent.sectors
                &&& targets[k] is Linear == extent.target is Linear
            },
{
    let count = metadata.partitions[index].extent_count;
    lemma_sound_targets(metadata, physical, index, count);
    let reader = target_reader(metadata, physical, index);
    lemma_collected_success(reader, count);
    let targets = collected(reader, count)->Ok_0;
    assert forall|k: int| 0 <= k < count implies reader(k) == Ok::<TargetView, LpError>(
        #[trigger] targets[k],
    ) by {}
}

/// The sectors of some extents are the sum of those of each.
pub proof fn law_sectors_add_up(extents: Seq<Extent>, first: int, n: int)
    requires
        0 <= n,
    ensures
        sectors_before(extents, first, 0) == 0,
        sectors_before(extents, first, n + 1) == sectors_before(extents, first, n) + extents[first
            + n].sectors,
{
}

proof fn lemma_planned(
    metadata: MetadataView,
    physical: Seq<Partition>,
    suffix: Seq<char>,
    requested: Seq<Seq<char>>,
    n: int,
    index: int,
)
    requires
        0 <= index < n <= metadata.partitions.len(),
        plans_upto(metadata, physical, suffix, requested, n) is Ok,
        lists(requested, base_of(metadata.partitions[index], suffix)),
    ensures
        targets_of(metadata, physical, index) is Ok,
        exists|k: int|
            0 <= k < plans_upto(metadata, physical, suffix, requested, n)->Ok_0.len() && {
                let plan = #[trigger] plans_upto(
                    metadata,
                    physical,
                    suffix,
                    requested,
                    n,
                )->Ok_0[k];
                plan.base_name == base_of(metadata.partitions[index], suffix) && plan.targets
                    == targets_of(metadata, physical, index)->Ok_0
            },
    decreases n,
{
    let all = plans_upto(metadata, physical, suffix, requested, n)->Ok_0;
    if index < n - 1 {
        lemma_planned(metadata, physical, suffix, requested, n - 1, index);
        let front = plans_upto(metadata, physical, suffix, requested, n - 1)->Ok_0;
        let k = choose|k: int|
            0 <= k < front.len() && (#[trigger] front[k]).base_name == base_of(
                metadata.partitions[index],
                suffix,
            ) && front[k].targets == targets_of(metadata, physical, index)->Ok_0;
        assert(all[k] == front[k]);
    } else {
        assert(all[all.len() - 1].targets == targets_of(metadata, physical, index)->Ok_0);
    }
}

/// Every requested partition that the metadata has is mapped, to the targets of its extents.
pub proof fn law_requested_partitions_are_mapped(
    metadata: MetadataView,
    physical: Seq<Partition>,
    slot: u32,
    requested: Seq<Seq<char>>,
    index: int,
)
    requires
        0 <= index < metadata.partitions.len(),
        plans_for(metadata, physical, slot, requested) is Ok,
        requested.contains(base_of(metadata.partitions[index], suffix_of(slot)->Ok_0)),
    ensures
        targets_of(metadata, physical, index) is Ok,
        exists|k: int|
            0 <= k < plans_for(metadata, physical, slot, requested)->Ok_0.len() && {
                let plan = #[trigger] plans_for(metadata, physical, slot, requested)->Ok_0[k];
                plan.base_name == base_of(metadata.partitions[index], suffix_of(slot)->Ok_0)
                    && plan.targets == targets_of(metadata, physical, index)->Ok_0
            },
{
    let suffix = suffix_of(slot)->Ok_0;
    let base = base_of(metadata.partitions[index], suffix);
    let k = choose|k: int| 0 <= k < requested.len() && requested[k] == base;
    assert(requested[k] == base);
    lemma_planned(
        metadata,
        physical,
        suffix,
        requested,
        metadata.partitions.len() as int,
        index,
    );
}

/// A partition is asked for by its name without the suffix of the slot, whether the suffix stands in
/// the metadata or is to be put behind the name.
pub proof fn law_partitions_are_asked_for_without_suffix(
    partition: LogicalView,
    base: Seq<char>,
    slot: u32,
)
    requires
        slot <= 2,
    ensures
        ({
            let suffix = if slot == 0 {
                "_a"@
            } else if slot == 1 {
                "_b"@
            } else {
                "_c"@
            };
            &&& suffix_of(slot) == Ok::<Seq<char>, LpError>(suffix)
            &&& partition.attributes & 2 != 0 && partition.name == base ==> base_of(
                partition,
                suffix,
            ) == base
            &&& partition.attributes & 2 == 0 && partition.name == base + suffix ==> base_of(
                partition,
                suffix,
            ) == base
            &&& partition.attributes & 2 == 0 && partition.name == base
                && !suffix.is_suffix_of(base) ==> base_of(partition, suffix) == base
        }),
{
    let suffix = suffix_of(slot)->Ok_0;
    law_beginnings_and_ends_are_taken_off(base, suffix);
}

/// A block device of the metadata is the partition of its name, with the suffix of the slot where it
/// has one, as long as it is no smaller than the metadata says; the first one is that which the
/// metadata was read from.
pub proof fn law_block_devices_are_found(
    devices: Seq<DeviceView>,
    partitions: Seq<Partition>,
    metadata_path: Seq<char>,
    suffix: Seq<char>,
    index: int,
    found: int,
)
    requires
        0 <= index < devices.len(),
        the_match(
            partitions,
            if devices[index].flags & 1 != 0 {
                devices[index].name + suffix
            } else {
                devices[index].name
            },
        ) == Ok::<int, PartitionError>(found),
        devices[index].size_bytes <= partitions[found].size_bytes,
        devices[index].first_logical_sector <= devices[index].size_bytes / 512,
    ensures
        index > 0 || partitions[found].dev_path@ == metadata_path ==> resolved_at(
            devices,
            partitions,
            metadata_path,
            suffix,
            index,
        ) == Ok::<Partition, LpError>(partitions[found]),
        index == 0 && partitions[found].dev_path@ != metadata_path ==> resolved_at(
            devices,
            partitions,
            metadata_path,
            suffix,
            index,
        ) is Err,
{
}

/// The descriptor of a table as the header tells it: where the table begins, and how many entries it
/// has of a given size.
pub open spec fn described(bytes: Seq<u8>, at: int, entry_size: usize) -> TableDescriptor {
    TableDescriptor {
        offset: le32(bytes, at) as usize,
        entries: le32(bytes, at + 4) as usize,
        entry_size,
    }
}

/// Metadata holds what its tables hold: the tables follow the header, and the header tells where
/// each of them begins and how many entries it has; each partition, extent and block device is that
/// of its entry. Metadata with a digest that is not the one in the header is refused.
pub proof fn law_metadata_holds_its_tables(
    bytes: Seq<u8>,
    header_digest: Seq<u8>,
    tables_digest: Seq<u8>,
    geometry: Geometry,
    copy: MetadataCopy,
)
    ensures
        metadata_given(bytes, header_digest, tables_digest, geometry, copy) matches Ok(m) ==> {
            let start = le32(bytes, 8) as int;
            let tables = bytes.subrange(start, start + le32(bytes, 44));
            let partitions = described(bytes, 80, 52);
            let extents = described(bytes, 92, 24);
            let groups = described(bytes, 104, 48);
            let devices = described(bytes, 116, 64);
            &&& le32(bytes, 0) == 0x414c_5030
            &&& header_digest == bytes.subrange(12, 44)
            &&& tables_digest == bytes.subrange(48, 80)
            &&& m.geometry == geometry
            &&& m.copy == copy
            &&& m.partitions.len() == partitions.entries
            &&& m.extents.len() == extents.entries
            &&& m.block_devices.len() == devices.entries
            &&& forall|i: int|
                0 <= i < m.partitions.len() ==> partition_at(
                    tables,
                    partitions,
                    m.minor_version,
                    groups.entries as int,
                    extents.entries as int,
                    i,
                ) == Ok::<LogicalView, LpError>(#[trigger] m.partitions[i])
            &&& forall|i: int|
                0 <= i < m.extents.len() ==> extent_at(tables, extents, i) == Ok::<Extent, LpError>(
                    #[trigger] m.extents[i],
                )
            &&& forall|i: int|
                0 <= i < m.block_devices.len() ==> device_at(tables, devices, i) == Ok::<
                    DeviceView,
                    LpError,
                >(#[trigger] m.block_devices[i])
        },
{
    if let Ok(m) = metadata_given(bytes, header_digest, tables_digest, geometry, copy) {
        let start = le32(bytes, 8) as int;
        let tables = bytes.subrange(start, start + le32(bytes, 44));
        let partitions = described(bytes, 80, 52);
        let extents = described(bytes, 92, 24);
        let groups = described(bytes, 104, 48);
        let devices = described(bytes, 116, 64);
        assert(descriptors_of(bytes) == Ok::<Seq<TableDescriptor>, LpError>(
            seq![partitions, extents, groups, devices],
        ));
        lemma_collected_success(device_reader(tables, devices), devices.entries as int);
        lemma_collected_success(extent_reader(tables, extents), extents.entries as int);
        lemma_collected_success(
            partition_reader(
                tables,
                partitions,
                m.minor_version,
                groups.entries as int,
                extents.entries as int,
            ),
            partitions.entries as int,
        );
    }
}

proof fn lemma_no_stray(extents: Seq<Extent>, devices: int, from: int)
    requires
        0 <= from,
        forall|i: int|
            from <= i < extents.len() ==> ((#[trigger] extents[i]).target matches ExtentTarget::Linear {
                block_device,
                ..
            } ==> block_device < devices),
    ensures
        stray_extent(extents, devices, from) is None,
    decreases extents.len() - from,
{
    if from < extents.len() {
        assert(extents[from].target matches ExtentTarget::Linear { block_device, .. }
            ==> block_device < devices);
        lemma_no_stray(extents, devices, from + 1);
    }
}

/// Tables in which everything is sound are taken: they lie in their place, there is a block device,
/// each entry can be read, and no extent is on a block device that is not there.
pub proof fn law_sound_tables_are_taken(
    tables: Seq<u8>,
    descriptors: Seq<TableDescriptor>,
    minor: u16,
    geometry: Geometry,
    copy: MetadataCopy,
)
    requires
        descriptors.len() == 4,
        layout(descriptors, tables.len() as int) is Ok,
        descriptors[3].entries > 0,
        forall|i: int|
            0 <= i < descriptors[2].entries ==> (#[trigger] group_at(tables, descriptors[2], i)) is Ok,
        forall|i: int|
            0 <= i < descriptors[3].entries ==> (#[trigger] device_at(
                tables,
                descriptors[3],
                i,
            )) is Ok,
        forall|i: int|
            0 <= i < descriptors[1].entries ==> {
                let extent = #[trigger] extent_at(tables, descriptors[1], i);
                extent is Ok && (extent->Ok_0.target matches ExtentTarget::Linear {
                    block_device,
                    ..
                } ==> block_device < descriptors[3].entries)
            },
        forall|i: int|
            0 <= i < descriptors[0].entries ==> (#[trigger] partition_at(
                tables,
                descriptors[0],
                minor,
                descriptors[2].entries as int,
                descriptors[1].entries as int,
                i,
            )) is Ok,
    ensures
        tables_parsed(tables, descriptors, minor, geometry, copy) is Ok,
{
    let groups = group_reader(tables, descriptors[2]);
    assert forall|i: int| 0 <= i < descriptors[2].entries implies (#[trigger] groups(i)) is Ok by {
        assert(group_at(tables, descriptors[2], i) is Ok);
    }
    lemma_collected_all(groups, descriptors[2].entries as int);
    let devices = device_reader(tables, descriptors[3]);
    assert forall|i: int| 0 <= i < descriptors[3].entries implies (#[trigger] devices(i)) is Ok by {
        assert(device_at(tables, descriptors[3], i) is Ok);
    }
    lemma_collected_all(devices, descriptors[3].entries as int);
    lemma_collected_success(devices, descriptors[3].entries as int);
    let extents = extent_reader(tables, descriptors[1]);
    assert forall|i: int| 0 <= i < descriptors[1].entries implies (#[trigger] extents(i)) is Ok by {
        assert(extent_at(tables, descriptors[1], i) is Ok);
    }
    lemma_collected_all(extents, descriptors[1].entries as int);
    lemma_collected_success(extents, descriptors[1].entries as int);
    let list = collected(extents, descriptors[1].entries as int)->Ok_0;
    let count = collected(devices, descriptors[3].entries as int)->Ok_0.len() as int;
    assert forall|i: int| 0 <= i < list.len() implies ((#[trigger] list[i]).target matches ExtentTarget::Linear {
        block_device,
        ..
    } ==> block_device < count) by {
        assert(extents(i) == Ok::<Extent, LpError>(list[i]));
        assert(extent_at(tables, descriptors[1], i) == Ok::<Extent, LpError>(list[i]));
    }
    lemma_no_stray(list, count, 0);
    let partitions = partition_reader(
        tables,
        descriptors[0],
        minor,
        descriptors[2].entries as int,
        list.len() as int,
    );
    assert forall|i: int| 0 <= i < descriptors[0].entries implies (#[trigger] partitions(i)) is Ok by {
        assert(partition_at(
            tables,
            descriptors[0],
            minor,
            descriptors[2].entries as int,
            descriptors[1].entries as int,
            i,
        ) is Ok);
    }
    lemma_collected_all(partitions, descriptors[0].entries as int);
}

/// An unsound geometry is refused: one is taken only with its mark, its own length and the digest of
/// its bytes, with a room for metadata of whole sectors and up to sixteen mebibytes, with one to
/// three slots, and with blocks of whole sectors.
pub proof fn law_unsound_geometries_are_refused(block: Seq<u8>, digest: Seq<u8>)
    ensures
        geometry_given(block, digest) is Ok ==> {
            &&& block.len() >= 52
            &&& le32(block, 0) == 0x616c_4467
            &&& le32(block, 4) == 52
            &&& digest == block.subrange(8, 40)
            &&& 0 < le32(block, 40) <= 0x100_0000
            &&& le32(block, 40) % 512 == 0
            &&& 1 <= le32(block, 44) <= 3
            &&& le32(block, 48) > 0
            &&& le32(block, 48) % 512 == 0
        },
{
}

} // verus!
