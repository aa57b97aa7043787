//! Boot partitions of disks with a GUID partition table.
use vstd::prelude::*;
use vstd::string::*;

use crate::bootflow::{BootPartitionCandidate, BootPartitionRole, CandidateView, candidate_views};
use crate::bytes::{bytes_at, le32, le64, le_u32, le_u64, matches_at, push_bytes, same_bytes, utf8};
use crate::collect::{gathered, lemma_gathered_failure};
use crate::text::{
    cat, chars, decimal, owned, parse_number, parse_unsigned, push_decimal, trim, trim_chars,
};

verus! {

/// The least length of a header.
pub const GPT_MIN_HEADER_SIZE: usize = 92;

/// The least length of a partition entry.
pub const GPT_MIN_ENTRY_SIZE: usize = 128;

/// The greatest length of a partition table.
pub const GPT_TABLE_MAX_BYTES: u64 = 0x100_0000;

/// The type of the one partition in front of a GUID partition table.
pub const GPT_PROTECTIVE_MBR_TYPE: u8 = 0xee;

/// Why a disk holds no boot partitions.
#[derive(Clone, Copy, Debug, PartialEq, Eq, Structural)]
pub enum GptError {
    SizeOverflow,
    TooSmall,
    TooFewBlocks,
    MbrSignature,
    NoProtectivePartition,
    Signature,
    HeaderSize,
    HeaderCrc,
    NotAtFirstBlock,
    OutsideDisk,
    UsableRange,
    EntryShape,
    TableSizeOverflow,
    TableSize(u64),
    TableOffsetOverflow,
    TableExceedsDisk,
    TableCrc,
    EntryOverflow,
    EntryExceedsTable,
    EntryTooShort,
}

impl GptError {
    /// The error in words, with the name of the disk.
    pub open spec fn words(self, disk: Seq<char>) -> Seq<char> {
        match self {
            GptError::SizeOverflow => "disk "@ + disk + " byte size overflows"@,
            GptError::TooSmall => "disk "@ + disk + " is too small for GPT"@,
            GptError::TooFewBlocks => "disk "@ + disk + " has too few GPT LBAs"@,
            GptError::MbrSignature => "missing MBR signature before GPT"@,
            GptError::NoProtectivePartition => "missing GPT protective MBR partition"@,
            GptError::Signature => "GPT header signature not found"@,
            GptError::HeaderSize => "GPT header size is invalid"@,
            GptError::HeaderCrc => "GPT header CRC mismatch"@,
            GptError::NotAtFirstBlock => "primary GPT header is not at LBA1"@,
            GptError::OutsideDisk => "GPT header references LBAs outside disk"@,
            GptError::UsableRange => "GPT usable LBA range is invalid"@,
            GptError::EntryShape => "GPT partition entry shape is invalid"@,
            GptError::TableSizeOverflow => "GPT partition table size overflows"@,
            GptError::TableSize(bytes) => "GPT partition table size "@ + decimal(bytes as int)
                + " is unsupported"@,
            GptError::TableOffsetOverflow => "GPT partition table offset overflows"@,
            GptError::TableExceedsDisk => "GPT partition table exceeds disk size"@,
            GptError::TableCrc => "GPT partition entry array CRC mismatch"@,
            GptError::EntryOverflow => "GPT partition entry offset overflows"@,
            GptError::EntryExceedsTable => "GPT partition entry exceeds table"@,
            GptError::EntryTooShort => "GPT partition entry is too short"@,
        }
    }

    /// The error in words, with the name of the disk.
    pub fn message(self, disk: &str) -> (s: String)
        ensures
            s@ == self.words(disk@),
    {
        match self {
            GptError::SizeOverflow => {
                let mut s = cat("disk ", disk);
                s.append(" byte size overflows");
                s
            },
            GptError::TooSmall => {
                let mut s = cat("disk ", disk);
                s.append(" is too small for GPT");
                s
            },
            GptError::TooFewBlocks => {
                let mut s = cat("disk ", disk);
                s.append(" has too few GPT LBAs");
                s
            },
            GptError::MbrSignature => owned("missing MBR signature before GPT"),
            GptError::NoProtectivePartition => owned("missing GPT protective MBR partition"),
            GptError::Signature => owned("GPT header signature not found"),
            GptError::HeaderSize => owned("GPT header size is invalid"),
            GptError::HeaderCrc => owned("GPT header CRC mismatch"),
            GptError::NotAtFirstBlock => owned("primary GPT header is not at LBA1"),
            GptError::OutsideDisk => owned("GPT header references LBAs outside disk"),
            GptError::UsableRange => owned("GPT usable LBA range is invalid"),
            GptError::EntryShape => owned("GPT partition entry shape is invalid"),
            GptError::TableSizeOverflow => owned("GPT partition table size overflows"),
            GptError::TableSize(bytes) => {
                let mut s = owned("GPT partition table size ");
                push_decimal(&mut s, bytes);
                s.append(" is unsupported");
                s
            },
            GptError::TableOffsetOverflow => owned("GPT partition table offset overflows"),
            GptError::TableExceedsDisk => owned("GPT partition table exceeds disk size"),
            GptError::TableCrc => owned("GPT partition entry array CRC mismatch"),
            GptError::EntryOverflow => owned("GPT partition entry offset overflows"),
            GptError::EntryExceedsTable => owned("GPT partition entry exceeds table"),
            GptError::EntryTooShort => owned("GPT partition entry is too short"),
        }
    }
}

/// One bit of the checksum of IEEE 802.3, the least significant one first.
pub open spec fn crc_bit(crc: u32) -> u32 {
    if crc & 1 == 1 {
        (crc >> 1) ^ 0xedb8_8320
    } else {
        crc >> 1
    }
}

/// `n` bits of the checksum.
pub open spec fn crc_bits(crc: u32, n: int) -> u32
    decreases n,
{
    if n <= 0 {
        crc
    } else {
        crc_bit(crc_bits(crc, n - 1))
    }
}

/// The checksum register behind the first `n` bytes.
pub open spec fn crc_register(data: Seq<u8>, n: int) -> u32
    decreases n,
{
    if n <= 0 {
        0xffff_ffff
    } else {
        crc_bits(crc_register(data, n - 1) ^ (data[n - 1] as u32), 8)
    }
}

/// The checksum of IEEE 802.3.
pub open spec fn crc32(data: Seq<u8>) -> u32 {
    !crc_register(data, data.len() as int)
}

/// The checksum of IEEE 802.3.
pub fn crc32_ieee(data: &[u8]) -> (r: u32)
    ensures
        r == crc32(data@),
{
    let mut crc: u32 = 0xffff_ffff;
    let mut i: usize = 0;
    while i < data.len()
        invariant
            i <= data@.len(),
            crc == crc_register(data@, i as int),
        decreases data@.len() - i,
    {
        let ghost start = crc ^ (data@[i as int] as u32);
        crc = crc ^ (data[i] as u32);
        let mut bit: u32 = 0;
        while bit < 8
            invariant
                bit <= 8,
                crc == crc_bits(start, bit as int),
            decreases 8 - bit,
        {
            crc = if crc & 1 == 1 {
                (crc >> 1) ^ 0xedb8_8320
            } else {
                crc >> 1
            };
            bit += 1;
        }
        i += 1;
    }
    !crc
}

/// The size of a disk in bytes and in logical blocks.
pub open spec fn disk_shape(sectors_512: u64, block_size: u64) -> Result<(u64, u64), GptError> {
    if sectors_512 * 512 > u64::MAX {
        Err(GptError::SizeOverflow)
    } else if block_size * 2 > u64::MAX || sectors_512 * 512 < block_size * 2 {
        Err(GptError::TooSmall)
    } else {
        Ok(((sectors_512 * 512) as u64, (sectors_512 * 512 / block_size as int) as u64))
    }
}

/// The size of a disk in bytes and in logical blocks.
pub fn gpt_disk_shape(sectors_512: u64, block_size: u64) -> (r: Result<(u64, u64), GptError>)
    requires
        block_size > 0,
    ensures
        r == disk_shape(sectors_512, block_size),
{
    if sectors_512 > u64::MAX / 512 {
        return Err(GptError::SizeOverflow);
    }
    let bytes = sectors_512 * 512;
    if block_size > u64::MAX / 2 || bytes < block_size * 2 {
        return Err(GptError::TooSmall);
    }
    Ok((bytes, bytes / block_size))
}

/// Whether entry `i` of a master boot record covers a GUID partition table.
pub open spec fn is_protective(mbr: Seq<u8>, i: int) -> bool {
    mbr[0x1be + i * 16 + 4] == GPT_PROTECTIVE_MBR_TYPE && le32(mbr, 0x1be + i * 16 + 8) == 1
}

/// Whether a master boot record has its signature, and one of its four entries covers a GUID
/// partition table.
pub open spec fn mbr_checked(mbr: Seq<u8>) -> Result<(), GptError> {
    if !(mbr[510] == 0x55 && mbr[511] == 0xaa) {
        Err(GptError::MbrSignature)
    } else if exists|i: int| 0 <= i < 4 && #[trigger] is_protective(mbr, i) {
        Ok(())
    } else {
        Err(GptError::NoProtectivePartition)
    }
}

/// Checks the master boot record in front of a GUID partition table.
pub fn validate_protective_mbr(mbr: &[u8]) -> (r: Result<(), GptError>)
    requires
        mbr@.len() == 512,
    ensures
        r == mbr_checked(mbr@),
{
    if mbr[510] != 0x55 || mbr[511] != 0xaa {
        return Err(GptError::MbrSignature);
    }
    let mut i: usize = 0;
    while i < 4
        invariant
            i <= 4,
            mbr@.len() == 512,
            mbr@[510] == 0x55 && mbr@[511] == 0xaa,
            forall|k: int| 0 <= k < i ==> !#[trigger] is_protective(mbr@, k),
        decreases 4 - i,
    {
        let offset = 0x1be + i * 16;
        let kind = mbr[offset + 4];
        let start = le_u32(mbr, offset + 8);
        if kind == GPT_PROTECTIVE_MBR_TYPE && start == 1 {
            assert(is_protective(mbr@, i as int));
            return Ok(());
        }
        i += 1;
    }
    Err(GptError::NoProtectivePartition)
}

/// What the header of a partition table tells.
#[derive(Clone, Copy, Debug, PartialEq, Eq, Structural)]
pub struct GptHeader {
    pub first_usable_lba: u64,
    pub last_usable_lba: u64,
    pub entries_lba: u64,
    pub entry_count: u32,
    pub entry_size: u32,
    pub entry_array_crc32: u32,
}

impl GptHeader {
    /// Whether the usable blocks are a range, and the entries have a shape.
    pub open spec fn wf(self) -> bool {
        &&& self.first_usable_lba <= self.last_usable_lba
        &&& self.entry_count > 0
        &&& self.entry_size >= GPT_MIN_ENTRY_SIZE
    }
}

/// What the checksum of a header is made over: the header with zeros in place of the checksum.
pub open spec fn header_for_crc(raw: Seq<u8>, size: int) -> Seq<u8> {
    raw.take(16) + seq![0u8, 0u8, 0u8, 0u8] + raw.subrange(20, size)
}

/// What the header in `raw` tells, on a disk of `total_blocks` blocks.
pub open spec fn header_in(raw: Seq<u8>, total_blocks: u64) -> Result<GptHeader, GptError> {
    let size = le32(raw, 12);
    if raw.len() < GPT_MIN_HEADER_SIZE || !bytes_at(raw, 0, utf8("EFI PART"@)) {
        Err(GptError::Signature)
    } else if !(GPT_MIN_HEADER_SIZE <= size <= raw.len()) {
        Err(GptError::HeaderSize)
    } else if crc32(header_for_crc(raw, size as int)) != le32(raw, 16) {
        Err(GptError::HeaderCrc)
    } else if le64(raw, 24) != 1 {
        Err(GptError::NotAtFirstBlock)
    } else if le64(raw, 32) >= total_blocks || le64(raw, 72) >= total_blocks {
        Err(GptError::OutsideDisk)
    } else if le64(raw, 40) > le64(raw, 48) {
        Err(GptError::UsableRange)
    } else if le32(raw, 80) == 0 || le32(raw, 84) < GPT_MIN_ENTRY_SIZE {
        Err(GptError::EntryShape)
    } else {
        Ok(
            GptHeader {
                first_usable_lba: le64(raw, 40),
                last_usable_lba: le64(raw, 48),
                entries_lba: le64(raw, 72),
                entry_count: le32(raw, 80),
                entry_size: le32(raw, 84),
                entry_array_crc32: le32(raw, 88),
            },
        )
    }
}

/// What the header in `raw` tells, on a disk of `total_blocks` blocks.
pub fn parse_gpt_header(raw: &[u8], total_blocks: u64) -> (r: Result<GptHeader, GptError>)
    ensures
        r == header_in(raw@, total_blocks),
        r matches Ok(header) ==> header.wf() && header.entries_lba < total_blocks,
{
    if raw.len() < GPT_MIN_HEADER_SIZE || !matches_at(raw, 0, "EFI PART".as_bytes()) {
        return Err(GptError::Signature);
    }
    let size = le_u32(raw, 12) as usize;
    if size < GPT_MIN_HEADER_SIZE || size > raw.len() {
        return Err(GptError::HeaderSize);
    }
    let mut covered: Vec<u8> = Vec::new();
    push_bytes(&mut covered, &raw[0..16]);
    covered.push(0);
    covered.push(0);
    covered.push(0);
    covered.push(0);
    push_bytes(&mut covered, &raw[20..size]);
    assert(covered@ =~= header_for_crc(raw@, size as int));
    if crc32_ieee(covered.as_slice()) != le_u32(raw, 16) {
        return Err(GptError::HeaderCrc);
    }
    if le_u64(raw, 24) != 1 {
        return Err(GptError::NotAtFirstBlock);
    }
    let entries_lba = le_u64(raw, 72);
    if le_u64(raw, 32) >= total_blocks || entries_lba >= total_blocks {
        return Err(GptError::OutsideDisk);
    }
    let first_usable_lba = le_u64(raw, 40);
    let last_usable_lba = le_u64(raw, 48);
    if first_usable_lba > last_usable_lba {
        return Err(GptError::UsableRange);
    }
    let entry_count = le_u32(raw, 80);
    let entry_size = le_u32(raw, 84);
    if entry_count == 0 || (entry_size as usize) < GPT_MIN_ENTRY_SIZE {
        return Err(GptError::EntryShape);
    }
    Ok(
        GptHeader {
            first_usable_lba,
            last_usable_lba,
            entries_lba,
            entry_count,
            entry_size,
            entry_array_crc32: le_u32(raw, 88),
        },
    )
}

/// Where the partition table stands on the disk, and its length.
pub open spec fn table_place(header: GptHeader, block_size: u64, total_bytes: u64) -> Result<
    (u64, u64),
    GptError,
> {
    let length = header.entry_count * header.entry_size;
    let offset = header.entries_lba * block_size;
    if length > u64::MAX {
        Err(GptError::TableSizeOverflow)
    } else if length == 0 || length > GPT_TABLE_MAX_BYTES {
        Err(GptError::TableSize(length as u64))
    } else if offset > u64::MAX {
        Err(GptError::TableOffsetOverflow)
    } else if offset + length > total_bytes {
        Err(GptError::TableExceedsDisk)
    } else {
        Ok((offset as u64, length as u64))
    }
}

/// Where the partition table stands on the disk, and its length.
pub fn gpt_table_place(header: &GptHeader, block_size: u64, total_bytes: u64) -> (r: Result<
    (u64, u64),
    GptError,
>)
    ensures
        r == table_place(*header, block_size, total_bytes),
{
    let length = match (header.entry_count as u64).checked_mul(header.entry_size as u64) {
        Some(length) => length,
        None => return Err(GptError::TableSizeOverflow),
    };
    if length == 0 || length > GPT_TABLE_MAX_BYTES {
        return Err(GptError::TableSize(length));
    }
    let offset = match header.entries_lba.checked_mul(block_size) {
        Some(offset) => offset,
        None => return Err(GptError::TableOffsetOverflow),
    };
    if length > u64::MAX - offset || offset + length > total_bytes {
        return Err(GptError::TableExceedsDisk);
    }
    Ok((offset, length))
}

/// A partition that the table tells of.
#[derive(Clone, Copy, Debug, PartialEq, Eq, Structural)]
pub struct GptEntry {
    pub partno: u32,
    pub unused: bool,
    pub role: Option<BootPartitionRole>,
    pub first_lba: u64,
    pub last_lba: u64,
}

impl GptEntry {
    /// Whether the entry tells of no partition.
    pub fn is_unused(&self) -> (r: bool)
        ensures
            r == self.unused,
    {
        self.unused
    }
}

/// The type of an EFI system partition.
pub open spec fn esp_guid() -> Seq<u8> {
    seq![
        0x28u8, 0x73u8, 0x2au8, 0xc1u8, 0x1fu8, 0xf8u8, 0xd2u8, 0x11u8,
        0xbau8, 0x4bu8, 0x00u8, 0xa0u8, 0xc9u8, 0x3eu8, 0xc9u8, 0x3bu8,
    ]
}

/// The type of an extended boot loader partition.
pub open spec fn xbootldr_guid() -> Seq<u8> {
    seq![
        0xffu8, 0xc2u8, 0x13u8, 0xbcu8, 0xe6u8, 0x59u8, 0x62u8, 0x42u8,
        0xa3u8, 0x52u8, 0xb2u8, 0x75u8, 0xfdu8, 0x6fu8, 0x71u8, 0x72u8,
    ]
}

/// What a partition of a type is for.
pub open spec fn role_of(guid: Seq<u8>) -> Option<BootPartitionRole> {
    if guid == xbootldr_guid() {
        Some(BootPartitionRole::Xbootldr)
    } else if guid == esp_guid() {
        Some(BootPartitionRole::Esp)
    } else {
        None
    }
}

/// What a partition of a type is for.
pub fn boot_role_for_guid(guid: &[u8]) -> (r: Option<BootPartitionRole>)
    ensures
        r == role_of(guid@),
{
    let xbootldr: [u8; 16] = [
        0xff, 0xc2, 0x13, 0xbc, 0xe6, 0x59, 0x62, 0x42, 0xa3, 0x52, 0xb2, 0x75, 0xfd, 0x6f, 0x71,
        0x72,
    ];
    let esp: [u8; 16] = [
        0x28, 0x73, 0x2a, 0xc1, 0x1f, 0xf8, 0xd2, 0x11, 0xba, 0x4b, 0x00, 0xa0, 0xc9, 0x3e, 0xc9,
        0x3b,
    ];
    assert(xbootldr@ =~= xbootldr_guid());
    assert(esp@ =~= esp_guid());
    if same_bytes(guid, xbootldr.as_slice()) {
        Some(BootPartitionRole::Xbootldr)
    } else if same_bytes(guid, esp.as_slice()) {
        Some(BootPartitionRole::Esp)
    } else {
        None
    }
}

/// The partition that an entry tells of.
pub open spec fn entry_in(raw: Seq<u8>, partno: u32) -> Result<GptEntry, GptError> {
    if raw.len() < GPT_MIN_ENTRY_SIZE {
        Err(GptError::EntryTooShort)
    } else {
        Ok(
            GptEntry {
                partno,
                unused: forall|i: int| 0 <= i < 16 ==> #[trigger] raw[i] == 0,
                role: role_of(raw.take(16)),
                first_lba: le64(raw, 32),
                last_lba: le64(raw, 40),
            },
        )
    }
}

/// The partition that an entry tells of.
pub fn parse_gpt_entry(raw: &[u8], partno: u32) -> (r: Result<GptEntry, GptError>)
    ensures
        r == entry_in(raw@, partno),
{
    if raw.len() < GPT_MIN_ENTRY_SIZE {
        return Err(GptError::EntryTooShort);
    }
    let mut unused = true;
    let mut i: usize = 0;
    while i < 16
        invariant
            i <= 16,
            raw@.len() >= 128,
            unused == forall|k: int| 0 <= k < i ==> #[trigger] raw@[k] == 0,
        decreases 16 - i,
    {
        if raw[i] != 0 {
            unused = false;
        }
        i += 1;
    }
    let guid = &raw[0..16];
    assert(guid@ =~= raw@.take(16));
    Ok(
        GptEntry {
            partno,
            unused,
            role: boot_role_for_guid(guid),
            first_lba: le_u64(raw, 32),
            last_lba: le_u64(raw, 40),
        },
    )
}

/// Entry `index` of a partition table.
pub open spec fn raw_entry(table: Seq<u8>, entry_size: u32, index: int) -> Result<
    Seq<u8>,
    GptError,
> {
    let offset = index * entry_size;
    if offset > usize::MAX || offset + entry_size > usize::MAX {
        Err(GptError::EntryOverflow)
    } else if offset + entry_size > table.len() {
        Err(GptError::EntryExceedsTable)
    } else {
        Ok(table.subrange(offset, offset + entry_size))
    }
}

/// Entry `index` of a partition table.
fn entry_slice<'a>(table: &'a [u8], entry_size: u32, index: u32) -> (r: Result<
    &'a [u8],
    GptError,
>)
    ensures
        raw_entry(table@, entry_size, index as int) == (match r {
            Ok(raw) => Ok(raw@),
            Err(e) => Err(e),
        }),
{
    let size = entry_size as usize;
    proof {
        assert(0 <= index * entry_size) by (nonlinear_arith);
    }
    let offset = match (index as usize).checked_mul(size) {
        Some(offset) => offset,
        None => return Err(GptError::EntryOverflow),
    };
    if size > usize::MAX - offset {
        return Err(GptError::EntryOverflow);
    }
    if offset + size > table.len() {
        return Err(GptError::EntryExceedsTable);
    }
    Ok(&table[offset..offset + size])
}

/// Whether the blocks of a partition are usable ones of the disk.
pub open spec fn sound_blocks(entry: GptEntry, header: GptHeader, total_blocks: u64) -> bool {
    &&& header.first_usable_lba <= entry.first_lba <= entry.last_lba
    &&& entry.last_lba <= header.last_usable_lba
    &&& entry.last_lba < total_blocks
}

/// A partition device of a disk: what it tells as its number, and its name. White space around
/// the number says nothing.
#[derive(Debug)]
pub struct PartitionDevice {
    pub number: String,
    pub name: String,
}

/// The name of the first device from number `i` on that tells `partno` as its number.
pub open spec fn device_named(devices: Seq<PartitionDevice>, partno: u32, i: int) -> Option<
    Seq<char>,
>
    decreases devices.len() - i,
{
    if i < 0 || i >= devices.len() {
        None
    } else if parse_number(trim(devices[i].number@), 10, u32::MAX as nat) == Some(partno as nat) {
        Some(devices[i].name@)
    } else {
        device_named(devices, partno, i + 1)
    }
}

/// The name of the first device that tells `partno` as its number.
pub fn partition_name_for_partno(devices: &[PartitionDevice], partno: u32) -> (r: Option<String>)
    ensures
        device_named(devices@, partno, 0) == (match r {
            Some(name) => Some(name@),
            None => None,
        }),
{
    let mut i: usize = 0;
    while i < devices.len()
        invariant
            i <= devices@.len(),
            device_named(devices@, partno, 0) == device_named(devices@, partno, i as int),
        decreases devices@.len() - i,
    {
        let digits = chars(devices[i].number.as_str());
        if let Some(n) = parse_unsigned(trim_chars(&digits), 10, 0xffff_ffff) {
            if n == partno as u64 {
                return Some(owned(devices[i].name.as_str()));
            }
        }
        i += 1;
    }
    None
}

/// The candidate that entry `index` of a table gives: a partition in use, of usable blocks, of a
/// boot type, that the kernel has a device for.
pub open spec fn candidate_at(
    disk: Seq<char>,
    removable: bool,
    table: Seq<u8>,
    header: GptHeader,
    total_blocks: u64,
    devices: Seq<PartitionDevice>,
    index: int,
) -> Result<Option<CandidateView>, GptError> {
    match raw_entry(table, header.entry_size, index) {
        Err(e) => Err(e),
        Ok(raw) => match entry_in(raw, (index + 1) as u32) {
            Err(e) => Err(e),
            Ok(entry) => if entry.unused || !sound_blocks(entry, header, total_blocks) {
                Ok(None)
            } else {
                match (entry.role, device_named(devices, entry.partno, 0)) {
                    (Some(role), Some(name)) => Ok(
                        Some(
                            CandidateView {
                                disk,
                                partition: name,
                                partno: entry.partno,
                                role,
                                dev_path: "/dev/"@ + name,
                                removable,
                            },
                        ),
                    ),
                    _ => Ok(None),
                }
            },
        },
    }
}

/// The candidates that the entries of a table give.
pub open spec fn candidate_reader(
    disk: Seq<char>,
    removable: bool,
    table: Seq<u8>,
    header: GptHeader,
    total_blocks: u64,
    devices: Seq<PartitionDevice>,
) -> spec_fn(int) -> Result<Option<CandidateView>, GptError> {
    |index: int| candidate_at(disk, removable, table, header, total_blocks, devices, index)
}

/// The boot partitions of a disk.
pub open spec fn boot_partitions(
    disk: Seq<char>,
    removable: bool,
    table: Seq<u8>,
    header: GptHeader,
    total_blocks: u64,
    devices: Seq<PartitionDevice>,
) -> Result<Seq<CandidateView>, GptError> {
    if crc32(table) != header.entry_array_crc32 {
        Err(GptError::TableCrc)
    } else {
        gathered(
            candidate_reader(disk, removable, table, header, total_blocks, devices),
            header.entry_count as int,
        )
    }
}

/// The candidate that entry `index` of a table gives.
fn read_candidate(
    disk: &str,
    removable: bool,
    table: &[u8],
    header: &GptHeader,
    total_blocks: u64,
    devices: &[PartitionDevice],
    index: u32,
) -> (r: Result<Option<BootPartitionCandidate>, GptError>)
    requires
        index < u32::MAX,
    ensures
        candidate_at(
            disk@,
            removable,
            table@,
            *header,
            total_blocks,
            devices@,
            index as int,
        ) == (match r {
            Ok(Some(candidate)) => Ok(Some(candidate@)),
            Ok(None) => Ok(None),
            Err(e) => Err(e),
        }),
{
    let raw = entry_slice(table, header.entry_size, index)?;
    let entry = parse_gpt_entry(raw, index + 1)?;
    if entry.is_unused() {
        return Ok(None);
    }
    if entry.first_lba < header.first_usable_lba || entry.last_lba > header.last_usable_lba
        || entry.last_lba >= total_blocks || entry.last_lba < entry.first_lba {
        return Ok(None);
    }
    let role = match entry.role {
        Some(role) => role,
        None => return Ok(None),
    };
    let name = match partition_name_for_partno(devices, entry.partno) {
        Some(name) => name,
        None => return Ok(None),
    };
    let dev_path = cat("/dev/", name.as_str());
    Ok(
        Some(
            BootPartitionCandidate {
                disk: owned(disk),
                partition: name,
                partno: entry.partno,
                role,
                dev_path,
                removable,
            },
        ),
    )
}

/// The boot partitions of a disk.
pub fn gpt_boot_partitions(
    disk: &str,
    removable: bool,
    table: &[u8],
    header: &GptHeader,
    total_blocks: u64,
    devices: &[PartitionDevice],
) -> (r: Result<Vec<BootPartitionCandidate>, GptError>)
    ensures
        boot_partitions(
            disk@,
            removable,
            table@,
            *header,
            total_blocks,
            devices@,
        ) == (match r {
            Ok(candidates) => Ok(candidate_views(candidates@)),
            Err(e) => Err(e),
        }),
{
    if crc32_ieee(table) != header.entry_array_crc32 {
        return Err(GptError::TableCrc);
    }
    let ghost reader = candidate_reader(
        disk@,
        removable,
        table@,
        *header,
        total_blocks,
        devices@,
    );
    let mut candidates: Vec<BootPartitionCandidate> = Vec::new();
    let mut index: u32 = 0;
    assert(candidate_views(candidates@) =~= Seq::<CandidateView>::empty());
    while index < header.entry_count
        invariant
            index <= header.entry_count,
            crc32(table@) == header.entry_array_crc32,
            reader == candidate_reader(
                disk@,
                removable,
                table@,
                *header,
                total_blocks,
                devices@,
            ),
            gathered(reader, index as int) == Ok::<Seq<CandidateView>, GptError>(
                candidate_views(candidates@),
            ),
        decreases header.entry_count - index,
    {
        let ghost before = candidates@;
        match read_candidate(disk, removable, table, header, total_blocks, devices, index) {
            Err(e) => {
                proof {
                    lemma_gathered_failure(reader, index + 1, header.entry_count as int);
                }
                return Err(e);
            },
            Ok(None) => {},
            Ok(Some(candidate)) => {
                candidates.push(candidate);
                assert(candidate_views(candidates@) =~= candidate_views(before).push(candidate@));
            },
        }
        index += 1;
    }
    Ok(candidates)
}

/// Whether the first `n` entries of a table give the candidates: each from the entry of its number,
/// in order.
pub open spec fn come_from_entries(
    candidates: Seq<CandidateView>,
    disk: Seq<char>,
    removable: bool,
    table: Seq<u8>,
    header: GptHeader,
    total_blocks: u64,
    devices: Seq<PartitionDevice>,
    n: int,
) -> bool {
    &&& forall|k: int|
        0 <= k < candidates.len() ==> {
            let candidate = #[trigger] candidates[k];
            &&& 1 <= candidate.partno <= n
            &&& candidate_at(
                disk,
                removable,
                table,
                header,
                total_blocks,
                devices,
                candidate.partno - 1,
            ) == Ok::<Option<CandidateView>, GptError>(Some(candidate))
        }
    &&& forall|j: int, k: int|
        0 <= j < k < candidates.len() ==> (#[trigger] candidates[j]).partno < (
        #[trigger] candidates[k]).partno
}

proof fn lemma_candidates(
    disk: Seq<char>,
    removable: bool,
    table: Seq<u8>,
    header: GptHeader,
    total_blocks: u64,
    devices: Seq<PartitionDevice>,
    n: int,
)
    requires
        0 <= n <= u32::MAX,
    ensures
        gathered(
            candidate_reader(disk, removable, table, header, total_blocks, devices),
            n,
        ) matches Ok(candidates) ==> come_from_entries(
            candidates,
            disk,
            removable,
            table,
            header,
            total_blocks,
            devices,
            n,
        ),
    decreases n,
{
    if n > 0 {
        lemma_candidates(disk, removable, table, header, total_blocks, devices, n - 1);
        let reader = candidate_reader(disk, removable, table, header, total_blocks, devices);
        assert(reader(n - 1) == candidate_at(
            disk,
            removable,
            table,
            header,
            total_blocks,
            devices,
            n - 1,
        ));
    }
}

/// Every boot partition of a disk comes from an entry of its table that is in use, has the kind of
/// a boot partition and lies inside the usable blocks of the disk; no entry gives two.
pub proof fn law_boot_partitions_are_sound(
    disk: Seq<char>,
    removable: bool,
    table: Seq<u8>,
    header: GptHeader,
    total_blocks: u64,
    devices: Seq<PartitionDevice>,
)
    ensures
        boot_partitions(disk, removable, table, header, total_blocks, devices) matches Ok(
            candidates,
        ) ==> {
            &&& forall|k: int|
                0 <= k < candidates.len() ==> {
                    let candidate = #[trigger] candidates[k];
                    &&& raw_entry(table, header.entry_size, candidate.partno - 1) matches Ok(raw)
                    &&& entry_in(raw, candidate.partno) matches Ok(entry)
                    &&& !entry.unused
                    &&& entry.role == Some(candidate.role)
                    &&& header.first_usable_lba <= entry.first_lba <= entry.last_lba
                        <= header.last_usable_lba
                    &&& entry.last_lba < total_blocks
                    &&& candidate.disk == disk
                    &&& candidate.removable == removable
                }
            &&& forall|j: int, k: int|
                0 <= j < k < candidates.len() ==> (#[trigger] candidates[j]).partno < (
                #[trigger] candidates[k]).partno
        },
{
    lemma_candidates(
        disk,
        removable,
        table,
        header,
        total_blocks,
        devices,
        header.entry_count as int,
    );
}

proof fn lemma_all_candidates(
    disk: Seq<char>,
    removable: bool,
    table: Seq<u8>,
    header: GptHeader,
    total_blocks: u64,
    devices: Seq<PartitionDevice>,
    n: int,
    index: int,
)
    requires
        0 <= index < n <= header.entry_count,
        gathered(
            candidate_reader(disk, removable, table, header, total_blocks, devices),
            n,
        ) is Ok,
        candidate_at(disk, removable, table, header, total_blocks, devices, index) matches Ok(
            Some(_),
        ),
    ensures
        ({
            let candidate = candidate_at(
                disk,
                removable,
                table,
                header,
                total_blocks,
                devices,
                index,
            )->Ok_0->0;
            gathered(
                candidate_reader(disk, removable, table, header, total_blocks, devices),
                n,
            )->Ok_0.contains(candidate)
        }),
    decreases n,
{
    let reader = candidate_reader(disk, removable, table, header, total_blocks, devices);
    assert(reader(n - 1) == candidate_at(
        disk,
        removable,
        table,
        header,
        total_blocks,
        devices,
        n - 1,
    ));
    let wanted = candidate_at(
        disk,
        removable,
        table,
        header,
        total_blocks,
        devices,
        index,
    )->Ok_0->0;
    let all = gathered(reader, n)->Ok_0;
    if index < n - 1 {
        lemma_all_candidates(
            disk,
            removable,
            table,
            header,
            total_blocks,
            devices,
            n - 1,
            index,
        );
        let front = gathered(reader, n - 1)->Ok_0;
        let k = choose|k: int| 0 <= k < front.len() && front[k] == wanted;
        assert(all[k] == wanted);
    } else {
        assert(all[all.len() - 1] == wanted);
    }
}

proof fn lemma_entries_there(
    disk: Seq<char>,
    removable: bool,
    table: Seq<u8>,
    header: GptHeader,
    total_blocks: u64,
    devices: Seq<PartitionDevice>,
    n: int,
)
    requires
        0 <= n <= header.entry_count,
        header.entry_size >= 128,
        header.entry_count * header.entry_size <= table.len() <= usize::MAX,
    ensures
        gathered(
            candidate_reader(disk, removable, table, header, total_blocks, devices),
            n,
        ) is Ok,
    decreases n,
{
    if n > 0 {
        lemma_entries_there(disk, removable, table, header, total_blocks, devices, n - 1);
        lemma_entry_place(header, n - 1);
        let reader = candidate_reader(disk, removable, table, header, total_blocks, devices);
        assert(reader(n - 1) == candidate_at(
            disk,
            removable,
            table,
            header,
            total_blocks,
            devices,
            n - 1,
        ));
    }
}

proof fn lemma_entry_place(header: GptHeader, index: int)
    requires
        0 <= index < header.entry_count,
    ensures
        0 <= index * header.entry_size,
        index * header.entry_size + header.entry_size <= header.entry_count * header.entry_size,
{
    assert(index * header.entry_size + header.entry_size <= header.entry_count * header.entry_size)
        by (nonlinear_arith)
        requires
            0 <= index < header.entry_count,
            0 <= header.entry_size,
    ;
    assert(0 <= index * header.entry_size) by (nonlinear_arith)
        requires
            0 <= index,
            0 <= header.entry_size,
    ;
}

proof fn lemma_device_named(devices: Seq<PartitionDevice>, partno: u32, i: int, k: int)
    requires
        0 <= i <= k < devices.len(),
        parse_number(trim(devices[k].number@), 10, u32::MAX as nat) == Some(partno as nat),
        forall|j: int|
            i <= j < k ==> parse_number(
                trim((#[trigger] devices[j]).number@),
                10,
                u32::MAX as nat,
            ) != Some(partno as nat),
    ensures
        device_named(devices, partno, i) == Some(devices[k].name@),
    decreases k - i,
{
    if i < k {
        lemma_device_named(devices, partno, i + 1, k);
    }
}

/// Every boot partition of a disk is found: an entry of the table with the type of an EFI system
/// partition or of an extended boot loader partition, whose blocks are usable ones of the disk and
/// for which the kernel has a device of its number, gives a candidate with that role and device. The
/// table itself is taken wherever it has its checksum and all of its entries.
pub proof fn law_every_boot_partition_is_found(
    disk: Seq<char>,
    removable: bool,
    table: Seq<u8>,
    header: GptHeader,
    total_blocks: u64,
    devices: Seq<PartitionDevice>,
    index: int,
    device: int,
)
    requires
        header.entry_size >= 128,
        header.entry_count * header.entry_size <= table.len() <= usize::MAX,
        crc32(table) == header.entry_array_crc32,
        0 <= index < header.entry_count,
        index + 1 <= u32::MAX,
        0 <= device < devices.len(),
        parse_number(trim(devices[device].number@), 10, u32::MAX as nat) == Some(
            (index + 1) as nat,
        ),
        forall|j: int|
            0 <= j < device ==> parse_number(
                trim((#[trigger] devices[j]).number@),
                10,
                u32::MAX as nat,
            ) != Some((index + 1) as nat),
    ensures
        boot_partitions(disk, removable, table, header, total_blocks, devices) is Ok,
        ({
            let at = index * header.entry_size;
            let kind = table.subrange(at, at + 16);
            let first = le64(table, at + 32);
            let last = le64(table, at + 40);
            let esp = seq![
                0x28u8, 0x73u8, 0x2au8, 0xc1u8, 0x1fu8, 0xf8u8, 0xd2u8, 0x11u8,
                0xbau8, 0x4bu8, 0x00u8, 0xa0u8, 0xc9u8, 0x3eu8, 0xc9u8, 0x3bu8,
            ];
            let xbootldr = seq![
                0xffu8, 0xc2u8, 0x13u8, 0xbcu8, 0xe6u8, 0x59u8, 0x62u8, 0x42u8,
                0xa3u8, 0x52u8, 0xb2u8, 0x75u8, 0xfdu8, 0x6fu8, 0x71u8, 0x72u8,
            ];
            (kind == esp || kind == xbootldr) && header.first_usable_lba <= first <= last
                && last <= header.last_usable_lba && last < total_blocks ==> boot_partitions(
                disk,
                removable,
                table,
                header,
                total_blocks,
                devices,
            )->Ok_0.contains(
                (CandidateView {
                    disk,
                    partition: devices[device].name@,
                    partno: (index + 1) as u32,
                    role: if kind == esp {
                        BootPartitionRole::Esp
                    } else {
                        BootPartitionRole::Xbootldr
                    },
                    dev_path: "/dev/"@ + devices[device].name@,
                    removable,
                }),
            )
        }),
{
    let n = header.entry_count as int;
    lemma_entries_there(disk, removable, table, header, total_blocks, devices, n);
    lemma_entry_place(header, index);
    lemma_device_named(devices, (index + 1) as u32, 0, device);
    let at = index * header.entry_size;
    let raw = table.subrange(at, at + header.entry_size);
    let kind = table.subrange(at, at + 16);
    assert(raw.take(16) =~= kind);
    assert(le64(raw, 32) == le64(table, at + 32));
    assert(le64(raw, 40) == le64(table, at + 40));
    assert(esp_guid()[0] == 0x28 && xbootldr_guid()[0] == 0xff);
    assert(raw[0] == kind[0]);
    let found = candidate_at(disk, removable, table, header, total_blocks, devices, index);
    if (kind == esp_guid() || kind == xbootldr_guid()) && header.first_usable_lba <= le64(
        table,
        at + 32,
    ) <= le64(table, at + 40) && le64(table, at + 40) <= header.last_usable_lba && le64(
        table,
        at + 40,
    ) < total_blocks {
        assert(found matches Ok(Some(_)));
        lemma_all_candidates(
            disk,
            removable,
            table,
            header,
            total_blocks,
            devices,
            n,
            index,
        );
    }
}

/// The header of a partition table is taken where it starts with `EFI PART`, has its checksum, stands
/// in block one, and tells blocks of the disk and entries of at least 128 bytes; what it tells is
/// read from the places that the format has for it.
pub proof fn law_sound_headers_are_read(raw: Seq<u8>, total_blocks: u64)
    requires
        raw.len() >= 92,
        raw.take(8) == seq![0x45u8, 0x46u8, 0x49u8, 0x20u8, 0x50u8, 0x41u8, 0x52u8, 0x54u8],
        92 <= le32(raw, 12) <= raw.len(),
        crc32(raw.take(16) + seq![0u8, 0u8, 0u8, 0u8] + raw.subrange(20, le32(raw, 12) as int))
            == le32(raw, 16),
        le64(raw, 24) == 1,
        le64(raw, 32) < total_blocks,
        le64(raw, 40) <= le64(raw, 48),
        le64(raw, 72) < total_blocks,
        le32(raw, 80) > 0,
        le32(raw, 84) >= 128,
    ensures
        header_in(raw, total_blocks) matches Ok(header) && header.first_usable_lba == le64(raw, 40)
            && header.last_usable_lba == le64(raw, 48) && header.entries_lba == le64(raw, 72)
            && header.entry_count == le32(raw, 80) && header.entry_size == le32(raw, 84)
            && header.entry_array_crc32 == le32(raw, 88),
{
    reveal_strlit("EFI PART");
    vstd::utf8::is_ascii_chars_encode_utf8("EFI PART"@);
    let front = raw.take(8);
    assert(utf8("EFI PART"@) =~= front);
    assert(raw.subrange(0, 8) =~= front);
}

/// The table of a disk stands at the block that its header tells, and is as long as its entries are
/// together.
pub proof fn law_tables_are_where_their_headers_say(
    header: GptHeader,
    block_size: u64,
    total_bytes: u64,
)
    requires
        0 < header.entry_count * header.entry_size <= 0x100_0000,
        header.entries_lba * block_size + header.entry_count * header.entry_size <= total_bytes,
        0 <= header.entries_lba * block_size,
    ensures
        table_place(header, block_size, total_bytes) matches Ok((offset, length)) && offset
            == header.entries_lba * block_size && length == header.entry_count
            * header.entry_size,
{
}

/// The master boot record before a table is taken where it has its signature and one of its four
/// entries is of the kind that stands for the table and starts at block one.
pub proof fn law_protective_records_are_taken(mbr: Seq<u8>, i: int)
    requires
        mbr.len() == 512,
        0 <= i < 4,
        mbr[510] == 0x55,
        mbr[511] == 0xaa,
        mbr[446 + 16 * i + 4] == 0xee,
        le32(mbr, 446 + 16 * i + 8) == 1,
    ensures
        mbr_checked(mbr) is Ok,
{
    assert(is_protective(mbr, i));
}

/// A damaged table is refused: a header is taken only with its mark, with a length that fits, with
/// the checksum of its own bytes, at the first block, with its entries on the disk and a usable range
/// in order; and the boot partitions are told only where the entries have the checksum of the header.
pub proof fn law_damaged_tables_are_refused(
    raw: Seq<u8>,
    total_blocks: u64,
    disk: Seq<char>,
    removable: bool,
    table: Seq<u8>,
    header: GptHeader,
    devices: Seq<PartitionDevice>,
)
    ensures
        header_in(raw, total_blocks) matches Ok(h) ==> {
            let size = le32(raw, 12) as int;
            &&& raw.len() >= 92
            &&& raw.take(8) == seq![0x45u8, 0x46u8, 0x49u8, 0x20u8, 0x50u8, 0x41u8, 0x52u8, 0x54u8]
            &&& 92 <= size <= raw.len()
            &&& crc32(raw.take(16) + seq![0u8, 0u8, 0u8, 0u8] + raw.subrange(20, size)) == le32(
                raw,
                16,
            )
            &&& le64(raw, 24) == 1
            &&& le64(raw, 32) < total_blocks
            &&& h.entries_lba < total_blocks
            &&& h.first_usable_lba <= h.last_usable_lba
            &&& h.entry_count > 0
            &&& h.entry_size >= 128
        },
        boot_partitions(disk, removable, table, header, total_blocks, devices) is Ok ==> crc32(table)
            == header.entry_array_crc32,
{
    reveal_strlit("EFI PART");
    vstd::utf8::is_ascii_chars_encode_utf8("EFI PART"@);
    let mark = seq![0x45u8, 0x46u8, 0x49u8, 0x20u8, 0x50u8, 0x41u8, 0x52u8, 0x54u8];
    assert(utf8("EFI PART"@) =~= mark);
    if header_in(raw, total_blocks) is Ok {
        assert(raw.take(8) =~= raw.subrange(0, 8));
    }
}

} // verus!
