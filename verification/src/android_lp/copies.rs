//! Reading one of two copies, and what a refusal is about.
use vstd::prelude::*;
use vstd::string::*;

use crate::android_lp::{
    base_of, device_name, effective_name, fixed_name, geometry_of, metadata_of, parse_geometry,
    parse_metadata, partition_name, slot_name, slot_suffix, sound_request, suffix_of,
    suffixed_name, table_entry, validate_mapping_component, DeviceView, Geometry, LpError,
    Metadata, MetadataCopy, MetadataView, Table, TableDescriptor, BLOCK_DEVICE_SLOT_SUFFIXED,
    PARTITION_ATTR_SLOT_SUFFIXED,
};
use crate::bytes::{le32, le_u32};
use crate::text::{cat, owned, precedes, strip_suffix, text_before, texts};

verus! {

/// What reading a copy of the metadata gave: its bytes, or the words on why it cannot be read.
#[derive(Debug)]
pub enum CopyRead {
    Bytes(Vec<u8>),
    Failed(String),
}

/// Why neither of two copies was taken.
pub open spec fn both_refused(
    what: Seq<char>,
    first: Seq<char>,
    backup: Seq<char>,
    second: Seq<char>,
) -> Seq<char> {
    "primary LP "@ + what + " invalid ("@ + first + "); "@ + backup + " invalid ("@ + second + ")"@
}

fn both_refused_text(what: &str, first: &str, backup: &str, second: &str) -> (s: String)
    ensures
        s@ == both_refused(what@, first@, backup@, second@),
{
    let mut s = cat("primary LP ", what);
    s.append(" invalid (");
    s.append(first);
    s.append("); ");
    s.append(backup);
    s.append(" invalid (");
    s.append(second);
    s.append(")");
    s
}

/// The geometry, from its first block or else from its second, or why there is none. Nothing,
/// where the second block has yet to be read.
pub open spec fn geometry_from(primary: Seq<u8>, backup: Option<Seq<u8>>) -> Option<
    Result<Geometry, Seq<char>>,
> {
    match geometry_of(primary) {
        Ok(geometry) => Some(Ok(geometry)),
        Err(first) => match backup {
            None => None,
            Some(block) => Some(
                match geometry_of(block) {
                    Ok(geometry) => Ok(geometry),
                    Err(second) => Err(
                        both_refused(
                            "geometry"@,
                            first.words(Seq::empty(), Seq::empty()),
                            "backup"@,
                            second.words(Seq::empty(), Seq::empty()),
                        ),
                    ),
                },
            ),
        },
    }
}

/// The geometry, from its first block or else from its second, which has to be read only where
/// the first is refused.
pub fn read_geometry(primary: &[u8], backup: Option<&[u8]>) -> (r: Option<Result<Geometry, String>>)
    ensures
        geometry_from(
            primary@,
            match backup {
                Some(block) => Some(block@),
                None => None,
            },
        ) == (match r {
            Some(Ok(geometry)) => Some(Ok(geometry)),
            Some(Err(text)) => Some(Err(text@)),
            None => None,
        }),
        r matches Some(Ok(geometry)) ==> geometry.wf(),
{
    match parse_geometry(primary) {
        Ok(geometry) => Some(Ok(geometry)),
        Err(first) => match backup {
            None => None,
            Some(block) => match parse_geometry(block) {
                Ok(geometry) => Some(Ok(geometry)),
                Err(second) => {
                    proof {
                        reveal_strlit("");
                    }
                    assert(""@ =~= Seq::<char>::empty());
                    Some(
                        Err(
                            both_refused_text(
                                "geometry",
                                first.message("", "").as_str(),
                                "backup",
                                second.message("", "").as_str(),
                            ),
                        ),
                    )
                },
            },
        },
    }
}

/// The tables that follow the header of the metadata.
pub open spec fn tables_in(bytes: Seq<u8>) -> Seq<u8> {
    let start = le32(bytes, 8) as int;
    let end = start + le32(bytes, 44);
    if bytes.len() < 128 || end > bytes.len() {
        Seq::empty()
    } else {
        bytes.subrange(start, end)
    }
}

/// The tables that follow the header of the metadata.
fn tables<'a>(bytes: &'a [u8]) -> (r: &'a [u8])
    ensures
        r@ == tables_in(bytes@),
{
    if bytes.len() < 128 {
        return &bytes[0..0];
    }
    let start = le_u32(bytes, 8) as usize;
    let size = le_u32(bytes, 44) as usize;
    if start > bytes.len() || size > bytes.len() - start {
        return &bytes[0..0];
    }
    &bytes[start..start + size]
}

/// The descriptor of a table, as it stands at `offset` of the header.
pub open spec fn told_descriptor(bytes: Seq<u8>, offset: int) -> TableDescriptor {
    TableDescriptor {
        offset: le32(bytes, offset) as usize,
        entries: le32(bytes, offset + 4) as usize,
        entry_size: le32(bytes, offset + 8) as usize,
    }
}

/// The name of entry `index` of the partitions, or of the block devices, that the metadata lists.
pub open spec fn listed_name(bytes: Seq<u8>, table: Table, index: int) -> Option<Seq<char>> {
    if bytes.len() < 128 {
        None
    } else {
        match table {
            Table::Partition => partition_name(
                tables_in(bytes),
                told_descriptor(bytes, 80),
                index,
            ),
            Table::BlockDevice => device_name(tables_in(bytes), told_descriptor(bytes, 116), index),
            _ => None,
        }
    }
}

/// The text of a name, if there is one.
pub open spec fn or_nothing(name: Option<Seq<char>>) -> Seq<char> {
    match name {
        Some(name) => name,
        None => Seq::empty(),
    }
}

/// The name of the partition or the block device for which the metadata in `bytes` is refused.
pub open spec fn refused_entry(bytes: Seq<u8>, error: LpError) -> Seq<char> {
    match error {
        LpError::DuplicateBlockDevice(index)
        | LpError::BlockDeviceFlags(index, _)
        | LpError::BlockDeviceSize(index, _) => or_nothing(
            listed_name(bytes, Table::BlockDevice, index as int),
        ),
        LpError::DuplicatePartition(index)
        | LpError::PartitionAttributes(index, _)
        | LpError::ExtentsExceed(index)
        | LpError::NoExtents(index)
        | LpError::MissingGroup(index, _) => or_nothing(
            listed_name(bytes, Table::Partition, index as int),
        ),
        _ => Seq::empty(),
    }
}

/// The name of entry `index` of the partitions, or of the block devices, that the metadata lists.
fn entry_name(bytes: &[u8], devices: bool, index: usize) -> (s: String)
    ensures
        s@ == or_nothing(
            listed_name(
                bytes@,
                if devices {
                    Table::BlockDevice
                } else {
                    Table::Partition
                },
                index as int,
            ),
        ),
{
    if bytes.len() < 128 {
        return String::new();
    }
    let at: usize = if devices {
        116
    } else {
        80
    };
    let descriptor = TableDescriptor {
        offset: le_u32(bytes, at) as usize,
        entries: le_u32(bytes, at + 4) as usize,
        entry_size: le_u32(bytes, at + 8) as usize,
    };
    let (table, start, least): (Table, usize, usize) = if devices {
        (Table::BlockDevice, 24, 64)
    } else {
        (Table::Partition, 0, 52)
    };
    match table_entry(tables(bytes), descriptor, index, table) {
        Err(_) => String::new(),
        Ok(entry) => {
            if entry.len() < least {
                return String::new();
            }
            match fixed_name(&entry[start..start + 36], devices) {
                Some(name) => name,
                None => String::new(),
            }
        },
    }
}

/// The name of the partition or the block device for which the metadata in `bytes` is refused.
pub fn refused_entry_name(bytes: &[u8], error: LpError) -> (s: String)
    ensures
        s@ == refused_entry(bytes@, error),
{
    match error {
        LpError::DuplicateBlockDevice(index)
        | LpError::BlockDeviceFlags(index, _)
        | LpError::BlockDeviceSize(index, _) => entry_name(bytes, true, index),
        LpError::DuplicatePartition(index)
        | LpError::PartitionAttributes(index, _)
        | LpError::ExtentsExceed(index)
        | LpError::NoExtents(index)
        | LpError::MissingGroup(index, _) => entry_name(bytes, false, index),
        _ => String::new(),
    }
}

/// The metadata in a copy, or why there is none.
pub open spec fn copy_of(read: CopyRead, geometry: Geometry, copy: MetadataCopy) -> Result<
    MetadataView,
    Seq<char>,
> {
    match read {
        CopyRead::Failed(text) => Err(text@),
        CopyRead::Bytes(bytes) => match metadata_of(bytes@, geometry, copy) {
            Ok(metadata) => Ok(metadata),
            Err(e) => Err(e.words(refused_entry(bytes@, e), Seq::empty())),
        },
    }
}

fn read_copy(read: &CopyRead, geometry: Geometry, copy: MetadataCopy) -> (r: Result<
    Metadata,
    String,
>)
    requires
        geometry.wf(),
    ensures
        copy_of(*read, geometry, copy) == (match r {
            Ok(metadata) => Ok(metadata@),
            Err(text) => Err(text@),
        }),
        r matches Ok(metadata) ==> metadata.wf(),
{
    match read {
        CopyRead::Failed(text) => Err(owned(text.as_str())),
        CopyRead::Bytes(bytes) => match parse_metadata(bytes, geometry, copy) {
            Ok(metadata) => Ok(metadata),
            Err(e) => {
                proof {
                    reveal_strlit("");
                }
                assert(""@ =~= Seq::<char>::empty());
                Err(e.message(refused_entry_name(bytes, e).as_str(), ""))
            },
        },
    }
}

/// The metadata of a slot, from its primary copy or else from the backup copy, or why there is
/// none. Nothing, where the backup copy has yet to be read.
pub open spec fn metadata_from(
    primary: CopyRead,
    backup: Option<CopyRead>,
    geometry: Geometry,
) -> Option<Result<MetadataView, Seq<char>>> {
    match copy_of(primary, geometry, MetadataCopy::Primary) {
        Ok(metadata) => Some(Ok(metadata)),
        Err(first) => match backup {
            None => None,
            Some(read) => Some(
                match copy_of(read, geometry, MetadataCopy::Backup) {
                    Ok(metadata) => Ok(metadata),
                    Err(second) => Err(
                        both_refused("metadata"@, first, "matching backup"@, second),
                    ),
                },
            ),
        },
    }
}

/// The metadata of a slot, from its primary copy or else from the backup copy, which has to be
/// read only where the primary one is refused or cannot be read.
pub fn read_metadata(primary: &CopyRead, backup: Option<&CopyRead>, geometry: Geometry) -> (r:
    Option<Result<Metadata, String>>)
    requires
        geometry.wf(),
    ensures
        metadata_from(
            *primary,
            match backup {
                Some(read) => Some(*read),
                None => None,
            },
            geometry,
        ) == (match r {
            Some(Ok(metadata)) => Some(Ok(metadata@)),
            Some(Err(text)) => Some(Err(text@)),
            None => None,
        }),
        r matches Some(Ok(metadata)) ==> metadata.wf(),
{
    match read_copy(primary, geometry, MetadataCopy::Primary) {
        Ok(metadata) => Some(Ok(metadata)),
        Err(first) => match backup {
            None => None,
            Some(read) => match read_copy(read, geometry, MetadataCopy::Backup) {
                Ok(metadata) => Some(Ok(metadata)),
                Err(second) => Some(
                    Err(
                        both_refused_text(
                            "metadata",
                            first.as_str(),
                            "matching backup",
                            second.as_str(),
                        ),
                    ),
                ),
            },
        },
    }
}

/// The name of a block device in the slot.
pub open spec fn slot_device(device: DeviceView, suffix: Seq<char>) -> Seq<char> {
    effective_name(device.name, device.flags & BLOCK_DEVICE_SLOT_SUFFIXED != 0, suffix)
}

/// The first in the order of characters of those of the first `n` requested names that are not
/// sound.
pub open spec fn unsound_request(requested: Seq<Seq<char>>, n: int) -> Option<Seq<char>>
    decreases n,
{
    if n <= 0 {
        None
    } else {
        let name = requested[n - 1];
        match unsound_request(requested, n - 1) {
            None => if sound_request(name) {
                None
            } else {
                Some(name)
            },
            Some(least) => if !sound_request(name) && precedes(name, least) {
                Some(name)
            } else {
                Some(least)
            },
        }
    }
}

/// The name of the partition, the block device or the request for which no mapping is made.
pub open spec fn refused_mapping(
    metadata: MetadataView,
    slot: u32,
    requested: Seq<Seq<char>>,
    error: LpError,
) -> Seq<char> {
    match suffix_of(slot) {
        Err(_) => Seq::empty(),
        Ok(suffix) => match error {
            LpError::Unresolved(index, _)
            | LpError::DeviceTooSmall(index, _, _)
            | LpError::FirstSectorOutOfBounds(index) => if index < metadata.block_devices.len() {
                slot_device(metadata.block_devices[index as int], suffix)
            } else {
                Seq::empty()
            },
            LpError::MetadataElsewhere => if metadata.block_devices.len() > 0 {
                slot_device(metadata.block_devices[0], suffix)
            } else {
                Seq::empty()
            },
            LpError::Disabled(index)
            | LpError::PlanMissingBlockDevice(index, _)
            | LpError::PhysicalOutOfBounds(index)
            | LpError::LogicalSize(index, _) => if index < metadata.partitions.len() {
                slot_name(metadata.partitions[index as int], suffix)
            } else {
                Seq::empty()
            },
            LpError::SeveralMatch(index) => if index < metadata.partitions.len() {
                base_of(metadata.partitions[index as int], suffix)
            } else {
                Seq::empty()
            },
            LpError::InvalidRequest => or_nothing(
                unsound_request(requested, requested.len() as int),
            ),
            _ => Seq::empty(),
        },
    }
}

fn device_in_slot(metadata: &Metadata, suffix: &str, index: usize) -> (s: String)
    ensures
        s@ == (if index < metadata@.block_devices.len() {
            slot_device(metadata@.block_devices[index as int], suffix@)
        } else {
            Seq::empty()
        }),
{
    if index >= metadata.block_devices.len() {
        return String::new();
    }
    assert(metadata@.block_devices[index as int] == metadata.block_devices@[index as int]@);
    let device = &metadata.block_devices[index];
    suffixed_name(
        device.name.as_str(),
        device.flags & BLOCK_DEVICE_SLOT_SUFFIXED != 0,
        suffix,
    )
}

fn partition_in_slot(metadata: &Metadata, suffix: &str, index: usize) -> (s: String)
    ensures
        s@ == (if index < metadata@.partitions.len() {
            slot_name(metadata@.partitions[index as int], suffix@)
        } else {
            Seq::empty()
        }),
{
    if index >= metadata.partitions.len() {
        return String::new();
    }
    assert(metadata@.partitions[index as int] == metadata.partitions@[index as int]@);
    let partition = &metadata.partitions[index];
    suffixed_name(
        partition.name.as_str(),
        partition.attributes & PARTITION_ATTR_SLOT_SUFFIXED != 0,
        suffix,
    )
}

fn first_unsound(requested: &[String]) -> (s: String)
    ensures
        s@ == or_nothing(unsound_request(texts(requested@), requested@.len() as int)),
{
    let ghost names = texts(requested@);
    let mut found: Option<usize> = None;
    let mut i: usize = 0;
    while i < requested.len()
        invariant
            i <= requested@.len(),
            names == texts(requested@),
            found matches Some(at) ==> at < i,
            unsound_request(names, i as int) == (match found {
                Some(at) => Some(names[at as int]),
                None => None,
            }),
        decreases requested@.len() - i,
    {
        assert(names[i as int] == requested@[i as int]@);
        if validate_mapping_component(requested[i].as_str()).is_err() {
            match found {
                None => {
                    found = Some(i);
                },
                Some(at) => {
                    assert(names[at as int] == requested@[at as int]@);
                    if text_before(requested[i].as_str(), requested[at].as_str()) {
                        found = Some(i);
                    }
                },
            }
        }
        i += 1;
    }
    match found {
        Some(at) => owned(requested[at].as_str()),
        None => String::new(),
    }
}

/// The name of the partition, the block device or the request for which no mapping is made.
pub fn refused_mapping_name(
    metadata: &Metadata,
    slot: u32,
    requested: &[String],
    error: LpError,
) -> (s: String)
    ensures
        s@ == refused_mapping(metadata@, slot, texts(requested@), error),
{
    let suffix = match slot_suffix(slot) {
        Err(_) => return String::new(),
        Ok(suffix) => suffix,
    };
    match error {
        LpError::Unresolved(index, _)
        | LpError::DeviceTooSmall(index, _, _)
        | LpError::FirstSectorOutOfBounds(index) => device_in_slot(metadata, suffix, index),
        LpError::MetadataElsewhere => device_in_slot(metadata, suffix, 0),
        LpError::Disabled(index)
        | LpError::PlanMissingBlockDevice(index, _)
        | LpError::PhysicalOutOfBounds(index)
        | LpError::LogicalSize(index, _) => partition_in_slot(metadata, suffix, index),
        LpError::SeveralMatch(index) => {
            let name = partition_in_slot(metadata, suffix, index);
            if index >= metadata.partitions.len() {
                return name;
            }
            match strip_suffix(name.as_str(), suffix) {
                Some(base) => owned(base),
                None => name,
            }
        },
        LpError::InvalidRequest => first_unsound(requested),
        _ => String::new(),
    }
}

/// The second block of the geometry is asked for, and taken, where the first is refused, and only
/// there; the same holds of the backup copy of the metadata.
pub proof fn law_backups_are_taken_where_needed(
    primary: Seq<u8>,
    backup: Seq<u8>,
    first: CopyRead,
    second: CopyRead,
    geometry: Geometry,
)
    ensures
        geometry_of(primary) is Ok ==> geometry_from(primary, None) == Some(
            Ok::<Geometry, Seq<char>>(geometry_of(primary)->Ok_0),
        ) && geometry_from(primary, Some(backup)) == geometry_from(primary, None),
        geometry_of(primary) is Err ==> geometry_from(primary, None) is None,
        geometry_of(primary) is Err && geometry_of(backup) is Ok ==> geometry_from(
            primary,
            Some(backup),
        ) == Some(Ok::<Geometry, Seq<char>>(geometry_of(backup)->Ok_0)),
        geometry_of(primary) is Err && geometry_of(backup) is Err ==> geometry_from(
            primary,
            Some(backup),
        ) matches Some(Err(_)),
        ({
            let one = copy_of(first, geometry, MetadataCopy::Primary);
            let other = copy_of(second, geometry, MetadataCopy::Backup);
            let asked = metadata_from(first, None, geometry);
            let taken = metadata_from(first, Some(second), geometry);
            &&& one is Ok ==> asked == Some(Ok::<MetadataView, Seq<char>>(one->Ok_0)) && taken
                == asked
            &&& one is Err ==> asked is None
            &&& one is Err && other is Ok ==> taken == Some(
                Ok::<MetadataView, Seq<char>>(other->Ok_0),
            )
            &&& one is Err && other is Err ==> taken matches Some(Err(_))
        }),
        first matches CopyRead::Failed(_) ==> copy_of(first, geometry, MetadataCopy::Primary) is Err,
        first matches CopyRead::Bytes(bytes) ==> (copy_of(
            first,
            geometry,
            MetadataCopy::Primary,
        ) is Ok <==> metadata_of(bytes@, geometry, MetadataCopy::Primary) is Ok),
{
}

} // verus!
