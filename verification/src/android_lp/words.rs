//! Why metadata was refused, in words.
use vstd::prelude::*;
use vstd::string::*;

use crate::android_lp::{Checked, LpError, Table};
use crate::errors::ErrorKind;
use crate::text::{decimal, hex, push_decimal, push_hex, quoted, quoted_text};

verus! {

impl Table {
    /// The name of the entries of a table.
    pub open spec fn words(self) -> Seq<char> {
        match self {
            Table::Partition => "partition"@,
            Table::Extent => "extent"@,
            Table::Group => "group"@,
            Table::BlockDevice => "block device"@,
        }
    }

    /// The name of the entries of a table.
    pub fn label(self) -> (s: &'static str)
        ensures
            s@ == self.words(),
    {
        match self {
            Table::Partition => "partition",
            Table::Extent => "extent",
            Table::Group => "group",
            Table::BlockDevice => "block device",
        }
    }
}

impl Checked {
    /// The name of what has a checksum.
    pub open spec fn words(self) -> Seq<char> {
        match self {
            Checked::Geometry => "geometry"@,
            Checked::Header => "header"@,
            Checked::Tables => "tables"@,
        }
    }

    /// The name of what has a checksum.
    pub fn label(self) -> (s: &'static str)
        ensures
            s@ == self.words(),
    {
        match self {
            Checked::Geometry => "geometry",
            Checked::Header => "header",
            Checked::Tables => "tables",
        }
    }
}

impl LpError {
    /// The error in words, with the name of the partition or device that it is about, and the
    /// device that holds the metadata.
    pub open spec fn words(self, name: Seq<char>, device: Seq<char>) -> Seq<char> {
        match self {
            LpError::GeometryTruncated => "LP geometry block is truncated"@,
            LpError::GeometryMagic => "invalid LP geometry magic"@,
            LpError::GeometryStructSize => "unsupported LP geometry structure size"@,
            LpError::BackupSlotOverflow => "LP backup slot overflows"@,
            LpError::OffsetOverflow => "LP metadata offset overflows"@,
            LpError::Truncated => "LP metadata is truncated"@,
            LpError::HeaderMagic => "invalid LP metadata header magic"@,
            LpError::TablesOverflow => "LP tables size overflows"@,
            LpError::TablesExceed => "LP tables exceed metadata buffer"@,
            LpError::TableSizeOverflow => "LP table size overflows"@,
            LpError::TableRangeOverflow => "LP table range overflows"@,
            LpError::TableExceeds => "LP table exceeds declared tables size"@,
            LpError::TablesGap => "LP tables contain a gap or overlap"@,
            LpError::TablesUncovered => "LP tables do not cover tables_size"@,
            LpError::NoBlockDevices => "LP metadata has no block devices"@,
            LpError::ExtentRangeOverflow => "LP partition extent range overflows"@,
            LpError::DuplicateRequest => "duplicate requested LP base name"@,
            LpError::UnresolvedBlockDevice => "resolved LP block device list is incomplete"@,
            LpError::PhysicalOverflow => "LP physical extent overflows"@,
            LpError::LogicalOverflow => "LP logical extent overflows"@,
            LpError::LogicalSizeOverflow => "LP logical partition size overflows"@,
            LpError::Checksum(what) => "LP "@ + what.words() + " checksum mismatch"@,
            LpError::MetadataMaxSize(size) =>
                "invalid LP metadata maximum size "@ + decimal(size as int),
            LpError::SlotCount(count) => "invalid LP metadata slot count "@ + decimal(count as int),
            LpError::LogicalBlockSize(size) =>
                "invalid LP logical block size "@ + decimal(size as int),
            LpError::SlotOutside(slot, count) =>
                "metadata slot "@ + decimal(slot as int) + " is outside slot count "@
                    + decimal(count as int),
            LpError::Version(major, minor) =>
                "unsupported LP metadata version "@ + decimal(major as int) + "."@
                    + decimal(minor as int),
            LpError::HeaderSize(size, major, minor) =>
                "invalid LP header size "@ + decimal(size as int) + " for version "@
                    + decimal(major as int) + "."@ + decimal(minor as int),
            LpError::EntrySize(table, size) =>
                "invalid LP "@ + table.words() + " entry size "@ + decimal(size as int),
            LpError::EntryOverflow(table) => "LP "@ + table.words() + " entry offset overflows"@,
            LpError::EntryTruncated(table) => table.words() + " is truncated"@,
            LpError::Name(table) => "invalid "@ + table.words() + " name"@,
            LpError::GroupFlags(index, flags) =>
                "LP group "@ + decimal(index as int) + " has unsupported flags 0x"@
                    + hex(flags as int),
            LpError::DuplicateBlockDevice(_) =>
                "duplicate LP block device name "@ + quoted_text(name),
            LpError::BlockDeviceFlags(_, flags) =>
                "LP block device "@ + quoted_text(name) + " has unsupported flags 0x"@
                    + hex(flags as int),
            LpError::BlockDeviceSize(_, size) =>
                "LP block device "@ + quoted_text(name) + " has invalid size "@
                    + decimal(size as int),
            LpError::EmptyExtent(index) => "LP extent "@ + decimal(index as int) + " is empty"@,
            LpError::ZeroExtent(index) =>
                "LP zero extent "@ + decimal(index as int) + " has nonzero target fields"@,
            LpError::TargetType(index, kind) =>
                "LP extent "@ + decimal(index as int) + " has unsupported target type "@
                    + decimal(kind as int),
            LpError::MissingBlockDevice(index, device) =>
                "LP extent "@ + decimal(index as int) + " references missing block device "@
                    + decimal(device as int),
            LpError::DuplicatePartition(_) => "duplicate LP partition name "@ + quoted_text(name),
            LpError::PartitionAttributes(_, attributes) =>
                "LP partition "@ + quoted_text(name) + " has unsupported attributes 0x"@
                    + hex(attributes as int),
            LpError::ExtentsExceed(_) =>
                "LP partition "@ + quoted_text(name) + " extents exceed the extent table"@,
            LpError::NoExtents(_) =>
                "active LP partition "@ + quoted_text(name) + " has no extents"@,
            LpError::MissingGroup(_, group) =>
                "LP partition "@ + quoted_text(name) + " references missing group "@
                    + decimal(group as int),
            LpError::UnsupportedSlot(slot) =>
                "unsupported LP metadata slot "@ + decimal(slot as int),
            LpError::InvalidRequest => "invalid requested LP partition name "@ + quoted_text(name),
            LpError::Disabled(_) =>
                "requested LP partition "@ + quoted_text(name) + " is disabled"@,
            LpError::SeveralMatch(_) =>
                "multiple LP partitions match requested base "@ + quoted_text(name),
            LpError::PlanMissingBlockDevice(_, device) =>
                "LP partition "@ + quoted_text(name) + " references missing block device "@
                    + decimal(device as int),
            LpError::PhysicalOutOfBounds(_) =>
                "LP partition "@ + quoted_text(name) + " has an out-of-bounds physical extent"@,
            LpError::LogicalSize(_, bytes) =>
                "LP partition "@ + quoted_text(name) + " has invalid logical size "@
                    + decimal(bytes as int),
            LpError::Unresolved(_, error) =>
                "resolve LP block device "@ + quoted_text(name) + ": "@ + error.words(name),
            LpError::MetadataElsewhere =>
                "LP metadata names first block device "@ + quoted_text(name)
                    + ", but metadata was read from "@ + device,
            LpError::DeviceTooSmall(_, size, declared) =>
                "LP block device "@ + quoted_text(name) + " is "@ + decimal(size as int)
                    + " bytes, smaller than metadata declaration "@ + decimal(declared as int),
            LpError::FirstSectorOutOfBounds(_) =>
                "LP block device "@ + quoted_text(name)
                    + " first logical sector is out of bounds"@,
        }
    }

    /// The error in words, with the name of the partition or device that it is about, and the
    /// device that holds the metadata.
    pub fn message(self, name: &str, device: &str) -> (s: String)
        ensures
            s@ == self.words(name@, device@),
    {
        let mut s = String::new();
        match self {
            LpError::GeometryTruncated => {
                s.append("LP geometry block is truncated");
            },
            LpError::GeometryMagic => {
                s.append("invalid LP geometry magic");
            },
            LpError::GeometryStructSize => {
                s.append("unsupported LP geometry structure size");
            },
            LpError::BackupSlotOverflow => {
                s.append("LP backup slot overflows");
            },
            LpError::OffsetOverflow => {
                s.append("LP metadata offset overflows");
            },
            LpError::Truncated => {
                s.append("LP metadata is truncated");
            },
            LpError::HeaderMagic => {
                s.append("invalid LP metadata header magic");
            },
            LpError::TablesOverflow => {
                s.append("LP tables size overflows");
            },
            LpError::TablesExceed => {
                s.append("LP tables exceed metadata buffer");
            },
            LpError::TableSizeOverflow => {
                s.append("LP table size overflows");
            },
            LpError::TableRangeOverflow => {
                s.append("LP table range overflows");
            },
            LpError::TableExceeds => {
                s.append("LP table exceeds declared tables size");
            },
            LpError::TablesGap => {
                s.append("LP tables contain a gap or overlap");
            },
            LpError::TablesUncovered => {
                s.append("LP tables do not cover tables_size");
            },
            LpError::NoBlockDevices => {
                s.append("LP metadata has no block devices");
            },
            LpError::ExtentRangeOverflow => {
                s.append("LP partition extent range overflows");
            },
            LpError::DuplicateRequest => {
                s.append("duplicate requested LP base name");
            },
            LpError::UnresolvedBlockDevice => {
                s.append("resolved LP block device list is incomplete");
            },
            LpError::PhysicalOverflow => {
                s.append("LP physical extent overflows");
            },
            LpError::LogicalOverflow => {
                s.append("LP logical extent overflows");
            },
            LpError::LogicalSizeOverflow => {
                s.append("LP logical partition size overflows");
            },
            LpError::Checksum(what) => {
                s.append("LP ");
                s.append(what.label());
                s.append(" checksum mismatch");
            },
            LpError::MetadataMaxSize(size) => {
                s.append("invalid LP metadata maximum size ");
                push_decimal(&mut s, size as u64);
            },
            LpError::SlotCount(count) => {
                s.append("invalid LP metadata slot count ");
                push_decimal(&mut s, count as u64);
            },
            LpError::LogicalBlockSize(size) => {
                s.append("invalid LP logical block size ");
                push_decimal(&mut s, size as u64);
            },
            LpError::SlotOutside(slot, count) => {
                s.append("metadata slot ");
                push_decimal(&mut s, slot as u64);
                s.append(" is outside slot count ");
                push_decimal(&mut s, count as u64);
            },
            LpError::Version(major, minor) => {
                s.append("unsupported LP metadata version ");
                push_decimal(&mut s, major as u64);
                s.append(".");
                push_decimal(&mut s, minor as u64);
            },
            LpError::HeaderSize(size, major, minor) => {
                s.append("invalid LP header size ");
                push_decimal(&mut s, size as u64);
                s.append(" for version ");
                push_decimal(&mut s, major as u64);
                s.append(".");
                push_decimal(&mut s, minor as u64);
            },
            LpError::EntrySize(table, size) => {
                s.append("invalid LP ");
                s.append(table.label());
                s.append(" entry size ");
                push_decimal(&mut s, size as u64);
            },
            LpError::EntryOverflow(table) => {
                s.append("LP ");
                s.append(table.label());
                s.append(" entry offset overflows");
            },
            LpError::EntryTruncated(table) => {
                s.append(table.label());
                s.append(" is truncated");
            },
            LpError::Name(table) => {
                s.append("invalid ");
                s.append(table.label());
                s.append(" name");
            },
            LpError::GroupFlags(index, flags) => {
                s.append("LP group ");
                push_decimal(&mut s, index as u64);
                s.append(" has unsupported flags 0x");
                push_hex(&mut s, flags as u64);
            },
            LpError::DuplicateBlockDevice(_) => {
                s.append("duplicate LP block device name ");
                s.append(quoted(name).as_str());
            },
            LpError::BlockDeviceFlags(_, flags) => {
                s.append("LP block device ");
                s.append(quoted(name).as_str());
                s.append(" has unsupported flags 0x");
                push_hex(&mut s, flags as u64);
            },
            LpError::BlockDeviceSize(_, size) => {
                s.append("LP block device ");
                s.append(quoted(name).as_str());
                s.append(" has invalid size ");
                push_decimal(&mut s, size as u64);
            },
            LpError::EmptyExtent(index) => {
                s.append("LP extent ");
                push_decimal(&mut s, index as u64);
                s.append(" is empty");
            },
            LpError::ZeroExtent(index) => {
                s.append("LP zero extent ");
                push_decimal(&mut s, index as u64);
                s.append(" has nonzero target fields");
            },
            LpError::TargetType(index, kind) => {
                s.append("LP extent ");
                push_decimal(&mut s, index as u64);
                s.append(" has unsupported target type ");
                push_decimal(&mut s, kind as u64);
            },
            LpError::MissingBlockDevice(index, device) => {
                s.append("LP extent ");
                push_decimal(&mut s, index as u64);
                s.append(" references missing block device ");
                push_decimal(&mut s, device as u64);
            },
            LpError::DuplicatePartition(_) => {
                s.append("duplicate LP partition name ");
                s.append(quoted(name).as_str());
            },
            LpError::PartitionAttributes(_, attributes) => {
                s.append("LP partition ");
                s.append(quoted(name).as_str());
                s.append(" has unsupported attributes 0x");
                push_hex(&mut s, attributes as u64);
            },
            LpError::ExtentsExceed(_) => {
                s.append("LP partition ");
                s.append(quoted(name).as_str());
                s.append(" extents exceed the extent table");
            },
            LpError::NoExtents(_) => {
                s.append("active LP partition ");
                s.append(quoted(name).as_str());
                s.append(" has no extents");
            },
            LpError::MissingGroup(_, group) => {
                s.append("LP partition ");
                s.append(quoted(name).as_str());
                s.append(" references missing group ");
                push_decimal(&mut s, group as u64);
            },
            LpError::UnsupportedSlot(slot) => {
                s.append("unsupported LP metadata slot ");
                push_decimal(&mut s, slot as u64);
            },
            LpError::InvalidRequest => {
                s.append("invalid requested LP partition name ");
                s.append(quoted(name).as_str());
            },
            LpError::Disabled(_) => {
                s.append("requested LP partition ");
                s.append(quoted(name).as_str());
                s.append(" is disabled");
            },
            LpError::SeveralMatch(_) => {
                s.append("multiple LP partitions match requested base ");
                s.append(quoted(name).as_str());
            },
            LpError::PlanMissingBlockDevice(_, device) => {
                s.append("LP partition ");
                s.append(quoted(name).as_str());
                s.append(" references missing block device ");
                push_decimal(&mut s, device as u64);
            },
            LpError::PhysicalOutOfBounds(_) => {
                s.append("LP partition ");
                s.append(quoted(name).as_str());
                s.append(" has an out-of-bounds physical extent");
            },
            LpError::LogicalSize(_, bytes) => {
                s.append("LP partition ");
                s.append(quoted(name).as_str());
                s.append(" has invalid logical size ");
                push_decimal(&mut s, bytes as u64);
            },
            LpError::Unresolved(_, error) => {
                s.append("resolve LP block device ");
                s.append(quoted(name).as_str());
                s.append(": ");
                s.append(error.message(name).as_str());
            },
            LpError::MetadataElsewhere => {
                s.append("LP metadata names first block device ");
                s.append(quoted(name).as_str());
                s.append(", but metadata was read from ");
                s.append(device);
            },
            LpError::DeviceTooSmall(_, size, declared) => {
                s.append("LP block device ");
                s.append(quoted(name).as_str());
                s.append(" is ");
                push_decimal(&mut s, size);
                s.append(" bytes, smaller than metadata declaration ");
                push_decimal(&mut s, declared);
            },
            LpError::FirstSectorOutOfBounds(_) => {
                s.append("LP block device ");
                s.append(quoted(name).as_str());
                s.append(" first logical sector is out of bounds");
            },
        }
        assert(s@ =~= self.words(name@, device@));
        s
    }

    /// What kind of error it is.
    pub fn kind(self) -> (r: ErrorKind)
        ensures
            r == (match self {
                LpError::Unresolved(_, error) => error.what_kind(),
                _ => ErrorKind::InvalidData,
            }),
    {
        match self {
            LpError::Unresolved(_, error) => error.kind(),
            _ => ErrorKind::InvalidData,
        }
    }
}

} // verus!
