use pocketboot::android_lp::copies::{
    read_geometry, read_metadata, refused_entry_name, refused_mapping_name, CopyRead,
};
use pocketboot::android_lp::device_mapper::{
    check_version, create_read_only, decode_reply, encode_request, encode_targets, ioctl_readwrite,
    start_create, CreateAction, CreateStage, DmError, DmReply, DmRequest, DM_IOCTL_SIZE,
    DM_IOCTL_TYPE, DM_TABLE_LOAD_CMD, DM_TARGET_SPEC_SIZE, DM_VERSION_CMD,
};
use pocketboot::android_lp::mapped::{
    cleanup, map_read_only, MappedPartitions, Mapping, Removal, RemovalFailure,
};
use pocketboot::android_lp::{
    mapping_plans, metadata_copies, metadata_offset, parse_geometry, parse_metadata,
    resolve_physical_devices, slot_suffix, validate_table_layout, DmTarget, Geometry, LpError, MetadataCopy, BLOCK_DEVICE_ENTRY_SIZE, BLOCK_DEVICE_SLOT_SUFFIXED, EXTENT_ENTRY_SIZE,
    GEOMETRY_MAGIC, GEOMETRY_SIZE, GEOMETRY_STRUCT_SIZE, GROUP_ENTRY_SIZE, HEADER_MAGIC,
    HEADER_MAJOR, HEADER_V1_2_SIZE, PARTITION_ATTR_READONLY, PARTITION_ATTR_SLOT_SUFFIXED,
    PARTITION_ENTRY_SIZE, TARGET_LINEAR, TableDescriptor,
};
use pocketboot::errors::ErrorKind;
use pocketboot::partitions::{Partition, PartitionError};
use sha2::{Digest, Sha256};

const METADATA_MAX: usize = 4096;
const SLOT_COUNT: u32 = 2;

#[test]
fn metadata_offsets_group_all_primaries_before_backups() {
    let geometry = Geometry {
        metadata_max_size: METADATA_MAX,
        metadata_slot_count: SLOT_COUNT,
        logical_block_size: 4096,
    };
    assert_eq!(
        metadata_offset(&geometry, 0, MetadataCopy::Primary).unwrap(),
        12288
    );
    assert_eq!(
        metadata_offset(&geometry, 1, MetadataCopy::Primary).unwrap(),
        16384
    );
    assert_eq!(
        metadata_offset(&geometry, 0, MetadataCopy::Backup).unwrap(),
        20480
    );
    assert_eq!(
        metadata_offset(&geometry, 1, MetadataCopy::Backup).unwrap(),
        24576
    );
}

#[test]
fn slot_one_falls_back_to_its_matching_backup() {
    let mut image = fixture_image();
    let slot_one_primary = 12288 + METADATA_MAX;
    image[slot_one_primary..slot_one_primary + METADATA_MAX].fill(0xa5);
    let geometry = read_geometry(&image[4096..8192], None).unwrap().unwrap();
    let (primary, backup) = metadata_copies(&geometry, 1).unwrap();
    let copy =
        |offset: u64| CopyRead::Bytes(image[offset as usize..offset as usize + METADATA_MAX].to_vec());
    assert!(read_metadata(&copy(primary), None, geometry).is_none());
    let metadata = read_metadata(&copy(primary), Some(&copy(backup)), geometry)
        .unwrap()
        .unwrap();
    assert_eq!(metadata.copy, MetadataCopy::Backup);
    assert_eq!(metadata.partitions[0].name, "vendor");
}

#[test]
fn corrupt_tables_checksum_is_rejected() {
    let geometry = fixture_geometry();
    let mut metadata = fixture_metadata();
    metadata[HEADER_V1_2_SIZE + 3] ^= 0xff;
    let err = parse_metadata(&metadata, geometry, MetadataCopy::Primary).unwrap_err();
    assert!(err.message("", "").contains("tables checksum"));
}

#[test]
fn maps_only_current_slot_requested_partition() {
    let metadata = parse_metadata(
        &fixture_metadata(),
        fixture_geometry(),
        MetadataCopy::Primary,
    )
    .unwrap();
    let backing = backing();
    let plans = mapping_plans(&metadata, &[backing], 1, &["vendor".into()]).unwrap();
    assert_eq!(plans.len(), 1);
    assert_eq!(plans[0].base_name, "vendor");
    assert_eq!(plans[0].dm_name, "pocketboot-fw-vendor-b");
    match &plans[0].targets[0] {
        DmTarget::Linear {
            devnum,
            physical_start,
            sectors,
            ..
        } => {
            assert_eq!(devnum, "179:69");
            assert_eq!(*physical_start, 40);
            assert_eq!(*sectors, 8);
        }
        target => panic!("unexpected target: {target:?}"),
    }
}

#[test]
fn partitions_are_planned_from_the_device_of_their_metadata() {
    let metadata = || {
        parse_metadata(
            &fixture_metadata(),
            fixture_geometry(),
            MetadataCopy::Primary,
        )
        .unwrap()
    };
    let requested = ["vendor".to_string()];
    let plans = map_read_only(
        &metadata(),
        &[backing()],
        "/dev/mmcblk0p69",
        1,
        &requested,
    )
    .unwrap();
    assert_eq!(plans.len(), 1);
    assert_eq!(plans[0].dm_uuid, "POCKETBOOT-FW-b-vendor");
    let elsewhere = map_read_only(&metadata(), &[backing()], "/dev/sda1", 1, &requested);
    let error = elsewhere.unwrap_err();
    assert_eq!(error, LpError::MetadataElsewhere);
    assert_eq!(
        error.message("system_b", "/dev/sda1"),
        "LP metadata names first block device \"system_b\", but metadata was read from /dev/sda1"
    );
    let outside = map_read_only(&metadata(), &[backing()], "/dev/mmcblk0p69", 7, &requested);
    assert_eq!(outside.unwrap_err(), LpError::UnsupportedSlot(7));
}

#[test]
fn serializes_aligned_read_only_table_targets() {
    let data = encode_targets(&[
        DmTarget::Linear {
            logical_start: 0,
            sectors: 8,
            devnum: "179:69".into(),
            physical_start: 40,
        },
        DmTarget::Zero {
            logical_start: 8,
            sectors: 8,
        },
    ])
    .unwrap();
    assert_eq!(data.len() % 8, 0);
    let word = |at: usize| u64::from_le_bytes(data[at..at + 8].try_into().unwrap());
    let next = |at: usize| u32::from_le_bytes(data[at + 20..at + 24].try_into().unwrap()) as usize;
    assert_eq!(word(0), 0);
    assert_eq!(word(8), 8);
    assert_eq!(next(0) % 8, 0);
    let second = next(0);
    assert_eq!(word(second), 8);
    assert_eq!(next(second), data.len() - second);
    assert_eq!(&data[40..49], b"179:69 40");
}

#[test]
fn device_mapper_abi_matches_kernel_uapi() {
    assert_eq!(DM_IOCTL_SIZE, 312);
    assert_eq!(DM_TARGET_SPEC_SIZE, 40);
    assert_eq!(ioctl_readwrite(0x1fd, 0, 0x1_0001), 0xc001_fd00);
    assert_eq!(
        ioctl_readwrite(DM_IOCTL_TYPE, DM_VERSION_CMD, 312),
        0xc138_fd00
    );
    assert_eq!(
        ioctl_readwrite(DM_IOCTL_TYPE, DM_TABLE_LOAD_CMD, 312),
        0xc138_fd09
    );
}

#[test]
fn unsound_metadata_is_refused() {
    let geometry = fixture_geometry();
    let parse = |bytes: &[u8]| {
        parse_metadata(bytes, geometry, MetadataCopy::Primary).unwrap_err()
    };
    let mut magic = fixture_metadata();
    magic[0] ^= 1;
    assert_eq!(parse(&magic), LpError::HeaderMagic);
    let mut version = fixture_metadata();
    put_u16(&mut version, 6, 3);
    assert_eq!(parse(&version), LpError::Version(10, 3));
    let mut header = fixture_metadata();
    header[100] ^= 1;
    assert!(parse(&header).message("", "").contains("header checksum"));
    let mut block = geometry_block();
    assert_eq!(parse_geometry(&block), Ok(fixture_geometry()));
    put_u32(&mut block, 44, 9);
    fill_checksum(&mut block[..GEOMETRY_STRUCT_SIZE], 8..40);
    assert_eq!(parse_geometry(&block), Err(LpError::SlotCount(9)));
    assert_eq!(
        metadata_copies(&fixture_geometry(), 2),
        Err(LpError::SlotOutside(2, 2))
    );
    assert_eq!(slot_suffix(1), Ok("_b"));
    assert_eq!(slot_suffix(3), Err(LpError::UnsupportedSlot(3)));
}

#[test]
fn refusals_of_both_copies_are_told() {
    let block = geometry_block();
    assert_eq!(read_geometry(&[0; 4096], None), None);
    assert_eq!(
        read_geometry(&[0; 4096], Some(&block)),
        Some(Ok(fixture_geometry()))
    );
    assert_eq!(
        read_geometry(&[0; 4096], Some(&block[..20])),
        Some(Err(
            "primary LP geometry invalid (invalid LP geometry magic); \
             backup invalid (LP geometry block is truncated)"
                .to_string()
        ))
    );

    let geometry = fixture_geometry();
    let failed = CopyRead::Failed("LP metadata device is truncated".to_string());
    assert!(read_metadata(&failed, None, geometry).is_none());
    let mut bytes = fixture_metadata();
    put_u32(&mut bytes, HEADER_V1_2_SIZE + 36, 0x100);
    fill_digests(&mut bytes);
    let error = parse_metadata(&bytes, geometry, MetadataCopy::Primary).unwrap_err();
    assert_eq!(error, LpError::PartitionAttributes(0, 0x100));
    assert_eq!(refused_entry_name(&bytes, error), "vendor");
    let refused = CopyRead::Bytes(bytes);
    let words = read_metadata(&failed, Some(&refused), geometry)
        .unwrap()
        .unwrap_err();
    assert_eq!(
        words,
        "primary LP metadata invalid (LP metadata device is truncated); matching backup invalid \
         (LP partition \"vendor\" has unsupported attributes 0x100)"
    );
}

#[test]
fn refused_mappings_are_named() {
    let metadata = parse_metadata(
        &fixture_metadata(),
        fixture_geometry(),
        MetadataCopy::Primary,
    )
    .unwrap();
    let named = |error: LpError| refused_mapping_name(&metadata, 1, &[], error);
    assert_eq!(named(LpError::MetadataElsewhere), "system_b");
    assert_eq!(named(LpError::FirstSectorOutOfBounds(0)), "system_b");
    assert_eq!(named(LpError::Disabled(0)), "vendor_b");
    assert_eq!(named(LpError::SeveralMatch(0)), "vendor");
    assert_eq!(named(LpError::DuplicateRequest), "");
    let requested = ["vendor".to_string(), "o/dm".to_string(), "a b".to_string()];
    let error = mapping_plans(&metadata, &[backing()], 1, &requested).unwrap_err();
    assert_eq!(error, LpError::InvalidRequest);
    let name = refused_mapping_name(&metadata, 1, &requested, error);
    assert_eq!(
        error.message(&name, ""),
        "invalid requested LP partition name \"a b\""
    );
}

#[test]
fn block_devices_are_found_among_the_partitions() {
    let metadata = parse_metadata(
        &fixture_metadata(),
        fixture_geometry(),
        MetadataCopy::Primary,
    )
    .unwrap();
    let found = resolve_physical_devices(&metadata, &[backing()], "/dev/mmcblk0p69", "_b").unwrap();
    assert_eq!(found.len(), 1);
    assert_eq!(found[0].devnum, "179:69");
    assert_eq!(
        resolve_physical_devices(&metadata, &[backing()], "/dev/other", "_b").unwrap_err(),
        LpError::MetadataElsewhere
    );
    let err =
        resolve_physical_devices(&metadata, &[backing()], "/dev/mmcblk0p69", "_a").unwrap_err();
    assert_eq!(err, LpError::Unresolved(0, PartitionError::NotFound));
    assert_eq!(err.kind(), ErrorKind::NotFound);
}

#[test]
fn mappings_are_made_step_by_step() {
    let metadata = parse_metadata(
        &fixture_metadata(),
        fixture_geometry(),
        MetadataCopy::Primary,
    )
    .unwrap();
    let plan = &mapping_plans(&metadata, &[backing()], 1, &["vendor".into()]).unwrap()[0];
    assert!(matches!(
        start_create(plan, false),
        CreateAction::Send { stage: CreateStage::Create, .. }
    ));
    assert!(matches!(
        start_create(plan, true),
        CreateAction::Fail { error: DmError::NodeExists, remove: false }
    ));
    assert_eq!(DmError::NodeExists.kind(), ErrorKind::AlreadyExists);
    assert_eq!(
        DmError::NodeExists.message(&plan.dm_name),
        "device-mapper node /dev/mapper/pocketboot-fw-vendor-b already exists"
    );
    let reply = DmReply {
        major: 4,
        minor: 0,
        patch: 0,
        flags: 0x21,
        dev: 0xfd00,
    };
    assert_eq!(check_version(reply), Ok(()));
    assert_eq!(
        check_version(DmReply { major: 3, ..reply }),
        Err(DmError::Version(3, 0, 0))
    );
    assert!(matches!(
        create_read_only(plan, CreateStage::Create, 0xfd00, Some(reply)),
        CreateAction::Send { stage: CreateStage::Load, .. }
    ));
    assert!(matches!(
        create_read_only(plan, CreateStage::Load, 0xfd00, None),
        CreateAction::Fail { error: DmError::Refused, remove: true }
    ));
    assert!(matches!(
        create_read_only(plan, CreateStage::Status, 0xfd00, Some(reply)),
        CreateAction::MakeNode { path, dev: 0xfd00 }
            if path == "/dev/mapper/pocketboot-fw-vendor-b"
    ));
    match create_read_only(plan, CreateStage::Node, 0xfd00, Some(reply)) {
        CreateAction::Mapped(mapping) => {
            assert_eq!(mapping.base_name, "vendor");
            assert_eq!(mapping.uuid, "POCKETBOOT-FW-b-vendor");
            assert_eq!(mapping.path, "/dev/mapper/pocketboot-fw-vendor-b");
        }
        action => panic!("unexpected action: {action:?}"),
    }
    assert!(matches!(
        create_read_only(plan, CreateStage::Status, 0xfd01, Some(reply)),
        CreateAction::Fail { error: DmError::DeviceChanged, remove: true }
    ));
    let request = encode_request(
        &DmRequest {
            name: "a",
            uuid: "b",
            flags: 1,
            target_count: 0,
        },
        &[],
    )
    .unwrap();
    assert_eq!(request.len(), DM_IOCTL_SIZE);
    assert_eq!(decode_reply(&request).flags, 1);
}

fn mapping(name: &str) -> Mapping {
    Mapping {
        base_name: name.to_string(),
        uuid: format!("uuid-{name}"),
        path: format!("/dev/mapper/{name}"),
    }
}

#[test]
fn mapped_partitions_are_found_and_let_go_of() {
    let mut mapped = MappedPartitions::new();
    assert!(mapped.insert(mapping("vendor")));
    assert!(mapped.insert(mapping("odm")));
    assert!(!mapped.insert(mapping("vendor")));
    assert_eq!(mapped.path_for("odm"), Some("/dev/mapper/odm"));
    assert_eq!(mapped.path_for("system"), None);
    assert!(mapped.is_mapped("vendor"));
    let order: Vec<String> = mapped
        .take_all()
        .into_iter()
        .map(|mapping| mapping.base_name)
        .collect();
    assert_eq!(order, ["vendor", "odm"]);
    assert!(mapped.mappings.is_empty());

    let fine = Removal {
        mapping: None,
        device: Some(ErrorKind::NotFound),
    };
    let stuck = Removal {
        mapping: None,
        device: Some(ErrorKind::PermissionDenied),
    };
    let busy = Removal {
        mapping: Some(ErrorKind::ResourceBusy),
        device: None,
    };
    assert_eq!(cleanup(&[fine, fine]), None);
    assert_eq!(
        cleanup(&[fine, stuck, busy]),
        Some(RemovalFailure::Device(1))
    );
    assert_eq!(cleanup(&[busy]), Some(RemovalFailure::Mapping(0)));
}

fn backing() -> Partition {
    Partition {
        kernel_name: "mmcblk0p69".into(),
        partname: Some("system_b".into()),
        dev_path: "/dev/mmcblk0p69".into(),
        devnum: "179:69".into(),
        size_bytes: 1024 * 1024,
        read_only: false,
    }
}

fn fixture_geometry() -> Geometry {
    Geometry {
        metadata_max_size: METADATA_MAX,
        metadata_slot_count: SLOT_COUNT,
        logical_block_size: 4096,
    }
}

fn fixture_image() -> Vec<u8> {
    let mut image = vec![0u8; 1024 * 1024];
    let geometry = geometry_block();
    image[4096..8192].copy_from_slice(&geometry);
    image[8192..12288].copy_from_slice(&geometry);
    let metadata = fixture_metadata();
    for offset in [12288, 16384, 20480, 24576] {
        image[offset..offset + METADATA_MAX].copy_from_slice(&metadata);
    }
    image
}

fn geometry_block() -> Vec<u8> {
    let mut block = vec![0u8; GEOMETRY_SIZE];
    put_u32(&mut block, 0, GEOMETRY_MAGIC);
    put_u32(&mut block, 4, GEOMETRY_STRUCT_SIZE as u32);
    put_u32(&mut block, 40, METADATA_MAX as u32);
    put_u32(&mut block, 44, SLOT_COUNT);
    put_u32(&mut block, 48, 4096);
    fill_checksum(&mut block[..GEOMETRY_STRUCT_SIZE], 8..40);
    block
}

fn fixture_metadata() -> Vec<u8> {
    let mut partition = vec![0u8; PARTITION_ENTRY_SIZE];
    put_name(&mut partition, 0, 36, "vendor");
    put_u32(
        &mut partition,
        36,
        PARTITION_ATTR_READONLY | PARTITION_ATTR_SLOT_SUFFIXED,
    );
    put_u32(&mut partition, 40, 0);
    put_u32(&mut partition, 44, 1);
    put_u32(&mut partition, 48, 0);

    let mut extent = vec![0u8; EXTENT_ENTRY_SIZE];
    put_u64(&mut extent, 0, 8);
    put_u32(&mut extent, 8, TARGET_LINEAR);
    put_u64(&mut extent, 12, 40);
    put_u32(&mut extent, 20, 0);

    let mut group = vec![0u8; GROUP_ENTRY_SIZE];
    put_name(&mut group, 0, 36, "default");

    let mut block = vec![0u8; BLOCK_DEVICE_ENTRY_SIZE];
    put_u64(&mut block, 0, 40);
    put_u32(&mut block, 8, 4096);
    put_u64(&mut block, 16, 1024 * 1024);
    put_name(&mut block, 24, 36, "system");
    put_u32(&mut block, 60, BLOCK_DEVICE_SLOT_SUFFIXED);

    let tables = [partition, extent, group, block].concat();
    let mut metadata = vec![0u8; METADATA_MAX];
    put_u32(&mut metadata, 0, HEADER_MAGIC);
    put_u16(&mut metadata, 4, HEADER_MAJOR);
    put_u16(&mut metadata, 6, 2);
    put_u32(&mut metadata, 8, HEADER_V1_2_SIZE as u32);
    put_u32(&mut metadata, 44, tables.len() as u32);
    metadata[48..80].copy_from_slice(&Sha256::digest(&tables));
    put_descriptor(&mut metadata, 80, 0, 1, PARTITION_ENTRY_SIZE);
    put_descriptor(
        &mut metadata,
        92,
        PARTITION_ENTRY_SIZE,
        1,
        EXTENT_ENTRY_SIZE,
    );
    put_descriptor(
        &mut metadata,
        104,
        PARTITION_ENTRY_SIZE + EXTENT_ENTRY_SIZE,
        1,
        GROUP_ENTRY_SIZE,
    );
    put_descriptor(
        &mut metadata,
        116,
        PARTITION_ENTRY_SIZE + EXTENT_ENTRY_SIZE + GROUP_ENTRY_SIZE,
        1,
        BLOCK_DEVICE_ENTRY_SIZE,
    );
    metadata[HEADER_V1_2_SIZE..HEADER_V1_2_SIZE + tables.len()].copy_from_slice(&tables);
    fill_checksum(&mut metadata[..HEADER_V1_2_SIZE], 12..44);
    metadata
}

fn put_descriptor(
    bytes: &mut [u8],
    offset: usize,
    table_offset: usize,
    entries: usize,
    entry_size: usize,
) {
    put_u32(bytes, offset, table_offset as u32);
    put_u32(bytes, offset + 4, entries as u32);
    put_u32(bytes, offset + 8, entry_size as u32);
}

fn fill_checksum(bytes: &mut [u8], range: std::ops::Range<usize>) {
    bytes[range.clone()].fill(0);
    let digest = Sha256::digest(&*bytes);
    bytes[range].copy_from_slice(&digest);
}

/// Makes the digests in the header agree with the tables and the header.
fn fill_digests(metadata: &mut [u8]) {
    let size = u32::from_le_bytes(metadata[44..48].try_into().unwrap()) as usize;
    let digest = Sha256::digest(&metadata[HEADER_V1_2_SIZE..HEADER_V1_2_SIZE + size]);
    metadata[48..80].copy_from_slice(&digest);
    fill_checksum(&mut metadata[..HEADER_V1_2_SIZE], 12..44);
}

fn put_name(bytes: &mut [u8], offset: usize, length: usize, name: &str) {
    assert!(name.len() < length);
    bytes[offset..offset + length].fill(0);
    bytes[offset..offset + name.len()].copy_from_slice(name.as_bytes());
}

fn put_u16(bytes: &mut [u8], offset: usize, value: u16) {
    bytes[offset..offset + 2].copy_from_slice(&value.to_le_bytes());
}

fn put_u32(bytes: &mut [u8], offset: usize, value: u32) {
    bytes[offset..offset + 4].copy_from_slice(&value.to_le_bytes());
}

fn put_u64(bytes: &mut [u8], offset: usize, value: u64) {
    bytes[offset..offset + 8].copy_from_slice(&value.to_le_bytes());
}

#[test]
fn tables_tile_their_area() {
    let table = |offset: usize, entries: usize| TableDescriptor {
        offset,
        entries,
        entry_size: 4,
    };
    assert_eq!(
        validate_table_layout(40, &[table(12, 7), table(0, 3), table(5, 0)]),
        Ok(())
    );
    assert_eq!(validate_table_layout(0, &[]), Ok(()));
    assert_eq!(
        validate_table_layout(40, &[table(0, 3), table(8, 8)]),
        Err(LpError::TablesGap)
    );
    assert_eq!(
        validate_table_layout(40, &[table(0, 3), table(16, 6)]),
        Err(LpError::TablesGap)
    );
    assert_eq!(
        validate_table_layout(40, &[table(0, 3), table(0, 3), table(12, 7)]),
        Err(LpError::TablesGap)
    );
    assert_eq!(
        validate_table_layout(40, &[table(0, 3)]),
        Err(LpError::TablesUncovered)
    );
    assert_eq!(
        validate_table_layout(40, &[table(0, 11)]),
        Err(LpError::TableExceeds)
    );
}
