use pocketboot::boot_menu::{
    boot_failure, boot_menu_entries, fastboot_failure, Action, BootFailure, Coordinator,
    CoordinatorEvent, FastbootEnd, Mark,
};
use pocketboot::bootflow::gpt::{
    boot_role_for_guid, crc32_ieee, gpt_boot_partitions, gpt_disk_shape, gpt_table_place,
    parse_gpt_header, validate_protective_mbr, GptError, PartitionDevice,
};
use pocketboot::bootflow::{
    architecture_matches, bls_step, initrd_payload, is_bls_entry_name, parse_bls_file,
    resolve_boot_path, sort_candidates, sort_entries, BlsSnippet, BlsStep, BootEntry,
    BootPartitionCandidate, BootPartitionRole, PathError,
};
use pocketboot::kexec::arm64::{
    find_region, load, parse_iomem, LoadError, PhysRange, SegmentKind, Trampoline,
};
use pocketboot::kexec::fdt::{build_dtb, write_begin_node, Header};

#[test]
fn parses_minimal_bls_entry() {
    let snippet = BlsSnippet::parse(
        "title Test OS\nversion 1.2.3\nlinux /vmlinuz\ninitrd /initrd.img\noptions root=UUID=abc quiet\n",
    );

    assert_eq!(snippet.title.as_deref(), Some("Test OS"));
    assert_eq!(snippet.version.as_deref(), Some("1.2.3"));
    assert_eq!(snippet.linux.as_deref(), Some("/vmlinuz"));
    assert_eq!(snippet.initrds, ["/initrd.img"]);
    assert_eq!(snippet.options, ["root=UUID=abc quiet"]);
}

#[test]
fn bls_parser_ignores_unknown_keys() {
    let snippet = BlsSnippet::parse("linux /vmlinuz\nuki /EFI/Linux/test.efi\nfoo bar\n");

    assert_eq!(snippet.linux.as_deref(), Some("/vmlinuz"));
}

#[test]
fn resolves_partition_absolute_paths_under_root() {
    let path = resolve_boot_path("/mnt/boot", "/loader/entries/../bad");

    assert!(path.is_err());
    assert_eq!(
        resolve_boot_path("/mnt/boot", "/vmlinuz").unwrap(),
        "/mnt/boot/vmlinuz"
    );
}

#[test]
fn recognizes_arm64_architecture_names() {
    assert!(architecture_matches(None));
    assert!(architecture_matches(Some("aa64")));
    assert!(architecture_matches(Some("AA64")));
    assert!(architecture_matches(Some("aarch64")));
    assert!(!architecture_matches(Some("x64")));
}

#[test]
fn crc32_matches_gpt_known_value() {
    assert_eq!(crc32_ieee(b"123456789"), 0xcbf4_3926);
}

#[test]
fn unsafe_boot_paths_are_refused() {
    assert_eq!(resolve_boot_path("/mnt", "  "), Err(PathError::Empty));
    assert_eq!(
        resolve_boot_path("/mnt", "a/../../b"),
        Err(PathError::Unsafe)
    );
    assert_eq!(
        resolve_boot_path("/mnt", "/./"),
        Err(PathError::NamesNothing)
    );
    assert!(is_bls_entry_name("os.conf"));
    assert!(!is_bls_entry_name(".conf"));
}

fn candidate(disk: &str, partno: u32, role: BootPartitionRole) -> BootPartitionCandidate {
    BootPartitionCandidate {
        disk: disk.to_string(),
        partition: format!("{disk}p{partno}"),
        partno,
        role,
        dev_path: format!("/dev/{disk}p{partno}"),
        removable: false,
    }
}

#[test]
fn boot_loader_entries_are_read() {
    let partition = candidate("mmcblk0", 1, BootPartitionRole::Esp);
    let text = "title Test OS\nlinux /vmlinuz\ninitrd /initrd.img\noptions quiet\n";
    let snippet = BlsSnippet::parse(text);
    match bls_step(&snippet, "/mnt", 0) {
        BlsStep::Check(path) => assert_eq!(path, "/mnt/vmlinuz"),
        other => panic!("unexpected step: {other:?}"),
    }
    let entry = parse_bls_file(
        &partition,
        "/mnt",
        "/mnt/loader/entries/os.conf",
        text,
        &[true, true],
    )
    .unwrap()
    .unwrap();
    assert_eq!(entry.linux, "/mnt/vmlinuz");
    assert_eq!(entry.initrds, ["/mnt/initrd.img"]);
    assert_eq!(entry.cmdline(), "quiet");
    assert!(parse_bls_file(&partition, "/mnt", "os.conf", text, &[false])
        .unwrap()
        .is_none());
    assert_eq!(initrd_payload(&[]), None);
    assert_eq!(
        initrd_payload(&[b"one".to_vec(), b"two".to_vec()]).unwrap(),
        b"onetwo"
    );
}

fn entry(id: &str, role: BootPartitionRole, options: &str) -> BootEntry {
    BootEntry {
        id: id.to_string(),
        title: Some(" Test OS ".to_string()),
        version: Some("1.2".to_string()),
        architecture: None,
        source: format!("/mnt/loader/entries/{id}.conf"),
        role,
        disk: "mmcblk0".to_string(),
        partition: "mmcblk0p1".to_string(),
        linux: "/mnt/vmlinuz".to_string(),
        initrds: Vec::new(),
        options: vec![options.to_string()],
    }
}

#[test]
fn entries_and_partitions_are_ordered() {
    let entries = sort_entries(vec![
        entry("a", BootPartitionRole::Esp, "quiet"),
        entry("a", BootPartitionRole::Xbootldr, "quiet"),
        entry("b", BootPartitionRole::Xbootldr, "quiet"),
    ]);
    let ids: Vec<&str> = entries.iter().map(|entry| entry.id.as_str()).collect();
    assert_eq!(ids, ["b", "a", "a"]);
    let candidates = sort_candidates(vec![
        candidate("sda", 2, BootPartitionRole::Esp),
        candidate("sda", 1, BootPartitionRole::Esp),
        candidate("sdb", 1, BootPartitionRole::Xbootldr),
    ]);
    let names: Vec<&str> = candidates
        .iter()
        .map(|candidate| candidate.partition.as_str())
        .collect();
    assert_eq!(names, ["sdbp1", "sdap1", "sdap2"]);
}

#[test]
fn menu_holds_the_entries_that_can_be_booted() {
    let entries = [
        entry("variable", BootPartitionRole::Esp, "$kernelopts"),
        entry("plain", BootPartitionRole::Esp, "quiet"),
    ];
    let mark = Mark {
        nested: false,
        preferred: true,
    };
    let (places, lines) = boot_menu_entries(&entries, &[mark, mark]);
    assert_eq!(places, [1]);
    assert_eq!(lines[0].title, "Test OS");
    assert_eq!(lines[0].subtitle, "1.2");
    assert_eq!(lines[0].detail, "mmcblk0:mmcblk0p1 - plain.conf");
    assert_eq!(lines[0].badge, "default esp");
}

#[test]
fn coordinator_waits_for_search_and_fastboot() {
    let mut state = Coordinator::new();
    assert_eq!(
        state.handle(CoordinatorEvent::DiscoveryUpdate(vec![3])),
        Action::Wait
    );
    assert_eq!(state.handle(CoordinatorEvent::Choose(1)), Action::Wait);
    assert_eq!(
        state.handle(CoordinatorEvent::FastbootEnded { has_action: false }),
        Action::Wait
    );
    assert_eq!(
        state.handle(CoordinatorEvent::DiscoveryComplete(vec![4, 5])),
        Action::Boot(4)
    );

    let mut state = Coordinator::new();
    state.handle(CoordinatorEvent::DiscoveryComplete(vec![4, 5]));
    assert_eq!(state.handle(CoordinatorEvent::Choose(1)), Action::Boot(5));
    assert_eq!(
        state.handle(CoordinatorEvent::FastbootEnded { has_action: true }),
        Action::RunAction
    );
    assert_eq!(
        state.handle(CoordinatorEvent::FastbootFailed),
        Action::Fail
    );
    state.handle(CoordinatorEvent::DiscoveryUpdate(Vec::new()));
    assert_eq!(
        state.handle(CoordinatorEvent::FastbootEnded { has_action: false }),
        Action::Finish
    );
    assert_eq!(
        state.handle(CoordinatorEvent::Closed),
        Action::ChannelClosed
    );
    assert_eq!(
        boot_failure(BootFailure::Load, "os", "bad"),
        "load discovered boot entry os: bad"
    );
    assert_eq!(
        fastboot_failure(&FastbootEnd::Panicked),
        "fastboot thread panicked"
    );
}

const ESP_GUID: [u8; 16] = [
    0x28, 0x73, 0x2a, 0xc1, 0x1f, 0xf8, 0xd2, 0x11, 0xba, 0x4b, 0x00, 0xa0, 0xc9, 0x3e, 0xc9, 0x3b,
];

fn put(bytes: &mut [u8], at: usize, value: &[u8]) {
    bytes[at..at + value.len()].copy_from_slice(value);
}

fn gpt_table() -> Vec<u8> {
    let mut table = vec![0u8; 4 * 128];
    put(&mut table, 128, &ESP_GUID);
    put(&mut table, 144, &[1; 16]);
    put(&mut table, 160, &40u64.to_le_bytes());
    put(&mut table, 168, &50u64.to_le_bytes());
    table
}

fn gpt_header(table: &[u8]) -> Vec<u8> {
    let mut raw = vec![0u8; 512];
    put(&mut raw, 0, b"EFI PART");
    put(&mut raw, 8, &0x10000u32.to_le_bytes());
    put(&mut raw, 12, &92u32.to_le_bytes());
    put(&mut raw, 24, &1u64.to_le_bytes());
    put(&mut raw, 32, &99u64.to_le_bytes());
    put(&mut raw, 40, &34u64.to_le_bytes());
    put(&mut raw, 48, &66u64.to_le_bytes());
    put(&mut raw, 72, &2u64.to_le_bytes());
    put(&mut raw, 80, &4u32.to_le_bytes());
    put(&mut raw, 84, &128u32.to_le_bytes());
    put(&mut raw, 88, &crc32_ieee(table).to_le_bytes());
    let crc = crc32_ieee(&raw[..92]);
    put(&mut raw, 16, &crc.to_le_bytes());
    raw
}

#[test]
fn boot_partitions_are_found_in_a_table() {
    let table = gpt_table();
    let raw = gpt_header(&table);
    assert_eq!(boot_role_for_guid(&ESP_GUID), Some(BootPartitionRole::Esp));
    let (total_bytes, total_blocks) = gpt_disk_shape(100, 512).unwrap();
    assert_eq!((total_bytes, total_blocks), (51200, 100));
    let header = parse_gpt_header(&raw, total_blocks).unwrap();
    assert_eq!(
        gpt_table_place(&header, 512, total_bytes).unwrap(),
        (1024, 512)
    );
    let devices = [PartitionDevice {
        number: "2\n".to_string(),
        name: "mmcblk0p2".to_string(),
    }];
    let found = gpt_boot_partitions("mmcblk0", false, &table, &header, total_blocks, &devices)
        .unwrap();
    assert_eq!(found.len(), 1);
    assert_eq!(found[0].partition, "mmcblk0p2");
    assert_eq!(found[0].partno, 2);
    assert_eq!(found[0].role, BootPartitionRole::Esp);

    let mut broken = table.clone();
    broken[130] ^= 1;
    assert_eq!(
        gpt_boot_partitions("mmcblk0", false, &broken, &header, total_blocks, &devices)
            .unwrap_err(),
        GptError::TableCrc
    );
    let small = gpt_disk_shape(1, 512).unwrap_err();
    assert_eq!(small.message("mmcblk0"), "disk mmcblk0 is too small for GPT");
    let mut bad = raw.clone();
    bad[40] ^= 1;
    assert_eq!(
        parse_gpt_header(&bad, total_blocks),
        Err(GptError::HeaderCrc)
    );
    bad[0] = 0;
    assert_eq!(
        parse_gpt_header(&bad, total_blocks),
        Err(GptError::Signature)
    );
    let mut mbr = vec![0u8; 512];
    assert_eq!(validate_protective_mbr(&mbr), Err(GptError::MbrSignature));
    put(&mut mbr, 510, &[0x55, 0xaa]);
    assert_eq!(
        validate_protective_mbr(&mbr),
        Err(GptError::NoProtectivePartition)
    );
    mbr[450] = 0xee;
    mbr[454] = 1;
    assert_eq!(validate_protective_mbr(&mbr), Ok(()));
}

fn small_tree() -> Vec<u8> {
    let mut structure = Vec::new();
    write_begin_node(&mut structure, b"");
    structure.extend_from_slice(&[0, 0, 0, 2, 0, 0, 0, 9]);
    let header = Header {
        totalsize: 0,
        off_dt_struct: 0,
        off_dt_strings: 0,
        off_mem_rsvmap: 0,
        version: 17,
        last_comp_version: 16,
        boot_cpuid_phys: 0,
        size_dt_strings: 0,
        size_dt_struct: 0,
    };
    build_dtb(&header, &[0; 16], &structure, &[]).unwrap()
}

#[test]
fn usable_memory_leaves_out_what_is_reserved() {
    let ranges = parse_iomem(
        "80000000-bfffffff : System RAM\n  80080000-81ffffff : Kernel code\n  90000000-90000fff : reserved\nc0000000-c0000fff : reserved\n",
    );
    assert!(ranges
        .iter()
        .all(|range| range.end <= 0x9000_0000 || range.start >= 0x9000_1000));
    assert!(!ranges.is_empty());
}

#[test]
fn regions_are_found_in_usable_memory() {
    let usable = [PhysRange {
        start: 0x8000_0000,
        end: 0x8100_0000,
    }];
    let taken = [PhysRange {
        start: 0x8000_0000,
        end: 0x8020_0000,
    }];
    assert_eq!(
        find_region(&usable, &taken, 0x1000, 0x1000, 0, u64::MAX),
        Some(0x8020_0000)
    );
    assert_eq!(
        find_region(&usable, &taken, 0x200_0000, 0x1000, 0, u64::MAX),
        None
    );
}

#[test]
fn next_kernel_is_laid_out() {
    let mut kernel = vec![0u8; 4096];
    put(&mut kernel, 8, &0x80000u64.to_le_bytes());
    put(&mut kernel, 16, &4096u64.to_le_bytes());
    put(&mut kernel, 56, b"ARM\x64");
    let code = [0u8; 64];
    let trampoline = Trampoline {
        code: &code,
        kernel_slot: 48,
        dtb_slot: 56,
    };
    let usable = [PhysRange {
        start: 0x8000_0000,
        end: 0xc000_0000,
    }];
    let dtb = small_tree();
    let plan = load(&kernel, Some(b"initrd"), &dtb, "quiet", &usable, &trampoline).unwrap();
    let kinds: Vec<SegmentKind> = plan.segments.iter().map(|segment| segment.kind).collect();
    assert!(kinds.contains(&SegmentKind::Kernel));
    assert!(kinds.contains(&SegmentKind::Initrd));
    assert!(kinds.contains(&SegmentKind::Dtb));
    let jump = plan
        .segments
        .iter()
        .find(|segment| segment.kind == SegmentKind::Trampoline)
        .unwrap();
    assert_eq!(jump.phys, plan.entry);
    let start = plan
        .segments
        .iter()
        .find(|segment| segment.kind == SegmentKind::Kernel)
        .unwrap();
    assert_eq!(
        u64::from_le_bytes(jump.data[48..56].try_into().unwrap()),
        start.phys
    );
    for a in &plan.segments {
        for b in &plan.segments {
            assert!(
                a.phys == b.phys || a.phys + a.memsz <= b.phys || b.phys + b.memsz <= a.phys
            );
        }
    }
    assert_eq!(
        load(&[], None, &dtb, "", &usable, &trampoline).unwrap_err(),
        LoadError::EmptyKernel
    );
    assert_eq!(
        load(&kernel, None, &[], "", &usable, &trampoline).unwrap_err(),
        LoadError::EmptyDtb
    );
    let err = load(&kernel, None, &dtb, "", &[], &trampoline).unwrap_err();
    assert!(err.message().contains("no suitable RAM hole") || err == LoadError::NoUsableMemory);
}
