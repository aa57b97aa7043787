use pocketboot::preboot::fdt::{
    read_be32, tree_is_given, tree_length, Error as TreeError, Reader,
};
use pocketboot::preboot::msm8916::{
    collect_cpus, find_spin_table, find_uart_base, has_coherency_diagnostics, occupied_prefix,
    overlaps, require_coherency, validate_memory, validate_parked_slots,
    validate_resident_descriptor, CpuBootMode, Error, SlotReads, SpinTable, Surroundings,
    SPIN_TABLE_ACK_OFFSET, SPIN_TABLE_ENTRY_EL_OFFSET, SPIN_TABLE_REQUEST_OFFSET, SPIN_TABLE_SIZE,
};
use pocketboot::preboot::patch::patch_fdt;
use pocketboot::preboot::startup::{plan_startup, take_over};

const FDT_BEGIN_NODE: u32 = 1;
const FDT_END_NODE: u32 = 2;
const FDT_PROP: u32 = 3;
const FDT_END: u32 = 9;
const HEADER_SIZE: usize = 40;

fn test_dtb(build_root: impl FnOnce(&mut Vec<u8>, &mut Vec<u8>)) -> Vec<u8> {
    let mut strings = Vec::new();
    let mut structure = Vec::new();

    write_begin_node_vec(&mut structure, b"");
    build_root(&mut structure, &mut strings);
    write_be32_vec(&mut structure, FDT_END_NODE);
    write_be32_vec(&mut structure, FDT_END);

    build_dtb_vec(&structure, &strings)
}

fn ensure_string_vec(strings: &mut Vec<u8>, name: &[u8]) -> u32 {
    let mut offset = 0;
    while offset < strings.len() {
        let end = offset + strings[offset..].iter().position(|b| *b == 0).unwrap();
        if &strings[offset..end] == name {
            return offset as u32;
        }
        offset = end + 1;
    }
    let offset = strings.len();
    strings.extend_from_slice(name);
    strings.push(0);
    offset as u32
}

fn write_begin_node_vec(output: &mut Vec<u8>, name: &[u8]) {
    write_be32_vec(output, FDT_BEGIN_NODE);
    output.extend_from_slice(name);
    output.push(0);
    while output.len() % 4 != 0 {
        output.push(0);
    }
}

fn write_prop_vec(output: &mut Vec<u8>, nameoff: u32, value: &[u8]) {
    write_be32_vec(output, FDT_PROP);
    write_be32_vec(output, value.len() as u32);
    write_be32_vec(output, nameoff);
    output.extend_from_slice(value);
    while output.len() % 4 != 0 {
        output.push(0);
    }
}

fn write_be32_vec(output: &mut Vec<u8>, value: u32) {
    output.extend_from_slice(&value.to_be_bytes());
}

fn write_be64_vec(output: &mut Vec<u8>, value: u64) {
    output.extend_from_slice(&value.to_be_bytes());
}

fn write_be32_at(output: &mut [u8], offset: usize, value: u32) {
    output[offset..offset + 4].copy_from_slice(&value.to_be_bytes());
}

fn build_dtb_vec(structure: &[u8], strings: &[u8]) -> Vec<u8> {
    let mut output = vec![0; HEADER_SIZE];
    output.extend_from_slice(&[0; 16]);
    while output.len() % 4 != 0 {
        output.push(0);
    }
    let off_dt_struct = output.len();
    output.extend_from_slice(structure);
    let off_dt_strings = output.len();
    output.extend_from_slice(strings);
    let totalsize = output.len();

    write_be32_at(&mut output, 0, 0xd00dfeed);
    write_be32_at(&mut output, 4, totalsize as u32);
    write_be32_at(&mut output, 8, off_dt_struct as u32);
    write_be32_at(&mut output, 12, off_dt_strings as u32);
    write_be32_at(&mut output, 16, HEADER_SIZE as u32);
    write_be32_at(&mut output, 20, 17);
    write_be32_at(&mut output, 24, 16);
    write_be32_at(&mut output, 28, 0);
    write_be32_at(&mut output, 32, strings.len() as u32);
    write_be32_at(&mut output, 36, structure.len() as u32);
    output
}

fn word(dtb: &[u8], at: usize) -> usize {
    read_be32(dtb, at).unwrap() as usize
}

/// The place of the value of a property.
fn prop_place(dtb: &[u8], path: &[u8], name: &[u8]) -> (usize, usize) {
    let reader = Reader::new(dtb).unwrap();
    let node = reader.find_path(path).unwrap();
    let structure = word(dtb, 8);
    let strings = word(dtb, 12);
    let mut cursor = structure + reader.node_content_start(node).unwrap();
    while word(dtb, cursor) as u32 == FDT_PROP {
        let len = word(dtb, cursor + 4);
        let own = strings + word(dtb, cursor + 8);
        let end = own + dtb[own..].iter().position(|b| *b == 0).unwrap();
        if &dtb[own..end] == name {
            return (cursor + 12, len);
        }
        cursor += 12 + (len + 3) / 4 * 4;
    }
    panic!("no such property");
}

fn replace_prop(dtb: &mut [u8], path: &[u8], name: &[u8], replacement: &[u8]) {
    let (offset, len) = prop_place(dtb, path, name);
    assert_eq!(len, replacement.len());
    dtb[offset..offset + replacement.len()].copy_from_slice(replacement);
}

fn around(dtb: &[u8], payload: u64, payload_size: u64) -> Surroundings {
    Surroundings {
        payload,
        payload_size,
        program: None,
        tree_addr: 0x7f00_0000_0000,
        tree_size: dtb.len() as u64,
    }
}

fn slot_reads(table: SpinTable, words: &[u64], cpu: u32) -> SlotReads {
    let slot = table.release_addr(cpu) as usize;
    SlotReads {
        request: words[(slot + SPIN_TABLE_REQUEST_OFFSET as usize) / 8],
        release: words[slot / 8],
        ack: words[(slot + SPIN_TABLE_ACK_OFFSET as usize) / 8],
        entry_el: words[(slot + SPIN_TABLE_ENTRY_EL_OFFSET as usize) / 8],
        request_again: words[(slot + SPIN_TABLE_REQUEST_OFFSET as usize) / 8],
        release_again: words[slot / 8],
    }
}

fn parked_slots(table: SpinTable, entry_el: u64, words: &[u64]) -> Result<(), Error> {
    let slots: Vec<SlotReads> = (1..4).map(|cpu| slot_reads(table, words, cpu)).collect();
    validate_parked_slots(
        entry_el,
        words[table.release_addr(0) as usize / 8],
        &slots,
    )
}

#[test]
fn finds_paths_and_alias_targets() {
    let dtb = test_dtb(|structure, strings| {
        let serial0 = ensure_string_vec(strings, b"serial0");
        write_begin_node_vec(structure, b"aliases");
        write_prop_vec(structure, serial0, b"/soc@0/serial@78b0000\0");
        write_be32_vec(structure, FDT_END_NODE);

        write_begin_node_vec(structure, b"soc@0");
        write_begin_node_vec(structure, b"serial@78b0000");
        write_be32_vec(structure, FDT_END_NODE);
        write_be32_vec(structure, FDT_END_NODE);
    });
    let reader = Reader::new(&dtb).unwrap();
    let aliases = reader.find_path(b"/aliases").unwrap();
    assert_eq!(
        reader.prop_str(aliases, b"serial0").unwrap(),
        b"/soc@0/serial@78b0000"
    );
    assert!(reader.find_path(b"/soc@0/serial@78b0000").is_ok());
}

#[test]
fn discovers_uart_from_stdout_alias() {
    let dtb = msm8916_test_dtb(false);
    let reader = Reader::new(&dtb).unwrap();
    assert_eq!(find_uart_base(&reader).unwrap(), 0x078b0000);
}

#[test]
fn requires_explicit_spin_table_reserved_memory() {
    let dtb = msm8916_test_dtb(false);
    let reader = Reader::new(&dtb).unwrap();
    assert!(matches!(
        find_spin_table(&reader),
        Err(Error::MissingSpinTable)
    ));
}

#[test]
fn patches_cpu_nodes_for_spin_table() {
    let dtb = msm8916_test_dtb(true);
    let reader = Reader::new(&dtb).unwrap();
    let patched = patch_fdt(&reader, 16 * 1024, SpinTable { addr: 0x9000_0000 }).unwrap();
    let patched = Reader::new(&patched).unwrap();
    let cpu0 = patched.find_path(b"/cpus/cpu@0").unwrap();
    assert_eq!(
        patched.prop(cpu0, b"cpu-release-addr").unwrap(),
        0x90000400u64.to_be_bytes()
    );
    let cpu1 = patched.find_path(b"/cpus/cpu@1").unwrap();

    assert_eq!(
        patched.prop_str(cpu1, b"enable-method").unwrap(),
        b"spin-table"
    );
    assert_eq!(
        patched.prop(cpu1, b"cpu-release-addr").unwrap(),
        0x9000_0480u64.to_be_bytes()
    );
    assert!(patched.prop(cpu1, b"power-domains").is_err());
    assert!(patched.prop(cpu1, b"cpu-idle-states").is_err());
    assert!(patched.prop(cpu1, b"power-domain-names").is_err());

    let psci = patched.find_path(b"/firmware-cpu-service").unwrap();
    assert_eq!(patched.prop_str(psci, b"status").unwrap(), b"disabled");

    let saw_node = patched.find_path(b"/soc@0/power-manager@b099000").unwrap();
    assert_eq!(patched.prop_str(saw_node, b"status").unwrap(), b"reserved");

    let idle = patched.find_path(b"/cpus/idle-states/cpu-sleep-0").unwrap();
    assert_eq!(patched.prop_str(idle, b"status").unwrap(), b"disabled");
    assert_eq!(
        patched.prop_str(idle, b"compatible").unwrap(),
        b"arm,idle-state"
    );
}

#[test]
fn validates_four_cpu_topology_and_reserved_memory() {
    let dtb = msm8916_test_dtb(true);
    let reader = Reader::new(&dtb).unwrap();
    let table = find_spin_table(&reader).unwrap();
    assert_eq!(collect_cpus(&reader).unwrap().values.len(), 4);
    assert_eq!(table.code_addr(), 0x90000100);
    assert_eq!(table.release_addr(3), 0x90000580);
    assert_eq!(table.ack_addr(3), 0x900005c0);
    validate_memory(&reader, table, &around(&dtb, 0x80200000, 0x1000000)).unwrap();
    assert!(validate_memory(&reader, table, &around(&dtb, 0x90000000, 4096)).is_err());
    assert!(validate_memory(&reader, table, &around(&dtb, 0x80200000, 0)).is_err());
    assert!(!overlaps(0x90000000, 4096, 0x90000010, 0));
}

#[test]
fn startup_is_planned_from_the_tree() {
    let dtb = msm8916_test_dtb(true);
    let reader = Reader::new(&dtb).unwrap();
    let plan = plan_startup(&reader, &around(&dtb, 0x80200000, 0x1000000)).unwrap();
    assert_eq!(plan.table.addr, 0x90000000);
    assert_eq!(plan.cpus.values.len(), 4);
    let table = SpinTable { addr: 0x90000000 };
    assert_eq!(plan.patched, patch_fdt(&reader, 512 * 1024, table).unwrap());
    let meets = plan_startup(&reader, &around(&dtb, 0x90000000, 4096));
    assert_eq!(meets.unwrap_err(), Error::BadSpinTable);
    let bare = msm8916_test_dtb(false);
    let reader = Reader::new(&bare).unwrap();
    let missing = plan_startup(&reader, &around(&bare, 0x80200000, 0x1000000));
    assert_eq!(missing.unwrap_err(), Error::MissingSpinTable);
}

#[test]
fn rejects_duplicate_affinity_and_incorrect_acc() {
    for reg in [0u32, 0x101, 4] {
        let mut dtb = msm8916_test_dtb(true);
        replace_prop(&mut dtb, b"/cpus/cpu@1", b"reg", &reg.to_be_bytes());
        assert!(collect_cpus(&Reader::new(&dtb).unwrap()).is_err());
    }
    let mut dtb = msm8916_test_dtb(true);
    replace_prop(
        &mut dtb,
        b"/cpus/cpu@1",
        b"qcom,acc",
        &0x100u32.to_be_bytes(),
    );
    assert!(collect_cpus(&Reader::new(&dtb).unwrap()).is_err());
}

#[test]
fn rejects_unknown_or_wrong_sized_resident_abi() {
    let path = b"/reserved-memory/spin-table@90000000";
    let mut dtb = msm8916_test_dtb(true);
    replace_prop(&mut dtb, path, b"compatible", b"pocketboot,spin-table-v2\0");
    assert!(find_spin_table(&Reader::new(&dtb).unwrap()).is_err());
    for (addr, size) in [
        (0x90000008u64, 4096u64),
        (0x90000000, 144),
        (0x100000000, 4096),
    ] {
        let mut dtb = msm8916_test_dtb(true);
        let mut reg = [0; 16];
        reg[..8].copy_from_slice(&addr.to_be_bytes());
        reg[8..].copy_from_slice(&size.to_be_bytes());
        replace_prop(&mut dtb, path, b"reg", &reg);
        assert!(find_spin_table(&Reader::new(&dtb).unwrap()).is_err());
    }
    let mut prefix = [0; 0xb0];
    assert!(!occupied_prefix(&prefix));
    prefix[0x80..0x88].copy_from_slice(b"spin-tab");
    assert!(occupied_prefix(&prefix));
    prefix.fill(0);
    prefix[0x90..0x98].copy_from_slice(b"PBSPIN02");
    assert!(occupied_prefix(&prefix));
}

#[test]
fn patched_tree_requires_resident_handoff() {
    let dtb = msm8916_test_dtb(true);
    let reader = Reader::new(&dtb).unwrap();
    let table = find_spin_table(&reader).unwrap();
    assert!(patch_fdt(&reader, 40, table).is_err());
    let patched = patch_fdt(&reader, 16384, table).unwrap();
    let reader = Reader::new(&patched).unwrap();
    let cpus = collect_cpus(&reader).unwrap();
    assert_eq!(cpus.mode, CpuBootMode::Resident);
    assert!(cpus.values.iter().all(|cpu| cpu.acc_base == 0));
    for cpu in 0..4u32 {
        let node = reader
            .find_path(format!("/cpus/cpu@{cpu:x}").as_bytes())
            .unwrap();
        assert_eq!(
            reader.prop(node, b"cpu-release-addr").unwrap(),
            table.release_addr(cpu).to_be_bytes()
        );
    }
}

#[test]
fn resident_handoff_requires_exact_descriptor_and_parked_generations() {
    let mut prefix = [0; 0xb0];
    prefix[..4].copy_from_slice(&0x14000040u32.to_le_bytes());
    prefix[0x80..0x88].copy_from_slice(b"spin-tab");
    prefix[0x90..0x98].copy_from_slice(b"PBSPIN01");
    for (index, value) in [1u32, 4096, 0x100, 0x400, 0x80, 4].iter().enumerate() {
        prefix[0x98 + index * 4..0x9c + index * 4].copy_from_slice(&value.to_le_bytes());
    }
    validate_resident_descriptor(&prefix).unwrap();
    for offset in [0, 0x80, 0x88, 0x90, 0x98, 0x9c, 0xa0, 0xa4, 0xa8, 0xac] {
        let mut bad = prefix;
        bad[offset] ^= 1;
        assert!(
            validate_resident_descriptor(&bad).is_err(),
            "offset {offset:x}"
        );
    }
    let table = SpinTable { addr: 0 };
    let mut words = [0u64; SPIN_TABLE_SIZE as usize / 8];
    for cpu in 1..4 {
        let slot = table.release_addr(cpu) as usize / 8;
        words[slot + SPIN_TABLE_REQUEST_OFFSET as usize / 8] = cpu as u64 + 2;
        words[slot + SPIN_TABLE_ACK_OFFSET as usize / 8] = cpu as u64 + 2;
        words[slot + SPIN_TABLE_ENTRY_EL_OFFSET as usize / 8] = 4;
    }
    parked_slots(table, 4, &words).unwrap();
    assert!(parked_slots(table, 8, &words).is_err());
    for cpu in 1..4 {
        for (offset, value) in [(0, 0x80200000), (8, 0), (0x40, 1), (0x48, 8)] {
            let mut bad = words;
            bad[(table.release_addr(cpu) as usize + offset) / 8] = value;
            assert!(parked_slots(table, 4, &bad).is_err());
        }
    }
    let slots: Vec<SlotReads> = (1..4).map(|cpu| slot_reads(table, &words, cpu)).collect();
    assert_eq!(take_over(&prefix, 4, 0, &slots, &[]), Ok(false));
    assert_eq!(
        take_over(&prefix, 4, 8, &slots, &[]),
        Err(Error::UnparkedResident)
    );
    let mut told = prefix.to_vec();
    told.extend_from_slice(b"PBSDIAG1");
    assert_eq!(take_over(&told, 4, 0, &slots, &[0x40, 0x47]), Ok(true));
    assert_eq!(
        take_over(&told, 4, 0, &slots, &[0x40, 0]),
        Err(Error::Coherency)
    );
    words[table.release_addr(0) as usize / 8] = 0x80200000;
    assert!(parked_slots(table, 4, &words).is_err());
}

#[test]
fn coherency_snapshots_require_explicit_diagnostic_tag() {
    let mut prefix = [0; 0xb8];
    assert!(!has_coherency_diagnostics(&prefix));
    assert!(!has_coherency_diagnostics(&prefix[..0xb0]));
    prefix[0xb0..0xb8].copy_from_slice(b"PBSDIAG2");
    assert!(!has_coherency_diagnostics(&prefix));
    prefix[0xb0..0xb8].copy_from_slice(b"PBSDIAG1");
    assert!(has_coherency_diagnostics(&prefix));
    for value in [0, 1, 0x3f, u64::MAX & !(1 << 6)] {
        assert!(require_coherency(value).is_err());
    }
    for value in [0x40, 0x47, u64::MAX] {
        require_coherency(value).unwrap();
    }
}

#[test]
fn resident_handoff_rejects_mixed_methods_and_wrong_release_slots() {
    let dtb = msm8916_test_dtb(true);
    let reader = Reader::new(&dtb).unwrap();
    let table = find_spin_table(&reader).unwrap();
    let patched = patch_fdt(&reader, 16384, table).unwrap();
    for cpu in 0..4 {
        let path = format!("/cpus/cpu@{cpu:x}");
        let mut bad = patched.clone();
        replace_prop(
            &mut bad,
            path.as_bytes(),
            b"cpu-release-addr",
            &table.release_addr((cpu + 1) % 4).to_be_bytes(),
        );
        assert!(collect_cpus(&Reader::new(&bad).unwrap()).is_err());
        let mut bad = patched.clone();
        replace_prop(
            &mut bad,
            path.as_bytes(),
            b"enable-method",
            b"psci\0\0\0\0\0\0\0",
        );
        assert!(collect_cpus(&Reader::new(&bad).unwrap()).is_err());
    }
}

#[test]
fn rejects_overlapping_firmware_memreserve() {
    for (address, size, allowed) in [
        (0x8ffff000u64, 0x2000u64, false),
        (0x90000000, 0x1000, true),
    ] {
        let mut dtb = msm8916_test_dtb(true);
        let reserve_offset = Reader::new(&dtb).unwrap().header.off_mem_rsvmap as usize;
        let entry = [address.to_be_bytes(), size.to_be_bytes()].concat();
        dtb.splice(reserve_offset..reserve_offset, entry);
        for offset in [4, 8, 12] {
            let old = read_be32(&dtb, offset).unwrap();
            dtb[offset..offset + 4].copy_from_slice(&(old + 16).to_be_bytes());
        }
        let reader = Reader::new(&dtb).unwrap();
        let table = find_spin_table(&reader).unwrap();
        assert_eq!(
            validate_memory(&reader, table, &around(&dtb, 0x80200000, 0x1000000)).is_ok(),
            allowed
        );
    }
}

#[test]
fn retains_non_psci_power_domain_tuples_and_matching_names() {
    let mut dtb = test_dtb(|structure, strings| {
        let compatible = ensure_string_vec(strings, b"compatible");
        let phandle = ensure_string_vec(strings, b"phandle");
        let cells = ensure_string_vec(strings, b"#power-domain-cells");
        let domains = ensure_string_vec(strings, b"power-domains");
        let names = ensure_string_vec(strings, b"power-domain-names");
        let reg = ensure_string_vec(strings, b"reg");
        write_begin_node_vec(structure, b"firmware-service");
        write_prop_vec(structure, compatible, b"arm,psci-1.0\0");
        write_begin_node_vec(structure, b"cpu-domain");
        write_prop_vec(structure, phandle, &0x300u32.to_be_bytes());
        write_prop_vec(structure, cells, &0u32.to_be_bytes());
        write_be32_vec(structure, FDT_END_NODE);
        write_be32_vec(structure, FDT_END_NODE);
        write_begin_node_vec(structure, b"voltage-domain");
        write_prop_vec(structure, phandle, &0x301u32.to_be_bytes());
        write_prop_vec(structure, cells, &1u32.to_be_bytes());
        write_be32_vec(structure, FDT_END_NODE);
        write_begin_node_vec(structure, b"cpus");
        write_begin_node_vec(structure, b"cpu@0");
        write_prop_vec(structure, reg, &0u32.to_be_bytes());
        write_prop_vec(
            structure,
            domains,
            &[
                0x300u32.to_be_bytes(),
                0x301u32.to_be_bytes(),
                7u32.to_be_bytes(),
            ]
            .concat(),
        );
        write_prop_vec(structure, names, b"psci\0voltage\0");
        write_be32_vec(structure, FDT_END_NODE);
        write_be32_vec(structure, FDT_END_NODE);
    });
    let reader = Reader::new(&dtb).unwrap();
    let patched = patch_fdt(&reader, 16384, SpinTable { addr: 0x90000000 }).unwrap();
    let patched = Reader::new(&patched).unwrap();
    let cpu = patched.find_path(b"/cpus/cpu@0").unwrap();
    assert_eq!(
        patched.prop(cpu, b"power-domains").unwrap(),
        [0x301u32.to_be_bytes(), 7u32.to_be_bytes()].concat()
    );
    assert_eq!(
        patched.prop(cpu, b"power-domain-names").unwrap(),
        b"voltage\0"
    );
    let service = patched.find_path(b"/firmware-service").unwrap();
    assert_eq!(patched.prop_str(service, b"status").unwrap(), b"disabled");
    replace_prop(
        &mut dtb,
        b"/voltage-domain",
        b"#power-domain-cells",
        &2u32.to_be_bytes(),
    );
    assert!(patch_fdt(
        &Reader::new(&dtb).unwrap(),
        16384,
        SpinTable { addr: 0x90000000 }
    )
    .is_err());
}

fn msm8916_test_dtb(with_spin_table: bool) -> Vec<u8> {
    msm8916_test_dtb_with_method(with_spin_table, b"psci\0")
}

#[test]
fn accepts_lk2nd_bypass_method_then_patches_to_spin_table() {
    let dtb = msm8916_test_dtb_with_method(true, b"pocketboot,msm8916-acc\0");
    let reader = Reader::new(&dtb).unwrap();
    assert_eq!(collect_cpus(&reader).unwrap().values.len(), 4);
    let patched = patch_fdt(&reader, 16384, find_spin_table(&reader).unwrap()).unwrap();
    let patched = Reader::new(&patched).unwrap();
    for cpu in 0..4 {
        let node = patched
            .find_path(format!("/cpus/cpu@{cpu:x}").as_bytes())
            .unwrap();
        assert_eq!(
            patched.prop_str(node, b"enable-method").unwrap(),
            b"spin-table"
        );
    }
}

fn msm8916_test_dtb_with_method(with_spin_table: bool, method: &[u8]) -> Vec<u8> {
    test_dtb(|structure, strings| {
        let address_cells = ensure_string_vec(strings, b"#address-cells");
        let size_cells = ensure_string_vec(strings, b"#size-cells");
        let reg = ensure_string_vec(strings, b"reg");
        let ranges = ensure_string_vec(strings, b"ranges");
        let no_map = ensure_string_vec(strings, b"no-map");
        let compatible = ensure_string_vec(strings, b"compatible");
        let status = ensure_string_vec(strings, b"status");
        let phandle = ensure_string_vec(strings, b"phandle");
        let serial0 = ensure_string_vec(strings, b"serial0");
        let stdout_path = ensure_string_vec(strings, b"stdout-path");
        let device_type = ensure_string_vec(strings, b"device_type");
        let enable_method = ensure_string_vec(strings, b"enable-method");
        let power_domains = ensure_string_vec(strings, b"power-domains");
        let power_domain_names = ensure_string_vec(strings, b"power-domain-names");
        let qcom_acc = ensure_string_vec(strings, b"qcom,acc");
        let power_domain_cells = ensure_string_vec(strings, b"#power-domain-cells");
        let cpu_idle_states = ensure_string_vec(strings, b"cpu-idle-states");
        let qcom_saw = ensure_string_vec(strings, b"qcom,saw");
        let entry_method = ensure_string_vec(strings, b"entry-method");
        let idle_state_name = ensure_string_vec(strings, b"idle-state-name");

        write_prop_vec(structure, address_cells, &2u32.to_be_bytes());
        write_prop_vec(structure, size_cells, &2u32.to_be_bytes());

        write_begin_node_vec(structure, b"memory@80000000");
        write_prop_vec(structure, device_type, b"memory\0");
        let mut memory_reg = Vec::new();
        write_be64_vec(&mut memory_reg, 0x80000000);
        write_be64_vec(&mut memory_reg, 0x40000000);
        write_prop_vec(structure, reg, &memory_reg);
        write_be32_vec(structure, FDT_END_NODE);

        write_begin_node_vec(structure, b"aliases");
        write_prop_vec(structure, serial0, b"/soc@0/serial@78b0000\0");
        write_be32_vec(structure, FDT_END_NODE);

        write_begin_node_vec(structure, b"chosen");
        write_prop_vec(structure, stdout_path, b"serial0:115200n8\0");
        write_be32_vec(structure, FDT_END_NODE);

        write_begin_node_vec(structure, b"reserved-memory");
        write_prop_vec(structure, address_cells, &2u32.to_be_bytes());
        write_prop_vec(structure, size_cells, &2u32.to_be_bytes());
        write_prop_vec(structure, ranges, &[]);
        if with_spin_table {
            write_begin_node_vec(structure, b"spin-table@90000000");
            let mut value = Vec::new();
            write_be64_vec(&mut value, 0x9000_0000);
            write_be64_vec(&mut value, 0x1000);
            write_prop_vec(structure, reg, &value);
            write_prop_vec(structure, compatible, b"pocketboot,spin-table-v1\0");
            write_prop_vec(structure, no_map, &[]);
            write_be32_vec(structure, FDT_END_NODE);
        }
        write_be32_vec(structure, FDT_END_NODE);

        write_begin_node_vec(structure, b"cpus");
        write_prop_vec(structure, address_cells, &1u32.to_be_bytes());
        write_prop_vec(structure, size_cells, &0u32.to_be_bytes());
        for cpu in 0..4 {
            write_cpu_node(
                structure,
                device_type,
                compatible,
                reg,
                enable_method,
                power_domains,
                power_domain_names,
                qcom_acc,
                qcom_saw,
                cpu,
                0x100 + cpu,
                0x200,
                cpu_idle_states,
                method,
            );
        }

        write_begin_node_vec(structure, b"idle-states");
        write_prop_vec(structure, entry_method, b"psci\0");
        write_begin_node_vec(structure, b"cpu-sleep-0");
        write_prop_vec(structure, compatible, b"arm,idle-state\0");
        write_prop_vec(structure, idle_state_name, b"standalone-power-collapse\0");
        write_be32_vec(structure, FDT_END_NODE);
        write_be32_vec(structure, FDT_END_NODE);
        write_be32_vec(structure, FDT_END_NODE);

        write_begin_node_vec(structure, b"firmware-cpu-service");
        write_prop_vec(structure, compatible, b"arm,psci-1.0\0");
        write_begin_node_vec(structure, b"power-domain-cpu");
        write_prop_vec(structure, phandle, &0x300u32.to_be_bytes());
        write_prop_vec(structure, power_domain_cells, &0u32.to_be_bytes());
        write_be32_vec(structure, FDT_END_NODE);
        write_be32_vec(structure, FDT_END_NODE);

        write_begin_node_vec(structure, b"soc@0");
        write_prop_vec(structure, address_cells, &1u32.to_be_bytes());
        write_prop_vec(structure, size_cells, &1u32.to_be_bytes());
        write_begin_node_vec(structure, b"serial@78b0000");
        write_prop_vec(
            structure,
            compatible,
            b"qcom,msm-uartdm-v1.4\0qcom,msm-uartdm\0",
        );
        let mut uart_reg = Vec::new();
        write_be32_vec(&mut uart_reg, 0x078b0000);
        write_be32_vec(&mut uart_reg, 0x200);
        write_prop_vec(structure, reg, &uart_reg);
        write_be32_vec(structure, FDT_END_NODE);

        for cpu in 0..4 {
            let base = 0x0b088000 + cpu * 0x10000;
            let name = format!("power-manager@{base:x}");
            write_acc_or_saw(
                structure,
                reg,
                compatible,
                status,
                phandle,
                name.as_bytes(),
                base,
                0x100 + cpu,
            );
        }
        write_acc_or_saw(
            structure,
            reg,
            compatible,
            status,
            phandle,
            b"power-manager@b099000",
            0x0b099000,
            0x200,
        );
        write_be32_vec(structure, FDT_END_NODE);
    })
}

#[allow(clippy::too_many_arguments)]
fn write_cpu_node(
    structure: &mut Vec<u8>,
    device_type: u32,
    compatible: u32,
    reg: u32,
    enable_method: u32,
    power_domains: u32,
    power_domain_names: u32,
    qcom_acc: u32,
    qcom_saw: u32,
    cpu: u32,
    acc: u32,
    saw: u32,
    cpu_idle_states: u32,
    method: &[u8],
) {
    let name = format!("cpu@{cpu:x}");
    write_begin_node_vec(structure, name.as_bytes());
    write_prop_vec(structure, device_type, b"cpu\0");
    write_prop_vec(structure, compatible, b"arm,cortex-a53\0");
    write_prop_vec(structure, reg, &cpu.to_be_bytes());
    write_prop_vec(structure, enable_method, method);
    write_prop_vec(structure, power_domains, &0x300u32.to_be_bytes());
    write_prop_vec(structure, power_domain_names, b"psci\0");
    write_prop_vec(structure, qcom_acc, &acc.to_be_bytes());
    write_prop_vec(structure, qcom_saw, &saw.to_be_bytes());
    write_prop_vec(structure, cpu_idle_states, &0x400u32.to_be_bytes());
    write_be32_vec(structure, FDT_END_NODE);
}

fn write_acc_or_saw(
    structure: &mut Vec<u8>,
    reg: u32,
    compatible: u32,
    status: u32,
    phandle: u32,
    name: &[u8],
    base: u32,
    phandle_value: u32,
) {
    write_begin_node_vec(structure, name);
    write_prop_vec(structure, compatible, b"qcom,msm8916-acc\0");
    let mut value = Vec::new();
    write_be32_vec(&mut value, base);
    write_be32_vec(&mut value, 0x1000);
    write_prop_vec(structure, reg, &value);
    write_prop_vec(structure, phandle, &phandle_value.to_be_bytes());
    write_prop_vec(structure, status, b"reserved\0");
    write_be32_vec(structure, FDT_END_NODE);
}

#[test]
fn trees_of_the_firmware_are_measured_before_they_are_read() {
    let header = |magic: u32, length: u32| {
        let mut bytes = vec![0u8; 40];
        bytes[..4].copy_from_slice(&magic.to_be_bytes());
        bytes[4..8].copy_from_slice(&length.to_be_bytes());
        bytes
    };
    assert_eq!(tree_is_given(0), Err(TreeError::BadOffset));
    assert_eq!(tree_is_given(0x8000_0000), Ok(()));
    let at = 0x8000_0000;
    assert_eq!(tree_length(at, &header(0xd00d_feed, 40)), Ok(40));
    assert_eq!(tree_length(at, &header(0xd00d_feed, 0x8_0000)), Ok(0x8_0000));
    assert_eq!(
        tree_length(at, &header(0xd00d_feee, 40)),
        Err(TreeError::BadMagic)
    );
    assert_eq!(
        tree_length(at, &header(0xd00d_feed, 39)),
        Err(TreeError::BadOffset)
    );
    assert_eq!(
        tree_length(at, &header(0xd00d_feed, 0x8_0001)),
        Err(TreeError::BadOffset)
    );
    assert_eq!(
        tree_length(u64::MAX - 39, &header(0xd00d_feed, 40)),
        Err(TreeError::BadOffset)
    );
    assert_eq!(tree_length(at, &[0xd0, 0x0d]), Err(TreeError::BadOffset));
}
