use pocketboot::ab_slots::Slot;
use pocketboot::adb::sync::{SyncSend, SyncSession};
use pocketboot::adb::{connection_banner, AdbServer, SessionKind};
use pocketboot::android_lp::device_mapper::{
    align_to_8, remove_request, set_c_field, DmError, DM_IOCTL_SIZE,
};
use pocketboot::battery::percent_from_i64;
use pocketboot::boot_state::{
    format_compatibles, format_pon_reason_labels, format_reboot_mode, state_of_unknown_root,
    state_without_root, QcomPonGeneration, RebootMode,
};
use pocketboot::bootflow::{
    disk_candidate, file_name, is_local_disk_name, join_path, mount_root, sort_disks,
    BootPartitionCandidate, BootPartitionRole,
};
use pocketboot::errors::{ErrorKind, Fault};
use pocketboot::fastboot::boot::{
    android_cmdline, extract_vendor_dt_dtb, vendor_dt_kind, BootFault, VendorDtEntry, VendorDtKind,
};
use pocketboot::fastboot::cat::{payload_name, staged_text};
use pocketboot::fastboot::dmesg::{append_limited, capture_limits, capture_text, CaptureError, DmesgCapture};
use pocketboot::fastboot::flash::{
    check_target, flashed_text, is_allowed_partition, raw_text, sparse_text, start_text,
    FlashError, FlashMode, SparseFlashStats,
};
use pocketboot::fastboot::shell::{output_text, shell_wrapper, ShellStatus};
use pocketboot::fastboot::slots::active_text;
use pocketboot::fastboot::ums::{started_text, stop_failure_message, stopped_text};
use pocketboot::firmware::{missing_metadata, partition_base, partition_slot_name, slot_index};
use pocketboot::gadget::{
    lun_dir, mass_storage_config_link, mass_storage_function_dir, rebind_after_error,
};
use pocketboot::getty::{active_console_names, parse_console_spec};
use pocketboot::kexec::arm64::{LoadError, LoadPlan, SegmentKind, Trampoline};
use pocketboot::kexec::image::{ImageError, KexecImage};
use pocketboot::kmsg::has_message;
use pocketboot::mesh::identity::{hex_encode, locally_administered_mac};
use pocketboot::mesh::usb::mac_string;
use pocketboot::partitions::{
    is_local_flash_disk, partition_size_bytes, uevent_value, Partition,
};
use pocketboot::preboot::msm8916::{init_spin_table, stdout_target, Error};
use pocketboot::preboot::startup::take_over;
use pocketboot::system::{fdt_compatible_detail, fdt_first_string};
use pocketboot::text::{lower_text, parse_signed, signed_text};

fn partition(partname: Option<&str>, read_only: bool) -> Partition {
    Partition {
        kernel_name: "mmcblk0p7".to_string(),
        partname: partname.map(|name| name.to_string()),
        dev_path: "/dev/mmcblk0p7".to_string(),
        devnum: "179:7".to_string(),
        size_bytes: 4096,
        read_only,
    }
}

#[test]
fn adb_says_what_it_is_and_numbers_its_streams() {
    assert_eq!(
        connection_banner(),
        "recovery::ro.product.name=pocketboot;ro.product.model=pocketboot;ro.product.device=pocketboot;features="
    );
    assert!(SessionKind::Sync.acknowledge_before_write());
    assert!(!SessionKind::Shell.acknowledge_before_write());
    assert!(!SessionKind::Exec.acknowledge_before_write());
    let mut server = AdbServer::new();
    assert_eq!(server.allocate_local_id(), 1);
    assert_eq!(server.allocate_local_id(), 2);
    server.next_local_id = u32::MAX;
    assert_eq!(server.allocate_local_id(), u32::MAX);
    assert_eq!(server.allocate_local_id(), 1);
}

fn sent() -> SyncSend {
    SyncSend {
        path: b"/data/x".to_vec(),
        mode: 0o100644,
        file: true,
        failure: None,
    }
}

fn failed(text: &str) -> Vec<u8> {
    let mut packet = b"FAIL".to_vec();
    packet.extend_from_slice(&(text.len() as u32).to_le_bytes());
    packet.extend_from_slice(text.as_bytes());
    packet
}

#[test]
fn finished_files_are_answered() {
    let send = sent();
    assert_eq!(send.next_mode(), Some(0o644));
    assert!(send.is_dated());
    assert_eq!(send.reply().unwrap(), b"OKAY\0\0\0\0");

    let mut send = sent();
    send.flush_failed("full");
    assert_eq!(send.next_mode(), None);
    assert!(!send.is_dated());
    assert_eq!(send.reply().unwrap(), failed("flush /data/x: full"));

    let mut send = sent();
    send.mode_failed("denied");
    assert_eq!(send.reply().unwrap(), failed("chmod /data/x: denied"));

    let mut send = sent();
    send.date_failed("denied");
    assert_eq!(send.reply().unwrap(), failed("utime /data/x: denied"));

    let mut session = SyncSession::new();
    session.send = Some(sent());
    session.write_failed("full");
    let send = session.send.unwrap();
    assert!(!send.file);
    assert_eq!(send.reply().unwrap(), failed("write /data/x: full"));
}

#[test]
fn device_mapper_fields_are_padded() {
    assert_eq!(align_to_8(9), Ok(16));
    assert_eq!(align_to_8(16), Ok(16));
    assert_eq!(set_c_field("ab", 4), Ok(vec![b'a', b'b', 0, 0]));
    assert_eq!(set_c_field("abcd", 4), Err(DmError::InvalidString));
    assert_eq!(set_c_field("a\0", 4), Err(DmError::InvalidString));
    let request = remove_request("POCKETBOOT-FW-b-vendor").unwrap();
    assert_eq!(request.len(), DM_IOCTL_SIZE);
    let place = request
        .windows(22)
        .position(|window| window == b"POCKETBOOT-FW-b-vendor");
    assert_eq!(place, Some(176));
    assert_eq!(
        DmError::Version(3, 1, 2).message(""),
        "unsupported device-mapper ioctl version 3.1.2"
    );
    assert_eq!(
        DmError::NotReadOnly.message("fw"),
        "device-mapper mapping \"fw\" did not become active and read-only"
    );
}

#[test]
fn small_facts_are_told() {
    assert_eq!(Slot::A.suffix(), "_a");
    assert_eq!(Slot::B.suffix(), "_b");
    assert_eq!(percent_from_i64(-5), 0);
    assert_eq!(percent_from_i64(42), 42);
    assert_eq!(percent_from_i64(150), 100);
    assert!(!has_message(b"\n\r\0"));
    assert!(has_message(b"\nx"));
    assert_eq!(hex_encode(&[0x0f, 0xa0]), "0fa0");
    assert_eq!(
        locally_administered_mac(&[0x01, 2, 3, 4, 5, 0xff]),
        [0x02, 2, 3, 4, 5, 0xff]
    );
    assert_eq!(mac_string(&[2, 0, 0xab, 1, 2, 3]), "02:00:ab:01:02:03");
    assert_eq!(lower_text("PMIC-Spmi"), "pmic-spmi");
    assert_eq!(parse_signed(&['-', '1', '2']), Some(-12));
    assert_eq!(parse_signed(&['1', 'x']), None);
    assert_eq!(signed_text(-12), "-12");
    assert_eq!(
        fdt_first_string(b"Phone\0other\0").as_deref(),
        Some("Phone")
    );
    assert_eq!(
        fdt_compatible_detail(b"a,b\0c,d\0e,f\0").as_deref(),
        Some("a,b / c,d")
    );
    assert_eq!(fdt_compatible_detail(b"a,b\0").as_deref(), Some("a,b"));
    assert_eq!(fdt_compatible_detail(b"\0"), None);
    assert_eq!(active_console_names("tty0 ttyMSM0\n").len(), 2);
    let console = parse_console_spec("ttyMSM0,115200n8").unwrap();
    assert_eq!((console.tty.as_str(), console.baud.as_str()), ("ttyMSM0", "115200"));
    assert!(parse_console_spec("null").is_none());
}

#[test]
fn power_registers_and_reasons_are_told() {
    let first = QcomPonGeneration::Gen1;
    assert_eq!(first.pon_reason1_offset(), 0x08);
    assert_eq!(first.warm_reset_reason1_offset(), 0x0a);
    assert_eq!(first.warm_reset_reason2_offset(), Some(0x0b));
    let second = QcomPonGeneration::Gen2;
    assert_eq!(second.pon_reason1_offset(), 0xc0);
    assert_eq!(second.warm_reset_reason1_offset(), 0xc2);
    assert_eq!(second.warm_reset_reason2_offset(), None);
    assert_eq!(format_reboot_mode(Some(RebootMode::Unknown(9))), "unknown(9)");
    assert_eq!(format_reboot_mode(Some(RebootMode::Recovery)), "recovery");
    assert_eq!(format_reboot_mode(None), "none");
    assert_eq!(format_compatibles(&[]), "none");
    assert_eq!(
        format_compatibles(&["a,b".to_string(), "c,d".to_string()]),
        "a,b|c,d"
    );
    assert_eq!(format_pon_reason_labels(0x03), "hard-reset|smpl");
    assert_eq!(format_pon_reason_labels(0), "none");
    let state = state_of_unknown_root(&["a,b".to_string()]);
    let source = state.source.unwrap();
    assert_eq!(source.backend, "devicetree");
    assert_eq!(source.detail, "unsupported-root-compatible root=a,b");
    assert_eq!(state.hard_reset, None);
    assert_eq!(
        state_without_root("gone").source.unwrap().detail,
        "root-compatible-unavailable path=/sys/firmware/devicetree/base/compatible error=gone"
    );
}

#[test]
fn disks_and_boot_partitions_are_told_apart() {
    assert!(is_local_disk_name("mmcblk0"));
    assert!(is_local_disk_name("sda"));
    assert!(!is_local_disk_name("mmcblk0boot0"));
    assert!(!is_local_disk_name("mmcblk0rpmb"));
    assert!(!is_local_disk_name("loop0"));
    let disk = |name: &str, removable: Option<&str>| {
        disk_candidate(
            name,
            "/sys/block/x",
            false,
            true,
            removable,
            Some("4096"),
            Some("100"),
        )
    };
    let found = disk("mmcblk0", Some("1")).unwrap();
    assert_eq!(found.dev_path, "/dev/mmcblk0");
    assert_eq!((found.logical_block_size, found.sectors_512), (4096, 100));
    assert!(found.removable);
    assert!(disk("loop0", None).is_none());
    assert!(disk_candidate("sda", "", true, true, None, None, None).is_none());
    assert!(disk_candidate("sda", "", false, false, None, None, None).is_none());
    let plain = disk_candidate("sda", "", false, true, None, Some("1000"), None).unwrap();
    assert_eq!((plain.logical_block_size, plain.sectors_512), (512, 0));
    let sorted = sort_disks(vec![
        disk("mmcblk0", Some("1")).unwrap(),
        disk("sdb", None).unwrap(),
        disk("sda", Some("0")).unwrap(),
    ]);
    let names: Vec<&str> = sorted.iter().map(|disk| disk.name.as_str()).collect();
    assert_eq!(names, ["sda", "sdb", "mmcblk0"]);
    let candidate = BootPartitionCandidate {
        disk: "sda".to_string(),
        partition: "sda1".to_string(),
        partno: 1,
        role: BootPartitionRole::Esp,
        dev_path: "/dev/sda1".to_string(),
        removable: false,
    };
    assert_eq!(mount_root(&candidate), "/run/pocketboot/boot/esp-sda1");
    assert_eq!(join_path("/run/boot", "vmlinuz"), "/run/boot/vmlinuz");
    assert_eq!(file_name("/run/boot/linux.conf"), "linux.conf");
}

#[test]
fn command_lines_of_boot_images_end_at_nul() {
    assert_eq!(
        android_cmdline(b"console=tty0 quiet \0junk").unwrap(),
        "console=tty0 quiet"
    );
    let error = android_cmdline(b"a\xff\0").unwrap_err();
    assert!(error.message().starts_with("boot image cmdline is not UTF-8: "));
    assert!(error.message().contains("invalid utf-8"));
}

#[test]
fn lists_of_device_trees_are_cut() {
    assert_eq!(vendor_dt_kind(b"QCDT...."), Some(VendorDtKind::Qcdt));
    assert_eq!(vendor_dt_kind(b"DTBH"), Some(VendorDtKind::Dtbh));
    assert_eq!(vendor_dt_kind(b"QCD"), None);
    let image = b"....QCDTtree";
    assert_eq!(
        extract_vendor_dt_dtb(image, 4, 8, &VendorDtEntry::Range(4, 8)).unwrap(),
        b"tree"
    );
    let told = |image: &[u8], position: u64, size: u32, entry: VendorDtEntry| {
        let err = extract_vendor_dt_dtb(image, position, size, &entry).unwrap_err();
        (err.fault, err.message())
    };
    assert_eq!(
        told(image, 4, 8, VendorDtEntry::ParseFailed("short".to_string())),
        (
            BootFault::VendorDt,
            "parse boot image QCDT vendor-dt: short".to_string()
        )
    );
    assert_eq!(
        told(image, 4, 8, VendorDtEntry::SelectFailed("two".to_string())),
        (
            BootFault::VendorDt,
            "select boot image QCDT vendor-dt entry: two".to_string()
        )
    );
    assert_eq!(
        told(b"abcdefgh", 0, 8, VendorDtEntry::Range(0, 0)),
        (
            BootFault::VendorDt,
            "unsupported boot image vendor-dt magic: [97, 98, 99, 100]".to_string()
        )
    );
    assert_eq!(
        told(image, 4, 9, VendorDtEntry::Range(0, 0)).0,
        BootFault::VendorDtTruncated
    );
}

#[test]
fn hosts_are_told_what_happened() {
    assert_eq!(payload_name("/proc/cmdline"), "cmdline");
    assert_eq!(payload_name("/"), "cat");
    assert_eq!(staged_text("/proc/cmdline", 18), "/proc/cmdline staged (18 bytes)");
    let limits = capture_limits();
    assert_eq!((limits.bytes, limits.records), (4 * 1024 * 1024, 32 * 1024));
    let mut output = vec![1, 2];
    assert_eq!(append_limited(&mut output, &[3], 2), Err(CaptureError::Bytes(2)));
    assert_eq!(append_limited(&mut output, &[3], 3), Ok(()));
    assert_eq!(output, [1, 2, 3]);
    let mut capture = DmesgCapture::new();
    capture.data = b"one\n".to_vec();
    capture.records = 1;
    assert_eq!(capture_text(&capture), "1 dmesg records staged (4 bytes)");
    let target = partition(Some("boot_a"), false);
    assert_eq!(
        start_text(FlashMode::Raw, 10, &target),
        "flashing 10 bytes to boot_a (/dev/mmcblk0p7)"
    );
    assert_eq!(
        start_text(FlashMode::Sparse, 10, &target),
        "flashing sparse image to boot_a (/dev/mmcblk0p7)"
    );
    let stats = SparseFlashStats {
        expanded_size: 8192,
        written_size: 4096,
        chunks: 2,
    };
    assert_eq!(
        sparse_text(&stats),
        "wrote 4096 data bytes from 2 sparse chunks; expanded size 8192 bytes"
    );
    assert_eq!(raw_text(10), "wrote 10 bytes");
    assert_eq!(flashed_text(&target), "flashed boot_a");
    assert_eq!(flashed_text(&partition(None, false)), "flashed mmcblk0p7");
    let status = ShellStatus {
        timed_out: false,
        code: Some(3),
        signal: None,
    };
    assert_eq!(status.description(), "exited 3");
    assert_eq!(output_text(&status, 7), "shell exited 3; 7 bytes staged");
    assert_eq!(shell_wrapper(), "ulimit -f 8192; exec /bin/sh -c \"$1\"");
    assert_eq!(active_text(Slot::B), "slot b is active");
    assert_eq!(started_text("/dev/sda", 2, false), "UMS started for /dev/sda on LUN 2");
    assert_eq!(
        started_text("/dev/sda", 2, true),
        "UMS already started for /dev/sda on LUN 2"
    );
    assert_eq!(stopped_text("/dev/sda", 2), "UMS stopped for /dev/sda from LUN 2");
    assert_eq!(
        stop_failure_message("/dev/sda", Some(16), "busy"),
        "UMS stop failed for /dev/sda: unmount/eject on host first"
    );
    assert_eq!(
        stop_failure_message("/dev/sda", Some(5), "input/output error"),
        "UMS stop failed for /dev/sda: input/output error"
    );
}

#[test]
fn only_some_partitions_are_flashed() {
    assert!(is_allowed_partition("boot_b", &partition(None, false)));
    assert!(is_allowed_partition("mmcblk0p7", &partition(Some("userdata"), false)));
    assert!(!is_allowed_partition("mmcblk0p7", &partition(Some("modem"), false)));
    assert_eq!(
        check_target("modem", &partition(Some("modem"), false)),
        Err(FlashError::NotAllowed)
    );
    assert_eq!(
        check_target("boot", &partition(Some("boot"), true)),
        Err(FlashError::ReadOnly)
    );
    assert_eq!(check_target("boot", &partition(Some("boot"), false)), Ok(()));
}

#[test]
fn firmware_partitions_are_named_by_slot() {
    assert_eq!(partition_slot_name("modem_a"), Some(Slot::A));
    assert_eq!(partition_slot_name("modem"), None);
    assert_eq!(partition_base("modem_b"), "modem");
    assert_eq!(partition_base("modem"), "modem");
    assert_eq!((slot_index(Slot::A), slot_index(Slot::B)), (0, 1));
    let fault = missing_metadata("super_a");
    assert_eq!(fault.kind, ErrorKind::NotFound);
    assert_eq!(fault.text, "dynamic partition metadata \"super_a\" not found");
}

#[test]
fn storage_functions_stand_under_their_gadget() {
    let function = mass_storage_function_dir("/sys/kernel/config/usb_gadget/g1");
    assert_eq!(
        function,
        "/sys/kernel/config/usb_gadget/g1/functions/mass_storage.pocketboot-ums"
    );
    assert_eq!(
        mass_storage_config_link("/g"),
        "/g/configs/c.1/mass_storage.pocketboot-ums"
    );
    assert_eq!(lun_dir("/g/functions/f", 3), "/g/functions/f/lun.3");
    let fault = |kind: ErrorKind, text: &str| Fault {
        kind,
        text: text.to_string(),
    };
    let kept = rebind_after_error(fault(ErrorKind::ResourceBusy, "busy"), None, "UMS add");
    assert_eq!((kept.kind, kept.text.as_str()), (ErrorKind::ResourceBusy, "busy"));
    let both = rebind_after_error(
        fault(ErrorKind::ResourceBusy, "busy"),
        Some(fault(ErrorKind::NotFound, "gone")),
        "UMS add",
    );
    assert_eq!(both.kind, ErrorKind::NotFound);
    assert_eq!(both.text, "UMS add failed: busy; USB rebind failed: gone");
}

#[test]
fn partitions_are_measured_in_sectors() {
    let size = |sectors: Option<&str>| partition_size_bytes("/sys/block/sda/sda1", sectors);
    assert_eq!(size(Some("2048")), Ok(1024 * 1024));
    assert_eq!(
        size(None),
        Err("/sys/block/sda/sda1 has no size".to_string())
    );
    assert_eq!(
        size(Some("x")),
        Err("/sys/block/sda/sda1 size is invalid: invalid digit found in string".to_string())
    );
    assert_eq!(
        size(Some("18446744073709551615")),
        Err("/sys/block/sda/sda1 size overflows".to_string())
    );
    assert!(is_local_flash_disk("mmcblk0", false, Some("0")));
    assert!(!is_local_flash_disk("mmcblk0", false, Some("1")));
    assert!(!is_local_flash_disk("mmcblk0", true, None));
    assert!(!is_local_flash_disk("zram0", false, None));
    assert_eq!(
        uevent_value("DEVTYPE=partition\nPARTNAME=boot\n", "PARTNAME").as_deref(),
        Some("boot")
    );
    assert_eq!(uevent_value("PARTNAME\n", "PARTNAME"), None);
}

#[test]
fn resident_page_is_made_once() {
    let image = vec![7u8; 0x200];
    let page = init_spin_table(&[0; 0xb0], &image).unwrap();
    assert_eq!(page.len(), 4096);
    assert_eq!(page[..0x200], image[..]);
    let set: Vec<usize> = (0x200..4096).filter(|at| page[*at] != 0).collect();
    assert_eq!(set, [0x488, 0x508, 0x588]);
    assert_eq!(init_spin_table(&[0; 0xb0], &[7; 0xff]), Err(Error::BadSpinTable));
    assert_eq!(init_spin_table(&[0; 0xb0], &[7; 0x401]), Err(Error::BadSpinTable));
    let mut used = [0u8; 0xb0];
    used[0x80..0x88].copy_from_slice(b"spin-tab");
    assert_eq!(init_spin_table(&used, &image), Err(Error::OccupiedSpinTable));
    assert_eq!(take_over(&used, 4, 0, &[], &[]), Err(Error::BadSpinTable));
    assert_eq!(stdout_target(b"serial0:115200n8"), Some(&b"serial0"[..]));
    assert_eq!(stdout_target(b":115200"), None);
}

fn fault(text: &str) -> Fault {
    Fault {
        kind: ErrorKind::NotFound,
        text: text.to_string(),
    }
}

fn trampoline() -> Trampoline<'static> {
    Trampoline {
        code: &[0; 40],
        kernel_slot: 24,
        dtb_slot: 32,
    }
}

fn raw_image() -> Vec<u8> {
    let mut image = vec![0u8; 4096];
    image[16..24].copy_from_slice(&8192u64.to_le_bytes());
    image[56..60].copy_from_slice(b"ARM\x64");
    image
}

fn empty_tree() -> Vec<u8> {
    let structure: [u32; 4] = [1, 0, 2, 9];
    let mut tree = Vec::new();
    let words: [u32; 10] = [0xd00d_feed, 72, 56, 72, 40, 17, 16, 0, 0, 16];
    for word in words {
        tree.extend_from_slice(&word.to_be_bytes());
    }
    tree.extend_from_slice(&[0; 16]);
    for word in structure {
        tree.extend_from_slice(&word.to_be_bytes());
    }
    tree
}

const MEMORY: &str = "40000000-5fffffff : System RAM\n";

#[test]
fn images_are_loaded_with_the_tree_of_the_running_kernel() {
    let refused = KexecImage::new(Vec::new(), None, None, "a\0b").unwrap_err();
    assert_eq!(refused.message(), "cmdline contains NUL byte");
    let image = KexecImage::new(raw_image(), Some(vec![5; 10]), None, "quiet").unwrap();
    let plan = image
        .load(Ok(empty_tree()), Ok(MEMORY.to_string()), &trampoline())
        .unwrap();
    assert_eq!(plan.entry, plan.segments[3].phys);
    let kinds: Vec<SegmentKind> = plan.segments.iter().map(|segment| segment.kind).collect();
    assert_eq!(
        kinds,
        [
            SegmentKind::Kernel,
            SegmentKind::Initrd,
            SegmentKind::Dtb,
            SegmentKind::Trampoline
        ]
    );
    assert_eq!(plan.segments[0].phys, 0x4000_0000);
    assert_eq!(plan.segments[0].memsz, 8192);
    assert_eq!(plan.segments[1].phys, 0x4000_2000);
    assert!(plan.segments[2].data.windows(5).any(|window| window == b"quiet"));
}

#[test]
fn images_are_refused_without_a_tree_or_memory() {
    let given = KexecImage::new(raw_image(), None, Some(empty_tree()), "").unwrap();
    let bare = KexecImage::new(raw_image(), None, None, "").unwrap();
    let memory = || Ok(MEMORY.to_string());
    assert_eq!(
        bare.load(Err(fault("gone")), memory(), &trampoline())
            .unwrap_err()
            .message(),
        "no DTB supplied and /sys/firmware/fdt could not be read: gone"
    );
    assert_eq!(
        given
            .load(Err(fault("gone")), memory(), &trampoline())
            .unwrap_err()
            .message(),
        "DTB supplied but /sys/firmware/fdt could not be read for /memory graft: gone"
    );
    assert!(matches!(
        given.load(Ok(empty_tree()), memory(), &trampoline()),
        Err(ImageError::Tree(_))
    ));
    assert!(matches!(
        bare.load(Ok(empty_tree()), Ok(String::new()), &trampoline()),
        Err(ImageError::Load(LoadError::NoUsableMemory))
    ));
    assert_eq!(
        bare.load(Ok(empty_tree()), Err(fault("no map")), &trampoline())
            .unwrap_err()
            .message(),
        "no map"
    );
    let none = KexecImage::new(Vec::new(), None, None, "").unwrap();
    assert!(matches!(
        none.load(Ok(empty_tree()), Err(fault("no map")), &trampoline()),
        Err(ImageError::Load(LoadError::EmptyKernel))
    ));
    let kind = |result: Result<LoadPlan, ImageError>| result.unwrap_err().kind();
    assert_eq!(
        kind(none.load(Ok(empty_tree()), Err(fault("no map")), &trampoline())),
        ErrorKind::InvalidInput
    );
    assert_eq!(
        kind(bare.load(Ok(empty_tree()), Ok(String::new()), &trampoline())),
        ErrorKind::InvalidData
    );
    let refused = bare.load(Ok(empty_tree()), Err(fault("no map")), &trampoline());
    assert_eq!(kind(refused), fault("no map").kind);
}
