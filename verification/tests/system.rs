use pocketboot::ab_slots::{cmdline_slot, Slot};
use pocketboot::battery::{read_snapshot, update, Snapshot, Status, Supply};
use pocketboot::boot_state::{
    decode_reboot_mode, parse_regmap_u8_line, pon_reason_labels, qcom_target_for_root,
    regmap_offset, QcomPonGeneration, RebootMode, RegmapError, QCOM_PON_REASON_CHARGER_MASK,
    QCOM_PON_REASON_HARD_RESET, QCOM_PON_REASON_KPD,
};
use pocketboot::cmdline::KernelCommandLine;
use pocketboot::errors::{ErrorKind, Fault};
use pocketboot::firmware::{
    dynamic_metadata, find_physical_partition, load_failure, partition_candidates,
    read_fdt_strings, requested_partitions, resolve, LoadStep, Resolution,
};
use pocketboot::gadget::{MassStorageStart, MassStorageStop, UmsState, MAX_UMS_LUNS};
use pocketboot::getty::{selected_consoles, Console};
use pocketboot::kmsg::{decode_kmsg_text, format_kmsg_time, log_level, record_lines, LogLevel};
use pocketboot::kmsg_forwarder::{
    read_kmsg, should_retry_open, tty_line, wait_for_host_dtr, wait_for_tty_queue, Backlog,
    KmsgRead, TtyWait, KMSG_BACKLOG_MAX,
};
use pocketboot::modules::{manifest_modules, manifest_result, module_flags, module_loaded};
use pocketboot::partitions::Partition;
use pocketboot::power::{reboot_modes_contain, require_reboot_mode, ModesFile};
use pocketboot::system::{
    block_devices, cmdline_serialno, core_mounts, describe, detect_serial, detect_system_info,
    format_size, is_mounted, mount_failure, parse_fdt_serialno, BlockDevice, BlockFacts,
};

const DEFAULT_BAUD: &str = "115200";

#[test]
fn parses_key_values() {
    let cmdline = KernelCommandLine::parse("foo androidboot.serialno=6ea45af6 empty= bar");

    assert_eq!(
        cmdline.value("androidboot.serialno").as_deref(),
        Some("6ea45af6")
    );
    assert_eq!(cmdline.value("empty"), None);
    assert_eq!(cmdline.value("missing"), None);
}

#[test]
fn detects_bare_flags() {
    let cmdline = KernelCommandLine::parse("foo pocketboot.acm pocketboot.acm.extra=1 bar");

    assert!(cmdline.is_set("pocketboot.acm"));
    assert!(!cmdline.is_set("pocketboot.acm.extra"));
    assert!(!cmdline.is_set("missing"));
}

#[test]
fn returns_repeated_key_values() {
    let cmdline = KernelCommandLine::parse("console=tty0 console=ttyS0,115200 empty=");

    assert_eq!(cmdline.values("console"), vec!["tty0", "ttyS0,115200"]);
    assert_eq!(cmdline.values("empty"), Vec::<&str>::new());
}

#[test]
fn uses_active_consoles_with_cmdline_baud_rates() {
    let cmdline =
        KernelCommandLine::parse("console=tty0 console=ttyAMA0,921600n8 console=ttyS0,115200");

    assert_eq!(
        selected_consoles(&cmdline, Some("tty0 ttyAMA0\n")),
        vec![
            Console {
                tty: "tty0".to_string(),
                baud: DEFAULT_BAUD.to_string(),
            },
            Console {
                tty: "ttyAMA0".to_string(),
                baud: "921600".to_string(),
            },
        ]
    );
}

#[test]
fn falls_back_to_cmdline_consoles() {
    let cmdline = KernelCommandLine::parse(
        "console=ttyS0,115200 console=ttyS0,9600 console=null console=hvc0",
    );

    assert_eq!(
        selected_consoles(&cmdline, None),
        vec![
            Console {
                tty: "ttyS0".to_string(),
                baud: "115200".to_string(),
            },
            Console {
                tty: "hvc0".to_string(),
                baud: DEFAULT_BAUD.to_string(),
            },
        ]
    );
}

#[test]
fn reads_cmdline_slot_suffix() {
    let cmdline = KernelCommandLine::parse("foo androidboot.slot_suffix=_b bar");

    assert_eq!(cmdline_slot(&cmdline), Some(Slot::B));
}

#[test]
fn dispatches_msm8916_to_pm8916() {
    let root = vec!["samsung,a5u-eur".to_string(), "qcom,msm8916".to_string()];
    let target = qcom_target_for_root(&root).unwrap();

    assert_eq!(target.pmic_compatible, "qcom,pm8916");
    assert_eq!(target.pon_compatible, "qcom,pm8916-pon");
    assert_eq!(target.generation, QcomPonGeneration::Gen1);
}

#[test]
fn dispatches_sdm845_to_pm8998() {
    let root = vec!["oneplus,fajita".to_string(), "qcom,sdm845".to_string()];
    let target = qcom_target_for_root(&root).unwrap();

    assert_eq!(target.pmic_compatible, "qcom,pm8998");
    assert_eq!(target.pon_compatible, "qcom,pm8998-pon");
    assert_eq!(target.generation, QcomPonGeneration::Gen2);
}

#[test]
fn parses_regmap_debugfs_line() {
    assert_eq!(parse_regmap_u8_line(b"08c0: 20\n", 0x8c0).unwrap(), 0x20);
}

#[test]
fn rejects_wrong_regmap_debugfs_line() {
    let err = parse_regmap_u8_line(b"0808: 20\n", 0x8c0).unwrap_err();

    assert_eq!(err.kind(), ErrorKind::InvalidData);
    assert_eq!(err, RegmapError::Prefix);
}

#[test]
fn register_lines_have_a_fixed_length() {
    assert_eq!(regmap_offset(0x8c0), Ok(0x8c0 * 9));
    assert_eq!(regmap_offset(0x1_0000), Err(RegmapError::Range));
    assert_eq!(
        parse_regmap_u8_line(b"08c0: XX\n", 0x8c0),
        Err(RegmapError::Unreadable)
    );
    assert_eq!(
        parse_regmap_u8_line(b"08c0: zz\n", 0x8c0),
        Err(RegmapError::Digits)
    );
}

#[test]
fn decodes_reboot_modes() {
    assert_eq!(
        decode_reboot_mode(0x04, QcomPonGeneration::Gen1),
        Some(RebootMode::Recovery)
    );
    assert_eq!(
        decode_reboot_mode(0x08, QcomPonGeneration::Gen1),
        Some(RebootMode::Bootloader)
    );
    assert_eq!(
        decode_reboot_mode(0x02, QcomPonGeneration::Gen2),
        Some(RebootMode::Recovery)
    );
    assert_eq!(
        decode_reboot_mode(0x04, QcomPonGeneration::Gen2),
        Some(RebootMode::Bootloader)
    );
}

#[test]
fn labels_pon_reason_bits() {
    assert_eq!(
        pon_reason_labels(0x91),
        vec!["hard-reset", "usb-charger", "pwrkey"]
    );
    assert_eq!(pon_reason_labels(0x20), vec!["pon1/secondary-pmic"]);
}

#[test]
fn classifies_a5u_usb_sample_bits() {
    let pon_reason1 = 0x11;

    assert!(pon_reason1 & QCOM_PON_REASON_HARD_RESET != 0);
    assert!(pon_reason1 & QCOM_PON_REASON_CHARGER_MASK != 0);
    assert_eq!(pon_reason1 & QCOM_PON_REASON_KPD, 0);
}

fn driver(name: &str, modes: &str) -> Result<Vec<Result<ModesFile, Fault>>, Fault> {
    Ok(vec![Ok(ModesFile {
        path: format!("/sys/class/reboot-mode/{name}/reboot_modes"),
        contents: Ok(modes.to_string()),
    })])
}

#[test]
fn accepts_advertised_bootloader_mode() {
    let class = driver("qcom-pon", "recovery bootloader\n");

    require_reboot_mode("/sys/class/reboot-mode", &class, "bootloader").unwrap();
}

#[test]
fn rejects_unadvertised_bootloader_mode() {
    let class = driver("qcom-pon", "recovery\n");

    let err = require_reboot_mode("/sys/class/reboot-mode", &class, "bootloader").unwrap_err();
    assert_eq!(err.kind, ErrorKind::Unsupported);
    assert!(err.text.contains("not advertised"));
}

#[test]
fn rejects_missing_reboot_mode_class() {
    let missing = Err(Fault {
        kind: ErrorKind::NotFound,
        text: "No such file or directory (os error 2)".to_string(),
    });

    let err = require_reboot_mode("/missing", &missing, "bootloader").unwrap_err();
    assert_eq!(err.kind, ErrorKind::NotFound);
    assert!(err.text.contains("read reboot-mode class"));
}

#[test]
fn reboot_mode_matching_uses_complete_tokens() {
    assert!(reboot_modes_contain("recovery bootloader\n", "bootloader"));
    assert!(!reboot_modes_contain(
        "recovery bootloader-debug\n",
        "bootloader"
    ));
}

#[test]
fn parses_androidboot_serialno() {
    let cmdline = KernelCommandLine::parse("foo androidboot.serialno=6ea45af6 bar");

    assert_eq!(cmdline_serialno(&cmdline).as_deref(), Some("6ea45af6"));
}

#[test]
fn ignores_empty_androidboot_serialno() {
    let cmdline = KernelCommandLine::parse("foo androidboot.serialno= bar");

    assert_eq!(cmdline_serialno(&cmdline), None);
}

#[test]
fn parses_fdt_serialno() {
    assert_eq!(
        parse_fdt_serialno(b"6ea45af6\0").as_deref(),
        Some("6ea45af6")
    );
}

#[test]
fn trims_fdt_serialno() {
    assert_eq!(
        parse_fdt_serialno(b"  6ea45af6\n\0").as_deref(),
        Some("6ea45af6")
    );
}

#[test]
fn ignores_empty_fdt_serialno() {
    assert_eq!(parse_fdt_serialno(b"\0"), None);
    assert_eq!(parse_fdt_serialno(b" \n\0"), None);
}

#[test]
fn serial_number_has_a_last_resort() {
    let given = KernelCommandLine::parse("androidboot.serialno=cmd");
    let none = KernelCommandLine::parse("");
    assert_eq!(detect_serial(Some(b"tree\0"), &given), "tree");
    assert_eq!(detect_serial(Some(b"\0"), &given), "cmd");
    assert_eq!(detect_serial(None, &none), "0001");
}

#[test]
fn system_info_names_the_device() {
    let info = detect_system_info(Some(b"Phone X\0"), Some(b"a,b\0c,d\0e,f\0"), "s1");
    assert_eq!(info.device_name, "Phone X");
    assert_eq!(info.device_detail, "a,b / c,d");
    assert_eq!(info.serialno, "s1");
    let info = detect_system_info(None, Some(b"a,b\0"), "s1");
    assert_eq!(info.device_name, "Pocketboot Device");
    assert_eq!(info.device_detail, "a,b");
    let info = detect_system_info(None, None, "s1");
    assert_eq!(info.device_detail, "LinuxBoot environment");
}

#[test]
fn disks_are_described() {
    assert_eq!(format_size(4096), "size=4096 sectors/2 MiB");
    let facts = BlockFacts {
        dev: Some("179:0\n".to_string()),
        size: Some("4096\n".to_string()),
        ro: Some("0\n".to_string()),
        removable: Some("1\n".to_string()),
        uevent: Some("MAJOR=179\nPARTNAME=boot\n".to_string()),
    };
    assert_eq!(
        describe("mmcblk0", &facts),
        "mmcblk0 dev=179:0 size=4096 sectors/2 MiB rw removable partname=boot"
    );
    let unknown = BlockFacts {
        dev: None,
        size: Some("many".to_string()),
        ro: None,
        removable: None,
        uevent: None,
    };
    assert_eq!(describe("sda", &unknown), "sda dev=?:? size=? ro=?");
    let device = |name: &str| BlockDevice {
        name: name.to_string(),
        path: format!("/sys/block/{name}"),
        partitions: Vec::new(),
    };
    let names: Vec<String> = block_devices(vec![device("sdb"), device("mmcblk0"), device("sda")])
        .into_iter()
        .map(|device| device.name)
        .collect();
    assert_eq!(names, ["mmcblk0", "sda", "sdb"]);
}

#[test]
fn file_systems_may_be_mounted_before() {
    assert_eq!(core_mounts().len(), 5);
    assert!(is_mounted(None));
    assert!(is_mounted(Some(libc::EBUSY)));
    assert!(!is_mounted(Some(libc::EPERM)));
    assert_eq!(
        mount_failure(Some("proc"), "/proc", None, "denied"),
        "mount proc on /proc as none: denied"
    );
}

fn partition(name: &str) -> Partition {
    Partition {
        kernel_name: format!("p-{name}"),
        partname: Some(name.to_string()),
        dev_path: format!("/dev/{name}"),
        devnum: "1:1".to_string(),
        size_bytes: 512,
        read_only: true,
    }
}

#[test]
fn active_slot_is_preferred_before_shared_partition() {
    assert_eq!(
        partition_candidates("vendor", Some(Slot::B)),
        ["vendor_b", "vendor"]
    );
}

#[test]
fn explicitly_slotted_partition_is_not_rewritten() {
    assert_eq!(
        partition_candidates("vendor_a", Some(Slot::A)),
        ["vendor_a"]
    );
}

#[test]
fn inactive_explicit_slot_has_no_physical_candidate() {
    assert!(partition_candidates("vendor_a", Some(Slot::B)).is_empty());
}

#[test]
fn resolver_rejects_inactive_explicit_slot_before_mapping_lookup() {
    assert!(matches!(
        resolve("vendor_a", Some(Slot::B), None),
        Resolution::Refused
    ));
}

#[test]
fn parses_ordered_fdt_compatible_strings() {
    let values = read_fdt_strings(b"google,sargo\0qcom,sdm670\0").unwrap();

    assert_eq!(values, ["google,sargo", "qcom,sdm670"]);
}

#[test]
fn firmware_needs_sound_kinds() {
    let empty = read_fdt_strings(b"\0\0").unwrap_err();
    assert_eq!(empty.text, "device compatible property is empty");
    let bad = read_fdt_strings(b"ok\0\xff\0").unwrap_err();
    assert_eq!(bad.kind, ErrorKind::InvalidData);
    assert_eq!(
        load_failure(LoadStep::Compatibles, &empty.text),
        "read device compatibles: device compatible property is empty"
    );
}

#[test]
fn firmware_partitions_are_chosen_by_slot() {
    let parts = [partition("vendor_b"), partition("modem")];
    assert_eq!(
        find_physical_partition(&parts, "vendor", Some(Slot::B)),
        Ok(Some(0))
    );
    assert_eq!(
        find_physical_partition(&parts, "modem", Some(Slot::B)),
        Ok(Some(1))
    );
    assert_eq!(find_physical_partition(&parts, "odm", None), Ok(None));
    assert_eq!(
        requested_partitions(&[
            "vendor_a".to_string(),
            "odm".to_string(),
            "vendor_b".to_string()
        ]),
        ["odm", "vendor"]
    );
    let (name, index) = dynamic_metadata(Some("super"), Some(Slot::B))
        .unwrap()
        .unwrap();
    assert_eq!((name.as_str(), index), ("super_b", 1));
    assert!(dynamic_metadata(None, None).unwrap().is_none());
    assert_eq!(
        dynamic_metadata(Some("super"), None).unwrap_err().kind,
        ErrorKind::NotFound
    );
}

fn battery(capacity: &str) -> Supply {
    Supply {
        kind: Some("Battery\n".to_string()),
        present: Some("1\n".to_string()),
        capacity: Some(capacity.to_string()),
        charge_now: None,
        charge_full: None,
        charge_full_design: None,
        energy_now: None,
        energy_full: None,
        energy_full_design: None,
        status: Some("Charging\n".to_string()),
    }
}

#[test]
fn battery_charge_is_a_percentage() {
    let snapshot = read_snapshot(&[battery("57\n")]).unwrap();
    assert_eq!(
        snapshot,
        Snapshot {
            percent: 57,
            status: Status::Charging,
        }
    );
    assert_eq!(read_snapshot(&[battery("250")]).unwrap().percent, 100);
    assert_eq!(read_snapshot(&[]), None);
    assert_eq!(update(None, None), Some(None));
    assert_eq!(update(Some(Some(snapshot)), Some(snapshot)), None);
}

#[test]
fn modules_are_loaded_from_a_manifest() {
    assert_eq!(
        manifest_modules("# comment\n/lib/a.ko\n\n  /lib/b.ko.xz  \n"),
        ["/lib/a.ko", "/lib/b.ko.xz"]
    );
    assert_eq!(module_flags("/lib/a.ko"), 0);
    assert_eq!(module_flags("/lib/b.ko.xz"), 4);
    assert!(module_loaded(Some(libc::EEXIST)));
    assert!(!module_loaded(Some(libc::ENOENT)));
    assert!(manifest_result(0).is_ok());
    assert!(manifest_result(2).is_err());
}

#[test]
fn kernel_log_records_become_lines() {
    assert_eq!(
        record_lines(b"6,1,1500000,-;hello\nSUBSYSTEM=x\n"),
        ["[    1.500000] hello"]
    );
    assert_eq!(decode_kmsg_text(b"a\\x41b"), "aAb");
    assert_eq!(format_kmsg_time(61_000_042), "[   61.000042]");
    assert!(record_lines(b"\n").is_empty());
    assert_eq!(
        log_level(&KernelCommandLine::parse("")),
        LogLevel::Warn
    );
    assert_eq!(
        log_level(&KernelCommandLine::parse("pocketboot.log=loud")),
        LogLevel::Info
    );
}

#[test]
fn backlog_drops_the_oldest_records() {
    let mut backlog = Backlog::new();
    backlog.push(&vec![1; KMSG_BACKLOG_MAX - 10]);
    backlog.push(&[2; 5]);
    assert_eq!(backlog.dropped_records, 0);
    backlog.push(&[3; 6]);
    assert_eq!(backlog.dropped_records, 1);
    assert_eq!(backlog.dropped_bytes, KMSG_BACKLOG_MAX - 10);
    assert_eq!(backlog.bytes, 11);
    assert_eq!(
        backlog.opening_lines(),
        [
            "pocketboot: forwarding kernel log from /dev/kmsg".to_string(),
            format!(
                "pocketboot: kmsg backlog dropped 1 records/{} bytes",
                KMSG_BACKLOG_MAX - 10
            ),
        ]
    );
    assert_eq!(backlog.pop().unwrap(), [2; 5]);
    assert_eq!(backlog.pop().unwrap(), [3; 6]);
    assert_eq!(backlog.pop(), None);
    backlog.push(&vec![4; KMSG_BACKLOG_MAX + 1]);
    assert_eq!(backlog.dropped_records, 2);
    assert_eq!(backlog.pop(), None);
}

#[test]
fn terminal_answers_are_followed() {
    assert_eq!(read_kmsg(Ok(0)), KmsgRead::Empty);
    assert_eq!(read_kmsg(Ok(7)), KmsgRead::Record(7));
    assert_eq!(
        read_kmsg(Err((ErrorKind::BrokenPipe, Some(libc::EPIPE)))),
        KmsgRead::Overwritten
    );
    assert_eq!(
        read_kmsg(Err((ErrorKind::WouldBlock, Some(libc::EAGAIN)))),
        KmsgRead::Empty
    );
    assert!(should_retry_open(ErrorKind::NotFound));
    assert!(!should_retry_open(ErrorKind::Other));
    assert_eq!(wait_for_host_dtr(Ok(libc::TIOCM_DTR)), TtyWait::Ready);
    assert_eq!(wait_for_host_dtr(Ok(0)), TtyWait::Later);
    assert_eq!(
        wait_for_host_dtr(Err((ErrorKind::InvalidInput, Some(libc::EINVAL)))),
        TtyWait::Unknown
    );
    assert_eq!(wait_for_tty_queue(Ok(4096)), TtyWait::Ready);
    assert_eq!(wait_for_tty_queue(Ok(4097)), TtyWait::Later);
    assert_eq!(
        wait_for_tty_queue(Err((ErrorKind::Other, Some(libc::ENOTTY)))),
        TtyWait::Ready
    );
    assert_eq!(tty_line(b"x"), b"x\r\n");
}

#[test]
fn disks_are_lent_once() {
    let mut state = UmsState::new();
    assert_eq!(
        state.start_mass_storage("/dev/a"),
        MassStorageStart::AfterResponse
    );
    state.activated("/config/f", "/dev/a");
    assert_eq!(
        state.start_mass_storage("/dev/a"),
        MassStorageStart::AlreadyStarted { lun: 0 }
    );
    assert_eq!(
        state.start_mass_storage("/dev/b"),
        MassStorageStart::Attach { lun: 1 }
    );
    state.attached(1, "/dev/b");
    assert_eq!(state.active_count(), 2);
    assert_eq!(
        state.stop_mass_storage("/dev/c"),
        MassStorageStop::NotStarted
    );
    assert_eq!(
        state.stop_mass_storage("/dev/a"),
        MassStorageStop::Detach { lun: 0 }
    );
    assert!(!state.detached(0));
    assert!(state.detached(1));
    assert_eq!(MAX_UMS_LUNS, 8);
}
