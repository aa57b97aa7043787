use pocketboot::adb::output::{
    handle_list, output_step, send_sync_file, stat_reply, FileAction, FileEvent, FileStage,
    ListEntry, OutputAction, OutputEvent, OutputStage, SHELL_CHUNK,
};
use pocketboot::boot_state::detect::{
    detect, detect_qcom_pon, detect_root, ensure_debugfs, find_regmap, DebugfsAction,
    DebugfsAnswer, DebugfsStage, Root,
};
use pocketboot::boot_state::{registers_to_read, PonNode, RebootMode, RegmapEntry};
use pocketboot::bootflow::scan::{
    first_mount, mount_partition, scan_bls_entries, EntryFile, MountStep, BOOT_MOUNT_FLAGS,
};
use pocketboot::bootflow::{BootPartitionCandidate, BootPartitionRole};
use pocketboot::errors::{ErrorKind, Fault};
use pocketboot::gadget::storage::{
    activate_mass_storage, create_mass_storage_function, deactivate_mass_storage, is_cleaned_up,
    remove_mass_storage_function, removal_failed, Begin, Change, ChangeAction, FsOp,
};
use pocketboot::gadget::{UmsState, MAX_UMS_LUNS};
use pocketboot::kmsg_forwarder::{
    drain_kmsg_to_backlog, forward_once, opening_on_tty, record_on_tty, Backlog, Drain, Forward,
    KmsgRead,
};

fn fault(text: &str) -> Fault {
    Fault {
        kind: ErrorKind::Other,
        text: text.to_string(),
    }
}

#[test]
fn output_is_sent_piece_by_piece() {
    let (stage, action) = output_step(false, OutputStage::Start, OutputEvent::Did);
    assert_eq!(action, OutputAction::WaitForCredit);
    let (stage, action) = output_step(false, stage, OutputEvent::Credit(true));
    assert_eq!(action, OutputAction::Read(SHELL_CHUNK));
    let (stage, action) = output_step(false, stage, OutputEvent::Bytes(5));
    assert_eq!(action, OutputAction::Send(5));
    let (stage, _) = output_step(false, stage, OutputEvent::Did);
    let (stage, _) = output_step(false, stage, OutputEvent::Credit(true));
    let (stage, action) = output_step(false, stage, OutputEvent::Bytes(0));
    assert_eq!(action, OutputAction::Close);
    let (stage, action) = output_step(false, stage, OutputEvent::Closed(true));
    assert_eq!(action, OutputAction::SayClosed);
    assert_eq!(
        output_step(false, stage, OutputEvent::Failed).1,
        OutputAction::Done
    );
    assert_eq!(
        output_step(true, OutputStage::Read, OutputEvent::Failed).1,
        OutputAction::WaitForChild
    );
    assert_eq!(
        output_step(true, OutputStage::Credit, OutputEvent::Credit(false)),
        (OutputStage::Abandon, OutputAction::WaitForChild)
    );
    assert_eq!(
        output_step(false, OutputStage::Close, OutputEvent::Closed(false)).1,
        OutputAction::Done
    );
}

fn sent(action: FileAction) -> Vec<u8> {
    match action {
        FileAction::Send(packet) => packet,
        other => panic!("unexpected action: {other:?}"),
    }
}

#[test]
fn files_are_sent_in_pieces() {
    let path = b"/tmp/x";
    let (stage, action) = send_sync_file(path, 4096, FileStage::Start, FileEvent::Did);
    assert!(matches!(action, FileAction::Open));
    let (stage, action) = send_sync_file(path, 4096, stage, FileEvent::Did);
    assert!(matches!(action, FileAction::Read(4088)));
    let (stage, action) = send_sync_file(path, 4096, stage, FileEvent::Bytes(b"abc".to_vec()));
    assert_eq!(sent(action), b"DATA\x03\0\0\0abc");
    let (stage, action) = send_sync_file(path, 4096, stage, FileEvent::Sent(true));
    assert!(matches!(action, FileAction::Read(4088)));
    let (stage, action) = send_sync_file(path, 4096, stage, FileEvent::Bytes(Vec::new()));
    assert_eq!(sent(action), b"DONE\0\0\0\0");
    assert!(matches!(
        send_sync_file(path, 4096, stage, FileEvent::Sent(true)).1,
        FileAction::Done(true)
    ));
    let failed = FileEvent::Failed("gone".to_string());
    let (_, action) = send_sync_file(path, 4096, FileStage::Open, failed);
    assert_eq!(sent(action), b"FAIL\x11\0\0\0open /tmp/x: gone");
    assert!(matches!(
        send_sync_file(path, 4096, FileStage::Piece, FileEvent::Sent(false)).1,
        FileAction::Done(false)
    ));
}

#[test]
fn directories_are_listed() {
    let entries = Ok(vec![ListEntry::Entry {
        mode: 0o100644,
        size: u64::MAX,
        mtime: -1,
        name: b"a".to_vec(),
    }]);
    let (replies, failure) = handle_list(b"/tmp", &entries);
    assert_eq!(failure, None);
    assert_eq!(replies.len(), 2);
    assert_eq!(
        replies[0],
        b"DENT\xa4\x81\0\0\xff\xff\xff\xff\0\0\0\0\x01\0\0\0a"
    );
    assert_eq!(&replies[1][..4], b"DONE");
    let (replies, _) = handle_list(b"/tmp", &Err("bad".to_string()));
    assert_eq!(replies, [b"FAIL\x0e\0\0\0list /tmp: bad".to_vec()]);
    let unknown = Ok(vec![ListEntry::Unknown {
        path: b"/tmp/a".to_vec(),
        error: "bad".to_string(),
    }]);
    assert_eq!(
        handle_list(b"/tmp", &unknown).0,
        [b"FAIL\x10\0\0\0stat /tmp/a: bad".to_vec()]
    );
    assert_eq!(stat_reply(None), b"STAT\0\0\0\0\0\0\0\0\0\0\0\0");
    assert_eq!(
        stat_reply(Some((1, 2, 3))),
        b"STAT\x01\0\0\0\x02\0\0\0\x03\0\0\0"
    );
}

#[test]
fn register_maps_are_looked_for() {
    let (stage, _) = ensure_debugfs(DebugfsStage::Start, DebugfsAnswer::Did);
    let (stage, _) = ensure_debugfs(stage, DebugfsAnswer::Did);
    let (stage, action) = ensure_debugfs(stage, DebugfsAnswer::There(false));
    assert!(matches!(action, DebugfsAction::Mount));
    let busy = DebugfsAnswer::Failed {
        errno: Some(16),
        text: "busy".to_string(),
    };
    let (stage, action) = ensure_debugfs(stage, busy);
    assert!(matches!(action, DebugfsAction::Look));
    assert!(matches!(
        ensure_debugfs(stage, DebugfsAnswer::There(true)).1,
        DebugfsAction::Ready
    ));
    match ensure_debugfs(stage, DebugfsAnswer::There(false)).1 {
        DebugfsAction::Failed(text) => assert_eq!(
            text,
            "/sys/kernel/debug/regmap not found after mounting debugfs"
        ),
        other => panic!("unexpected action: {other:?}"),
    }
}

#[test]
fn boot_state_is_read_from_the_power_controller() {
    let (target, names) = match detect_root(Ok(b"vendor,phone\0qcom,msm8916\0".to_vec())) {
        Root::Known(target, names) => (target, names),
        other => panic!("unexpected root: {other:?}"),
    };
    let entry = RegmapEntry {
        device: Some("0-00".to_string()),
        path: "/sys/kernel/debug/regmap/0-00".to_string(),
        name: Some("pmic-spmi\n".to_string()),
        node: "/sys/bus/spmi/devices/0-00/of_node".to_string(),
        compatible: Ok(b"qcom,pm8916\0".to_vec()),
        children: Ok(vec![Ok(PonNode {
            path: "/sys/bus/spmi/devices/0-00/of_node/pon@800".to_string(),
            compatible: Some(b"qcom,pm8916-pon\0".to_vec()),
            reg: Ok(vec![0, 0, 8, 0]),
        })]),
    };
    let regmap = find_regmap(&target, Ok(()), Ok(vec![Ok(entry)])).unwrap();
    assert_eq!(regmap.pon_base, 0x800);
    let lines: Vec<Result<Vec<u8>, String>> = registers_to_read(target.generation, 0x800)
        .iter()
        .map(|register| {
            let value = match register.name {
                "pon_reason1" => 0x80,
                "soft_rb_spare" => 0x08,
                _ => 0,
            };
            Ok(format!("{:04x}: {value:02x}\n", register.reg).into_bytes())
        })
        .collect();
    let state = detect_qcom_pon(&target, &names, Ok(regmap), Ok(lines)).unwrap();
    assert_eq!(state.reboot_mode, Some(RebootMode::Bootloader));
    assert_eq!(state.power_key, Some(true));
    assert_eq!(state.warm_reset, Some(false));

    let far = registers_to_read(target.generation, u32::MAX);
    assert_eq!(far[0].reg, 0x1_0000_0007);
    let entry = RegmapEntry {
        device: Some("0-00".to_string()),
        path: "/sys/kernel/debug/regmap/0-00".to_string(),
        name: Some("pmic-spmi\n".to_string()),
        node: "/sys/bus/spmi/devices/0-00/of_node".to_string(),
        compatible: Ok(b"qcom,pm8916\0".to_vec()),
        children: Ok(vec![Ok(PonNode {
            path: "/sys/bus/spmi/devices/0-00/of_node/pon@ffffffff".to_string(),
            compatible: Some(b"qcom,pm8916-pon\0".to_vec()),
            reg: Ok(vec![0xff; 4]),
        })]),
    };
    let regmap = find_regmap(&target, Ok(()), Ok(vec![Ok(entry)])).unwrap();
    let lines = far.iter().map(|_| Err("no line".to_string())).collect();
    assert_eq!(
        detect_qcom_pon(&target, &names, Ok(regmap), Ok(lines)).unwrap_err(),
        "read-pon_reason1 reg=0x100000007 error=register 0x100000007 exceeds SPMI range"
    );

    let failed = find_regmap(&target, Err("no".to_string()), Ok(Vec::new())).unwrap_err();
    assert_eq!(
        failed,
        "debugfs-unavailable path=/sys/kernel/debug error=no"
    );
    let state = detect(&target, &names, Err(failed));
    assert_eq!(state.reboot_mode, None);
    assert!(state.source.unwrap().detail.ends_with("error=no"));
    assert!(matches!(
        detect_root(Ok(b"other\0".to_vec())),
        Root::Told(_)
    ));
}

#[test]
fn boot_partitions_are_mounted_and_searched() {
    assert!(matches!(first_mount(), MountStep::Try("vfat")));
    assert!(matches!(
        mount_partition(0, Err((Some(22), fault("no")))),
        MountStep::Try("ext4")
    ));
    assert!(matches!(
        mount_partition(1, Err((Some(16), fault("busy")))),
        MountStep::Mounted("ext4")
    ));
    assert!(matches!(
        mount_partition(1, Err((None, fault("no")))),
        MountStep::Failed(_)
    ));
    assert_eq!(
        BOOT_MOUNT_FLAGS,
        libc::MS_RDONLY | libc::MS_NOSUID | libc::MS_NODEV | libc::MS_NOEXEC | 256
    );
    let partition = BootPartitionCandidate {
        disk: "sda".to_string(),
        partition: "sda1".to_string(),
        partno: 1,
        role: BootPartitionRole::Esp,
        dev_path: "/dev/sda1".to_string(),
        removable: false,
    };
    let file = |name: &str, text: Option<&str>| EntryFile {
        path: format!("/mnt/loader/entries/{name}"),
        text: text.map(str::to_string),
        answers: vec![true],
    };
    let files = [
        file("notes.txt", Some("linux /a")),
        file("unread.conf", None),
        file("good.conf", Some("linux /a")),
        file("bad.conf", Some("linux ../a")),
    ];
    let entries = scan_bls_entries(&partition, "/mnt", &files);
    assert_eq!(entries.len(), 1);
    assert_eq!(entries[0].id, "good.conf");
    assert_eq!(entries[0].linux, "/mnt/a");
}

#[test]
fn storage_function_is_made_and_removed() {
    let made = create_mass_storage_function("/g");
    assert_eq!(made.len(), 1 + 5 + (MAX_UMS_LUNS - 1) * 6 + 1);
    let removed = remove_mass_storage_function("/g");
    for op in &made {
        if let FsOp::CreateDir(dir) = op {
            assert!(removed
                .iter()
                .any(|op| matches!(op, FsOp::RemoveDir(gone) if gone == dir)));
        }
    }
    assert!(
        matches!(&removed[0], FsOp::RemoveFile(link) if link == "/g/configs/c.1/mass_storage.pocketboot-ums")
    );
    assert!(matches!(&made[1], FsOp::Write { path, text: "0" } if path.ends_with("/lun.0/ro")));
    assert!(is_cleaned_up(3));
    assert!(!is_cleaned_up(0));
    assert!(!removal_failed(ErrorKind::NotFound));
    assert!(removal_failed(ErrorKind::PermissionDenied));
}

#[test]
fn gadget_is_bound_again_after_failures() {
    let mut ums = UmsState::new();
    assert!(matches!(
        activate_mass_storage(&ums, "/dev/a", true, true),
        Begin::Unbind
    ));
    match activate_mass_storage(&ums, "/dev/a", true, false) {
        Begin::Refuse(fault) => assert_eq!(fault.text, "USB gadget is not bound"),
        other => panic!("unexpected beginning: {other:?}"),
    }
    assert!(matches!(
        deactivate_mass_storage(&ums, true, true),
        Begin::Nothing
    ));
    let mut change = Change::new(true);
    assert!(matches!(change.step(Ok(())), ChangeAction::Create));
    assert!(matches!(change.step(Ok(())), ChangeAction::Attach));
    assert!(matches!(
        change.step(Err(fault("no disk"))),
        ChangeAction::Cleanup
    ));
    assert!(matches!(change.step(Ok(())), ChangeAction::Bind));
    match change.step(Err(fault("no port"))) {
        ChangeAction::Failed(fault) => assert_eq!(
            fault.text,
            "UMS attach failed: no disk; USB rebind failed: no port"
        ),
        other => panic!("unexpected action: {other:?}"),
    }
    ums.activated("/g/functions/x", "/dev/a");
    assert!(matches!(
        activate_mass_storage(&ums, "/dev/b", false, false),
        Begin::Attach { lun: 1 }
    ));
    assert!(matches!(
        deactivate_mass_storage(&ums, true, true),
        Begin::Nothing
    ));
    assert!(ums.detached(0));
    assert!(matches!(
        deactivate_mass_storage(&ums, true, true),
        Begin::Unbind
    ));
    let mut change = Change::new(false);
    assert!(matches!(change.step(Ok(())), ChangeAction::Remove));
    assert!(matches!(change.step(Ok(())), ChangeAction::Bind));
    assert!(matches!(change.step(Ok(())), ChangeAction::Done));
}

#[test]
fn log_is_forwarded_to_the_terminal() {
    let mut backlog = Backlog::new();
    let record = b"6,1,1500000,-;hello";
    assert_eq!(
        drain_kmsg_to_backlog(&mut backlog, KmsgRead::Record(record.len()), record),
        Drain::Again
    );
    assert_eq!(
        drain_kmsg_to_backlog(&mut backlog, KmsgRead::Overwritten, record),
        Drain::Again
    );
    assert_eq!(
        drain_kmsg_to_backlog(&mut backlog, KmsgRead::Empty, record),
        Drain::Done
    );
    assert_eq!(
        opening_on_tty(&backlog),
        b"pocketboot: forwarding kernel log from /dev/kmsg\r\n"
    );
    assert_eq!(
        record_on_tty(&backlog.pop().unwrap()),
        b"[    1.500000] hello\r\n"
    );
    assert_eq!(
        record_on_tty(&backlog.pop().unwrap()),
        b"pocketboot: kmsg records were overwritten before tty ready\r\n"
    );
    assert!(backlog.pop().is_none());
    match forward_once(KmsgRead::Record(record.len()), record) {
        Forward::Write(bytes, true) => assert_eq!(bytes, b"[    1.500000] hello\r\n"),
        other => panic!("unexpected step: {other:?}"),
    }
    assert!(matches!(
        forward_once(KmsgRead::Empty, record),
        Forward::Sleep
    ));
    assert!(matches!(
        forward_once(KmsgRead::Failed, record),
        Forward::Failed
    ));
}
