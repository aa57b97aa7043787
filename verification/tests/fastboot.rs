use pocketboot::ab_slots::Slot;
use pocketboot::errors::{ErrorKind, Fault};
use pocketboot::fastboot::cat::{grow, parse_path, CatError, MAX_STAGED_SIZE};
use pocketboot::fastboot::dmesg::{read_log, CaptureError, CaptureLimits, DmesgCapture, KmsgRead};
use pocketboot::fastboot::flash::{
    flash_mode, flash_raw, flash_sparse, is_allowed_partition_name, is_sparse_image,
    mountinfo_devnum, parse_partition, sparse_target_opens, validate_target, write_all, FlashError,
    FlashMode,
    SparseError, SparseHeader, ANDROID_SPARSE_MAGIC_LE, SPARSE_CHUNK_DONT_CARE, SPARSE_CHUNK_FILL,
    SPARSE_CHUNK_HEADER_SIZE, SPARSE_CHUNK_RAW, SPARSE_HEADER_SIZE,
};
use pocketboot::fastboot::getvar::{
    all_lines, parse_fdt_base_compatible, parse_variable, slot_value, FastbootGetvar, GetvarError,
    SlotFacts,
};
use pocketboot::fastboot::shell::{
    closing_note, parse_command, read_staged_command, shell_wait, ShellError, ShellStatus, ShellWait,
};
use pocketboot::fastboot::slots::{parse_set_active, SlotError};
use pocketboot::fastboot::ums::{
    after_direct, after_fallback, check_backing_kind, parse_backing, BackingStep,
};
use pocketboot::fastboot::exchange;
use pocketboot::fastboot::{
    check_download, data, fail, failure_reply, fastboot_commands, find_command_handler,
    finish_command_result, info, is_usb_disconnect, next_chunk, next_request, okay, packet,
    parse_download_command, server_step, upload_reply, Command, CommandEnd, CommandResult, FailureReply,
    FastbootError, Handler, Outcome, Request, ServerAction, ServerStep, Status, UploadReply,
};
use pocketboot::partitions::{find, list, Partition, PartitionError};

fn partition(kernel_name: &str, partname: Option<&str>, devnum: &str, size: u64) -> Partition {
    Partition {
        kernel_name: kernel_name.to_string(),
        partname: partname.map(str::to_string),
        dev_path: format!("/dev/{kernel_name}"),
        devnum: devnum.to_string(),
        size_bytes: size,
        read_only: false,
    }
}

#[test]
fn finds_exact_command_handlers() {
    let commands = vec![Command::exact("oem dmesg", Handler::Dmesg)];

    assert!(find_command_handler(&commands, "oem dmesg").is_some());
    assert!(find_command_handler(&commands, "oem dmesg:").is_none());
}

#[test]
fn finds_prefix_command_handlers() {
    let commands = vec![Command::prefix("oem cat:", Handler::Cat)];

    assert!(find_command_handler(&commands, "oem cat:/proc/cmdline").is_some());
    assert!(find_command_handler(&commands, "oem cat").is_none());
}

#[test]
fn recognizes_usb_disconnect_errno_values() {
    for errno in [
        libc::ESHUTDOWN,
        libc::EPIPE,
        libc::ENODEV,
        libc::ECONNRESET,
        libc::EIO,
    ] {
        assert!(
            is_usb_disconnect(Some(errno), ErrorKind::Other),
            "errno {errno} was not recognized"
        );
    }
}

#[test]
fn recognizes_usb_disconnect_error_kinds() {
    for kind in [
        ErrorKind::BrokenPipe,
        ErrorKind::ConnectionAborted,
        ErrorKind::ConnectionReset,
        ErrorKind::NotConnected,
    ] {
        assert!(
            is_usb_disconnect(None, kind),
            "kind {kind:?} was not recognized"
        );
    }
}

#[test]
fn continue_action_failure_does_not_exit_server() {
    let result = CommandResult::continue_then();
    let (stage, action) = exchange::step(exchange::Stage::Running, exchange::Event::Ran(result));
    assert!(matches!(action, exchange::Action::Act));
    let boom = exchange::Event::Failed {
        errno: None,
        kind: ErrorKind::Other,
        text: "boom".to_string(),
    };

    assert!(matches!(
        exchange::step(stage, boom).1,
        exchange::Action::Finish(ServerStep::Continue)
    ));
}

#[test]
fn commands_end_as_their_results_say() {
    assert_eq!(
        finish_command_result(CommandResult::continue_()),
        CommandEnd::Step(ServerStep::Continue)
    );
    assert_eq!(
        finish_command_result(CommandResult::continue_then()),
        CommandEnd::Act
    );
    for action in [false, true] {
        assert_eq!(
            finish_command_result(CommandResult::exit(action)),
            CommandEnd::Step(ServerStep::Exit(action))
        );
    }
    let (stage, _) = exchange::step(
        exchange::Stage::Running,
        exchange::Event::Ran(CommandResult::continue_then()),
    );
    assert!(matches!(
        exchange::step(stage, exchange::Event::Did).1,
        exchange::Action::Finish(ServerStep::Continue)
    ));
}

#[test]
fn does_not_treat_protocol_errors_as_disconnects() {
    for kind in [
        ErrorKind::InvalidInput,
        ErrorKind::InvalidData,
        ErrorKind::UnexpectedEof,
        ErrorKind::TimedOut,
    ] {
        assert!(
            !is_usb_disconnect(None, kind),
            "kind {kind:?} was treated as disconnect"
        );
    }
}

#[test]
fn responses_are_short() {
    assert_eq!(okay(b"done"), b"OKAYdone");
    assert_eq!(fail(&[b'x'; 100]).len(), 64);
    assert_eq!(data(0x1234), b"DATA00001234");
    assert_eq!(packet(Status::Info, b"note").unwrap(), b"INFOnote");
    assert_eq!(
        packet(Status::Okay, &[0; 61]).unwrap_err(),
        FastbootError::PayloadTooLarge
    );
    let lines = info(&[b'y'; 130]);
    assert_eq!(lines.len(), 3);
    assert!(lines.iter().all(|line| line.starts_with(b"INFO")));
    let text: Vec<u8> = lines.iter().flat_map(|line| line[4..].to_vec()).collect();
    assert_eq!(text, [b'y'; 130]);
}

#[test]
fn requests_are_told_apart() {
    let commands = fastboot_commands();
    assert!(matches!(
        next_request(&commands, b"download:00000010"),
        Request::Download(16)
    ));
    assert!(matches!(
        next_request(&commands, b"download:10"),
        Request::BadDownload(FastbootError::DownloadDigits)
    ));
    assert!(matches!(next_request(&commands, b"upload"), Request::Upload));
    assert!(matches!(
        next_request(&commands, b"continue"),
        Request::Continue
    ));
    match next_request(&commands, b"getvar:version") {
        Request::Run(Handler::Getvar, command) => assert_eq!(command, "getvar:version"),
        other => panic!("unexpected request: {other:?}"),
    }
    assert!(matches!(
        next_request(&commands, b"\xff\xff"),
        Request::Refuse(_)
    ));
    assert!(matches!(
        next_request(&commands, b"no such command"),
        Request::Refuse(_)
    ));
    assert_eq!(parse_download_command("flash:boot"), Ok(None));
    assert_eq!(
        parse_download_command("download:0000000g"),
        Err(FastbootError::DownloadSize)
    );
    assert_eq!(
        check_download(0x1000_0001),
        Err(FastbootError::DownloadTooLarge)
    );
}

#[test]
fn lost_hosts_are_awaited() {
    let gone = Outcome::Failed {
        errno: Some(108),
        kind: ErrorKind::Other,
    };
    assert!(matches!(server_step(false, gone).0, ServerAction::Wait(_)));
    assert_eq!(server_step(false, Outcome::Exit).0, ServerAction::Leave);
    assert!(matches!(
        server_step(true, Outcome::Continue).0,
        ServerAction::Await(_)
    ));
    let broken = Outcome::Failed {
        errno: None,
        kind: ErrorKind::InvalidData,
    };
    assert_eq!(server_step(false, broken).0, ServerAction::Fail);
    assert_eq!(
        failure_reply(Some(108), ErrorKind::Other),
        FailureReply::HandUp
    );
    assert_eq!(
        failure_reply(None, ErrorKind::InvalidInput),
        FailureReply::Answer
    );
}

#[test]
fn staged_data_is_sent_in_chunks() {
    assert_eq!(next_chunk(10), 10);
    assert_eq!(next_chunk(0x20_0000), 0x10_0000);
    assert!(matches!(upload_reply(None), UploadReply::Refuse(_)));
    assert!(matches!(upload_reply(Some(5)), UploadReply::Send(5)));
    assert!(matches!(
        upload_reply(Some(1 << 32)),
        UploadReply::Refuse(_)
    ));
}

#[test]
fn parses_cat_path() {
    assert_eq!(
        parse_path("oem cat:/proc/cmdline").unwrap(),
        "/proc/cmdline"
    );
}

#[test]
fn rejects_empty_cat_path() {
    let err = parse_path("oem cat:").unwrap_err();

    assert_eq!(err.kind(), ErrorKind::InvalidInput);
}

#[test]
fn staged_files_have_a_limit() {
    assert_eq!(grow(0, 18), Ok(18));
    assert_eq!(grow(MAX_STAGED_SIZE, 0), Ok(MAX_STAGED_SIZE));
    assert_eq!(grow(MAX_STAGED_SIZE, 1), Err(CatError::TooLarge));
}

fn record(text: &str) -> Vec<u8> {
    format!("6,1,1000,-;{text}\n").into_bytes()
}

fn capture_dmesg_from(
    records: &[Vec<u8>],
    limits: CaptureLimits,
) -> Result<DmesgCapture, CaptureError> {
    let mut capture = DmesgCapture::new();
    for record in records {
        capture.take(&KmsgRead::Record(record.clone()), limits)?;
    }
    capture.take(&KmsgRead::End, limits)?;
    capture.finish(limits)?;
    Ok(capture)
}

#[test]
fn capture_fails_closed_at_record_limit() {
    let err = capture_dmesg_from(
        &[record("one"), record("two")],
        CaptureLimits {
            bytes: 1024,
            records: 1,
        },
    )
    .unwrap_err();

    assert_eq!(err.kind(), ErrorKind::InvalidData);
    assert!(err.message().contains("record limit"));
}

#[test]
fn capture_fails_closed_at_byte_limit() {
    let err = capture_dmesg_from(
        &[record("this record will not fit")],
        CaptureLimits {
            bytes: 8,
            records: 10,
        },
    )
    .unwrap_err();

    assert_eq!(err.kind(), ErrorKind::InvalidData);
    assert!(err.message().contains("byte limit"));
}

#[test]
fn capture_accepts_data_within_both_limits() {
    let capture = capture_dmesg_from(
        &[record("one"), record("two")],
        CaptureLimits {
            bytes: 1024,
            records: 2,
        },
    )
    .unwrap();

    assert_eq!(capture.records, 2);
    assert!(capture.data.ends_with(b"two\n"));
}

#[test]
fn parses_flash_partition() {
    assert_eq!(parse_partition("flash:boot").unwrap(), "boot");
}

#[test]
fn rejects_empty_flash_partition() {
    let err = parse_partition("flash:").unwrap_err();

    assert_eq!(err.kind(), ErrorKind::InvalidInput);
}

#[test]
fn allows_only_safe_partitions() {
    for name in [
        "boot",
        "boot_a",
        "boot_b",
        "vendor_boot",
        "init_boot",
        "dtbo",
        "userdata",
    ] {
        assert!(is_allowed_partition_name(name), "{name} should be allowed");
    }
    for name in ["system", "modemst1", "abl", "xbl", "bootloader"] {
        assert!(
            !is_allowed_partition_name(name),
            "{name} should be rejected"
        );
    }
}

#[test]
fn detects_android_sparse_images() {
    let mut payload = ANDROID_SPARSE_MAGIC_LE.to_le_bytes().to_vec();
    payload.extend_from_slice(b"payload");

    assert!(is_sparse_image(&payload));
}

#[test]
fn does_not_detect_raw_images_as_sparse() {
    assert!(!is_sparse_image(b"ANDROID!"));
}

#[test]
fn parses_sparse_header() {
    let payload = sparse_header(4, 3);

    let (header, _) = SparseHeader::read_from(&payload).unwrap();

    assert_eq!(
        header,
        SparseHeader {
            chunk_header_size: SPARSE_CHUNK_HEADER_SIZE,
            block_size: 4096,
            total_blocks: 4,
            total_chunks: 3,
        }
    );
    assert_eq!(header.expanded_size().unwrap(), 16 * 1024);
}

#[test]
fn flashes_sparse_image_and_preserves_dont_care_ranges() {
    let mut flashed = vec![0x5a; 4 * 4096];

    let raw_block = vec![0x11; 4096];
    let fill = [0x22, 0x33, 0x44, 0x55];
    let mut image = sparse_header(4, 3);
    image.extend_from_slice(&sparse_chunk_header(SPARSE_CHUNK_RAW, 1, 12 + 4096));
    image.extend_from_slice(&raw_block);
    image.extend_from_slice(&sparse_chunk_header(SPARSE_CHUNK_DONT_CARE, 1, 12));
    image.extend_from_slice(&sparse_chunk_header(SPARSE_CHUNK_FILL, 2, 16));
    image.extend_from_slice(&fill);

    let (ops, stats) = flash_sparse(&image, 4 * 4096, image.len() as u64);
    let stats = stats.unwrap();
    write_all(&ops, &image, &mut flashed);

    assert_eq!(stats.expanded_size, 4 * 4096);
    assert_eq!(stats.written_size, 3 * 4096);
    assert_eq!(&flashed[..4096], raw_block.as_slice());
    assert!(flashed[4096..8192].iter().all(|byte| *byte == 0x5a));
    assert!(flashed[8192..]
        .chunks_exact(fill.len())
        .all(|chunk| chunk == fill.as_slice()));
}

#[test]
fn rejects_sparse_images_larger_than_partition() {
    let mut image = sparse_header(2, 1);
    image.extend_from_slice(&sparse_chunk_header(SPARSE_CHUNK_DONT_CARE, 2, 12));

    let (ops, stats) = flash_sparse(&image, 4096, image.len() as u64);

    assert!(ops.is_empty());
    assert_eq!(stats.unwrap_err().kind(), ErrorKind::InvalidInput);
}

#[test]
fn targets_are_opened_for_sound_headers_that_fit() {
    let mut image = sparse_header(2, 1);
    image.extend_from_slice(&sparse_chunk_header(SPARSE_CHUNK_DONT_CARE, 2, 12));
    assert!(sparse_target_opens(&image, 2 * 4096));
    assert!(!sparse_target_opens(&image, 4096));
    assert!(!sparse_target_opens(&image[..20], 2 * 4096));
    let (ops, stats) = flash_sparse(&image, 2 * 4096, image.len() as u64);
    assert!(ops.is_empty());
    assert_eq!(stats.unwrap().written_size, 0);
}

#[test]
fn unsound_sparse_images_are_refused() {
    let whole = |image: &[u8]| flash_sparse(image, 1 << 20, image.len() as u64).1.unwrap_err();
    assert_eq!(whole(&sparse_header(1, 0)[..27]), SparseError::Eof);
    let mut magic = sparse_header(1, 0);
    magic[0] = 0;
    assert_eq!(whole(&magic), SparseError::Magic);
    assert_eq!(whole(&sparse_header(1, 0)), SparseError::EndedAt(0, 4096));
    let mut long = sparse_header(0, 0);
    long.push(0);
    assert_eq!(whole(&long), SparseError::Trailing(28, 29));
    let mut raw = sparse_header(1, 1);
    raw.extend_from_slice(&sparse_chunk_header(SPARSE_CHUNK_RAW, 1, 12 + 5));
    raw.extend_from_slice(b"short");
    assert_eq!(whole(&raw), SparseError::RawSize);
    let mut fill = sparse_header(1, 1);
    fill.extend_from_slice(&sparse_chunk_header(SPARSE_CHUNK_FILL, 1, 12));
    assert_eq!(whole(&fill), SparseError::FillSize);
    let mut unknown = sparse_header(1, 1);
    unknown.extend_from_slice(&sparse_chunk_header(7, 1, 12));
    assert_eq!(whole(&unknown), SparseError::UnknownChunk);
    let mut care = sparse_header(1, 1);
    care.extend_from_slice(&sparse_chunk_header(SPARSE_CHUNK_DONT_CARE, 1, 13));
    care.push(0);
    assert_eq!(whole(&care), SparseError::DontCareSize);
    let mut over = sparse_header(1, 1);
    over.extend_from_slice(&sparse_chunk_header(SPARSE_CHUNK_DONT_CARE, 2, 12));
    assert_eq!(whole(&over), SparseError::Exceeds);
}

#[test]
fn targets_are_checked_before_they_are_written() {
    let boot = partition("mmcblk0p1", Some("boot"), "179:1", 4096);
    let mounts = "36 35 98:0 /mnt1 /mnt2 rw,noatime master:1 - ext3 /dev/root rw\n";
    assert_eq!(mountinfo_devnum(mounts.trim()), Some("98:0".to_string()));
    assert_eq!(validate_target("boot", &boot, mounts), Ok(()));
    let mounted = "36 35 179:1 / /mnt rw - ext4 /dev/root rw\n";
    assert_eq!(
        validate_target("boot", &boot, mounted),
        Err(FlashError::Mounted)
    );
    let system = partition("mmcblk0p2", Some("system"), "179:2", 4096);
    assert_eq!(
        validate_target("system", &system, mounts),
        Err(FlashError::NotAllowed)
    );
    let mut locked = partition("mmcblk0p1", Some("boot"), "179:1", 4096);
    locked.read_only = true;
    assert_eq!(
        validate_target("boot", &locked, mounts),
        Err(FlashError::ReadOnly)
    );
    assert_eq!(
        flash_mode(0, b"", &boot).unwrap_err(),
        FlashError::EmptyPayload
    );
    assert_eq!(
        flash_mode(5000, b"raw", &boot).unwrap_err(),
        FlashError::TooLarge(5000, 4096)
    );
    assert_eq!(flash_mode(100, b"raw", &boot), Ok(FlashMode::Raw));
    let sparse = ANDROID_SPARSE_MAGIC_LE.to_le_bytes();
    assert_eq!(flash_mode(5000, &sparse, &boot), Ok(FlashMode::Sparse));
}

#[test]
fn raw_images_are_written_from_the_start() {
    let image = vec![9u8; 5000];
    let (ops, count) = flash_raw(image.len(), image.len() as u64);
    let mut target = vec![0u8; 6000];
    write_all(&ops, &image, &mut target);
    assert_eq!(count.unwrap(), 5000);
    assert_eq!(&target[..5000], image.as_slice());
    assert!(target[5000..].iter().all(|byte| *byte == 0));
}

fn sparse_header(blocks: u32, chunks: u32) -> Vec<u8> {
    let mut header = Vec::new();
    header.extend_from_slice(&ANDROID_SPARSE_MAGIC_LE.to_le_bytes());
    header.extend_from_slice(&1u16.to_le_bytes());
    header.extend_from_slice(&0u16.to_le_bytes());
    header.extend_from_slice(&SPARSE_HEADER_SIZE.to_le_bytes());
    header.extend_from_slice(&SPARSE_CHUNK_HEADER_SIZE.to_le_bytes());
    header.extend_from_slice(&4096u32.to_le_bytes());
    header.extend_from_slice(&blocks.to_le_bytes());
    header.extend_from_slice(&chunks.to_le_bytes());
    header.extend_from_slice(&0u32.to_le_bytes());
    header
}

fn sparse_chunk_header(chunk_type: u16, blocks: u32, total_size: u32) -> Vec<u8> {
    let mut header = Vec::new();
    header.extend_from_slice(&chunk_type.to_le_bytes());
    header.extend_from_slice(&0u16.to_le_bytes());
    header.extend_from_slice(&blocks.to_le_bytes());
    header.extend_from_slice(&total_size.to_le_bytes());
    header
}

#[test]
fn parses_getvar_name() {
    assert_eq!(parse_variable("getvar:version").unwrap(), "version");
}

#[test]
fn rejects_empty_getvar_name() {
    let err = parse_variable("getvar:").unwrap_err();

    assert_eq!(err.kind(), ErrorKind::InvalidInput);
}

#[test]
fn returns_static_values() {
    let getvar = FastbootGetvar::new("abc123".to_string(), None);

    assert_eq!(getvar.fixed_value("serialno").as_deref(), Some("abc123"));
    assert_eq!(
        getvar.fixed_value("max-download-size").as_deref(),
        Some("0x10000000")
    );
}

#[test]
fn parses_fdt_base_compatible() {
    assert_eq!(
        parse_fdt_base_compatible(b"oneplus,fajita\0qcom,sdm845\0").as_deref(),
        Some("oneplus,fajita")
    );
}

#[test]
fn ignores_empty_fdt_base_compatible() {
    assert_eq!(parse_fdt_base_compatible(b"\0"), None);
}

#[test]
fn ignores_invalid_fdt_base_compatible() {
    assert_eq!(
        parse_fdt_base_compatible(b"\xff\0qcom,sdm845\0"),
        None
    );
}

#[test]
fn slot_variables_follow_the_slots() {
    let facts = SlotFacts {
        count: 2,
        current: Some(Slot::B),
        successful_a: Some(false),
        successful_b: Some(true),
        unbootable_a: None,
        unbootable_b: Some(false),
    };
    let text = |name: &str| slot_value(&facts, name).unwrap();
    assert_eq!(text("slot-count").as_deref(), Some("2"));
    assert_eq!(text("current-slot").as_deref(), Some("b"));
    assert_eq!(text("slot-successful:b").as_deref(), Some("yes"));
    assert_eq!(
        slot_value(&facts, "slot-successful:c").unwrap_err(),
        GetvarError::UnknownSlot
    );
    assert_eq!(text("version"), None);

    let getvar = FastbootGetvar::new("abc123".to_string(), Some("qcom,foo".to_string()));
    let parts = [partition("mmcblk0p1", Some("boot"), "179:1", 4096)];
    let lines = all_lines(&getvar, &facts, &parts);
    assert!(lines.iter().any(|line| line == "serialno:abc123" || line == "serialno: abc123"));
    assert_eq!(
        getvar
            .value(&facts, &parts, "partition-size:boot", false)
            .unwrap()
            .as_deref(),
        Some("0x1000")
    );
}

#[test]
fn resolves_partition_by_partname() {
    let parts = list(vec![partition("mmcblk0p1", Some("boot"), "179:1", 2048 * 512)]);

    let found = &parts[find(&parts, "boot").unwrap()];

    assert_eq!(found.kernel_name, "mmcblk0p1");
    assert_eq!(found.size_bytes, 2048 * 512);
}

#[test]
fn resolves_partition_by_kernel_name() {
    let parts = list(vec![partition("mmcblk0p1", Some("boot"), "179:1", 2048 * 512)]);

    let found = &parts[find(&parts, "mmcblk0p1").unwrap()];

    assert_eq!(found.fastboot_name(), "boot");
}

#[test]
fn rejects_ambiguous_partition_names() {
    let parts = list(vec![
        partition("mmcblk0p1", Some("boot"), "179:1", 2048 * 512),
        partition("mmcblk1p1", Some("boot"), "179:33", 2048 * 512),
    ]);

    let err = find(&parts, "boot").unwrap_err();

    assert_eq!(err.kind(), ErrorKind::InvalidInput);
    assert_eq!(find(&parts, "none"), Err(PartitionError::NotFound));
}

#[test]
fn parses_shell_command() {
    assert_eq!(parse_command("oem shell:ls /dev").unwrap(), "ls /dev");
}

#[test]
fn rejects_empty_shell_command() {
    let err = parse_command("oem shell:").unwrap_err();
    assert_eq!(err.kind(), ErrorKind::InvalidInput);
}

#[test]
fn staged_scripts_are_text_and_short() {
    assert_eq!(read_staged_command(b"ls\n").unwrap(), "ls\n");
    assert_eq!(
        read_staged_command(b"\xff").unwrap_err(),
        ShellError::NotText
    );
    assert_eq!(
        read_staged_command(&vec![b'a'; 0x1_0001]).unwrap_err(),
        ShellError::ScriptTooLarge
    );
    assert_eq!(
        read_staged_command(b"  \n").unwrap_err(),
        ShellError::ScriptEmpty
    );
    let done = ShellStatus {
        timed_out: false,
        code: Some(0),
        signal: None,
    };
    assert!(done.success());
    let late = ShellStatus {
        timed_out: true,
        code: None,
        signal: Some(9),
    };
    assert!(!late.success());
}

#[test]
fn parses_set_active_slot() {
    assert_eq!(parse_set_active("set_active:a").unwrap(), Slot::A);
    assert_eq!(parse_set_active("set_active:_b").unwrap(), Slot::B);
}

#[test]
fn rejects_empty_set_active_slot() {
    let err = parse_set_active("set_active:").unwrap_err();

    assert_eq!(err.kind(), ErrorKind::InvalidInput);
    assert_eq!(parse_set_active("set_active:c"), Err(SlotError::Unknown));
}

#[test]
fn parses_ums_backing_path() {
    assert_eq!(
        parse_backing("oem ums-start:mmcblk0p1", "oem ums-start:").unwrap(),
        "mmcblk0p1"
    );
    assert_eq!(
        parse_backing("oem ums-stop:/dev/mmcblk0p1", "oem ums-stop:").unwrap(),
        "/dev/mmcblk0p1"
    );
}

#[test]
fn rejects_empty_ums_backing_path() {
    let err = parse_backing("oem ums-start:", "oem ums-start:").unwrap_err();

    assert_eq!(err.kind(), ErrorKind::InvalidInput);
}

/// The backing file of a request, where some paths are files.
fn resolve_backing_path(
    requested: &str,
    dev_root: &str,
    usable: impl Fn(&str) -> Result<String, Fault>,
) -> Result<String, Fault> {
    match after_direct(requested, dev_root, usable(requested)) {
        BackingStep::Done(result) => result,
        BackingStep::LookUnder(path) => after_fallback(requested, dev_root, usable(&path)),
    }
}

fn missing() -> Fault {
    Fault {
        kind: ErrorKind::NotFound,
        text: "No such file or directory (os error 2)".to_string(),
    }
}

#[test]
fn resolves_existing_direct_path() {
    let resolved = resolve_backing_path("/tmp/disk.img", "/dev", |path| match path {
        "/tmp/disk.img" => Ok("/tmp/disk.img".to_string()),
        _ => Err(missing()),
    });
    assert_eq!(resolved.unwrap(), "/tmp/disk.img");
}

#[test]
fn resolves_dev_root_fallback() {
    let resolved = resolve_backing_path("mmcblk0p1", "/tmp/dev", |path| match path {
        "/tmp/dev/mmcblk0p1" => Ok("/tmp/dev/mmcblk0p1".to_string()),
        _ => Err(missing()),
    });
    assert_eq!(resolved.unwrap(), "/tmp/dev/mmcblk0p1");
}

#[test]
fn rejects_non_file_backing_path() {
    let err = resolve_backing_path("/tmp/dir", "/dev", |path| {
        check_backing_kind(path, false, false)?;
        Ok(path.to_string())
    })
    .unwrap_err();

    assert_eq!(err.kind, ErrorKind::InvalidInput);
}

fn packet_of(action: &exchange::Action) -> &[u8] {
    match action {
        exchange::Action::Reply(packet) => packet,
        other => panic!("unexpected action: {other:?}"),
    }
}

#[test]
fn downloads_are_staged_whole() {
    let commands = fastboot_commands();
    let (mut stage, mut action) = exchange::run_once(&commands, b"download:00280000", None);
    assert!(matches!(action, exchange::Action::Prepare(0x28_0000)));
    let mut received = 0;
    let mut answers = Vec::new();
    let mut kept = None;
    loop {
        match &action {
            exchange::Action::Reply(packet) => answers.push(packet.clone()),
            exchange::Action::Receive(count) => received += count,
            exchange::Action::Keep(size) => kept = Some(*size),
            exchange::Action::Prepare(_) => {}
            exchange::Action::Finish(step) => {
                assert_eq!(*step, ServerStep::Continue);
                break;
            }
            other => panic!("unexpected action: {other:?}"),
        }
        (stage, action) = exchange::step(stage, exchange::Event::Did);
    }
    assert_eq!(received, 0x28_0000);
    assert_eq!(kept, Some(0x28_0000));
    assert_eq!(answers, [b"DATA00280000".to_vec(), b"OKAY".to_vec()]);
}

#[test]
fn commands_are_answered() {
    let commands = fastboot_commands();
    let (stage, action) = exchange::run_once(&commands, b"frobnicate", None);
    assert_eq!(packet_of(&action), b"FAILunsupported command");
    assert!(matches!(
        exchange::step(stage, exchange::Event::Did).1,
        exchange::Action::Finish(ServerStep::Continue)
    ));
    let lost = exchange::Event::Failed {
        errno: None,
        kind: ErrorKind::Other,
        text: "lost".to_string(),
    };
    assert!(matches!(
        exchange::step(stage, lost).1,
        exchange::Action::HandUp
    ));
    let (_, action) = exchange::run_once(&commands, b"upload", None);
    assert_eq!(packet_of(&action), b"FAILno staged data");
    let (_, action) = exchange::run_once(&commands, b"upload", Some(3));
    assert_eq!(packet_of(&action), b"DATA00000003");
    let (_, action) = exchange::run_once(&commands, b"download:ffffffff", None);
    assert_eq!(
        packet_of(&action),
        b"FAILdownload size exceeds max-download-size 0x10000000"
    );
    let (stage, action) = exchange::run_once(&commands, b"continue", None);
    assert!(matches!(action, exchange::Action::ReplyBestEffort(_)));
    assert!(matches!(
        exchange::step(stage, exchange::Event::Did).1,
        exchange::Action::Finish(ServerStep::Exit(false))
    ));
    let (stage, action) = exchange::run_once(&commands, b"getvar:version", None);
    assert!(matches!(action, exchange::Action::Run(Handler::Getvar, _)));
    let failed = exchange::Event::Failed {
        errno: None,
        kind: ErrorKind::NotFound,
        text: "no such thing".to_string(),
    };
    assert_eq!(
        packet_of(&exchange::step(stage, failed).1),
        b"FAILno such thing"
    );
    let gone = exchange::Event::Failed {
        errno: Some(108),
        kind: ErrorKind::Other,
        text: "gone".to_string(),
    };
    assert!(matches!(
        exchange::step(stage, gone).1,
        exchange::Action::HandUp
    ));
}

#[test]
fn reads_of_the_log_are_told_apart() {
    let record = b"6,1,2,-;text";
    assert!(matches!(
        read_log(record, Ok(3)),
        Some(KmsgRead::Record(raw)) if raw == b"6,1"
    ));
    assert!(matches!(read_log(record, Ok(0)), Some(KmsgRead::End)));
    assert!(matches!(
        read_log(record, Err((ErrorKind::WouldBlock, Some(11)))),
        Some(KmsgRead::End)
    ));
    assert!(matches!(
        read_log(record, Err((ErrorKind::Interrupted, Some(4)))),
        Some(KmsgRead::Interrupted)
    ));
    assert!(matches!(
        read_log(record, Err((ErrorKind::BrokenPipe, Some(32)))),
        Some(KmsgRead::Overwritten)
    ));
    assert!(read_log(record, Err((ErrorKind::Other, Some(5)))).is_none());
    assert!(read_log(record, Err((ErrorKind::BrokenPipe, None))).is_none());
}

#[test]
fn shell_commands_have_their_time() {
    assert_eq!(shell_wait(true, false), ShellWait::Done);
    assert_eq!(shell_wait(true, true), ShellWait::Done);
    assert_eq!(shell_wait(false, true), ShellWait::Kill);
    assert_eq!(shell_wait(false, false), ShellWait::Sleep);
    assert_eq!(closing_note(false), "");
    assert_eq!(
        closing_note(true),
        "\npocketboot: shell command timed out\n"
    );
}
