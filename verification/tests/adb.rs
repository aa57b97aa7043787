use pocketboot::adb::sync::{
    parse_send_target, sync_chunk_size, sync_data_packet, sync_dent_packet, sync_fail_packet,
    sync_list_done_packet, sync_mtime, sync_size, sync_stat_packet, sync_status_packet, SyncError,
    SyncId, SyncSession, SyncStep,
};
use pocketboot::adb::{
    adb_service, adb_step, check_length, check_payload, checksum, command_name, input_arrived,
    outgoing,
    service_name, Action, AdbError, AdbNext, AdbOutcome, AdbServer, AdbService, Credit, InputAnswer,
    Message,
    OutputState, Packet, SessionKind, A_CLSE, A_CNXN, A_OKAY, A_OPEN, A_VERSION, A_WRTE,
    MAX_PAYLOAD,
};
use pocketboot::errors::ErrorKind;

#[test]
fn encodes_and_decodes_message() {
    let packet = Packet::new(A_CNXN, A_VERSION, MAX_PAYLOAD, b"recovery::features=").unwrap();

    let decoded = Message::decode(&packet.message.encode()).unwrap();

    assert_eq!(decoded, packet.message);
    assert_eq!(decoded.magic, A_CNXN ^ u32::MAX);
}

#[test]
fn rejects_bad_magic() {
    let mut packet = Packet::new(A_OPEN, 1, 0, b"shell:\0").unwrap();
    let mut header = packet.message.encode();
    packet.message.magic = 0;
    header[20..24].copy_from_slice(&packet.message.magic.to_le_bytes());

    let err = Message::decode(&header).unwrap_err();

    assert_eq!(err.kind(), ErrorKind::InvalidData);
    assert_eq!(err.message(), "adb packet magic mismatch");
}

#[test]
fn computes_adb_checksum() {
    assert_eq!(
        checksum(b"ABC"),
        u32::from(b'A') + u32::from(b'B') + u32::from(b'C')
    );
}

#[test]
fn parses_nul_terminated_service_name() {
    assert_eq!(service_name(b"shell:\0").unwrap(), "shell:");
}

#[test]
fn recognizes_interactive_shell_service() {
    assert_eq!(adb_service("shell:"), Some(AdbService::Shell(None)));
    assert_eq!(adb_service("shell"), Some(AdbService::Shell(None)));
}

#[test]
fn recognizes_command_shell_service() {
    assert_eq!(
        adb_service("shell:ls /"),
        Some(AdbService::Shell(Some("ls /".to_string())))
    );
}

#[test]
fn recognizes_exec_service() {
    assert_eq!(
        adb_service("exec:cat /proc/cmdline"),
        Some(AdbService::Exec("cat /proc/cmdline".to_string()))
    );
}

#[test]
fn recognizes_sync_service() {
    assert_eq!(adb_service("sync:"), Some(AdbService::Sync));
}

#[test]
fn rejects_non_shell_service() {
    assert_eq!(adb_service("host:version"), None);
}

#[test]
fn parses_send_target_with_commas_in_path() {
    let (path, mode) = parse_send_target(b"/tmp/file,with,commas,33206").unwrap();

    assert_eq!(path, b"/tmp/file,with,commas");
    assert_eq!(mode, 33206);
}

#[test]
fn builds_sync_stat_packet() {
    assert_eq!(
        sync_stat_packet(0o100644, 123, 456),
        b"STAT\xA4\x81\x00\x00{\x00\x00\x00\xC8\x01\x00\x00".to_vec()
    );
}

#[test]
fn packets_are_checked_as_they_come_in() {
    let packet = Packet::new(A_WRTE, 1, 2, b"data").unwrap();
    assert_eq!(check_length(&packet.message, 4), Ok(()));
    assert_eq!(
        check_length(&packet.message, 3),
        Err(AdbError::TooLarge(4, 3))
    );
    assert_eq!(check_payload(&packet.message, b"data"), Ok(()));
    assert_eq!(
        check_payload(&packet.message, b"date"),
        Err(AdbError::Checksum)
    );
    assert_eq!(
        outgoing(3, A_WRTE, 1, 2, b"data").unwrap_err(),
        AdbError::SendTooLarge(4, 3)
    );
    assert_eq!(command_name(A_WRTE), "WRTE");
    assert_eq!(
        service_name(b"\xff\0").unwrap_err(),
        AdbError::ServiceNotText
    );
}

#[test]
fn streams_are_opened_fed_and_closed() {
    let mut server = AdbServer::new();
    let connect = Packet::new(A_CNXN, A_VERSION, 0x2000, b"host::\0").unwrap();
    assert!(matches!(
        server.handle_packet(&connect).unwrap(),
        Action::Connect { max_payload: 0x2000 }
    ));

    let open = Packet::new(A_OPEN, 77, 0, b"sync:\0").unwrap();
    let (local_id, remote_id) = match server.handle_packet(&open).unwrap() {
        Action::Open {
            local_id,
            remote_id,
            service,
        } => {
            assert_eq!(service, AdbService::Sync);
            (local_id, remote_id)
        }
        other => panic!("unexpected action: {other:?}"),
    };
    assert_eq!(remote_id, 77);
    server.opened(local_id, remote_id, SessionKind::Sync);

    let write = Packet::new(A_WRTE, 77, local_id, b"data").unwrap();
    assert!(matches!(
        server.handle_packet(&write).unwrap(),
        Action::Write { remote_id: 77, kind: SessionKind::Sync, .. }
    ));
    let okay = Packet::new(A_OKAY, 77, local_id, b"").unwrap();
    assert!(matches!(
        server.handle_packet(&okay).unwrap(),
        Action::Credit { .. }
    ));
    let close = Packet::new(A_CLSE, 77, local_id, b"").unwrap();
    assert!(matches!(
        server.handle_packet(&close).unwrap(),
        Action::Closed { kind: SessionKind::Sync, .. }
    ));
    assert!(server.sessions.is_empty());
    assert!(matches!(
        server.handle_packet(&write).unwrap(),
        Action::SendClose { .. }
    ));
}

#[test]
fn unknown_services_are_closed() {
    let mut server = AdbServer::new();
    let open = Packet::new(A_OPEN, 9, 0, b"host:version\0").unwrap();
    assert!(matches!(
        server.handle_packet(&open).unwrap(),
        Action::SendClose { remote_id: 9, .. }
    ));
}

#[test]
fn output_waits_for_credit() {
    let mut output = OutputState::new();
    assert_eq!(output.take_write_credit(), Credit::Wait);
    output.allow_one_write();
    assert_eq!(output.take_write_credit(), Credit::Send);
    assert_eq!(output.take_write_credit(), Credit::Wait);
    assert!(output.close());
    assert!(!output.close());
    output.allow_one_write();
    assert_eq!(output.take_write_credit(), Credit::Closed);
}

#[test]
fn lost_hosts_are_waited_for() {
    let gone = AdbOutcome::ReadFailed {
        errno: Some(108),
        kind: ErrorKind::Other,
    };
    assert_eq!(adb_step(false, gone).0, AdbNext::DropAndWait);
    let broken = AdbOutcome::ReadFailed {
        errno: None,
        kind: ErrorKind::InvalidData,
    };
    assert_ne!(adb_step(false, broken).0, AdbNext::DropAndWait);
    assert_eq!(adb_step(false, AdbOutcome::Handled).0, AdbNext::Read);
}

#[test]
fn sync_packets_are_laid_out() {
    assert_eq!(
        sync_status_packet(SyncId::Okay, 0),
        b"OKAY\0\0\0\0".to_vec()
    );
    assert_eq!(
        sync_dent_packet(1, 2, 3, b"ab").unwrap(),
        b"DENT\x01\0\0\0\x02\0\0\0\x03\0\0\0\x02\0\0\0ab".to_vec()
    );
    assert_eq!(sync_list_done_packet().len(), 20);
    assert_eq!(sync_data_packet(b"xyz").unwrap(), b"DATA\x03\0\0\0xyz");
    assert_eq!(sync_fail_packet("no").unwrap(), b"FAIL\x02\0\0\0no");
    assert_eq!(sync_size(u64::MAX), u32::MAX);
    assert_eq!(sync_size(7), 7);
    assert_eq!(sync_mtime(-1), 0);
    assert_eq!(sync_mtime(1 << 40), u32::MAX);
    assert!(sync_chunk_size(0x1000) <= 0x1000);
}

#[test]
fn send_targets_need_a_mode() {
    assert_eq!(
        parse_send_target(b"/tmp/file").unwrap_err().0,
        SyncError::MissingMode
    );
    assert_eq!(
        parse_send_target(b"/tmp/file,\xff").unwrap_err().0,
        SyncError::ModeNotText
    );
    assert_eq!(
        parse_send_target(b"/tmp/file,rw").unwrap_err().0,
        SyncError::Mode
    );
}

#[test]
fn sync_requests_are_framed_whatever_their_pieces() {
    let mut session = SyncSession::new();
    session.write_input(b"STAT\x04\0\0\0/t");
    assert!(matches!(session.step().unwrap(), SyncStep::Wait));
    session.write_input(b"mpLI");
    match session.step().unwrap() {
        SyncStep::Stat(path) => assert_eq!(path, b"/tmp"),
        other => panic!("unexpected step: {other:?}"),
    }
    assert!(matches!(session.step().unwrap(), SyncStep::Wait));
    session.write_input(b"ST\x01\0\0\0/");
    match session.step().unwrap() {
        SyncStep::List(path) => assert_eq!(path, b"/"),
        other => panic!("unexpected step: {other:?}"),
    }
}

#[test]
fn sent_files_are_written_and_finished() {
    let mut session = SyncSession::new();
    session.write_input(b"SEND\x0c\0\0\0/tmp/f,33188DATA\x03\0\0\0abcDONE\x05\0\0\0");
    match session.step().unwrap() {
        SyncStep::CreateFile(path) => assert_eq!(path, b"/tmp/f"),
        other => panic!("unexpected step: {other:?}"),
    }
    session.started(true, None);
    match session.step().unwrap() {
        SyncStep::Write(data) => assert_eq!(data, b"abc"),
        other => panic!("unexpected step: {other:?}"),
    }
    match session.step().unwrap() {
        SyncStep::Finish(send, mtime) => {
            assert_eq!(mtime, 5);
            assert_eq!(send.mode, 33188);
            assert_eq!(send.reply().unwrap(), b"OKAY\0\0\0\0");
        }
        other => panic!("unexpected step: {other:?}"),
    }
}

#[test]
fn input_is_answered_once() {
    let mut server = AdbServer::new();
    server.opened(7, 70, SessionKind::Sync);
    server.opened(8, 80, SessionKind::Shell);
    assert_eq!(input_arrived(SessionKind::Sync), InputAnswer::Acknowledge);
    assert_eq!(input_arrived(SessionKind::Shell), InputAnswer::Nothing);
    assert_eq!(input_arrived(SessionKind::Exec), InputAnswer::Nothing);
    assert_eq!(
        server.input_written(7, SessionKind::Sync, true, true),
        InputAnswer::Nothing
    );
    assert_eq!(
        server.input_written(8, SessionKind::Shell, true, true),
        InputAnswer::Acknowledge
    );
    let write = |local_id: u32, remote_id: u32| Packet {
        message: Message {
            command: A_WRTE,
            arg0: remote_id,
            arg1: local_id,
            data_length: 0,
            data_check: 0,
            magic: !A_WRTE,
        },
        payload: Vec::new(),
    };
    assert!(matches!(
        server.handle_packet(&write(8, 80)),
        Ok(Action::Write { local_id: 8, .. })
    ));
    assert_eq!(
        server.input_written(8, SessionKind::Shell, false, true),
        InputAnswer::Close
    );
    assert!(matches!(
        server.handle_packet(&write(8, 80)),
        Ok(Action::SendClose {
            local_id: 0,
            remote_id: 80
        })
    ));
    assert!(matches!(
        server.handle_packet(&write(7, 70)),
        Ok(Action::Write { local_id: 7, .. })
    ));
    assert_eq!(
        server.input_written(7, SessionKind::Sync, false, false),
        InputAnswer::Nothing
    );
}
