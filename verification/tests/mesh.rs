use pocketboot::cmdline::KernelCommandLine;
use pocketboot::errors::ErrorKind;
use pocketboot::mesh::address::{
    assign_loopback_ula, link_local_cidr, ula_cidr, Ipv6Addr,
};
use pocketboot::mesh::babel::{
    daemon_args, generate_config, has_ended, start, supervise, RoutingState, StartAttempt,
    Supervision,
};
use pocketboot::mesh::command::{accept_address, ip_args, CommandError, CommandErrorKind};
use pocketboot::mesh::identity::{
    derive_from_inputs, identity_from_seed, read_fdt_string, MeshIdentity,
};
use pocketboot::mesh::link::{bring_up, collect_links, discover_links, MeshLink, MeshLinkKind};
use pocketboot::mesh::status::{build_status_json, json_string};
use pocketboot::mesh::usb::{
    candidates, create_function, find_netdev_by_mac, function_attributes, wait_for_netdev,
    write_optional, NetDevice, NetdevWait, TryOutcome, UsbNetConfig, UsbNetStart,
};
use pocketboot::mesh::Config;
use sha2::{Digest, Sha256};

fn identity(serialno: &str) -> MeshIdentity {
    derive_from_inputs(serialno, "Phone X", &["qcom,foo".to_string()])
}

fn sample_identity() -> MeshIdentity {
    identity("abc123")
}

fn link(name: &str, kind: MeshLinkKind, metric_hint: u16, wired: bool) -> MeshLink {
    MeshLink {
        name: name.into(),
        kind,
        metric_hint,
        wired,
    }
}

#[test]
fn ula_rendering_is_stable() {
    let id = derive_from_inputs("abc123", "Phone X", &["qcom,foo".to_string()]);
    let rendered = ula_cidr(id.ula_addr);
    let id2 = derive_from_inputs("abc123", "Phone X", &["qcom,foo".to_string()]);
    assert_eq!(rendered, ula_cidr(id2.ula_addr));
    assert!(rendered.ends_with("/128"));
}

#[test]
fn link_local_rendering_is_stable() {
    let id = derive_from_inputs("abc123", "Phone X", &["qcom,foo".to_string()]);
    let rendered = link_local_cidr(&id);
    assert!(rendered.starts_with("fe80::"));
    assert!(rendered.ends_with("/64"));
}

#[test]
fn empty_inputs_do_not_panic() {
    let id = derive_from_inputs("", "", &[]);
    let _ = ula_cidr(id.ula_addr);
    let _ = link_local_cidr(&id);
}

#[test]
fn addresses_are_written_short() {
    let address = |groups: [u16; 8]| {
        let mut octets = [0u8; 16];
        for (i, group) in groups.iter().enumerate() {
            octets[2 * i..2 * i + 2].copy_from_slice(&group.to_be_bytes());
        }
        Ipv6Addr { octets }.to_text()
    };
    assert_eq!(address([0xfd00, 0, 0, 0, 0, 0, 0, 1]), "fd00::1");
    assert_eq!(address([0xfd12, 1, 2, 3, 4, 5, 6, 0xabc]), "fd12:1:2:3:4:5:6:abc");
    assert_eq!(address([0xfd12, 0, 2, 0, 0, 5, 0, 0]), "fd12:0:2::5:0:0");
    assert_eq!(address([0xfd12, 0, 2, 3, 4, 5, 6, 0]), "fd12:0:2:3:4:5:6:0");
    assert_eq!(address([0xfd12, 0, 0, 0, 0, 0, 0, 0]), "fd12::");
}

#[test]
fn identity_is_made_of_the_hash_of_its_inputs() {
    let mut input = b"pocketboot mesh identity v1\0abc123\0Phone X\0qcom,foo,qcom,bar\0".to_vec();
    let seed = Sha256::digest(&input);
    let id = derive_from_inputs(
        "abc123",
        "Phone X",
        &["qcom,foo".to_string(), "qcom,bar".to_string()],
    );
    assert_eq!(id, identity_from_seed(&seed));
    assert_eq!(&id.ula_addr.octets()[6..], &seed[22..]);
    assert_eq!(&id.interface_id_low64, &seed[24..]);
    assert_eq!(&id.usb_dev_mac[1..], &seed[9..14]);
    let prefix = Sha256::digest(b"pocketboot mesh ula prefix v1");
    assert_eq!(&id.ula_addr.octets()[1..6], &prefix[1..6]);
    assert_eq!(id.node_id_hex.len(), 32);
    assert_eq!(
        u128::from_str_radix(&id.node_id_hex, 16).unwrap(),
        u128::from_be_bytes(seed[..16].try_into().unwrap())
    );
    input.pop();
    assert_ne!(id, identity_from_seed(&Sha256::digest(&input)));
}

#[test]
fn model_is_read_without_the_spaces_around_it() {
    assert_eq!(read_fdt_string(b"\0 Phone X\n\0").as_deref(), Some("Phone X"));
    assert_eq!(
        read_fdt_string("T\u{e9}l\u{e9}phone\0other\0".as_bytes()).as_deref(),
        Some("T\u{e9}l\u{e9}phone")
    );
    assert_eq!(read_fdt_string(b"\0\0"), None);
    assert_eq!(read_fdt_string(b"\xff\0"), None);
}

#[test]
fn config_includes_known_interfaces() {
    let identity = sample_identity();
    let links = vec![
        link("pbmesh0", MeshLinkKind::UsbGadget, 96, true),
        link("wlan0", MeshLinkKind::WifiP2p, 256, false),
    ];
    let conf = generate_config(&identity, &links);
    assert!(conf.contains("interface pbmesh0 type wired"));
    assert!(conf.contains("interface wlan0 type wireless"));
}

#[test]
fn config_includes_node_ula() {
    let identity = sample_identity();
    let links = vec![link("pbmesh0", MeshLinkKind::UsbGadget, 96, true)];
    let conf = generate_config(&identity, &links);
    assert!(conf.contains(&format!(
        "redistribute local ip {}/128 allow",
        identity.ula_addr.to_text()
    )));
    assert!(conf.contains("redistribute local deny"));
}

#[test]
fn empty_link_list_produces_valid_config() {
    let identity = sample_identity();
    let conf = generate_config(&identity, &[]);
    assert!(conf.contains("redistribute local deny"));
    assert!(!conf.contains("interface "));
}

#[test]
fn daemon_is_started_again_once() {
    let attempt = StartAttempt {
        is_installed: true,
        config_written: true,
        spawned: true,
        watched: true,
    };
    let links = [link("a", MeshLinkKind::Manual, 96, true)];
    assert!(start(&links, attempt).running);
    assert!(!start(&[], attempt).available);
    let failed = start(
        &links,
        StartAttempt {
            spawned: false,
            watched: false,
            ..attempt
        },
    );
    let unwatched = start(
        &links,
        StartAttempt {
            watched: false,
            ..attempt
        },
    );
    assert!(!unwatched.available && !unwatched.running);
    assert!(failed.available && !failed.running);
    assert_eq!(supervise(false, false, false), Supervision::Watch);
    assert_eq!(supervise(false, false, true), Supervision::Restart);
    assert_eq!(supervise(true, false, true), Supervision::GiveUp);
    assert_eq!(supervise(true, true, false), Supervision::GiveUp);
    assert!(has_ended(Some(libc::ESRCH)));
    assert!(!has_ended(Some(libc::EPERM)));
    assert_eq!(daemon_args(&["wlan0".to_string()]).last().unwrap(), "wlan0");
}

#[test]
fn ip_args_prepends_ip_subcommand() {
    let args = ip_args(&["-6", "addr", "add", "fd00::1/128", "dev", "lo"]);
    assert_eq!(
        args,
        vec![
            "ip".to_string(),
            "-6".to_string(),
            "addr".to_string(),
            "add".to_string(),
            "fd00::1/128".to_string(),
            "dev".to_string(),
            "lo".to_string(),
        ]
    );
}

fn command_error(stderr: &str) -> CommandError {
    CommandError {
        program: "/bin/busybox".into(),
        args: vec!["ip".into()],
        status: Some(2),
        stderr: stderr.into(),
        kind: CommandErrorKind::Exit,
    }
}

#[test]
fn command_error_detects_already_exists() {
    let err = command_error("RTNETLINK answers: File exists");
    assert!(err.is_already_exists());
}

#[test]
fn command_error_detects_already_in_use() {
    let err = command_error("Address already in use");
    assert!(err.is_already_exists());
}

#[test]
fn command_errors_are_told() {
    let err = command_error("no such device\n");
    assert!(!err.is_already_exists());
    assert_eq!(
        err.message(),
        "/bin/busybox ip exited with 2: no such device"
    );
    assert_eq!(err.error_kind(), ErrorKind::Other);
    assert!(accept_address(Some(err)).is_err());
    assert!(accept_address(Some(command_error("File exists"))).is_ok());
    assert!(accept_address(None).is_ok());
    let mut spawn = command_error("not there");
    spawn.kind = CommandErrorKind::Spawn;
    assert_eq!(spawn.message(), "spawn /bin/busybox ip: not there");
    assert_eq!(spawn.error_kind(), ErrorKind::NotFound);
}

#[test]
fn same_inputs_produce_same_identity() {
    let a = derive_from_inputs("abc123", "Phone X", &["qcom,foo".to_string()]);
    let b = derive_from_inputs("abc123", "Phone X", &["qcom,foo".to_string()]);
    assert_eq!(a, b);
}

#[test]
fn different_serials_produce_different_node_ids() {
    let a = derive_from_inputs("abc123", "Phone X", &["qcom,foo".to_string()]);
    let b = derive_from_inputs("def456", "Phone X", &["qcom,foo".to_string()]);
    assert_ne!(a.node_id_hex, b.node_id_hex);
    assert_ne!(a.ula_addr, b.ula_addr);
}

#[test]
fn ula_is_inside_fd00_8() {
    let id = derive_from_inputs("abc123", "Phone X", &["qcom,foo".to_string()]);
    let octets = id.ula_addr.octets();
    assert_eq!(octets[0], 0xfd, "ULA must start with fd");
    assert_eq!(octets[0] & 0xfe, 0xfc, "first octet high bits");
}

#[test]
fn macs_are_locally_administered_unicast() {
    let id = derive_from_inputs("abc123", "Phone X", &["qcom,foo".to_string()]);
    for mac in [id.usb_dev_mac, id.usb_host_mac] {
        assert_eq!(mac[0] & 0x01, 0, "multicast bit must be clear");
        assert_eq!(mac[0] & 0x02, 0x02, "local bit must be set");
    }
}

#[test]
fn device_and_host_macs_differ() {
    let id = derive_from_inputs("abc123", "Phone X", &["qcom,foo".to_string()]);
    assert_ne!(id.usb_dev_mac, id.usb_host_mac);
}

#[test]
fn raw_serial_is_not_the_node_id() {
    let id = derive_from_inputs("abc123", "Phone X", &["qcom,foo".to_string()]);
    assert_ne!(id.node_id_hex, "abc123");
    assert!(!id.node_id_hex.contains("abc123"));
}

#[test]
fn empty_compatibles_does_not_panic() {
    let id = derive_from_inputs("abc123", "", &[]);
    assert!(!id.node_id_hex.is_empty());
}

#[test]
fn babel_type_maps_kinds() {
    assert_eq!(MeshLinkKind::UsbGadget.babel_type(), "wired");
    assert_eq!(MeshLinkKind::Manual.babel_type(), "wired");
    assert_eq!(MeshLinkKind::WifiP2p.babel_type(), "wireless");
    assert_eq!(MeshLinkKind::BluetoothPan.babel_type(), "tunnel");
}

#[test]
fn labels_are_stable() {
    assert_eq!(MeshLinkKind::UsbGadget.label(), "usb-gadget");
    assert_eq!(MeshLinkKind::Manual.label(), "manual");
}

#[test]
fn links_are_collected_and_brought_up() {
    let links = collect_links(Some("usb0"), &["eth0".to_string()]);
    assert_eq!(
        links,
        [
            link("usb0", MeshLinkKind::UsbGadget, 96, true),
            link("eth0", MeshLinkKind::Manual, 96, true),
        ]
    );
    assert!(discover_links().is_empty());
    let id = sample_identity();
    let (up, address) = bring_up(&links[1], &id);
    assert_eq!(up, ["ip", "link", "set", "dev", "eth0", "up"]);
    assert_eq!(address[4], link_local_cidr(&id));
    assert_eq!(assign_loopback_ula(&id)[4], ula_cidr(id.ula_addr));
}

#[test]
fn mesh_is_set_up_from_the_command_line() {
    let cmdline = KernelCommandLine::parse("pocketboot.mesh.ifaces=eth0,,wlan0");
    let config = Config::from_boot(sample_identity(), &cmdline, true);
    assert_eq!(config.manual_ifaces, ["eth0", "wlan0"]);
    assert!(config.usb_net_enabled);
    let off = KernelCommandLine::parse("pocketboot.mesh.usb=0");
    assert!(!Config::from_boot(sample_identity(), &off, true).usb_net_enabled);
}

#[test]
fn status_json_is_well_formed() {
    let identity = derive_from_inputs("abc", "M", &["c".to_string()]);
    let config = Config {
        identity,
        manual_ifaces: vec![],
        usb_net_enabled: true,
    };
    let links = vec![link("pbmesh0", MeshLinkKind::UsbGadget, 96, true)];
    let routing = RoutingState {
        backend: "babeld",
        running: true,
        config_path: "/run/pocketboot-babeld.conf".into(),
        available: true,
    };
    let json = build_status_json(&config, &links, &routing);
    assert!(json.contains("\"enabled\": true"));
    assert!(json.contains("\"node_id\":"));
    assert!(json.contains("\"pbmesh0\""));
    assert!(json.contains("\"usb-gadget\""));
    assert!(json.contains("\"running\": true"));
    assert!(json.contains("\"available\": true"));
    assert!(json.trim().ends_with('}'));
}

#[test]
fn json_string_escapes_quotes() {
    assert_eq!(json_string("a\"b"), "\"a\\\"b\"");
    assert_eq!(json_string("a\\b"), "\"a\\\\b\"");
}

#[test]
fn json_string_escapes_controls() {
    assert_eq!(json_string("a\n\r\t\u{1}b"), "\"a\\n\\r\\t\\u0001b\"");
}

#[test]
fn empty_links_produces_empty_array() {
    let identity = derive_from_inputs("abc", "M", &[]);
    let config = Config {
        identity,
        manual_ifaces: vec![],
        usb_net_enabled: false,
    };
    let routing = RoutingState::unavailable();
    let json = build_status_json(&config, &[], &routing);
    assert!(json.contains("\"links\": []"));
}

#[test]
fn mac_string_format() {
    let config = UsbNetConfig {
        ifname: "pbmesh0".into(),
        dev_addr: [0x02, 0x11, 0x22, 0x33, 0x44, 0x55],
        host_addr: [0x02, 0xaa, 0xbb, 0xcc, 0xdd, 0xee],
        prefer_ncm: true,
    };
    assert_eq!(config.dev_addr_string(), "02:11:22:33:44:55");
    assert_eq!(config.host_addr_string(), "02:aa:bb:cc:dd:ee");
}

#[test]
fn from_identity_uses_default_ifname() {
    let config = UsbNetConfig::from_identity(
        [0x02, 0x11, 0x22, 0x33, 0x44, 0x55],
        [0x02, 0xaa, 0xbb, 0xcc, 0xdd, 0xee],
    );
    assert_eq!(config.ifname, "pbmesh0");
    assert!(config.prefer_ncm);
}

#[test]
fn usb_functions_are_tried_in_order() {
    assert_eq!(candidates(true), ["ncm.pocketmesh", "ecm.pocketmesh"]);
    assert_eq!(candidates(false), ["ecm.pocketmesh", "ncm.pocketmesh"]);
    assert_eq!(create_function(None), UsbNetStart::Try(0));
    assert_eq!(
        create_function(Some((0, TryOutcome::Failed))),
        UsbNetStart::Try(1)
    );
    assert_eq!(
        create_function(Some((1, TryOutcome::Failed))),
        UsbNetStart::Unsupported
    );
    assert_eq!(
        create_function(Some((1, TryOutcome::Created))),
        UsbNetStart::Started
    );
    let config = UsbNetConfig::from_identity([2, 0, 0, 0, 0, 1], [2, 0, 0, 0, 0, 2]);
    let values: Vec<String> = function_attributes(&config)
        .into_iter()
        .map(|attribute| format!("{}={}", attribute.name, attribute.value))
        .collect();
    assert_eq!(
        values,
        [
            "ifname=pbmesh0",
            "dev_addr=02:00:00:00:00:01",
            "host_addr=02:00:00:00:00:02",
            "qmult=5",
        ]
    );
    assert!(write_optional(Some(ErrorKind::NotFound)));
    assert!(!write_optional(Some(ErrorKind::PermissionDenied)));
}

#[test]
fn network_cards_are_found_by_their_address() {
    let device = |name: &str, address: Option<&str>| NetDevice {
        name: name.to_string(),
        address: address.map(str::to_string),
    };
    let devices = [
        device("lo", None),
        device("usb0", Some("02:AA:BB:CC:DD:EE\n")),
    ];
    assert_eq!(find_netdev_by_mac(&devices, "02:aa:bb:cc:dd:ee"), Some(1));
    assert_eq!(find_netdev_by_mac(&devices, "02:aa:bb:cc:dd:ef"), None);
    assert_eq!(wait_for_netdev(Some(1), true), NetdevWait::Found(1));
    assert_eq!(wait_for_netdev(None, true), NetdevWait::Missing);
    assert_eq!(wait_for_netdev(None, false), NetdevWait::Later);
}
