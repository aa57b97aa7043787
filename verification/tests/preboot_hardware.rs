use pocketboot::preboot::exynos7870::{
    self, configure_i2c4, enable_i2c4, route_muic_to_uart, tx_full, Access, Bus, ByteError, Error,
    Next, PinRegisters, RouteStep, Transfer, I2C4_BASE,
};
use pocketboot::preboot::msm8916::{self, boot_cortex_a53, CpuInfo, PowerStep, SpinTable};
use pocketboot::preboot::payload::{align_up, is_payload, payload_entry};
use pocketboot::preboot::ram_trace::{stage, write_byte, Store};
use pocketboot::preboot::scm::{
    is_call_available, pack_ext, set_boot_addr_mc, Call, CallStep, Convention, EntryStage,
    EntryStep, Progress, MAX_ARGS,
};
use pocketboot::preboot::startup::{check_entry, Action, Event, Startup};
use pocketboot::preboot::uart;

#[test]
fn scm_convention_and_extended_argument_encoding() {
    assert_eq!(Convention::Smc64.function(6, 1, true), 0xc2000601);
    assert_eq!(Convention::Smc32.function(6, 1, true), 0x82000601);
    assert_eq!(Convention::Smc64.function(1, 0x11, false), 0x42000111);
    let mut args = [0; MAX_ARGS];
    args[3] = 0x123456789abcdef0;
    args[4] = u64::MAX;
    args[5] = 3;
    let ext = pack_ext(Convention::Smc32, &args);
    assert_eq!(
        &ext[..12],
        &[0xf0, 0xde, 0xbc, 0x9a, 0xff, 0xff, 0xff, 0xff, 3, 0, 0, 0]
    );
    assert_eq!(&ext[28..], &[0; 28]);
    let ext = pack_ext(Convention::Smc64, &args);
    assert_eq!(&ext[..8], &args[3].to_le_bytes());
    assert_eq!(&ext[16..24], &3u64.to_le_bytes());
}

#[test]
fn scm_calls_are_laid_out_and_taken_up_again() {
    let call = Call {
        convention: Convention::Smc32,
        svc: 1,
        cmd: 0x11,
        arglen: 6,
        args: vec![0x1_8000_0100, u64::MAX, 3, 4, 5, 6, 0, 0, 0, 0],
        fast: false,
    };
    assert_eq!(
        call.registers(0x9000).unwrap(),
        [0x02000111, 6, 0x8000_0100, 0xffff_ffff, 3, 0x9000, 0, 0]
    );
    assert_eq!(
        call.registers(0x1_0000_0000).unwrap_err(),
        msm8916::Error::Scm
    );

    let (mut progress, first) = Progress::new(0x42000111);
    assert_eq!(
        first,
        CallStep::Enter {
            x0: 0x42000111,
            x6: 0
        }
    );
    assert_eq!(
        progress.returned(1, 0, 77),
        CallStep::Enter { x0: 1, x6: 77 }
    );
    assert_eq!(
        progress.returned(0xffff_fff4, 0, 0),
        CallStep::EnterLater {
            delay_us: 30_000,
            x0: 0x42000111,
            x6: 0
        }
    );
    assert_eq!(progress.returned(0, 9, 0), CallStep::Done(9));
    for _ in 1..20 {
        assert!(matches!(
            progress.returned(0xffff_ffff_ffff_fff4, 0, 0),
            CallStep::EnterLater { .. }
        ));
    }
    assert_eq!(
        progress.returned(0xffff_fff4, 0, 0),
        CallStep::Failed(msm8916::Error::Scm)
    );
}

#[test]
fn scm_entry_is_named_by_the_convention_that_works() {
    let answer = Err(msm8916::Error::Scm);
    let (stage, _) = set_boot_addr_mc(EntryStage::Start, answer, 0x9000_0100, 3);
    assert_eq!(stage, EntryStage::Probe(Convention::Smc64));
    let (stage, _) = set_boot_addr_mc(stage, answer, 0x9000_0100, 3);
    assert_eq!(stage, EntryStage::Probe(Convention::Smc32));
    let (stage, _) = set_boot_addr_mc(stage, Ok(1), 0x9000_0100, 3);
    assert_eq!(stage, EntryStage::Available(Convention::Smc32));
    match set_boot_addr_mc(stage, Ok(1), 0x9000_0100, 3) {
        (EntryStage::Named, EntryStep::Ask(call)) => {
            assert_eq!(call.args[0], 0x9000_0100);
            assert_eq!(call.args[1..5], [u64::MAX; 4]);
            assert_eq!(call.args[5], 3);
        }
        other => panic!("unexpected step: {other:?}"),
    }
    assert!(matches!(
        set_boot_addr_mc(stage, Ok(1), 0x1_0000_0000, 3).1,
        EntryStep::Done(Err(msm8916::Error::Scm))
    ));
    assert!(matches!(
        set_boot_addr_mc(EntryStage::Named, Ok(0), 0x9000_0100, 3).1,
        EntryStep::Done(Ok(()))
    ));
    assert_eq!(
        is_call_available(Convention::Smc64, 1, 0x11, false).args[0],
        0x0200_0111
    );
}

/// Runs a transfer on a bus that answers by register; the writes and how it ended.
fn run(mut transfer: Transfer, answer: impl Fn(u64, usize) -> u32) -> (Vec<(u64, u32)>, Option<Error>) {
    let mut writes = Vec::new();
    let mut last = 0;
    let mut reads = 0;
    loop {
        match transfer.step(last) {
            Next::Do(Access::Read(address)) => {
                last = answer(address - I2C4_BASE, reads);
                reads += 1;
            }
            Next::Do(Access::Write { address, value }) => writes.push((address - I2C4_BASE, value)),
            Next::Do(Access::Spin(_)) => {}
            Next::Done(failure) => return (writes, failure),
        }
    }
}

#[test]
fn registers_are_written_over_the_bus() {
    let bus = Bus::i2c4();
    assert_eq!(bus.init().len(), 5);
    let (writes, failure) = run(bus.write_reg(0x3d, 0xb2, 0x13), |register, _| {
        if register == 0 {
            0x10
        } else {
            0
        }
    });
    assert_eq!(failure, None);
    let data: Vec<u32> = writes
        .iter()
        .filter(|(register, _)| *register == 0x0c)
        .map(|(_, value)| *value)
        .collect();
    assert_eq!(data, [0x7a, 0xb2, 0x13]);
}

#[test]
fn busy_bus_is_given_up() {
    let (_, failure) = run(Bus::i2c4().write_reg(0x3d, 0xb2, 0x13), |_, _| 0x20);
    assert_eq!(failure, Some(Error::IdleTimeout));
}

#[test]
fn missing_devices_are_noticed() {
    let (_, failure) = run(Bus::i2c4().write_reg(0x3d, 0xb2, 0x13), |register, _| {
        if register == 0 {
            0x10
        } else {
            0x01
        }
    });
    assert_eq!(failure, Some(Error::from_address_error(ByteError::NoAck)));
}

#[test]
fn switch_is_led_to_the_port() {
    assert_eq!(
        route_muic_to_uart(None, None),
        RouteStep::Write {
            slave: 0x3d,
            register: 0xb2,
            value: 0x13
        }
    );
    assert_eq!(
        route_muic_to_uart(Some(None), None),
        RouteStep::Write {
            slave: 0x3d,
            register: 0xb5,
            value: 0x48
        }
    );
    assert_eq!(
        route_muic_to_uart(Some(Some(Error::IdleTimeout)), None),
        RouteStep::Done(false)
    );
    assert_eq!(
        route_muic_to_uart(Some(None), Some(None)),
        RouteStep::Done(true)
    );
}

#[test]
fn clock_and_pins_are_set_up() {
    assert_eq!(
        enable_i2c4(1)[0],
        Access::Write {
            address: 0x101f_0810,
            value: 0x2_0789
        }
    );
    let pins = PinRegisters {
        con: u32::MAX,
        pud: 0,
        drv: 0,
        con_pdn: 0,
        pud_pdn: 0,
    };
    assert!(configure_i2c4(&pins)
        .iter()
        .any(|access| matches!(access, Access::Write { value: 0xffff_ff22, .. })));
    assert!(tx_full(0x100_0000));
    assert!(!tx_full(0xff_ffff));
    assert_eq!(exynos7870::writeln("x"), b"x\r\n");
}

#[test]
fn log_survives_in_three_copies() {
    assert_eq!(
        stage(7),
        [
            Store::Word {
                offset: 8,
                value: 7
            },
            Store::Word {
                offset: 4104,
                value: 7
            },
            Store::Word {
                offset: 8200,
                value: 7
            },
        ]
    );
    let check = 0xcbf2_9ce4_8422_2325u64;
    let stores = write_byte(0, check, b'a');
    assert_eq!(stores.len(), 9);
    assert_eq!(
        stores[0],
        Store::Byte {
            offset: 128,
            byte: b'a'
        }
    );
    assert_eq!(
        stores[1],
        Store::Word {
            offset: 72,
            value: 0xaf63_dc4c_8601_ec8c
        }
    );
    assert!(write_byte(4096 - 128, check, b'a').is_empty());
}

#[test]
fn port_takes_single_bytes() {
    assert_eq!(
        uart::set_base(0x78b_0000, 0x3f)[0],
        Access::Write {
            address: 0x78b_003c,
            value: 0x3b
        }
    );
    assert_eq!(uart::reset_port(0x78b_0000).len(), 2);
    assert_eq!(uart::write_str("a\nb"), b"a\r\nb");
    assert_eq!(uart::writeln("a\nb"), b"a\r\nb\r\n");
    assert_eq!(uart::write_hex64(0xabc0), "0xabc0");
    assert_eq!(uart::write_hex64(0), "0x0");
    assert_eq!(uart::log_hex("ESR", 0x1f).1, "0x000000000000001f");
    assert_eq!(uart::write_byte(0, b'x', 0, 0), uart::SendStep::Drop);
    assert_eq!(
        uart::write_byte(0x1000, b'x', 0, 4),
        uart::SendStep::Look(Access::Read(0x10a4))
    );
    assert_eq!(
        uart::write_byte(0x1000, b'x', 1, 4),
        uart::SendStep::Send(Access::Write {
            address: 0x1100,
            value: 0x78
        })
    );
    assert_eq!(
        uart::write_byte(0x1000, b'x', 100_000, 0),
        uart::SendStep::Drop
    );
}

#[test]
fn payload_follows_the_boot_code() {
    assert_eq!(align_up(1), 0x20_0000);
    assert_eq!(align_up(0x20_0000), 0x20_0000);
    assert_eq!(payload_entry(0x8000_0000, 0x1234), 0x8020_0000);
    assert_eq!(align_up(u64::MAX - 0x1f_ffff), 0xffff_ffff_ffe0_0000);
    assert!(is_payload(u32::from_le_bytes(*b"ARM\x64")));
    assert!(!is_payload(0));
}

fn cpus() -> Vec<CpuInfo> {
    (0..4)
        .map(|reg| CpuInfo {
            reg,
            acc_base: 0xb08_8000 + u64::from(reg) * 0x1_0000,
        })
        .collect()
}

#[test]
fn processors_are_started_one_after_the_other() {
    let table = SpinTable { addr: 0x9000_0000 };
    let cpus = cpus();
    let mut startup = Startup::new(table, 4);
    assert_eq!(
        startup.step(&cpus, Event::Did),
        Action::SetEntry {
            entry: 0x9000_0100,
            flags: 3
        }
    );
    let mut action = startup.step(&cpus, Event::Did);
    let mut started = Vec::new();
    loop {
        action = match action {
            Action::PowerOn { cpu, .. } => {
                started.push(cpu);
                startup.step(&cpus, Event::Did)
            }
            Action::Read(address) => {
                let slot = (address - 0x9000_0400) % 0x80;
                let word = match slot {
                    0x40 => 1,
                    0x48 => 4,
                    _ => 0x40,
                };
                startup.step(&cpus, Event::Word(word))
            }
            Action::Started => break,
            other => panic!("unexpected action: {other:?}"),
        };
    }
    assert_eq!(started, [1, 2, 3]);
}

#[test]
fn processors_that_do_not_answer_are_given_up() {
    let cpus = cpus();
    let mut startup = Startup::new(SpinTable { addr: 0x9000_0000 }, 4);
    startup.step(&cpus, Event::Did);
    let mut action = startup.step(&cpus, Event::Did);
    let mut looks = 0;
    loop {
        action = match action {
            Action::PowerOn { .. } | Action::Delay(_) => startup.step(&cpus, Event::Did),
            Action::Read(_) => {
                looks += 1;
                startup.step(&cpus, Event::Word(0))
            }
            Action::Failed(error) => {
                assert_eq!(error, msm8916::Error::StartupTimeout);
                break;
            }
            other => panic!("unexpected action: {other:?}"),
        };
    }
    assert_eq!(looks, 100_000);
}

#[test]
fn boot_code_starts_from_a_known_state() {
    assert_eq!(check_entry(0, true, 19_200_000, 0x40), Ok(()));
    assert_eq!(
        check_entry(1, true, 19_200_000, 0x40),
        Err(msm8916::Error::EntryState)
    );
    assert_eq!(
        check_entry(0, true, 19_200_000, 0),
        Err(msm8916::Error::Coherency)
    );
    assert_eq!(
        boot_cortex_a53(0xb08_8000)[0],
        PowerStep::Write {
            address: 0xb08_8004,
            value: 0x33
        }
    );
}
