//! The Exynos 7870: its serial port, and the switch that leads it to the USB connector.
use vstd::prelude::*;
use vstd::string::*;

use crate::bytes::{push_bytes, utf8};

verus! {

/// The address of the serial port.
pub const UART2_BASE: u64 = 0x1382_0000;

/// Where the port takes a byte.
pub const UTXH: u64 = 0x20;

/// Where the port tells whether it is full.
pub const UFSTAT: u64 = 0x18;

pub const CMU_PERI_BASE: u64 = 0x101f_0000;

pub const CLK_CON_GAT_PERI_I2C: u64 = 0x0810;

pub const PINCTRL_TOP_BASE: u64 = 0x139b_0000;

pub const GPC1_OFFSET: u64 = 0x040;

/// The address of the bus.
pub const I2C4_BASE: u64 = 0x1387_0000;

pub const IICCON: u64 = 0x00;

pub const IICSTAT: u64 = 0x04;

pub const IICADD: u64 = 0x08;

pub const IICDS: u64 = 0x0c;

pub const IICLC: u64 = 0x10;

pub const IICCON_ACKEN: u32 = 0x80;

pub const IICCON_IRQEN: u32 = 0x20;

pub const IICCON_IRQPEND: u32 = 0x10;

pub const IICSTAT_START: u32 = 0x20;

pub const IICSTAT_TXRXEN: u32 = 0x10;

pub const IICSTAT_ARBITR: u32 = 0x08;

pub const IICSTAT_LASTBIT: u32 = 0x01;

/// The bus sends as the master.
pub const MASTER_SEND: u32 = 0xd0;

/// How often a register is looked at before the bus is given up.
pub const TIMEOUT_SPINS: u32 = 500_000;

/// An access to the device.
#[derive(Clone, Copy, Debug, PartialEq, Eq, Structural)]
pub enum Access {
    /// A register is read; the answer goes into the next step.
    Read(u64),
    Write { address: u64, value: u32 },
    /// A number of turns is waited.
    Spin(u32),
}

/// Whether the serial port has no room, by its status.
pub fn tx_full(status: u32) -> (r: bool)
    ensures
        r == (status & 0x100_0000 != 0),
{
    status & 0x100_0000 != 0
}

/// The bytes of a line on the serial port.
pub fn writeln(message: &str) -> (r: Vec<u8>)
    ensures
        r@ == utf8(message@) + seq![0x0du8, 0x0au8],
{
    let mut out: Vec<u8> = Vec::new();
    push_bytes(&mut out, message.as_bytes());
    out.push(0x0d);
    out.push(0x0a);
    assert(out@ =~= utf8(message@) + seq![0x0du8, 0x0au8]);
    out
}

/// The accesses that let the clock reach the bus, by what the clock register holds.
pub fn enable_i2c4(gate: u32) -> (r: Vec<Access>)
    ensures
        r@ == seq![
            Access::Write {
                address: (CMU_PERI_BASE + CLK_CON_GAT_PERI_I2C) as u64,
                value: gate | 0x2_0788,
            },
            Access::Spin(1024),
        ],
{
    let r = vec![
        Access::Write { address: CMU_PERI_BASE + CLK_CON_GAT_PERI_I2C, value: gate | 0x2_0788 },
        Access::Spin(1024),
    ];
    assert(r@ =~= seq![
        Access::Write {
            address: (CMU_PERI_BASE + CLK_CON_GAT_PERI_I2C) as u64,
            value: gate | 0x2_0788,
        },
        Access::Spin(1024),
    ]);
    r
}

/// What the registers of the pins of the bus hold.
#[derive(Clone, Copy, Debug, PartialEq, Eq, Structural)]
pub struct PinRegisters {
    pub con: u32,
    pub pud: u32,
    pub drv: u32,
    pub con_pdn: u32,
    pub pud_pdn: u32,
}

/// `current` with the bits of `mask` taken from `value`.
pub open spec fn updated(current: u32, mask: u32, value: u32) -> u32 {
    (current & !mask) | (value & mask)
}

/// The write of a register of the pins.
pub open spec fn pin_write(offset: int, current: u32, mask: u32, value: u32) -> Access {
    Access::Write {
        address: (PINCTRL_TOP_BASE + GPC1_OFFSET + offset) as u64,
        value: updated(current, mask, value),
    }
}

fn update32(offset: u64, current: u32, mask: u32, value: u32) -> (r: Access)
    requires
        offset <= 0x14,
    ensures
        r == pin_write(offset as int, current, mask, value),
{
    Access::Write {
        address: PINCTRL_TOP_BASE + GPC1_OFFSET + offset,
        value: (current & !mask) | (value & mask),
    }
}

/// The accesses that lead the bus to its pins, by what their registers hold.
pub fn configure_i2c4(pins: &PinRegisters) -> (r: Vec<Access>)
    ensures
        r@ == seq![
            pin_write(0x00, pins.con, 0xff, 0x22),
            pin_write(0x08, pins.pud, 0x0f, 0x0f),
            pin_write(0x0c, pins.drv, 0x3f, 0x00),
            pin_write(0x10, pins.con_pdn, 0x0f, 0x0f),
            pin_write(0x14, pins.pud_pdn, 0x0f, 0x0f),
        ],
{
    let r = vec![
        update32(0x00, pins.con, 0xff, 0x22),
        update32(0x08, pins.pud, 0x0f, 0x0f),
        update32(0x0c, pins.drv, 0x3f, 0x00),
        update32(0x10, pins.con_pdn, 0x0f, 0x0f),
        update32(0x14, pins.pud_pdn, 0x0f, 0x0f),
    ];
    assert(r@ =~= seq![
        pin_write(0x00, pins.con, 0xff, 0x22),
        pin_write(0x08, pins.pud, 0x0f, 0x0f),
        pin_write(0x0c, pins.drv, 0x3f, 0x00),
        pin_write(0x10, pins.con_pdn, 0x0f, 0x0f),
        pin_write(0x14, pins.pud_pdn, 0x0f, 0x0f),
    ]);
    r
}

/// Why a byte did not go through.
#[derive(Clone, Copy, Debug, PartialEq, Eq, Structural)]
pub enum Error {
    IdleTimeout,
    AddressTimeout,
    AddressNoAck,
    AddressArbitrationLost,
    DataTimeout,
    DataNoAck,
    DataArbitrationLost,
}

/// Why a byte did not go through, whichever it was.
#[derive(Clone, Copy, Debug, PartialEq, Eq, Structural)]
pub enum ByteError {
    Timeout,
    NoAck,
    ArbitrationLost,
}

/// What a fault of the address, byte 0, or of one of the bytes behind it is.
pub open spec fn error_at(byte: int, error: ByteError) -> Error {
    match (byte == 0, error) {
        (true, ByteError::Timeout) => Error::AddressTimeout,
        (true, ByteError::NoAck) => Error::AddressNoAck,
        (true, ByteError::ArbitrationLost) => Error::AddressArbitrationLost,
        (false, ByteError::Timeout) => Error::DataTimeout,
        (false, ByteError::NoAck) => Error::DataNoAck,
        (false, ByteError::ArbitrationLost) => Error::DataArbitrationLost,
    }
}

impl Error {
    /// What a fault of the address is.
    pub fn from_address_error(error: ByteError) -> (r: Error)
        ensures
            r == error_at(0, error),
    {
        match error {
            ByteError::Timeout => Error::AddressTimeout,
            ByteError::NoAck => Error::AddressNoAck,
            ByteError::ArbitrationLost => Error::AddressArbitrationLost,
        }
    }

    /// What a fault of a byte behind the address is.
    pub fn from_data_error(error: ByteError) -> (r: Error)
        ensures
            r == error_at(1, error),
    {
        match error {
            ByteError::Timeout => Error::DataTimeout,
            ByteError::NoAck => Error::DataNoAck,
            ByteError::ArbitrationLost => Error::DataArbitrationLost,
        }
    }
}

/// Where a transfer stands. Byte 0 is the address, byte 1 the number of the register, byte 2 its
/// value.
#[derive(Clone, Copy, Debug, PartialEq, Eq, Structural)]
pub enum Stage {
    /// The bus is waited for.
    Begin,
    IdleAnswer,
    /// The bus is set up.
    ConAnswer,
    Mode,
    Address,
    AddressWait,
    Start,
    /// The end of a byte is waited for.
    Poll(u8),
    PollAnswer(u8),
    StatusAnswer(u8),
    /// A byte is sent.
    DataWait(u8),
    ClearRead(u8),
    ClearAnswer(u8),
    /// The bus is let go.
    StopAnswer,
    StopClearRead,
    StopClearAnswer,
    StopPoll,
    StopPollAnswer,
    DisableStatAnswer,
    DisableCon,
    DisableConAnswer,
    Finished,
}

/// A transfer of two bytes to a device on the bus: where it stands, how often a register has been
/// looked at, and what went wrong.
#[derive(Clone, Copy, Debug, PartialEq, Eq, Structural)]
pub struct Transfer {
    pub base: u64,
    pub slave: u8,
    pub register: u8,
    pub value: u8,
    pub stage: Stage,
    pub spins: u32,
    pub failure: Option<Error>,
}

/// What a transfer does next.
#[derive(Clone, Copy, Debug, PartialEq, Eq, Structural)]
pub enum Next {
    Do(Access),
    Done(Option<Error>),
}

/// The write of a register of the bus.
pub open spec fn bus_write(t: Transfer, offset: u64, value: u32) -> Next {
    Next::Do(Access::Write { address: (t.base + offset) as u64, value })
}

/// The read of a register of the bus.
pub open spec fn bus_read(t: Transfer, offset: u64) -> Next {
    Next::Do(Access::Read((t.base + offset) as u64))
}

/// The transfer at another stage.
pub open spec fn at(t: Transfer, stage: Stage) -> Transfer {
    Transfer { stage, spins: 0, ..t }
}

/// The transfer that lets the bus go, with what went wrong.
pub open spec fn given_up(t: Transfer, error: Error) -> Transfer {
    Transfer { stage: Stage::StopAnswer, spins: 0, failure: Some(error), ..t }
}

/// What a transfer does next, by the answer to its last read, and where it stands then.
pub open spec fn transfer_next(t: Transfer, answer: u32) -> (Transfer, Next) {
    match t.stage {
        Stage::Begin => (at(t, Stage::IdleAnswer), bus_read(t, IICSTAT)),
        Stage::IdleAnswer => if answer & IICSTAT_START == 0 {
            (at(t, Stage::ConAnswer), bus_read(t, IICCON))
        } else if t.spins + 1 >= TIMEOUT_SPINS {
            (given_up(t, Error::IdleTimeout), bus_read(t, IICSTAT))
        } else {
            (Transfer { spins: (t.spins + 1) as u32, ..t }, bus_read(t, IICSTAT))
        },
        Stage::ConAnswer => (
            at(t, Stage::Mode),
            bus_write(t, IICCON, answer | IICCON_ACKEN | IICCON_IRQEN),
        ),
        Stage::Mode => (at(t, Stage::Address), bus_write(t, IICSTAT, MASTER_SEND)),
        Stage::Address => (
            at(t, Stage::AddressWait),
            bus_write(t, IICDS, ((t.slave * 2) % 256) as u32),
        ),
        Stage::AddressWait => (at(t, Stage::Start), Next::Do(Access::Spin(128))),
        Stage::Start => (
            at(t, Stage::Poll(0)),
            bus_write(t, IICSTAT, MASTER_SEND | IICSTAT_START),
        ),
        Stage::Poll(byte) => (at(t, Stage::PollAnswer(byte)), bus_read(t, IICCON)),
        Stage::PollAnswer(byte) => if answer & IICCON_IRQPEND != 0 {
            (at(t, Stage::StatusAnswer(byte)), bus_read(t, IICSTAT))
        } else if t.spins + 1 >= TIMEOUT_SPINS {
            (given_up(t, error_at(byte as int, ByteError::Timeout)), bus_read(t, IICSTAT))
        } else {
            (Transfer { spins: (t.spins + 1) as u32, ..t }, bus_read(t, IICCON))
        },
        Stage::StatusAnswer(byte) => if answer & IICSTAT_ARBITR != 0 {
            (given_up(t, error_at(byte as int, ByteError::ArbitrationLost)), bus_read(t, IICSTAT))
        } else if answer & IICSTAT_LASTBIT != 0 {
            (given_up(t, error_at(byte as int, ByteError::NoAck)), bus_read(t, IICSTAT))
        } else if byte >= 2 {
            (at(t, Stage::StopAnswer), bus_read(t, IICSTAT))
        } else {
            (
                at(t, Stage::DataWait((byte + 1) as u8)),
                bus_write(
                    t,
                    IICDS,
                    if byte == 0 {
                        t.register as u32
                    } else {
                        t.value as u32
                    },
                ),
            )
        },
        Stage::DataWait(byte) => (at(t, Stage::ClearRead(byte)), Next::Do(Access::Spin(128))),
        Stage::ClearRead(byte) => (at(t, Stage::ClearAnswer(byte)), bus_read(t, IICCON)),
        Stage::ClearAnswer(byte) => (
            at(t, Stage::Poll(byte)),
            bus_write(t, IICCON, answer & !IICCON_IRQPEND),
        ),
        Stage::StopAnswer => (
            at(t, Stage::StopClearRead),
            bus_write(t, IICSTAT, answer & !IICSTAT_START),
        ),
        Stage::StopClearRead => (at(t, Stage::StopClearAnswer), bus_read(t, IICCON)),
        Stage::StopClearAnswer => (
            at(t, Stage::StopPoll),
            bus_write(t, IICCON, answer & !IICCON_IRQPEND),
        ),
        Stage::StopPoll => (at(t, Stage::StopPollAnswer), bus_read(t, IICSTAT)),
        Stage::StopPollAnswer => if answer & IICSTAT_START == 0 || t.spins + 1 >= TIMEOUT_SPINS {
            (at(t, Stage::DisableStatAnswer), bus_read(t, IICSTAT))
        } else {
            (Transfer { spins: (t.spins + 1) as u32, ..t }, bus_read(t, IICSTAT))
        },
        Stage::DisableStatAnswer => (
            at(t, Stage::DisableCon),
            bus_write(t, IICSTAT, answer & !IICSTAT_TXRXEN),
        ),
        Stage::DisableCon => (at(t, Stage::DisableConAnswer), bus_read(t, IICCON)),
        Stage::DisableConAnswer => (
            at(t, Stage::Finished),
            bus_write(
                t,
                IICCON,
                answer & !(IICCON_IRQEN | IICCON_IRQPEND | IICCON_ACKEN),
            ),
        ),
        Stage::Finished => (t, Next::Done(t.failure)),
    }
}

impl Transfer {
    /// Whether the transfer is one of a bus in the range of registers, at a stage that is reached.
    pub open spec fn wf(self) -> bool {
        &&& self.base <= u64::MAX - IICLC
        &&& self.spins < TIMEOUT_SPINS
        &&& match self.stage {
            Stage::Poll(byte) | Stage::PollAnswer(byte) | Stage::StatusAnswer(byte) => byte <= 2,
            Stage::DataWait(byte) | Stage::ClearRead(byte) | Stage::ClearAnswer(byte) => 1 <= byte
                <= 2,
            _ => true,
        }
    }

    fn read(&self, offset: u64) -> (r: Next)
        requires
            self.base <= u64::MAX - IICLC,
            offset <= 0x10,
        ensures
            r == bus_read(*self, offset),
    {
        Next::Do(Access::Read(self.base + offset))
    }

    fn write(&self, offset: u64, value: u32) -> (r: Next)
        requires
            self.base <= u64::MAX - IICLC,
            offset <= 0x10,
        ensures
            r == bus_write(*self, offset, value),
    {
        Next::Do(Access::Write { address: self.base + offset, value })
    }

    fn to(&self, stage: Stage) -> (r: Transfer)
        ensures
            r == at(*self, stage),
    {
        Transfer { stage, spins: 0, ..*self }
    }

    fn give_up(&self, error: Error) -> (r: Transfer)
        ensures
            r == given_up(*self, error),
    {
        Transfer { stage: Stage::StopAnswer, spins: 0, failure: Some(error), ..*self }
    }

    /// What the transfer does next, by the answer to its last read.
    pub fn step(&mut self, answer: u32) -> (r: Next)
        requires
            old(self).wf(),
        ensures
            (*final(self), r) == transfer_next(*old(self), answer),
            final(self).wf(),
    {
        let (after, next) = next_of(*self, answer);
        *self = after;
        next
    }
}

fn byte_error(byte: u8, error: ByteError) -> (r: Error)
    ensures
        r == error_at(byte as int, error),
{
    if byte == 0 {
        Error::from_address_error(error)
    } else {
        Error::from_data_error(error)
    }
}

fn next_of(t: Transfer, answer: u32) -> (r: (Transfer, Next))
    requires
        t.wf(),
    ensures
        r == transfer_next(t, answer),
        r.0.wf(),
{
    match t.stage {
        Stage::Begin => (t.to(Stage::IdleAnswer), t.read(IICSTAT)),
        Stage::IdleAnswer => if answer & IICSTAT_START == 0 {
            (t.to(Stage::ConAnswer), t.read(IICCON))
        } else if t.spins + 1 >= TIMEOUT_SPINS {
            (t.give_up(Error::IdleTimeout), t.read(IICSTAT))
        } else {
            (Transfer { spins: t.spins + 1, ..t }, t.read(IICSTAT))
        },
        Stage::ConAnswer => (
            t.to(Stage::Mode),
            t.write(IICCON, answer | IICCON_ACKEN | IICCON_IRQEN),
        ),
        Stage::Mode => (t.to(Stage::Address), t.write(IICSTAT, MASTER_SEND)),
        Stage::Address => (
            t.to(Stage::AddressWait),
            t.write(IICDS, (t.slave as u32 * 2) % 256),
        ),
        Stage::AddressWait => (t.to(Stage::Start), Next::Do(Access::Spin(128))),
        Stage::Start => (
            t.to(Stage::Poll(0)),
            t.write(IICSTAT, MASTER_SEND | IICSTAT_START),
        ),
        Stage::Poll(byte) => (t.to(Stage::PollAnswer(byte)), t.read(IICCON)),
        Stage::PollAnswer(byte) => if answer & IICCON_IRQPEND != 0 {
            (t.to(Stage::StatusAnswer(byte)), t.read(IICSTAT))
        } else if t.spins + 1 >= TIMEOUT_SPINS {
            (t.give_up(byte_error(byte, ByteError::Timeout)), t.read(IICSTAT))
        } else {
            (Transfer { spins: t.spins + 1, ..t }, t.read(IICCON))
        },
        Stage::StatusAnswer(byte) => if answer & IICSTAT_ARBITR != 0 {
            (t.give_up(byte_error(byte, ByteError::ArbitrationLost)), t.read(IICSTAT))
        } else if answer & IICSTAT_LASTBIT != 0 {
            (t.give_up(byte_error(byte, ByteError::NoAck)), t.read(IICSTAT))
        } else if byte >= 2 {
            (t.to(Stage::StopAnswer), t.read(IICSTAT))
        } else {
            (
                t.to(Stage::DataWait(byte + 1)),
                t.write(
                    IICDS,
                    if byte == 0 {
                        t.register as u32
                    } else {
                        t.value as u32
                    },
                ),
            )
        },
        Stage::DataWait(byte) => (t.to(Stage::ClearRead(byte)), Next::Do(Access::Spin(128))),
        Stage::ClearRead(byte) => (t.to(Stage::ClearAnswer(byte)), t.read(IICCON)),
        Stage::ClearAnswer(byte) => (
            t.to(Stage::Poll(byte)),
            t.write(IICCON, answer & !IICCON_IRQPEND),
        ),
        Stage::StopAnswer => (
            t.to(Stage::StopClearRead),
            t.write(IICSTAT, answer & !IICSTAT_START),
        ),
        Stage::StopClearRead => (t.to(Stage::StopClearAnswer), t.read(IICCON)),
        Stage::StopClearAnswer => (
            t.to(Stage::StopPoll),
            t.write(IICCON, answer & !IICCON_IRQPEND),
        ),
        Stage::StopPoll => (t.to(Stage::StopPollAnswer), t.read(IICSTAT)),
        Stage::StopPollAnswer => if answer & IICSTAT_START == 0 || t.spins + 1 >= TIMEOUT_SPINS {
            (t.to(Stage::DisableStatAnswer), t.read(IICSTAT))
        } else {
            (Transfer { spins: t.spins + 1, ..t }, t.read(IICSTAT))
        },
        Stage::DisableStatAnswer => (
            t.to(Stage::DisableCon),
            t.write(IICSTAT, answer & !IICSTAT_TXRXEN),
        ),
        Stage::DisableCon => (t.to(Stage::DisableConAnswer), t.read(IICCON)),
        Stage::DisableConAnswer => (
            t.to(Stage::Finished),
            t.write(
                IICCON,
                answer & !(IICCON_IRQEN | IICCON_IRQPEND | IICCON_ACKEN),
            ),
        ),
        Stage::Finished => (t, Next::Done(t.failure)),
    }
}

/// The place of a stage on the way to the end.
pub open spec fn distance(stage: Stage) -> int {
    match stage {
        Stage::Begin => 60,
        Stage::IdleAnswer => 59,
        Stage::ConAnswer => 58,
        Stage::Mode => 57,
        Stage::Address => 56,
        Stage::AddressWait => 55,
        Stage::Start => 54,
        Stage::Poll(byte) => 50 - 10 * byte,
        Stage::PollAnswer(byte) => 49 - 10 * byte,
        Stage::StatusAnswer(byte) => 48 - 10 * byte,
        Stage::DataWait(byte) => 57 - 10 * byte,
        Stage::ClearRead(byte) => 56 - 10 * byte,
        Stage::ClearAnswer(byte) => 55 - 10 * byte,
        Stage::StopAnswer => 12,
        Stage::StopClearRead => 11,
        Stage::StopClearAnswer => 10,
        Stage::StopPoll => 9,
        Stage::StopPollAnswer => 8,
        Stage::DisableStatAnswer => 7,
        Stage::DisableCon => 6,
        Stage::DisableConAnswer => 5,
        Stage::Finished => 0,
    }
}

/// A bound on the number of steps that are left.
pub open spec fn steps_left(t: Transfer) -> int {
    distance(t.stage) * 1_000_000 - t.spins
}

/// A transfer ends, whatever the bus answers: the bound on its steps falls with every step, until
/// the transfer is finished.
pub proof fn law_transfers_end(t: Transfer, answer: u32)
    requires
        t.wf(),
        t.stage != Stage::Finished,
    ensures
        0 <= steps_left(transfer_next(t, answer).0) < steps_left(t),
        transfer_next(t, answer).1 is Do,
{
}

/// The last access of a transfer switches the bus off, whatever went wrong; and once something went
/// wrong it is what the transfer ends with.
pub proof fn law_transfers_let_go(t: Transfer, answer: u32)
    requires
        t.wf(),
        t.stage != Stage::Finished,
    ensures
        transfer_next(t, answer).0.stage == Stage::Finished ==> transfer_next(t, answer).1
            == bus_write(
            t,
            IICCON,
            answer & !(IICCON_IRQEN | IICCON_IRQPEND | IICCON_ACKEN),
        ),
        t.failure is Some && distance(t.stage) <= 12 ==> transfer_next(t, answer).0.failure
            == t.failure,
{
}

/// A bus, by the address of its registers.
#[derive(Clone, Copy, Debug, PartialEq, Eq, Structural)]
pub struct Bus {
    pub base: u64,
}

impl Bus {
    /// The bus that the switch is on.
    pub fn i2c4() -> (r: Bus)
        ensures
            r.base == I2C4_BASE,
    {
        Bus { base: I2C4_BASE }
    }

    /// The accesses that set the bus up.
    pub fn init(&self) -> (r: Vec<Access>)
        requires
            self.base <= u64::MAX - IICLC,
        ensures
            r@ == seq![
                Access::Write { address: (self.base + IICADD) as u64, value: 0 },
                Access::Write { address: (self.base + IICCON) as u64, value: 0 },
                Access::Write { address: (self.base + IICSTAT) as u64, value: 0 },
                Access::Write { address: (self.base + IICLC) as u64, value: 5 },
                Access::Write { address: (self.base + IICCON) as u64, value: 0xe7 },
            ],
    {
        let r = vec![
            Access::Write { address: self.base + IICADD, value: 0 },
            Access::Write { address: self.base + IICCON, value: 0 },
            Access::Write { address: self.base + IICSTAT, value: 0 },
            Access::Write { address: self.base + IICLC, value: 5 },
            Access::Write { address: self.base + IICCON, value: 0xe7 },
        ];
        assert(r@ =~= seq![
            Access::Write { address: (self.base + IICADD) as u64, value: 0 },
            Access::Write { address: (self.base + IICCON) as u64, value: 0 },
            Access::Write { address: (self.base + IICSTAT) as u64, value: 0 },
            Access::Write { address: (self.base + IICLC) as u64, value: 5 },
            Access::Write { address: (self.base + IICCON) as u64, value: 0xe7 },
        ]);
        r
    }

    /// The transfer that writes a register of a device on the bus.
    pub fn write_reg(&self, slave_addr: u8, register: u8, value: u8) -> (r: Transfer)
        requires
            self.base <= u64::MAX - IICLC,
        ensures
            r == (Transfer {
                base: self.base,
                slave: slave_addr,
                register,
                value,
                stage: Stage::Begin,
                spins: 0,
                failure: None,
            }),
            r.wf(),
    {
        Transfer {
            base: self.base,
            slave: slave_addr,
            register,
            value,
            stage: Stage::Begin,
            spins: 0,
            failure: None,
        }
    }
}

/// What switching the serial port to the USB connector takes next.
#[derive(Clone, Copy, Debug, PartialEq, Eq, Structural)]
pub enum RouteStep {
    /// A register of the switch is written.
    Write { slave: u8, register: u8, value: u8 },
    /// The port is switched, or is not.
    Done(bool),
}

/// What switching the serial port to the USB connector takes next, by what came of the writes so
/// far, once the clock, the pins and the bus are set up: the switch is set by hand first, then led
/// to the port.
pub fn route_muic_to_uart(first: Option<Option<Error>>, second: Option<Option<Error>>) -> (r:
    RouteStep)
    ensures
        r == (match (first, second) {
            (None, _) => RouteStep::Write { slave: 0x3d, register: 0xb2, value: 0x13 },
            (Some(Some(_)), _) => RouteStep::Done(false),
            (Some(None), None) => RouteStep::Write { slave: 0x3d, register: 0xb5, value: 0x48 },
            (Some(None), Some(failure)) => RouteStep::Done(failure is None),
        }),
{
    match first {
        None => RouteStep::Write { slave: 0x3d, register: 0xb2, value: 0x13 },
        Some(Some(_)) => RouteStep::Done(false),
        Some(None) => match second {
            None => RouteStep::Write { slave: 0x3d, register: 0xb5, value: 0x48 },
            Some(failure) => RouteStep::Done(failure.is_none()),
        },
    }
}

/// What is put on the bus is the address of the device, with the mark of a write, then the register
/// and then the value; each is put there after the one before was taken, and a transfer in which
/// each was taken ends without a failure.
pub proof fn law_registers_are_sent_with_their_values(t: Transfer, answer: u32)
    requires
        t.base <= 0xffff_ffff,
        t.slave < 128,
    ensures
        ({
            let (after, next) = transfer_next(t, answer);
            let data = (t.base + 0x0c) as u64;
            let taken = answer & 0x08 == 0 && answer & 0x01 == 0;
            &&& t.stage == Stage::Address ==> next == Next::Do(
                Access::Write { address: data, value: (2 * t.slave) as u32 },
            )
            &&& t.stage == Stage::StatusAnswer(0) && taken ==> next == Next::Do(
                Access::Write { address: data, value: t.register as u32 },
            ) && after.failure == t.failure
            &&& t.stage == Stage::StatusAnswer(1) && taken ==> next == Next::Do(
                Access::Write { address: data, value: t.value as u32 },
            ) && after.failure == t.failure
            &&& t.stage == Stage::StatusAnswer(2) && taken ==> after.failure == t.failure
                && after.stage == Stage::StopAnswer
            &&& t.stage is StatusAnswer && !taken ==> after.failure is Some
            &&& next matches Next::Do(Access::Write { address, .. }) ==> (address == data ==> t.stage
                == Stage::Address || t.stage is StatusAnswer)
            &&& t.stage == Stage::Finished ==> next == Next::Done(t.failure)
            &&& after.slave == t.slave && after.register == t.register && after.value == t.value
                && after.base == t.base
        }),
{
}

} // verus!
