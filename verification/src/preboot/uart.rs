//! The serial port of the MSM8916: what is written where, and the texts of its lines.
use vstd::prelude::*;
use vstd::string::*;

use crate::bytes::utf8;
use crate::text::{cat, hex, hex_padded, owned, padded, push_hex};
use crate::preboot::exynos7870::Access;

verus! {

/// How often the port is looked at before a byte is given up.
pub const TX_READY_TIMEOUT: u32 = 100_000;

/// The accesses before the port is looked at: its sender is reset, and its mode is read.
pub fn reset_port(base: u64) -> (r: Vec<Access>)
    requires
        base + 0x100 <= u64::MAX,
    ensures
        r@ == seq![
            Access::Write { address: (base + 0xa8) as u64, value: 0x20 },
            Access::Read((base + 0x3c) as u64),
        ],
{
    let r = vec![
        Access::Write { address: base + 0xa8, value: 0x20 },
        Access::Read(base + 0x3c),
    ];
    assert(r@ =~= seq![
        Access::Write { address: (base + 0xa8) as u64, value: 0x20 },
        Access::Read((base + 0x3c) as u64),
    ]);
    r
}

/// The accesses that make the port ready, by its mode: it takes single bytes and no bulk transfers,
/// and its sender is switched on.
pub fn set_base(base: u64, dmen: u32) -> (r: Vec<Access>)
    requires
        base + 0x100 <= u64::MAX,
    ensures
        r@ == seq![
            Access::Write { address: (base + 0x3c) as u64, value: (dmen & !4u32) | 0x10 },
            Access::Write { address: (base + 0xa8) as u64, value: 4 },
        ],
{
    let r = vec![
        Access::Write { address: base + 0x3c, value: (dmen & !4u32) | 0x10 },
        Access::Write { address: base + 0xa8, value: 4 },
    ];
    assert(r@ =~= seq![
        Access::Write { address: (base + 0x3c) as u64, value: (dmen & !4u32) | 0x10 },
        Access::Write { address: (base + 0xa8) as u64, value: 4 },
    ]);
    r
}

/// What sending a byte takes next.
#[derive(Clone, Copy, Debug, PartialEq, Eq, Structural)]
pub enum SendStep {
    /// The port takes the byte.
    Send(Access),
    /// The port is looked at again.
    Look(Access),
    /// The byte is dropped.
    Drop,
}

/// What sending a byte takes next, by how often the port was looked at and what it told: a port that
/// is not there takes nothing, one that is not ready is looked at again.
pub open spec fn send_next(base: u64, byte: u8, looks: u32, status: u32) -> SendStep {
    if base == 0 {
        SendStep::Drop
    } else if looks > 0 && status & 4 != 0 {
        SendStep::Send(Access::Write { address: (base + 0x100) as u64, value: byte as u32 })
    } else if looks < TX_READY_TIMEOUT {
        SendStep::Look(Access::Read((base + 0xa4) as u64))
    } else {
        SendStep::Drop
    }
}

/// What sending a byte takes next.
pub fn write_byte(base: u64, byte: u8, looks: u32, status: u32) -> (r: SendStep)
    requires
        base + 0x100 <= u64::MAX,
    ensures
        r == send_next(base, byte, looks, status),
{
    if base == 0 {
        return SendStep::Drop;
    }
    if looks > 0 && status & 4 != 0 {
        return SendStep::Send(Access::Write { address: base + 0x100, value: byte as u32 });
    }
    if looks < TX_READY_TIMEOUT {
        SendStep::Look(Access::Read(base + 0xa4))
    } else {
        SendStep::Drop
    }
}

/// The bytes of a text on the port: a return stands before each line feed.
pub open spec fn with_returns(bytes: Seq<u8>) -> Seq<u8>
    decreases bytes.len(),
{
    if bytes.len() == 0 {
        Seq::empty()
    } else if bytes.last() == 0x0a {
        with_returns(bytes.drop_last()).push(0x0d).push(0x0a)
    } else {
        with_returns(bytes.drop_last()).push(bytes.last())
    }
}

/// The bytes of a text on the port.
pub fn write_str(message: &str) -> (r: Vec<u8>)
    ensures
        r@ == with_returns(utf8(message@)),
{
    let bytes = message.as_bytes();
    let mut out: Vec<u8> = Vec::new();
    let mut i: usize = 0;
    assert(bytes@.take(0) =~= Seq::<u8>::empty());
    while i < bytes.len()
        invariant
            i <= bytes@.len(),
            out@ == with_returns(bytes@.take(i as int)),
        decreases bytes@.len() - i,
    {
        assert(bytes@.take(i + 1).drop_last() =~= bytes@.take(i as int));
        if bytes[i] == 0x0a {
            out.push(0x0d);
        }
        out.push(bytes[i]);
        i += 1;
    }
    assert(bytes@.take(i as int) =~= bytes@);
    out
}

/// The bytes of a line on the port.
pub fn writeln(message: &str) -> (r: Vec<u8>)
    ensures
        r@ == with_returns(utf8(message@)) + seq![0x0du8, 0x0au8],
{
    let mut out = write_str(message);
    out.push(0x0d);
    out.push(0x0a);
    assert(out@ =~= with_returns(utf8(message@)) + seq![0x0du8, 0x0au8]);
    out
}

/// A number on the port.
pub fn write_hex64(value: u64) -> (s: String)
    ensures
        s@ == "0x"@ + hex(value as int),
{
    let mut out = owned("0x");
    push_hex(&mut out, value);
    out
}

/// The two lines of a number with its label; all digits of the number are told.
pub fn log_hex(label: &str, value: u64) -> (r: (String, String))
    ensures
        r.0@ == label@,
        r.1@ == "0x"@ + padded(hex(value as int), 16, '0'),
{
    (owned(label), cat("0x", hex_padded(value, 16).as_str()))
}

/// Each byte of a text is sent, in its order, and each line feed has a carriage return before it:
/// what is sent for two texts in a row is what is sent for the one and then for the other.
pub proof fn law_line_feeds_get_returns(a: Seq<u8>, b: Seq<u8>, byte: u8)
    ensures
        with_returns(a + b) == with_returns(a) + with_returns(b),
        with_returns(seq![byte]) == (if byte == 10 {
            seq![13u8, 10u8]
        } else {
            seq![byte]
        }),
    decreases b.len(),
{
    reveal_with_fuel(with_returns, 2);
    assert(seq![byte].drop_last() =~= Seq::<u8>::empty());
    assert(with_returns(seq![byte]) =~= (if byte == 10 {
        seq![13u8, 10u8]
    } else {
        seq![byte]
    }));
    if b.len() == 0 {
        assert(a + b =~= a);
    } else {
        law_line_feeds_get_returns(a, b.drop_last(), byte);
        assert((a + b).drop_last() =~= a + b.drop_last());
        assert((a + b).last() == b.last());
    }
    assert(with_returns(a + b) =~= with_returns(a) + with_returns(b));
}

/// A byte is written to the port once the port was seen to be ready, and the port is looked at
/// before; without a port, nothing is sent.
pub proof fn law_bytes_are_sent_when_ready(base: u64, byte: u8, looks: u32, status: u32)
    requires
        base <= u64::MAX - 0x100,
    ensures
        send_next(base, byte, looks, status) matches SendStep::Send(access) ==> {
            &&& base != 0
            &&& looks > 0
            &&& status & 4 != 0
            &&& access == (Access::Write { address: (base + 0x100) as u64, value: byte as u32 })
        },
        base != 0 && looks > 0 && status & 4 != 0 ==> send_next(base, byte, looks, status) is Send,
        base != 0 && looks == 0 ==> send_next(base, byte, looks, status) == SendStep::Look(
            Access::Read((base + 0xa4) as u64),
        ),
        base == 0 ==> send_next(base, byte, looks, status) is Drop,
{
}

} // verus!
