//! The ADB protocol: packets, streams and the server's table of them.
pub mod output;
pub mod sync;

use std::collections::HashMap;

use vstd::prelude::*;
use vstd::std_specs::hash::*;
use vstd::string::*;
use vstd::utf8::*;

use crate::bytes::{
    law_word_bytes_round_trip, le32, le32_bytes, le_u32, lemma_le32_in, push_bytes, push_le_u32,
    utf8,
};
use crate::errors::ErrorKind;
use crate::fastboot::{is_usb_disconnect, means_gone};
use crate::text::{after_prefix, decimal, decode, owned, push_decimal, same_text, strip_prefix};

verus! {

pub const A_SYNC: u32 = 0x434e5953;

pub const A_CNXN: u32 = 0x4e584e43;

pub const A_OPEN: u32 = 0x4e45504f;

pub const A_OKAY: u32 = 0x59414b4f;

pub const A_CLSE: u32 = 0x45534c43;

pub const A_WRTE: u32 = 0x45545257;

pub const A_AUTH: u32 = 0x48545541;

pub const A_STLS: u32 = 0x534c5453;

/// The version of the protocol.
pub const A_VERSION: u32 = 0x0100_0001;

/// The least of the greatest lengths of a payload.
pub const MAX_PAYLOAD_V1: u32 = 0x1000;

/// The greatest length of a payload.
pub const MAX_PAYLOAD: u32 = 0x10_0000;

/// The length of the header of a packet.
pub const HEADER_LEN: usize = 24;

/// What is wrong with a packet.
#[derive(Clone, Copy, Debug, PartialEq, Eq, Structural)]
pub enum AdbError {
    Magic,
    /// The payload and its greatest length.
    TooLarge(u64, u32),
    /// The payload and its greatest length, for a packet that is sent.
    SendTooLarge(u64, u32),
    Checksum,
    Overflow,
    ServiceNotText,
}

impl AdbError {
    /// The kind of the error.
    pub open spec fn spec_kind(self) -> ErrorKind {
        match self {
            AdbError::Overflow | AdbError::SendTooLarge(_, _) => ErrorKind::InvalidInput,
            _ => ErrorKind::InvalidData,
        }
    }

    /// The kind of the error.
    pub fn kind(self) -> (k: ErrorKind)
        ensures
            k == self.spec_kind(),
    {
        match self {
            AdbError::Overflow | AdbError::SendTooLarge(_, _) => ErrorKind::InvalidInput,
            _ => ErrorKind::InvalidData,
        }
    }

    /// The error in words.
    pub open spec fn words(self) -> Seq<char> {
        match self {
            AdbError::Magic => "adb packet magic mismatch"@,
            AdbError::TooLarge(length, most) | AdbError::SendTooLarge(length, most) =>
                "adb payload too large: "@ + decimal(length as int) + " > "@ + decimal(
                most as int,
            ),
            AdbError::Checksum => "adb payload checksum mismatch"@,
            AdbError::Overflow => "adb payload length overflows u32"@,
            AdbError::ServiceNotText => "adb service is not utf-8"@,
        }
    }

    /// The error in words.
    pub fn message(self) -> (s: String)
        ensures
            s@ == self.words(),
    {
        match self {
            AdbError::Magic => owned("adb packet magic mismatch"),
            AdbError::TooLarge(length, most) | AdbError::SendTooLarge(length, most) => {
                let mut s = owned("adb payload too large: ");
                push_decimal(&mut s, length);
                s.append(" > ");
                push_decimal(&mut s, most as u64);
                s
            },
            AdbError::Checksum => owned("adb payload checksum mismatch"),
            AdbError::Overflow => owned("adb payload length overflows u32"),
            AdbError::ServiceNotText => owned("adb service is not utf-8"),
        }
    }
}

/// The sum of bytes.
pub open spec fn byte_sum(s: Seq<u8>) -> int
    decreases s.len(),
{
    if s.len() == 0 {
        0
    } else {
        byte_sum(s.drop_last()) + s.last()
    }
}

/// The checksum of a payload: the sum of its bytes, in 32 bits.
pub open spec fn payload_check(s: Seq<u8>) -> u32 {
    (byte_sum(s) % 0x1_0000_0000) as u32
}

/// The checksum of a payload.
pub fn checksum(payload: &[u8]) -> (r: u32)
    ensures
        r == payload_check(payload@),
{
    let mut sum: u32 = 0;
    let mut i: usize = 0;
    while i < payload.len()
        invariant
            i <= payload@.len(),
            sum == byte_sum(payload@.take(i as int)) % 0x1_0000_0000,
        decreases payload@.len() - i,
    {
        proof {
            assert(payload@.take(i + 1).drop_last() =~= payload@.take(i as int));
            assert(payload@.take(i + 1).last() == payload@[i as int]);
        }
        sum = sum.wrapping_add(payload[i] as u32);
        i += 1;
    }
    assert(payload@.take(i as int) =~= payload@);
    sum
}

/// The header of a packet.
#[derive(Clone, Copy, Debug, PartialEq, Eq, Structural)]
pub struct Message {
    pub command: u32,
    pub arg0: u32,
    pub arg1: u32,
    pub data_length: u32,
    pub data_check: u32,
    pub magic: u32,
}

/// The bytes of a header.
pub open spec fn message_bytes(m: Message) -> Seq<u8> {
    le32_bytes(m.command) + le32_bytes(m.arg0) + le32_bytes(m.arg1) + le32_bytes(m.data_length)
        + le32_bytes(m.data_check) + le32_bytes(m.magic)
}

/// The header that bytes hold.
pub open spec fn message_told(s: Seq<u8>) -> Result<Message, AdbError> {
    let m = Message {
        command: le32(s, 0),
        arg0: le32(s, 4),
        arg1: le32(s, 8),
        data_length: le32(s, 12),
        data_check: le32(s, 16),
        magic: le32(s, 20),
    };
    if m.magic != m.command ^ 0xffff_ffffu32 {
        Err(AdbError::Magic)
    } else {
        Ok(m)
    }
}

impl Message {
    /// The header that bytes hold.
    pub fn decode(header: &[u8]) -> (r: Result<Message, AdbError>)
        requires
            header@.len() == HEADER_LEN,
        ensures
            r == message_told(header@),
    {
        let message = Message {
            command: le_u32(header, 0),
            arg0: le_u32(header, 4),
            arg1: le_u32(header, 8),
            data_length: le_u32(header, 12),
            data_check: le_u32(header, 16),
            magic: le_u32(header, 20),
        };
        if message.magic != message.command ^ 0xffff_ffffu32 {
            return Err(AdbError::Magic);
        }
        Ok(message)
    }

    /// The bytes of a header.
    pub fn encode(&self) -> (r: Vec<u8>)
        ensures
            r@ == message_bytes(*self),
            r@.len() == HEADER_LEN,
    {
        let mut out: Vec<u8> = Vec::new();
        proof {
            reveal(le32_bytes);
        }
        push_le_u32(&mut out, self.command);
        push_le_u32(&mut out, self.arg0);
        push_le_u32(&mut out, self.arg1);
        push_le_u32(&mut out, self.data_length);
        push_le_u32(&mut out, self.data_check);
        push_le_u32(&mut out, self.magic);
        assert(out@ =~= message_bytes(*self));
        out
    }
}

/// A header whose magic fits its command is read back as it was written.
pub proof fn law_messages_round_trip(m: Message)
    requires
        m.magic == m.command ^ 0xffff_ffffu32,
    ensures
        message_bytes(m).len() == HEADER_LEN,
        message_told(message_bytes(m)) == Ok::<Message, AdbError>(m),
{
    let a = le32_bytes(m.command);
    let b = le32_bytes(m.arg0);
    let c = le32_bytes(m.arg1);
    let d = le32_bytes(m.data_length);
    let e = le32_bytes(m.data_check);
    let f = le32_bytes(m.magic);
    law_word_bytes_round_trip(m.command);
    law_word_bytes_round_trip(m.arg0);
    law_word_bytes_round_trip(m.arg1);
    law_word_bytes_round_trip(m.data_length);
    law_word_bytes_round_trip(m.data_check);
    law_word_bytes_round_trip(m.magic);
    let all = message_bytes(m);
    let none = Seq::<u8>::empty();
    lemma_le32_in(none, a, b + c + d + e + f);
    assert(all =~= none + a + (b + c + d + e + f));
    lemma_le32_in(a, b, c + d + e + f);
    assert(all =~= a + b + (c + d + e + f));
    lemma_le32_in(a + b, c, d + e + f);
    assert(all =~= a + b + c + (d + e + f));
    lemma_le32_in(a + b + c, d, e + f);
    assert(all =~= a + b + c + d + (e + f));
    lemma_le32_in(a + b + c + d, e, f);
    assert(all =~= a + b + c + d + e + f);
    lemma_le32_in(a + b + c + d + e, f, none);
    assert(all =~= a + b + c + d + e + f + none);
}

/// A packet: its header and its payload.
#[derive(Debug, PartialEq, Eq)]
pub struct Packet {
    pub message: Message,
    pub payload: Vec<u8>,
}

/// The header of a packet with a command, two arguments and a payload.
pub open spec fn header_for(command: u32, arg0: u32, arg1: u32, payload: Seq<u8>) -> Message {
    Message {
        command,
        arg0,
        arg1,
        data_length: payload.len() as u32,
        data_check: payload_check(payload),
        magic: command ^ 0xffff_ffffu32,
    }
}

impl Packet {
    /// A packet with a command, two arguments and a payload.
    pub fn new(command: u32, arg0: u32, arg1: u32, payload: &[u8]) -> (r: Result<Packet, AdbError>)
        ensures
            match r {
                Ok(packet) => {
                    &&& payload@.len() <= u32::MAX
                    &&& packet.message == header_for(command, arg0, arg1, payload@)
                    &&& packet.payload@ == payload@
                },
                Err(e) => payload@.len() > u32::MAX && e == AdbError::Overflow,
            },
    {
        let length = payload.len();
        if length as u64 > u32::MAX as u64 {
            return Err(AdbError::Overflow);
        }
        let mut data: Vec<u8> = Vec::new();
        push_bytes(&mut data, payload);
        assert(data@ =~= payload@);
        Ok(
            Packet {
                message: Message {
                    command,
                    arg0,
                    arg1,
                    data_length: length as u32,
                    data_check: checksum(payload),
                    magic: command ^ 0xffff_ffffu32,
                },
                payload: data,
            },
        )
    }
}

/// A packet that was sent is taken: its header is read back, and its payload fits it.
pub proof fn law_packets_are_accepted(
    command: u32,
    arg0: u32,
    arg1: u32,
    payload: Seq<u8>,
    max_payload: u32,
)
    requires
        payload.len() <= max_payload,
    ensures
        ({
            let m = header_for(command, arg0, arg1, payload);
            &&& message_told(message_bytes(m)) == Ok::<Message, AdbError>(m)
            &&& m.data_length <= max_payload
            &&& m.data_length == payload.len()
            &&& payload_fits(m, payload)
        }),
{
    law_messages_round_trip(header_for(command, arg0, arg1, payload));
}

/// Whether a payload has the checksum of its header; none is told by zero.
pub open spec fn payload_fits(m: Message, payload: Seq<u8>) -> bool {
    m.data_check == 0 || m.data_check == payload_check(payload)
}

/// Refuses a header with a payload that is too large.
pub fn check_length(message: &Message, max_payload: u32) -> (r: Result<(), AdbError>)
    ensures
        r == (if message.data_length > max_payload {
            Err::<(), AdbError>(AdbError::TooLarge(message.data_length as u64, max_payload))
        } else {
            Ok(())
        }),
{
    if message.data_length > max_payload {
        Err(AdbError::TooLarge(message.data_length as u64, max_payload))
    } else {
        Ok(())
    }
}

/// Refuses a payload with another checksum than its header tells.
pub fn check_payload(message: &Message, payload: &[u8]) -> (r: Result<(), AdbError>)
    ensures
        r == (if payload_fits(*message, payload@) {
            Ok::<(), AdbError>(())
        } else {
            Err(AdbError::Checksum)
        }),
{
    if message.data_check != 0 && message.data_check != checksum(payload) {
        Err(AdbError::Checksum)
    } else {
        Ok(())
    }
}

/// A packet to be sent, where its payload is not too large.
pub fn outgoing(max_payload: u32, command: u32, arg0: u32, arg1: u32, payload: &[u8]) -> (r: Result<
    Packet,
    AdbError,
>)
    ensures
        match r {
            Ok(packet) => {
                &&& payload@.len() <= max_payload
                &&& packet.message == header_for(command, arg0, arg1, payload@)
                &&& packet.payload@ == payload@
            },
            Err(e) => payload@.len() > max_payload && e == AdbError::SendTooLarge(
                payload@.len() as u64,
                max_payload,
            ),
        },
{
    if payload.len() as u64 > max_payload as u64 {
        return Err(AdbError::SendTooLarge(payload.len() as u64, max_payload));
    }
    Packet::new(command, arg0, arg1, payload)
}

/// The name of a command.
pub open spec fn command_word(command: u32) -> Seq<char> {
    if command == A_SYNC {
        "SYNC"@
    } else if command == A_CNXN {
        "CNXN"@
    } else if command == A_OPEN {
        "OPEN"@
    } else if command == A_OKAY {
        "OKAY"@
    } else if command == A_CLSE {
        "CLSE"@
    } else if command == A_WRTE {
        "WRTE"@
    } else if command == A_AUTH {
        "AUTH"@
    } else if command == A_STLS {
        "STLS"@
    } else {
        "unknown"@
    }
}

/// The name of a command.
pub fn command_name(command: u32) -> (s: &'static str)
    ensures
        s@ == command_word(command),
{
    if command == A_SYNC {
        "SYNC"
    } else if command == A_CNXN {
        "CNXN"
    } else if command == A_OPEN {
        "OPEN"
    } else if command == A_OKAY {
        "OKAY"
    } else if command == A_CLSE {
        "CLSE"
    } else if command == A_WRTE {
        "WRTE"
    } else if command == A_AUTH {
        "AUTH"
    } else if command == A_STLS {
        "STLS"
    } else {
        "unknown"
    }
}

/// What the device tells of itself when a connection is opened.
pub fn connection_banner() -> (s: &'static str)
    ensures
        s@
            == "recovery::ro.product.name=pocketboot;ro.product.model=pocketboot;ro.product.device=pocketboot;features="@,
{
    "recovery::ro.product.name=pocketboot;ro.product.model=pocketboot;ro.product.device=pocketboot;features="
}

/// `s` without one zero at its end.
pub open spec fn without_zero(s: Seq<u8>) -> Seq<u8> {
    if s.len() > 0 && s.last() == 0 {
        s.drop_last()
    } else {
        s
    }
}

/// The service that a payload names.
pub open spec fn service_told(payload: Seq<u8>) -> Result<Seq<char>, AdbError> {
    if valid_utf8(without_zero(payload)) {
        Ok(decode_utf8(without_zero(payload)))
    } else {
        Err(AdbError::ServiceNotText)
    }
}

/// The service that a payload names.
pub fn service_name(payload: &[u8]) -> (r: Result<String, AdbError>)
    ensures
        service_told(payload@) == (match r {
            Ok(name) => Ok(name@),
            Err(e) => Err(e),
        }),
{
    let end = if payload.len() > 0 && payload[payload.len() - 1] == 0 {
        payload.len() - 1
    } else {
        payload.len()
    };
    let name = &payload[0..end];
    assert(name@ =~= without_zero(payload@));
    match decode(name) {
        Some(name) => Ok(name),
        None => Err(AdbError::ServiceNotText),
    }
}

/// A service that the device offers.
#[derive(Debug, PartialEq, Eq)]
pub enum AdbService {
    Shell(Option<String>),
    Exec(String),
    Sync,
}

/// A service, as plain values.
pub enum ServiceView {
    Shell(Option<Seq<char>>),
    Exec(Seq<char>),
    Sync,
}

impl View for AdbService {
    type V = ServiceView;

    open spec fn view(&self) -> ServiceView {
        match *self {
            AdbService::Shell(None) => ServiceView::Shell(None),
            AdbService::Shell(Some(command)) => ServiceView::Shell(Some(command@)),
            AdbService::Exec(command) => ServiceView::Exec(command@),
            AdbService::Sync => ServiceView::Sync,
        }
    }
}

/// The service of this name.
pub open spec fn service_named(service: Seq<char>) -> Option<ServiceView> {
    if service == "shell"@ || service == "shell:"@ {
        Some(ServiceView::Shell(None))
    } else if service == "sync:"@ {
        Some(ServiceView::Sync)
    } else {
        match after_prefix(service, "exec:"@) {
            Some(command) => Some(ServiceView::Exec(command)),
            None => match after_prefix(service, "shell:"@) {
                Some(command) => Some(ServiceView::Shell(Some(command))),
                None => None,
            },
        }
    }
}

/// The service of this name.
pub fn adb_service(service: &str) -> (r: Option<AdbService>)
    ensures
        service_named(service@) == (match r {
            Some(found) => Some(found@),
            None => None,
        }),
{
    if same_text(service, "shell") || same_text(service, "shell:") {
        return Some(AdbService::Shell(None));
    }
    if same_text(service, "sync:") {
        return Some(AdbService::Sync);
    }
    if let Some(command) = strip_prefix(service, "exec:") {
        return Some(AdbService::Exec(owned(command)));
    }
    match strip_prefix(service, "shell:") {
        Some(command) => Some(AdbService::Shell(Some(owned(command)))),
        None => None,
    }
}

/// The kinds of streams.
#[derive(Clone, Copy, Debug, PartialEq, Eq, Structural)]
pub enum SessionKind {
    Shell,
    Exec,
    Sync,
}

impl SessionKind {
    /// The name of the kind.
    pub fn name(self) -> (s: &'static str)
        ensures
            s@ == (match self {
                SessionKind::Shell => "shell"@,
                SessionKind::Exec => "exec"@,
                SessionKind::Sync => "sync"@,
            }),
    {
        match self {
            SessionKind::Shell => "shell",
            SessionKind::Exec => "exec",
            SessionKind::Sync => "sync",
        }
    }

    /// Whether input is acknowledged before it is handled: that of a file transfer is.
    pub fn acknowledge_before_write(self) -> (r: bool)
        ensures
            r == (self == SessionKind::Sync),
    {
        match self {
            SessionKind::Sync => true,
            _ => false,
        }
    }
}

/// The packet that answers input to a stream, with the numbers of the stream.
#[derive(Clone, Copy, Debug, PartialEq, Eq, Structural)]
pub enum InputAnswer {
    /// No packet.
    Nothing,
    /// The input is acknowledged.
    Acknowledge,
    /// The host is told that the stream is closed.
    Close,
}

/// The packet that answers input to a stream before the stream is handed the input.
pub open spec fn answer_before_input(kind: SessionKind) -> InputAnswer {
    if kind == SessionKind::Sync {
        InputAnswer::Acknowledge
    } else {
        InputAnswer::Nothing
    }
}

/// The packet that answers input to a stream once the stream was handed the input.
pub open spec fn answer_after_input(kind: SessionKind, written: bool, open: bool) -> InputAnswer {
    if !written {
        if open {
            InputAnswer::Close
        } else {
            InputAnswer::Nothing
        }
    } else if kind == SessionKind::Sync {
        InputAnswer::Nothing
    } else {
        InputAnswer::Acknowledge
    }
}

/// The server once a stream was handed its input: a stream that did not take it is gone.
pub open spec fn after_input(s: ServerView, local_id: u32, written: bool) -> ServerView {
    if written {
        s
    } else {
        ServerView { sessions: s.sessions.remove(local_id), ..s }
    }
}

/// The packet that answers input to a stream before the stream is handed the input.
pub fn input_arrived(kind: SessionKind) -> (r: InputAnswer)
    ensures
        r == answer_before_input(kind),
{
    if kind.acknowledge_before_write() {
        InputAnswer::Acknowledge
    } else {
        InputAnswer::Nothing
    }
}

/// Input that a stream takes is acknowledged once, before or after it is handed over, and the
/// stream stays. A stream that does not take its input is closed and gone, the others stay, and
/// the host is told of it where it knew the stream as open.
pub proof fn law_input_is_answered_once(
    s: ServerView,
    local_id: u32,
    kind: SessionKind,
    written: bool,
    open: bool,
)
    ensures
        written ==> {
            &&& (answer_before_input(kind) == InputAnswer::Acknowledge) != (answer_after_input(
                kind,
                written,
                open,
            ) == InputAnswer::Acknowledge)
            &&& answer_after_input(kind, written, open) != InputAnswer::Close
            &&& after_input(s, local_id, written) == s
        },
        !written ==> {
            &&& answer_after_input(kind, written, open) != InputAnswer::Acknowledge
            &&& (answer_after_input(kind, written, open) == InputAnswer::Close) == open
            &&& !after_input(s, local_id, written).sessions.contains_key(local_id)
            &&& forall|other: u32|
                other != local_id ==> (#[trigger] after_input(
                    s,
                    local_id,
                    written,
                ).sessions.contains_key(other) == s.sessions.contains_key(other))
        },
{
}

/// A stream: its number at the host, and its kind.
#[derive(Clone, Copy, Debug, PartialEq, Eq, Structural)]
pub struct Session {
    pub remote_id: u32,
    pub kind: SessionKind,
}

/// What the server does on a packet.
#[derive(Debug)]
pub enum Action {
    /// Nothing.
    Ignore,
    /// The connection is opened: the table is empty, and a packet tells the host so.
    Connect { max_payload: u32 },
    /// A stream is to be opened.
    Open { local_id: u32, remote_id: u32, service: AdbService },
    /// The stream is closed, with the number at the device and that at the host.
    SendClose { local_id: u32, remote_id: u32 },
    /// Input goes to a stream.
    Write { local_id: u32, remote_id: u32, kind: SessionKind },
    /// A stream may send again.
    Credit { local_id: u32 },
    /// The host has closed a stream.
    Closed { local_id: u32, kind: SessionKind },
}

/// What the server does on a packet, as plain values.
pub enum ActionView {
    Ignore,
    Connect { max_payload: u32 },
    Open { local_id: u32, remote_id: u32, service: ServiceView },
    SendClose { local_id: u32, remote_id: u32 },
    Write { local_id: u32, remote_id: u32, kind: SessionKind },
    Credit { local_id: u32 },
    Closed { local_id: u32, kind: SessionKind },
}

impl View for Action {
    type V = ActionView;

    open spec fn view(&self) -> ActionView {
        match *self {
            Action::Ignore => ActionView::Ignore,
            Action::Connect { max_payload } => ActionView::Connect { max_payload },
            Action::Open { local_id, remote_id, service } => ActionView::Open {
                local_id,
                remote_id,
                service: service@,
            },
            Action::SendClose { local_id, remote_id } => ActionView::SendClose {
                local_id,
                remote_id,
            },
            Action::Write { local_id, remote_id, kind } => ActionView::Write {
                local_id,
                remote_id,
                kind,
            },
            Action::Credit { local_id } => ActionView::Credit { local_id },
            Action::Closed { local_id, kind } => ActionView::Closed { local_id, kind },
        }
    }
}

/// The state of the server: the open streams by their numbers, the number of the next one, and the
/// greatest length of a payload.
#[derive(Debug)]
pub struct AdbServer {
    pub sessions: HashMap<u32, Session>,
    pub next_local_id: u32,
    pub max_payload: u32,
}

/// The state of the server, as plain values.
#[verifier::ext_equal]
pub struct ServerView {
    pub sessions: Map<u32, Session>,
    pub next_local_id: u32,
    pub max_payload: u32,
}

impl View for AdbServer {
    type V = ServerView;

    open spec fn view(&self) -> ServerView {
        ServerView {
            sessions: self.sessions@,
            next_local_id: self.next_local_id,
            max_payload: self.max_payload,
        }
    }
}

/// The number behind `id`; zero is left out.
pub open spec fn id_after(id: u32) -> u32 {
    if id == u32::MAX {
        1
    } else {
        (id + 1) as u32
    }
}

/// `value`, held between the least and the greatest of the greatest lengths of a payload.
pub open spec fn payload_limit(value: u32) -> u32 {
    if value < MAX_PAYLOAD_V1 {
        MAX_PAYLOAD_V1
    } else if value > MAX_PAYLOAD {
        MAX_PAYLOAD
    } else {
        value
    }
}

/// What the server does on a packet, and its state then.
pub open spec fn handled(s: ServerView, m: Message, payload: Seq<u8>) -> Result<
    (ServerView, ActionView),
    AdbError,
> {
    let local_id = m.arg1;
    let remote_id = m.arg0;
    let known = s.sessions.contains_key(local_id);
    if m.command == A_CNXN {
        let max_payload = payload_limit(m.arg1);
        Ok(
            (
                ServerView { sessions: Map::empty(), max_payload, ..s },
                ActionView::Connect { max_payload },
            ),
        )
    } else if m.command == A_OPEN {
        match service_told(payload) {
            Err(e) => Err(e),
            Ok(name) => match service_named(name) {
                None => Ok((s, ActionView::SendClose { local_id: 0, remote_id })),
                Some(service) => Ok(
                    (
                        ServerView { next_local_id: id_after(s.next_local_id), ..s },
                        ActionView::Open { local_id: s.next_local_id, remote_id, service },
                    ),
                ),
            },
        }
    } else if m.command == A_WRTE {
        if !known {
            Ok((s, ActionView::SendClose { local_id: 0, remote_id }))
        } else if s.sessions[local_id].remote_id != remote_id {
            Ok((s, ActionView::SendClose { local_id, remote_id }))
        } else {
            Ok((s, ActionView::Write { local_id, remote_id, kind: s.sessions[local_id].kind }))
        }
    } else if m.command == A_OKAY {
        if known && s.sessions[local_id].remote_id == remote_id {
            Ok((s, ActionView::Credit { local_id }))
        } else {
            Ok((s, ActionView::Ignore))
        }
    } else if m.command == A_CLSE {
        if known {
            Ok(
                (
                    ServerView { sessions: s.sessions.remove(local_id), ..s },
                    ActionView::Closed { local_id, kind: s.sessions[local_id].kind },
                ),
            )
        } else {
            Ok((s, ActionView::Ignore))
        }
    } else {
        Ok((s, ActionView::Ignore))
    }
}

impl AdbServer {
    /// A server without streams.
    pub fn new() -> (r: AdbServer)
        ensures
            r@.sessions == Map::<u32, Session>::empty(),
            r@.next_local_id == 1,
            r@.max_payload == MAX_PAYLOAD,
    {
        AdbServer { sessions: HashMap::new(), next_local_id: 1, max_payload: MAX_PAYLOAD }
    }

    /// The number of the next stream.
    pub fn allocate_local_id(&mut self) -> (id: u32)
        ensures
            id == old(self)@.next_local_id,
            final(self)@ == (ServerView { next_local_id: id_after(id), ..old(self)@ }),
    {
        let id = self.next_local_id;
        self.next_local_id = if id == u32::MAX {
            1
        } else {
            id + 1
        };
        id
    }

    fn session(&self, local_id: u32) -> (r: Option<Session>)
        ensures
            r == (if self@.sessions.contains_key(local_id) {
                Some(self@.sessions[local_id])
            } else {
                None
            }),
    {
        broadcast use group_hash_axioms;

        match self.sessions.get(&local_id) {
            Some(session) => Some(*session),
            None => None,
        }
    }

    /// What the server does on a packet.
    pub fn handle_packet(&mut self, packet: &Packet) -> (r: Result<Action, AdbError>)
        ensures
            match r {
                Ok(action) => handled(old(self)@, packet.message, packet.payload@) == Ok::<
                    (ServerView, ActionView),
                    AdbError,
                >((final(self)@, action@)),
                Err(e) => handled(old(self)@, packet.message, packet.payload@) == Err::<
                    (ServerView, ActionView),
                    AdbError,
                >(e) && final(self)@ == old(self)@,
            },
    {
        broadcast use group_hash_axioms;

        let m = packet.message;
        let remote_id = m.arg0;
        let local_id = m.arg1;
        if m.command == A_CNXN {
            let max_payload = if m.arg1 < MAX_PAYLOAD_V1 {
                MAX_PAYLOAD_V1
            } else if m.arg1 > MAX_PAYLOAD {
                MAX_PAYLOAD
            } else {
                m.arg1
            };
            self.max_payload = max_payload;
            self.sessions.clear();
            Ok(Action::Connect { max_payload })
        } else if m.command == A_OPEN {
            let name = service_name(&packet.payload)?;
            match adb_service(name.as_str()) {
                None => Ok(Action::SendClose { local_id: 0, remote_id }),
                Some(service) => {
                    let local_id = self.allocate_local_id();
                    Ok(Action::Open { local_id, remote_id, service })
                },
            }
        } else if m.command == A_WRTE {
            match self.session(local_id) {
                None => Ok(Action::SendClose { local_id: 0, remote_id }),
                Some(session) => if session.remote_id != remote_id {
                    Ok(Action::SendClose { local_id, remote_id })
                } else {
                    Ok(Action::Write { local_id, remote_id, kind: session.kind })
                },
            }
        } else if m.command == A_OKAY {
            match self.session(local_id) {
                Some(session) => if session.remote_id == remote_id {
                    Ok(Action::Credit { local_id })
                } else {
                    Ok(Action::Ignore)
                },
                None => Ok(Action::Ignore),
            }
        } else if m.command == A_CLSE {
            match self.session(local_id) {
                Some(session) => {
                    self.sessions.remove(&local_id);
                    Ok(Action::Closed { local_id, kind: session.kind })
                },
                None => Ok(Action::Ignore),
            }
        } else {
            Ok(Action::Ignore)
        }
    }

    /// Notes that a stream has been opened.
    pub fn opened(&mut self, local_id: u32, remote_id: u32, kind: SessionKind)
        ensures
            final(self)@ == (ServerView {
                sessions: old(self)@.sessions.insert(local_id, Session { remote_id, kind }),
                ..old(self)@
            }),
    {
        broadcast use group_hash_axioms;

        self.sessions.insert(local_id, Session { remote_id, kind });
    }

    /// Notes that a stream is gone.
    pub fn gone(&mut self, local_id: u32)
        ensures
            final(self)@ == (ServerView {
                sessions: old(self)@.sessions.remove(local_id),
                ..old(self)@
            }),
    {
        broadcast use group_hash_axioms;

        self.sessions.remove(&local_id);
        assert(self@.sessions =~= old(self)@.sessions.remove(local_id));
    }

    /// What is done once input has been handed to a stream, by the kind of the stream, by whether
    /// the input was taken, and by whether the host still knew the stream as open when it was
    /// closed for a failure. A stream that did not take its input is gone.
    pub fn input_written(
        &mut self,
        local_id: u32,
        kind: SessionKind,
        written: bool,
        open: bool,
    ) -> (r: InputAnswer)
        ensures
            r == answer_after_input(kind, written, open),
            final(self)@ == after_input(old(self)@, local_id, written),
    {
        if written {
            if kind.acknowledge_before_write() {
                InputAnswer::Nothing
            } else {
                InputAnswer::Acknowledge
            }
        } else {
            self.gone(local_id);
            if open {
                InputAnswer::Close
            } else {
                InputAnswer::Nothing
            }
        }
    }

    /// Notes that all streams are gone.
    pub fn clear(&mut self)
        ensures
            final(self)@ == (ServerView { sessions: Map::empty(), ..old(self)@ }),
    {
        self.sessions.clear();
    }
}

/// No stream is opened with the number zero, and no packet but that which opens the connection
/// closes more than one stream, or one that it does not name.
pub proof fn law_streams_are_kept_apart(s: ServerView, m: Message, payload: Seq<u8>, id: u32)
    requires
        s.next_local_id > 0,
    ensures
        handled(s, m, payload) matches Ok((after, action)) ==> {
            &&& after.next_local_id > 0
            &&& action matches ActionView::Open { local_id, .. } ==> local_id > 0
            &&& m.command != A_CNXN && id != m.arg1 ==> (after.sessions.contains_key(id)
                <==> s.sessions.contains_key(id)) && (s.sessions.contains_key(id)
                ==> after.sessions[id] == s.sessions[id])
            &&& action matches ActionView::Write { local_id, remote_id, .. }
                ==> s.sessions.contains_key(local_id) && s.sessions[local_id].remote_id
                == remote_id
        },
{
}

/// What came of reading a packet and handling it.
#[derive(Clone, Copy, Debug, PartialEq, Eq, Structural)]
pub enum AdbOutcome {
    Handled,
    HandlingFailed { errno: Option<i32>, kind: ErrorKind },
    ReadFailed { errno: Option<i32>, kind: ErrorKind },
}

/// What the server does next.
#[derive(Clone, Copy, Debug, PartialEq, Eq, Structural)]
pub enum AdbNext {
    /// The next packet is read.
    Read,
    /// All streams are closed, then the next packet is read.
    DropAndRead,
    /// A while is waited for the host.
    Wait,
    /// All streams are closed, and a while is waited for the host.
    DropAndWait,
    /// The server ends with the error.
    Fail,
}

/// What the server does next, and whether the host is held to be gone from then on.
pub open spec fn adb_next(disconnected: bool, outcome: AdbOutcome) -> (AdbNext, bool) {
    match outcome {
        AdbOutcome::Handled => (AdbNext::Read, false),
        AdbOutcome::HandlingFailed { errno, kind } => if means_gone(errno, kind) {
            (AdbNext::DropAndRead, true)
        } else {
            (AdbNext::Read, false)
        },
        AdbOutcome::ReadFailed { errno, kind } => if kind == ErrorKind::TimedOut || kind
            == ErrorKind::UnexpectedEof {
            (AdbNext::Read, disconnected)
        } else if means_gone(errno, kind) {
            (
                if disconnected {
                    AdbNext::Wait
                } else {
                    AdbNext::DropAndWait
                },
                true,
            )
        } else {
            (AdbNext::Fail, disconnected)
        },
    }
}

/// What the server does next, and whether the host is held to be gone from then on.
pub fn adb_step(disconnected: bool, outcome: AdbOutcome) -> (r: (AdbNext, bool))
    ensures
        r == adb_next(disconnected, outcome),
{
    match outcome {
        AdbOutcome::Handled => (AdbNext::Read, false),
        AdbOutcome::HandlingFailed { errno, kind } => if is_usb_disconnect(errno, kind) {
            (AdbNext::DropAndRead, true)
        } else {
            (AdbNext::Read, false)
        },
        AdbOutcome::ReadFailed { errno, kind } => if kind == ErrorKind::TimedOut || kind
            == ErrorKind::UnexpectedEof {
            (AdbNext::Read, disconnected)
        } else if is_usb_disconnect(errno, kind) {
            (
                if disconnected {
                    AdbNext::Wait
                } else {
                    AdbNext::DropAndWait
                },
                true,
            )
        } else {
            (AdbNext::Fail, disconnected)
        },
    }
}

/// Whether a stream may send, and whether it is closed.
#[derive(Clone, Copy, Debug, PartialEq, Eq, Structural)]
pub struct OutputState {
    pub can_write: bool,
    pub closed: bool,
}

/// What a stream that wants to send has to do.
#[derive(Clone, Copy, Debug, PartialEq, Eq, Structural)]
pub enum Credit {
    Wait,
    Send,
    Closed,
}

impl OutputState {
    /// An open stream that has to wait for the host.
    pub fn new() -> (r: OutputState)
        ensures
            r == (OutputState { can_write: false, closed: false }),
    {
        OutputState { can_write: false, closed: false }
    }

    /// Lets an open stream send once.
    pub fn allow_one_write(&mut self)
        ensures
            *final(self) == (if old(self).closed {
                *old(self)
            } else {
                OutputState { can_write: true, closed: false }
            }),
    {
        if !self.closed {
            self.can_write = true;
        }
    }

    /// What a stream that wants to send has to do. One that may send has to wait for the host
    /// afterwards.
    pub fn take_write_credit(&mut self) -> (r: Credit)
        ensures
            r == (if old(self).closed {
                Credit::Closed
            } else if old(self).can_write {
                Credit::Send
            } else {
                Credit::Wait
            }),
            *final(self) == (if r == Credit::Send {
                OutputState { can_write: false, closed: false }
            } else {
                *old(self)
            }),
    {
        if self.closed {
            Credit::Closed
        } else if self.can_write {
            self.can_write = false;
            Credit::Send
        } else {
            Credit::Wait
        }
    }

    /// Closes the stream. Returns whether it was open, so that the host has to be told.
    pub fn close(&mut self) -> (r: bool)
        ensures
            r == !old(self).closed,
            *final(self) == (OutputState { can_write: old(self).can_write, closed: true }),
    {
        let was_open = !self.closed;
        self.closed = true;
        was_open
    }
}

/// The payload that names a service: its text, with a zero byte behind it or without.
pub open spec fn names_service(payload: Seq<u8>, name: Seq<char>) -> bool {
    payload == utf8(name).push(0u8) || (payload == utf8(name) && (payload.len() == 0
        || payload.last() != 0))
}

proof fn lemma_named_service(payload: Seq<u8>, name: Seq<char>)
    requires
        names_service(payload, name),
    ensures
        service_told(payload) == Ok::<Seq<char>, AdbError>(name),
{
    encode_utf8_valid_utf8(name);
    encode_utf8_decode_utf8(name);
    assert(utf8(name).push(0u8).drop_last() =~= utf8(name));
}

/// A stream is opened for what the host names, under the next number: a command behind `shell:` or
/// `exec:` is run as such, `shell:` without one is a shell, and `sync:` is for files. A name of none
/// of these is closed at once, and the number stays free.
pub proof fn law_hosts_open_what_they_name(
    s: ServerView,
    m: Message,
    payload: Seq<u8>,
    command: Seq<char>,
)
    requires
        m.command == 0x4e45504f,
    ensures
        command.len() > 0 && names_service(payload, "shell:"@ + command) ==> opens(
            s,
            m,
            payload,
            ServiceView::Shell(Some(command)),
        ),
        names_service(payload, "exec:"@ + command) ==> opens(
            s,
            m,
            payload,
            ServiceView::Exec(command),
        ),
        names_service(payload, "shell:"@) ==> opens(s, m, payload, ServiceView::Shell(None)),
        names_service(payload, "sync:"@) ==> opens(s, m, payload, ServiceView::Sync),
        names_service(payload, command) && command != "shell"@ && command != "sync:"@
            && !"shell:"@.is_prefix_of(command) && !"exec:"@.is_prefix_of(command) ==> handled(
            s,
            m,
            payload,
        ) == Ok::<(ServerView, ActionView), AdbError>(
            (s, ActionView::SendClose { local_id: 0, remote_id: m.arg0 }),
        ),
{
    reveal_strlit("shell:");
    reveal_strlit("shell");
    reveal_strlit("exec:");
    reveal_strlit("sync:");
    if names_service(payload, "shell:"@ + command) {
        let name = "shell:"@ + command;
        lemma_named_service(payload, name);
        assert(name[0] == 's' && name[1] == 'h');
        assert(name.skip(6) =~= command);
    }
    if names_service(payload, "exec:"@ + command) {
        let name = "exec:"@ + command;
        lemma_named_service(payload, name);
        assert(name[0] == 'e');
        assert(name.skip(5) =~= command);
    }
    if names_service(payload, "shell:"@) {
        lemma_named_service(payload, "shell:"@);
    }
    if names_service(payload, "sync:"@) {
        lemma_named_service(payload, "sync:"@);
        assert("sync:"@[1] == 'y' && "shell:"@[1] == 'h' && "shell"@[1] == 'h');
    }
    if names_service(payload, command) {
        lemma_named_service(payload, command);
    }
}

/// Whether a stream for the service is opened under the next number, and the number behind it is
/// the next one then.
pub open spec fn opens(s: ServerView, m: Message, payload: Seq<u8>, service: ServiceView) -> bool {
    handled(s, m, payload) matches Ok((after, action)) && action == (ActionView::Open {
        local_id: s.next_local_id,
        remote_id: m.arg0,
        service,
    }) && after.sessions == s.sessions && after.max_payload == s.max_payload
        && after.next_local_id != 0 && (s.next_local_id < u32::MAX ==> after.next_local_id
        == s.next_local_id + 1)
}

/// A packet acts on the stream that it names, where the host and the device agree on the stream:
/// `WRTE` is input for it, `OKAY` lets it send again, and `CLSE` closes it and no other. Input for
/// a stream that is not there, or of another number at the host, has it closed at the host.
pub proof fn law_packets_act_on_their_streams(s: ServerView, m: Message, payload: Seq<u8>)
    ensures
        ({
            let known = s.sessions.contains_key(m.arg1);
            let found = s.sessions[m.arg1];
            let r = handled(s, m, payload);
            &&& m.command == 0x45545257 ==> r == Ok::<(ServerView, ActionView), AdbError>(
                (
                    s,
                    if known && found.remote_id == m.arg0 {
                        ActionView::Write {
                            local_id: m.arg1,
                            remote_id: m.arg0,
                            kind: found.kind,
                        }
                    } else {
                        ActionView::SendClose {
                            local_id: if known {
                                m.arg1
                            } else {
                                0
                            },
                            remote_id: m.arg0,
                        }
                    },
                ),
            )
            &&& m.command == 0x59414b4f ==> r == Ok::<(ServerView, ActionView), AdbError>(
                (
                    s,
                    if known && found.remote_id == m.arg0 {
                        ActionView::Credit { local_id: m.arg1 }
                    } else {
                        ActionView::Ignore
                    },
                ),
            )
            &&& m.command == 0x45534c43 && known ==> r == Ok::<(ServerView, ActionView), AdbError>(
                (
                    ServerView { sessions: s.sessions.remove(m.arg1), ..s },
                    ActionView::Closed { local_id: m.arg1, kind: found.kind },
                ),
            )
            &&& m.command == 0x4e584e43 ==> (r matches Ok((after, ActionView::Connect {
                max_payload,
            })) && after.sessions == Map::<u32, Session>::empty() && after.next_local_id
                == s.next_local_id && after.max_payload == max_payload && 0x1000 <= max_payload
                <= 0x10_0000 && (0x1000 <= m.arg1 <= 0x10_0000 ==> max_payload == m.arg1)
                && (m.arg1 > 0x10_0000 ==> max_payload == 0x10_0000) && (m.arg1 < 0x1000
                ==> max_payload == 0x1000))
        }),
{
}

/// A host that is gone is dropped once, and then waited for until it is back; a read that takes too
/// long, or ends early, changes nothing; and only a read that fails otherwise ends the server.
pub proof fn law_hosts_that_left_are_waited_for(
    disconnected: bool,
    outcome: AdbOutcome,
    errno: Option<i32>,
    kind: ErrorKind,
)
    ensures
        ({
            let read = AdbOutcome::ReadFailed { errno, kind };
            let late = kind == ErrorKind::TimedOut || kind == ErrorKind::UnexpectedEof;
            let gone = means_gone(errno, kind) && !late;
            &&& gone ==> adb_next(false, read) == (AdbNext::DropAndWait, true)
            &&& gone ==> adb_next(true, read) == (AdbNext::Wait, true)
            &&& late ==> adb_next(disconnected, read) == (AdbNext::Read, disconnected)
            &&& !gone && !late ==> adb_next(disconnected, read).0 == AdbNext::Fail
        }),
        adb_next(disconnected, AdbOutcome::Handled) == (AdbNext::Read, false),
        adb_next(disconnected, outcome).0 == AdbNext::Fail ==> outcome is ReadFailed,
        adb_next(disconnected, AdbOutcome::HandlingFailed { errno, kind }).0 == (if means_gone(
            errno,
            kind,
        ) {
            AdbNext::DropAndRead
        } else {
            AdbNext::Read
        }),
{
}

proof fn lemma_byte_sum_update(s: Seq<u8>, i: int, b: u8)
    requires
        0 <= i < s.len(),
    ensures
        byte_sum(s.update(i, b)) == byte_sum(s) - s[i] + b,
        0 <= byte_sum(s),
    decreases s.len(),
{
    lemma_byte_sum_sign(s);
    let other = s.update(i, b);
    if i == s.len() - 1 {
        assert(other.drop_last() =~= s.drop_last());
    } else {
        lemma_byte_sum_update(s.drop_last(), i, b);
        assert(other.drop_last() =~= s.drop_last().update(i, b));
    }
}

proof fn lemma_byte_sum_sign(s: Seq<u8>)
    ensures
        0 <= byte_sum(s),
    decreases s.len(),
{
    if s.len() > 0 {
        lemma_byte_sum_sign(s.drop_last());
    }
}

/// Damage is noticed: a payload in which one byte is another than when it was sent does not fit its
/// header, unless the header tells no checksum; and a header whose magic does not fit its command is
/// refused.
pub proof fn law_damaged_packets_are_refused(m: Message, payload: Seq<u8>, i: int, b: u8, s: Seq<u8>)
    requires
        m.data_check != 0,
        payload_fits(m, payload),
        0 <= i < payload.len(),
        b != payload[i],
    ensures
        !payload_fits(m, payload.update(i, b)),
        le32(s, 20) != le32(s, 0) ^ 0xffff_ffffu32 ==> message_told(s) is Err,
{
    lemma_byte_sum_update(payload, i, b);
    lemma_byte_sum_sign(payload.update(i, b));
}

} // verus!
