//! Files sent and fetched over ADB.
use vstd::prelude::*;
use vstd::string::*;
use vstd::utf8::*;

use crate::bytes::{le32, le32_bytes, le_u32, push_bytes, push_le_u32, same_bytes, utf8};
use crate::errors::ErrorKind;
use crate::text::{
    cat, chars, decimal, decode, decode_lossy, law_written_numbers_are_read_back, owned,
    parse_number, parse_unsigned, u32_error_text, u32_fault, utf8_lossy,
};

verus! {

/// The greatest number of bytes of a file in one packet.
pub const SYNC_CHUNK: u32 = 0x1_0000;

/// The kinds of requests and replies.
#[derive(Clone, Copy, Debug, PartialEq, Eq, Structural)]
pub enum SyncId {
    Stat,
    List,
    Send,
    Recv,
    Dent,
    Done,
    Data,
    Okay,
    Fail,
    Quit,
}

impl SyncId {
    /// The four letters of the kind.
    pub open spec fn letters(self) -> Seq<u8> {
        match self {
            SyncId::Stat => seq![0x53u8, 0x54u8, 0x41u8, 0x54u8],
            SyncId::List => seq![0x4cu8, 0x49u8, 0x53u8, 0x54u8],
            SyncId::Send => seq![0x53u8, 0x45u8, 0x4eu8, 0x44u8],
            SyncId::Recv => seq![0x52u8, 0x45u8, 0x43u8, 0x56u8],
            SyncId::Dent => seq![0x44u8, 0x45u8, 0x4eu8, 0x54u8],
            SyncId::Done => seq![0x44u8, 0x4fu8, 0x4eu8, 0x45u8],
            SyncId::Data => seq![0x44u8, 0x41u8, 0x54u8, 0x41u8],
            SyncId::Okay => seq![0x4fu8, 0x4bu8, 0x41u8, 0x59u8],
            SyncId::Fail => seq![0x46u8, 0x41u8, 0x49u8, 0x4cu8],
            SyncId::Quit => seq![0x51u8, 0x55u8, 0x49u8, 0x54u8],
        }
    }

    fn code(self) -> (r: [u8; 4])
        ensures
            r@ == self.letters(),
    {
        let r: [u8; 4] = match self {
            SyncId::Stat => [0x53, 0x54, 0x41, 0x54],
            SyncId::List => [0x4c, 0x49, 0x53, 0x54],
            SyncId::Send => [0x53, 0x45, 0x4e, 0x44],
            SyncId::Recv => [0x52, 0x45, 0x43, 0x56],
            SyncId::Dent => [0x44, 0x45, 0x4e, 0x54],
            SyncId::Done => [0x44, 0x4f, 0x4e, 0x45],
            SyncId::Data => [0x44, 0x41, 0x54, 0x41],
            SyncId::Okay => [0x4f, 0x4b, 0x41, 0x59],
            SyncId::Fail => [0x46, 0x41, 0x49, 0x4c],
            SyncId::Quit => [0x51, 0x55, 0x49, 0x54],
        };
        assert(r@ =~= self.letters());
        r
    }
}

/// What is wrong with a request or a reply.
#[derive(Clone, Copy, Debug, PartialEq, Eq, Structural)]
pub enum SyncError {
    RequestOverflow,
    DataOverflow,
    NameTooLong,
    DataTooLarge,
    MessageTooLong,
    MissingMode,
    ModeNotText,
    Mode,
}

impl SyncError {
    /// The kind of the error.
    pub open spec fn spec_kind(self) -> ErrorKind {
        match self {
            SyncError::NameTooLong | SyncError::DataTooLarge | SyncError::MessageTooLong =>
                ErrorKind::InvalidInput,
            _ => ErrorKind::InvalidData,
        }
    }

    /// The kind of the error.
    pub fn kind(self) -> (k: ErrorKind)
        ensures
            k == self.spec_kind(),
    {
        match self {
            SyncError::NameTooLong | SyncError::DataTooLarge | SyncError::MessageTooLong =>
                ErrorKind::InvalidInput,
            _ => ErrorKind::InvalidData,
        }
    }

    /// The error in words, for the mode that was given.
    pub open spec fn words(self, mode: Seq<char>) -> Seq<char> {
        match self {
            SyncError::RequestOverflow => "sync request length overflow"@,
            SyncError::DataOverflow => "sync data length overflow"@,
            SyncError::NameTooLong => "sync directory entry name too long"@,
            SyncError::DataTooLarge => "sync data packet too large"@,
            SyncError::MessageTooLong => "sync failure message too long"@,
            SyncError::MissingMode => "SEND target is missing mode"@,
            SyncError::ModeNotText => "SEND mode is not utf-8"@,
            SyncError::Mode => "SEND mode: "@ + u32_error_text(mode),
        }
    }

    /// The error in words, for the mode that was given.
    pub fn message(self, mode: &str) -> (s: String)
        ensures
            s@ == self.words(mode@),
    {
        match self {
            SyncError::RequestOverflow => owned("sync request length overflow"),
            SyncError::DataOverflow => owned("sync data length overflow"),
            SyncError::NameTooLong => owned("sync directory entry name too long"),
            SyncError::DataTooLarge => owned("sync data packet too large"),
            SyncError::MessageTooLong => owned("sync failure message too long"),
            SyncError::MissingMode => owned("SEND target is missing mode"),
            SyncError::ModeNotText => owned("SEND mode is not utf-8"),
            SyncError::Mode => cat("SEND mode: ", u32_fault(mode).as_str()),
        }
    }
}

/// A reply of a kind with one number.
pub open spec fn status_bytes(id: SyncId, value: u32) -> Seq<u8> {
    id.letters() + le32_bytes(value)
}

/// A reply of a kind with one number.
pub fn sync_status_packet(id: SyncId, value: u32) -> (r: Vec<u8>)
    ensures
        r@ == status_bytes(id, value),
{
    let mut out: Vec<u8> = Vec::new();
    push_bytes(&mut out, id.code().as_slice());
    push_le_u32(&mut out, value);
    assert(out@ =~= status_bytes(id, value));
    out
}

/// The reply that tells of a file.
pub open spec fn stat_bytes(mode: u32, size: u32, mtime: u32) -> Seq<u8> {
    SyncId::Stat.letters() + le32_bytes(mode) + le32_bytes(size) + le32_bytes(mtime)
}

/// The reply that tells of a file.
pub fn sync_stat_packet(mode: u32, size: u32, mtime: u32) -> (r: Vec<u8>)
    ensures
        r@ == stat_bytes(mode, size, mtime),
{
    let mut out: Vec<u8> = Vec::new();
    push_bytes(&mut out, SyncId::Stat.code().as_slice());
    push_le_u32(&mut out, mode);
    push_le_u32(&mut out, size);
    push_le_u32(&mut out, mtime);
    assert(out@ =~= stat_bytes(mode, size, mtime));
    out
}

/// The reply that tells of an entry of a directory.
pub open spec fn dent_bytes(mode: u32, size: u32, mtime: u32, name: Seq<u8>) -> Seq<u8> {
    SyncId::Dent.letters() + le32_bytes(mode) + le32_bytes(size) + le32_bytes(mtime) + le32_bytes(
        name.len() as u32,
    ) + name
}

/// The reply that tells of an entry of a directory.
pub fn sync_dent_packet(mode: u32, size: u32, mtime: u32, name: &[u8]) -> (r: Result<
    Vec<u8>,
    SyncError,
>)
    ensures
        match r {
            Ok(packet) => name@.len() <= u32::MAX && packet@ == dent_bytes(mode, size, mtime, name@),
            Err(e) => name@.len() > u32::MAX && e == SyncError::NameTooLong,
        },
{
    if name.len() as u64 > u32::MAX as u64 {
        return Err(SyncError::NameTooLong);
    }
    let mut out: Vec<u8> = Vec::new();
    push_bytes(&mut out, SyncId::Dent.code().as_slice());
    push_le_u32(&mut out, mode);
    push_le_u32(&mut out, size);
    push_le_u32(&mut out, mtime);
    push_le_u32(&mut out, name.len() as u32);
    push_bytes(&mut out, name);
    assert(out@ =~= dent_bytes(mode, size, mtime, name@));
    Ok(out)
}

/// The reply that ends a directory.
pub open spec fn list_done_bytes() -> Seq<u8> {
    SyncId::Done.letters() + le32_bytes(0) + le32_bytes(0) + le32_bytes(0) + le32_bytes(0)
}

/// The reply that ends a directory.
pub fn sync_list_done_packet() -> (r: Vec<u8>)
    ensures
        r@ == list_done_bytes(),
{
    let mut out: Vec<u8> = Vec::new();
    push_bytes(&mut out, SyncId::Done.code().as_slice());
    push_le_u32(&mut out, 0);
    push_le_u32(&mut out, 0);
    push_le_u32(&mut out, 0);
    push_le_u32(&mut out, 0);
    assert(out@ =~= list_done_bytes());
    out
}

/// A packet of a kind with its length and its contents.
pub open spec fn block_bytes(id: SyncId, data: Seq<u8>) -> Seq<u8> {
    id.letters() + le32_bytes(data.len() as u32) + data
}

fn block(id: SyncId, data: &[u8]) -> (r: Option<Vec<u8>>)
    ensures
        match r {
            Some(packet) => data@.len() <= u32::MAX && packet@ == block_bytes(id, data@),
            None => data@.len() > u32::MAX,
        },
{
    if data.len() as u64 > u32::MAX as u64 {
        return None;
    }
    let mut out: Vec<u8> = Vec::new();
    push_bytes(&mut out, id.code().as_slice());
    push_le_u32(&mut out, data.len() as u32);
    push_bytes(&mut out, data);
    assert(out@ =~= block_bytes(id, data@));
    Some(out)
}

/// The packet that holds a piece of a file.
pub fn sync_data_packet(data: &[u8]) -> (r: Result<Vec<u8>, SyncError>)
    ensures
        match r {
            Ok(packet) => data@.len() <= u32::MAX && packet@ == block_bytes(SyncId::Data, data@),
            Err(e) => data@.len() > u32::MAX && e == SyncError::DataTooLarge,
        },
{
    match block(SyncId::Data, data) {
        Some(packet) => Ok(packet),
        None => Err(SyncError::DataTooLarge),
    }
}

/// The reply that tells of a failure, where its words are not too long.
pub open spec fn fail_bytes(message: Seq<char>) -> Result<Seq<u8>, SyncError> {
    if utf8(message).len() > u32::MAX {
        Err(SyncError::MessageTooLong)
    } else {
        Ok(block_bytes(SyncId::Fail, utf8(message)))
    }
}

/// The reply that tells of a failure.
pub fn sync_fail_packet(message: &str) -> (r: Result<Vec<u8>, SyncError>)
    ensures
        fail_bytes(message@) == (match r {
            Ok(packet) => Ok(packet@),
            Err(e) => Err(e),
        }),
{
    match block(SyncId::Fail, message.as_bytes()) {
        Some(packet) => Ok(packet),
        None => Err(SyncError::MessageTooLong),
    }
}

/// A size as it is told to the host: at most what 32 bits can express.
pub fn sync_size(size: u64) -> (r: u32)
    ensures
        r == (if size > u32::MAX {
            u32::MAX
        } else {
            size as u32
        }),
{
    if size > u32::MAX as u64 {
        u32::MAX
    } else {
        size as u32
    }
}

/// A time as it is told to the host: not before 1970, and at most what 32 bits can express.
pub fn sync_mtime(mtime: i64) -> (r: u32)
    ensures
        r == (if mtime < 0 {
            0u32
        } else if mtime > u32::MAX {
            u32::MAX
        } else {
            mtime as u32
        }),
{
    if mtime < 0 {
        0
    } else if mtime > u32::MAX as i64 {
        u32::MAX
    } else {
        mtime as u32
    }
}

/// The number of bytes of a file that are sent at once.
pub fn sync_chunk_size(max_payload: u32) -> (r: u32)
    ensures
        r == (if max_payload <= 9 {
            1u32
        } else if max_payload - 8 > SYNC_CHUNK {
            SYNC_CHUNK
        } else {
            (max_payload - 8) as u32
        }),
        max_payload >= 9 ==> r + 8 <= max_payload,
{
    if max_payload <= 9 {
        1
    } else if max_payload - 8 > SYNC_CHUNK {
        SYNC_CHUNK
    } else {
        max_payload - 8
    }
}

/// The place of the last `wanted` before `n`, or -1.
pub open spec fn last_byte(s: Seq<u8>, wanted: u8, n: int) -> int
    decreases n,
{
    if n <= 0 {
        -1
    } else if s[n - 1] == wanted {
        n - 1
    } else {
        last_byte(s, wanted, n - 1)
    }
}

/// The path and the mode that a request to send a file names: the mode stands behind the last
/// comma.
pub open spec fn send_target(payload: Seq<u8>) -> Result<(Seq<u8>, u32), SyncError> {
    let at = last_byte(payload, 0x2cu8, payload.len() as int);
    let mode = payload.skip(at + 1);
    if at < 0 {
        Err(SyncError::MissingMode)
    } else if !valid_utf8(mode) {
        Err(SyncError::ModeNotText)
    } else {
        match parse_number(decode_utf8(mode), 10, u32::MAX as nat) {
            None => Err(SyncError::Mode),
            Some(n) => Ok((payload.take(at), n as u32)),
        }
    }
}

/// What a request to send a file names, or why it is refused, with the mode that was given.
pub fn parse_send_target(payload: &[u8]) -> (r: Result<(Vec<u8>, u32), (SyncError, String)>)
    ensures
        send_target(payload@) == (match r {
            Ok((path, mode)) => Ok((path@, mode)),
            Err((e, _)) => Err(e),
        }),
        r matches Err((SyncError::Mode, text)) ==> text@ == decode_utf8(
            payload@.skip(last_byte(payload@, 0x2cu8, payload@.len() as int) + 1),
        ),
{
    let mut n: usize = payload.len();
    while n > 0 && payload[n - 1] != 0x2c
        invariant
            n <= payload@.len(),
            last_byte(payload@, 0x2cu8, payload@.len() as int) == last_byte(
                payload@,
                0x2cu8,
                n as int,
            ),
        decreases n,
    {
        n -= 1;
    }
    if n == 0 {
        return Err((SyncError::MissingMode, String::new()));
    }
    let mode = &payload[n..payload.len()];
    assert(mode@ =~= payload@.skip(n as int));
    let text = match decode(mode) {
        None => {
            return Err((SyncError::ModeNotText, String::new()));
        },
        Some(text) => text,
    };
    let digits = chars(text.as_str());
    match parse_unsigned(&digits, 10, u32::MAX as u64) {
        None => Err((SyncError::Mode, text)),
        Some(value) => {
            let mut path: Vec<u8> = Vec::new();
            push_bytes(&mut path, &payload[0..n - 1]);
            assert(path@ =~= payload@.take(n - 1));
            Ok((path, value as u32))
        },
    }
}

/// A file that the host sends: its path and mode, whether it is open, and what went wrong.
#[derive(Debug)]
pub struct SyncSend {
    pub path: Vec<u8>,
    pub mode: u32,
    pub file: bool,
    pub failure: Option<String>,
}

/// A file that the host sends, as plain values.
#[verifier::ext_equal]
pub struct SendView {
    pub path: Seq<u8>,
    pub mode: u32,
    pub file: bool,
    pub failure: Option<Seq<char>>,
}

impl View for SyncSend {
    type V = SendView;

    open spec fn view(&self) -> SendView {
        SendView {
            path: self.path@,
            mode: self.mode,
            file: self.file,
            failure: match self.failure {
                Some(text) => Some(text@),
                None => None,
            },
        }
    }
}

/// What the device has to do for a request.
#[derive(Debug)]
pub enum SyncStep {
    /// More bytes are awaited.
    Wait,
    /// The reply is sent, and more bytes are awaited.
    Stop(Vec<u8>),
    /// Nothing; the next request is looked at.
    Go,
    /// The reply is sent; the next request is looked at.
    Reply(Vec<u8>),
    /// It is told of the file at a path.
    Stat(Vec<u8>),
    /// The entries of the directory at a path are told.
    List(Vec<u8>),
    /// The file at a path is sent.
    Recv(Vec<u8>),
    /// The directory at a path is made.
    MakeDirectory(Vec<u8>),
    /// The file at a path is created and opened.
    CreateFile(Vec<u8>),
    /// The bytes are written to the open file.
    Write(Vec<u8>),
    /// The file is finished and dated.
    Finish(SyncSend, u32),
}

/// What the device has to do for a request, as plain values.
pub enum StepView {
    Wait,
    Stop(Seq<u8>),
    Go,
    Reply(Seq<u8>),
    Stat(Seq<u8>),
    List(Seq<u8>),
    Recv(Seq<u8>),
    MakeDirectory(Seq<u8>),
    CreateFile(Seq<u8>),
    Write(Seq<u8>),
    Finish(SendView, u32),
}

impl View for SyncStep {
    type V = StepView;

    open spec fn view(&self) -> StepView {
        match *self {
            SyncStep::Wait => StepView::Wait,
            SyncStep::Stop(packet) => StepView::Stop(packet@),
            SyncStep::Go => StepView::Go,
            SyncStep::Reply(packet) => StepView::Reply(packet@),
            SyncStep::Stat(path) => StepView::Stat(path@),
            SyncStep::List(path) => StepView::List(path@),
            SyncStep::Recv(path) => StepView::Recv(path@),
            SyncStep::MakeDirectory(path) => StepView::MakeDirectory(path@),
            SyncStep::CreateFile(path) => StepView::CreateFile(path@),
            SyncStep::Write(data) => StepView::Write(data@),
            SyncStep::Finish(send, mtime) => StepView::Finish(send@, mtime),
        }
    }
}

/// The bytes that have come in, and the file that the host sends, where it sends one.
#[derive(Debug)]
pub struct SyncSession {
    pub buffer: Vec<u8>,
    pub send: Option<SyncSend>,
}

/// A session, as plain values.
#[verifier::ext_equal]
pub struct SessionView {
    pub buffer: Seq<u8>,
    pub send: Option<SendView>,
}

/// A file that the host may send, as plain values.
pub open spec fn send_view(send: Option<SyncSend>) -> Option<SendView> {
    match send {
        Some(send) => Some(send@),
        None => None,
    }
}

impl View for SyncSession {
    type V = SessionView;

    open spec fn view(&self) -> SessionView {
        SessionView { buffer: self.buffer@, send: send_view(self.send) }
    }
}

/// A path in words.
pub open spec fn shown(path: Seq<u8>) -> Seq<char> {
    utf8_lossy(path)
}

/// The part of a mode that tells what a file is.
pub open spec fn file_type(mode: u32) -> u32 {
    mode & 0o170000u32
}

/// What a request comes to: what the device has to do, and the file that the host sends from then
/// on.
pub open spec fn request_step(id: Seq<u8>, payload: Seq<u8>, send: Option<SendView>) -> Result<
    (StepView, Option<SendView>),
    SyncError,
> {
    if id == SyncId::Stat.letters() {
        Ok((StepView::Stat(payload), send))
    } else if id == SyncId::List.letters() {
        Ok((StepView::List(payload), send))
    } else if id == SyncId::Recv.letters() {
        Ok((StepView::Recv(payload), send))
    } else if id == SyncId::Send.letters() {
        match send_target(payload) {
            Err(e) => {
                let at = last_byte(payload, 0x2cu8, payload.len() as int);
                match fail_bytes(e.words(decode_utf8(payload.skip(at + 1)))) {
                    Ok(packet) => Ok((StepView::Reply(packet), send)),
                    Err(e) => Err(e),
                }
            },
            Ok((path, mode)) => {
                let fresh = SendView { path, mode, file: false, failure: None };
                if file_type(mode) == 0o040000 {
                    Ok((StepView::MakeDirectory(path), Some(fresh)))
                } else if file_type(mode) == 0o120000 {
                    Ok(
                        (
                            StepView::Go,
                            Some(
                                SendView {
                                    failure: Some(
                                        "symlink push is not supported: "@ + shown(path),
                                    ),
                                    ..fresh
                                },
                            ),
                        ),
                    )
                } else {
                    Ok((StepView::CreateFile(path), Some(fresh)))
                }
            },
        }
    } else if id == SyncId::Quit.letters() {
        Ok((StepView::Go, send))
    } else {
        match fail_bytes("unsupported sync request "@ + utf8_lossy(id)) {
            Ok(packet) => Ok((StepView::Reply(packet), send)),
            Err(e) => Err(e),
        }
    }
}

/// What data that the host sends comes to.
pub open spec fn data_step(data: Seq<u8>, send: SendView) -> (StepView, SendView) {
    if send.failure is Some {
        (StepView::Go, send)
    } else if !send.file {
        if data.len() > 0 {
            (
                StepView::Go,
                SendView {
                    failure: Some("cannot write data to directory "@ + shown(send.path)),
                    ..send
                },
            )
        } else {
            (StepView::Go, send)
        }
    } else {
        (StepView::Write(data), send)
    }
}

/// What the bytes that have come in come to: what the device has to do, and the session then.
pub open spec fn session_step(s: SessionView) -> Result<(StepView, SessionView), SyncError> {
    let id = s.buffer.take(4);
    let value = le32(s.buffer, 4);
    let total = 8 + value;
    let payload = s.buffer.subrange(8, total);
    if s.buffer.len() < 8 {
        Ok((StepView::Wait, s))
    } else {
        match s.send {
            None => if total > usize::MAX {
                Err(SyncError::RequestOverflow)
            } else if s.buffer.len() < total {
                Ok((StepView::Wait, s))
            } else {
                match request_step(id, payload, s.send) {
                    Err(e) => Err(e),
                    Ok((step, send)) => Ok(
                        (step, SessionView { buffer: s.buffer.skip(total), send }),
                    ),
                }
            },
            Some(send) => if id == SyncId::Data.letters() {
                if total > usize::MAX {
                    Err(SyncError::DataOverflow)
                } else if s.buffer.len() < total {
                    Ok((StepView::Wait, s))
                } else {
                    let (step, send) = data_step(payload, send);
                    Ok((step, SessionView { buffer: s.buffer.skip(total), send: Some(send) }))
                }
            } else if id == SyncId::Done.letters() {
                Ok(
                    (
                        StepView::Finish(send, value),
                        SessionView { buffer: s.buffer.skip(8), send: None },
                    ),
                )
            } else {
                match fail_bytes("expected DATA or DONE during SEND, got "@ + utf8_lossy(id)) {
                    Err(e) => Err(e),
                    Ok(packet) => Ok(
                        (
                            StepView::Stop(packet),
                            SessionView { buffer: Seq::empty(), send: None },
                        ),
                    ),
                }
            },
        }
    }
}

fn copied(data: &[u8]) -> (r: Vec<u8>)
    ensures
        r@ == data@,
{
    let mut out: Vec<u8> = Vec::new();
    push_bytes(&mut out, data);
    assert(out@ =~= data@);
    out
}

fn start_send(payload: &[u8]) -> (r: Result<(SyncStep, Option<SyncSend>), SyncError>)
    ensures
        match r {
            Ok((step, Some(send))) => request_step(SyncId::Send.letters(), payload@, None) == Ok::<
                (StepView, Option<SendView>),
                SyncError,
            >((step@, Some(send@))),
            Ok((step, None)) => request_step(SyncId::Send.letters(), payload@, None) == Ok::<
                (StepView, Option<SendView>),
                SyncError,
            >((step@, None)),
            Err(e) => request_step(SyncId::Send.letters(), payload@, None) == Err::<
                (StepView, Option<SendView>),
                SyncError,
            >(e),
        },
{
    let (path, mode) = match parse_send_target(payload) {
        Ok(target) => target,
        Err((e, given)) => {
            let text = e.message(given.as_str());
            let packet = sync_fail_packet(text.as_str())?;
            return Ok((SyncStep::Reply(packet), None));
        },
    };
    let kind = mode & 0o170000u32;
    let step_path = copied(&path);
    if kind == 0o040000 {
        return Ok(
            (
                SyncStep::MakeDirectory(step_path),
                Some(SyncSend { path, mode, file: false, failure: None }),
            ),
        );
    }
    if kind == 0o120000 {
        let text = cat("symlink push is not supported: ", decode_lossy(&path).as_str());
        return Ok(
            (SyncStep::Go, Some(SyncSend { path, mode, file: false, failure: Some(text) })),
        );
    }
    Ok(
        (
            SyncStep::CreateFile(step_path),
            Some(SyncSend { path, mode, file: false, failure: None }),
        ),
    )
}

fn handle_sync_request(id: &[u8], payload: Vec<u8>) -> (r: Result<
    (SyncStep, Option<SyncSend>),
    SyncError,
>)
    ensures
        match r {
            Ok((step, send)) => request_step(id@, payload@, None) == Ok::<
                (StepView, Option<SendView>),
                SyncError,
            >((step@, send_view(send))),
            Err(e) => request_step(id@, payload@, None) == Err::<
                (StepView, Option<SendView>),
                SyncError,
            >(e),
        },
{
    if same_bytes(id, SyncId::Stat.code().as_slice()) {
        Ok((SyncStep::Stat(payload), None))
    } else if same_bytes(id, SyncId::List.code().as_slice()) {
        Ok((SyncStep::List(payload), None))
    } else if same_bytes(id, SyncId::Recv.code().as_slice()) {
        Ok((SyncStep::Recv(payload), None))
    } else if same_bytes(id, SyncId::Send.code().as_slice()) {
        start_send(&payload)
    } else if same_bytes(id, SyncId::Quit.code().as_slice()) {
        Ok((SyncStep::Go, None))
    } else {
        let text = cat("unsupported sync request ", decode_lossy(id).as_str());
        let packet = sync_fail_packet(text.as_str())?;
        Ok((SyncStep::Reply(packet), None))
    }
}

fn handle_send_data(data: Vec<u8>, send: SyncSend) -> (r: (SyncStep, SyncSend))
    ensures
        (r.0@, r.1@) == data_step(data@, send@),
{
    if send.failure.is_some() {
        return (SyncStep::Go, send);
    }
    if !send.file {
        if data.len() > 0 {
            let text = cat(
                "cannot write data to directory ",
                decode_lossy(&send.path).as_str(),
            );
            return (
                SyncStep::Go,
                SyncSend { path: send.path, mode: send.mode, file: false, failure: Some(text) },
            );
        }
        return (SyncStep::Go, send);
    }
    (SyncStep::Write(data), send)
}

impl SyncSession {
    /// A session in which nothing has come in.
    pub fn new() -> (r: SyncSession)
        ensures
            r@ == (SessionView { buffer: Seq::empty(), send: None }),
    {
        SyncSession { buffer: Vec::new(), send: None }
    }

    /// Takes bytes in.
    pub fn write_input(&mut self, data: &[u8])
        ensures
            final(self)@ == (SessionView { buffer: old(self)@.buffer + data@, ..old(self)@ }),
    {
        push_bytes(&mut self.buffer, data);
    }

    /// What the device has to do next. An error leaves the session as it is.
    pub fn step(&mut self) -> (r: Result<SyncStep, SyncError>)
        ensures
            match r {
                Ok(step) => session_step(old(self)@) == Ok::<(StepView, SessionView), SyncError>(
                    (step@, final(self)@),
                ),
                Err(e) => session_step(old(self)@) == Err::<(StepView, SessionView), SyncError>(e)
                    && final(self)@ == old(self)@,
            },
    {
        if self.buffer.len() < 8 {
            return Ok(SyncStep::Wait);
        }
        let id = copied(&self.buffer.as_slice()[0..4]);
        assert(id@ =~= self.buffer@.take(4));
        let value = le_u32(&self.buffer, 4);
        let total: u64 = 8 + value as u64;
        let ghost start = self@;
        let send = self.send.take();
        match send {
            None => {
                if total > usize::MAX as u64 {
                    return Err(SyncError::RequestOverflow);
                }
                if (self.buffer.len() as u64) < total {
                    return Ok(SyncStep::Wait);
                }
                let end = total as usize;
                let payload = copied(&self.buffer.as_slice()[8..end]);
                assert(payload@ =~= start.buffer.subrange(8, end as int));
                let rest = copied(&self.buffer.as_slice()[end..self.buffer.len()]);
                assert(rest@ =~= start.buffer.skip(end as int));
                let (step, send) = handle_sync_request(&id, payload)?;
                self.buffer = rest;
                self.send = send;
                Ok(step)
            },
            Some(send) => {
                if same_bytes(&id, SyncId::Data.code().as_slice()) {
                    if total > usize::MAX as u64 {
                        self.send = Some(send);
                        return Err(SyncError::DataOverflow);
                    }
                    if (self.buffer.len() as u64) < total {
                        self.send = Some(send);
                        return Ok(SyncStep::Wait);
                    }
                    let end = total as usize;
                    let data = copied(&self.buffer.as_slice()[8..end]);
                    assert(data@ =~= start.buffer.subrange(8, end as int));
                    let rest = copied(&self.buffer.as_slice()[end..self.buffer.len()]);
                    assert(rest@ =~= start.buffer.skip(end as int));
                    let (step, send) = handle_send_data(data, send);
                    self.buffer = rest;
                    self.send = Some(send);
                    return Ok(step);
                }
                if same_bytes(&id, SyncId::Done.code().as_slice()) {
                    let rest = copied(&self.buffer.as_slice()[8..self.buffer.len()]);
                    assert(rest@ =~= start.buffer.skip(8));
                    self.buffer = rest;
                    return Ok(SyncStep::Finish(send, value));
                }
                let text = cat(
                    "expected DATA or DONE during SEND, got ",
                    decode_lossy(&id).as_str(),
                );
                match sync_fail_packet(text.as_str()) {
                    Err(e) => {
                        self.send = Some(send);
                        Err(e)
                    },
                    Ok(packet) => {
                        self.buffer = Vec::new();
                        Ok(SyncStep::Stop(packet))
                    },
                }
            },
        }
    }

    /// Notes what came of making a directory or of creating a file: it is there, or why not.
    pub fn started(&mut self, is_file: bool, error: Option<&str>)
        requires
            old(self).send is Some,
        ensures
            ({
                let send = old(self)@.send->0;
                let verb = if is_file {
                    "create "@
                } else {
                    "mkdir "@
                };
                final(self)@ == (SessionView {
                    buffer: old(self)@.buffer,
                    send: Some(
                        match error {
                            None => SendView { file: is_file, ..send },
                            Some(text) => SendView {
                                file: false,
                                failure: Some(verb + shown(send.path) + ": "@ + text@),
                                ..send
                            },
                        },
                    ),
                })
            }),
    {
        if let Some(send) = self.send.take() {
            self.send = Some(
                match error {
                    None => SyncSend {
                        path: send.path,
                        mode: send.mode,
                        file: is_file,
                        failure: send.failure,
                    },
                    Some(text) => {
                        let mut told = if is_file {
                            owned("create ")
                        } else {
                            owned("mkdir ")
                        };
                        told.append(decode_lossy(&send.path).as_str());
                        told.append(": ");
                        told.append(text);
                        SyncSend {
                            path: send.path,
                            mode: send.mode,
                            file: false,
                            failure: Some(told),
                        }
                    },
                },
            );
        }
    }

    /// Notes that bytes could not be written.
    pub fn write_failed(&mut self, error: &str)
        requires
            old(self).send is Some,
        ensures
            ({
                let send = old(self)@.send->0;
                final(self)@ == (SessionView {
                    buffer: old(self)@.buffer,
                    send: Some(
                        SendView {
                            file: false,
                            failure: Some("write "@ + shown(send.path) + ": "@ + error@),
                            ..send
                        },
                    ),
                })
            }),
    {
        if let Some(send) = self.send.take() {
            let mut told = cat("write ", decode_lossy(&send.path).as_str());
            told.append(": ");
            told.append(error);
            self.send = Some(
                SyncSend { path: send.path, mode: send.mode, file: false, failure: Some(told) },
            );
        }
    }
}

/// What is told of a step in finishing a file that failed.
pub open spec fn end_failure(verb: Seq<char>, path: Seq<u8>, error: Seq<char>) -> Seq<char> {
    verb + shown(path) + ": "@ + error
}

impl SyncSend {
    fn failed(&mut self, verb: &str, error: &str)
        ensures
            final(self)@ == (SendView {
                failure: Some(end_failure(verb@, old(self)@.path, error@)),
                ..old(self)@
            }),
    {
        let mut told = cat(verb, decode_lossy(&self.path).as_str());
        told.append(": ");
        told.append(error);
        self.failure = Some(told);
    }

    /// Notes that the open file could not be flushed.
    pub fn flush_failed(&mut self, error: &str)
        ensures
            final(self)@ == (SendView {
                failure: Some(end_failure("flush "@, old(self)@.path, error@)),
                ..old(self)@
            }),
    {
        self.failed("flush ", error)
    }

    /// The permissions that the file gets, where nothing went wrong.
    pub fn next_mode(&self) -> (r: Option<u32>)
        ensures
            r == (if self@.failure is None {
                Some(self.mode & 0o7777u32)
            } else {
                None
            }),
    {
        if self.failure.is_none() {
            Some(self.mode & 0o7777u32)
        } else {
            None
        }
    }

    /// Notes that the file could not get its permissions.
    pub fn mode_failed(&mut self, error: &str)
        ensures
            final(self)@ == (SendView {
                failure: Some(end_failure("chmod "@, old(self)@.path, error@)),
                ..old(self)@
            }),
    {
        self.failed("chmod ", error)
    }

    /// Whether the file is dated: nothing went wrong.
    pub fn is_dated(&self) -> (r: bool)
        ensures
            r == (self@.failure is None),
    {
        self.failure.is_none()
    }

    /// Notes that the file could not be dated.
    pub fn date_failed(&mut self, error: &str)
        ensures
            final(self)@ == (SendView {
                failure: Some(end_failure("utime "@, old(self)@.path, error@)),
                ..old(self)@
            }),
    {
        self.failed("utime ", error)
    }

    /// The reply to the host once the file is finished.
    pub fn reply(&self) -> (r: Result<Vec<u8>, SyncError>)
        ensures
            match self@.failure {
                Some(text) => fail_bytes(text) == (match r {
                    Ok(packet) => Ok(packet@),
                    Err(e) => Err(e),
                }),
                None => r matches Ok(packet) && packet@ == status_bytes(SyncId::Okay, 0),
            },
    {
        match &self.failure {
            Some(text) => sync_fail_packet(text.as_str()),
            None => Ok(sync_status_packet(SyncId::Okay, 0)),
        }
    }
}

/// Whether `s` is waiting for the rest of a request.
pub open spec fn is_partial(s: SessionView) -> bool {
    session_step(s) == Ok::<(StepView, SessionView), SyncError>((StepView::Wait, s))
}

/// The bytes of the host can be cut into packets anywhere: a request that is all there is taken
/// in the same way, whatever has come in behind it, and what has come in behind it is kept.
pub proof fn law_requests_are_framed(s: SessionView, more: Seq<u8>)
    requires
        !is_partial(s),
        session_step(s) matches Ok((step, _)) ==> !(step is Stop),
    ensures
        ({
            let longer = SessionView { buffer: s.buffer + more, ..s };
            match session_step(s) {
                Err(e) => session_step(longer) == Err::<(StepView, SessionView), SyncError>(e),
                Ok((step, after)) => session_step(longer) == Ok::<
                    (StepView, SessionView),
                    SyncError,
                >((step, SessionView { buffer: after.buffer + more, ..after })),
            }
        }),
{
    let longer = SessionView { buffer: s.buffer + more, ..s };
    if s.buffer.len() >= 8 {
        assert(longer.buffer.take(4) =~= s.buffer.take(4));
        assert(le32(longer.buffer, 4) == le32(s.buffer, 4));
        let total = 8 + le32(s.buffer, 4);
        if s.buffer.len() >= total {
            assert(longer.buffer.subrange(8, total) =~= s.buffer.subrange(8, total));
            assert(longer.buffer.skip(total) =~= s.buffer.skip(total) + more);
        }
        assert(longer.buffer.skip(8) =~= s.buffer.skip(8) + more);
    }
}

/// The four bytes of a length, the lowest first.
pub open spec fn length_bytes(n: int) -> Seq<u8> {
    seq![
        (n % 256) as u8,
        (n / 256 % 256) as u8,
        (n / 65536 % 256) as u8,
        (n / 16777216 % 256) as u8,
    ]
}

proof fn lemma_length_bytes(id: Seq<u8>, n: int, rest: Seq<u8>)
    requires
        id.len() == 4,
        0 <= n <= u32::MAX,
    ensures
        ({
            let buffer = id + length_bytes(n) + rest;
            &&& buffer.take(4) == id
            &&& le32(buffer, 4) == n
            &&& buffer.skip(8) == rest
            &&& buffer.len() == 8 + rest.len()
        }),
        le32_bytes(n as u32) == length_bytes(n),
{
    reveal(crate::bytes::le32_bytes);
    let buffer = id + length_bytes(n) + rest;
    assert(buffer.take(4) =~= id);
    assert(buffer.skip(8) =~= rest);
    assert(buffer[4] == length_bytes(n)[0]);
    assert(buffer[5] == length_bytes(n)[1]);
    assert(buffer[6] == length_bytes(n)[2]);
    assert(buffer[7] == length_bytes(n)[3]);
    assert(le32_bytes(n as u32) =~= length_bytes(n));
}

/// A session in which no file is under way and a request has come in whole, with more behind it.
pub open spec fn requested(id: Seq<u8>, payload: Seq<u8>, more: Seq<u8>) -> SessionView {
    SessionView { buffer: id + length_bytes(payload.len() as int) + payload + more, send: None }
}

/// A session with nothing under way, in which the given bytes have come in.
pub open spec fn idle(buffer: Seq<u8>) -> SessionView {
    SessionView { buffer, send: None }
}

proof fn lemma_requested(id: Seq<u8>, payload: Seq<u8>, more: Seq<u8>)
    requires
        id.len() == 4,
        payload.len() <= u32::MAX,
        payload.len() + 8 <= usize::MAX,
    ensures
        session_step(requested(id, payload, more)) == (match request_step(id, payload, None) {
            Err(e) => Err(e),
            Ok((step, send)) => Ok((step, SessionView { buffer: more, send })),
        }),
{
    let n = payload.len() as int;
    let s = requested(id, payload, more);
    assert(id + length_bytes(n) + payload + more =~= id + length_bytes(n) + (payload + more));
    lemma_length_bytes(id, n, payload + more);
    assert(s.buffer.subrange(8, 8 + n) =~= s.buffer.skip(8).take(n));
    assert((payload + more).take(n) =~= payload);
    assert(s.buffer.skip(8 + n) =~= more);
}

proof fn lemma_request_letters(path: Seq<u8>)
    ensures
        request_step(seq![0x53u8, 0x54u8, 0x41u8, 0x54u8], path, None) == Ok::<
            (StepView, Option<SendView>),
            SyncError,
        >((StepView::Stat(path), None)),
        request_step(seq![0x4cu8, 0x49u8, 0x53u8, 0x54u8], path, None) == Ok::<
            (StepView, Option<SendView>),
            SyncError,
        >((StepView::List(path), None)),
        request_step(seq![0x52u8, 0x45u8, 0x43u8, 0x56u8], path, None) == Ok::<
            (StepView, Option<SendView>),
            SyncError,
        >((StepView::Recv(path), None)),
        request_step(seq![0x51u8, 0x55u8, 0x49u8, 0x54u8], path, None) == Ok::<
            (StepView, Option<SendView>),
            SyncError,
        >((StepView::Go, None)),
{
    lemma_letters_differ();
}

/// A host that asks for what is known of a file, for the entries of a directory or for a file gets
/// what it asks for: `STAT`, `LIST` and `RECV` with a path lead to that action on that path, and
/// `QUIT` to none. No file is under way afterwards, and what came in behind the request is kept.
#[verifier::spinoff_prover]
#[verifier::rlimit(40)]
pub proof fn law_requests_get_what_they_ask_for(path: Seq<u8>, more: Seq<u8>)
    requires
        path.len() <= u32::MAX,
        path.len() + 8 <= usize::MAX,
    ensures
        session_step(requested(seq![0x53u8, 0x54u8, 0x41u8, 0x54u8], path, more)) == Ok::<
            (StepView, SessionView),
            SyncError,
        >((StepView::Stat(path), idle(more))),
        session_step(requested(seq![0x4cu8, 0x49u8, 0x53u8, 0x54u8], path, more)) == Ok::<
            (StepView, SessionView),
            SyncError,
        >((StepView::List(path), idle(more))),
        session_step(requested(seq![0x52u8, 0x45u8, 0x43u8, 0x56u8], path, more)) == Ok::<
            (StepView, SessionView),
            SyncError,
        >((StepView::Recv(path), idle(more))),
        session_step(requested(seq![0x51u8, 0x55u8, 0x49u8, 0x54u8], path, more)) == Ok::<
            (StepView, SessionView),
            SyncError,
        >((StepView::Go, idle(more))),
{
    let stat = seq![0x53u8, 0x54u8, 0x41u8, 0x54u8];
    let list = seq![0x4cu8, 0x49u8, 0x53u8, 0x54u8];
    let recv = seq![0x52u8, 0x45u8, 0x43u8, 0x56u8];
    let quit = seq![0x51u8, 0x55u8, 0x49u8, 0x54u8];
    lemma_requested(stat, path, more);
    lemma_requested(list, path, more);
    lemma_requested(recv, path, more);
    lemma_requested(quit, path, more);
    lemma_request_letters(path);
}

/// The letters of the requests differ in one of the first three.
proof fn lemma_letters_differ()
    ensures
        SyncId::Stat.letters()[0] == 0x53 && SyncId::Stat.letters()[1] == 0x54,
        SyncId::Send.letters()[0] == 0x53 && SyncId::Send.letters()[1] == 0x45,
        SyncId::List.letters()[0] == 0x4c,
        SyncId::Recv.letters()[0] == 0x52,
        SyncId::Quit.letters()[0] == 0x51,
        SyncId::Data.letters()[0] == 0x44 && SyncId::Data.letters()[1] == 0x41,
        SyncId::Done.letters()[0] == 0x44 && SyncId::Done.letters()[1] == 0x4f,
{
}

proof fn lemma_last_byte(s: Seq<u8>, wanted: u8, at: int, n: int)
    requires
        0 <= at < n <= s.len(),
        s[at] == wanted,
        forall|i: int| at < i < n ==> #[trigger] s[i] != wanted,
    ensures
        last_byte(s, wanted, n) == at,
    decreases n,
{
    if n - 1 > at {
        lemma_last_byte(s, wanted, at, n - 1);
    }
}

/// The name of a file to push, with its mode behind a comma.
pub open spec fn pushed_name(path: Seq<u8>, mode: u32) -> Seq<u8> {
    path + seq![0x2cu8] + utf8(decimal(mode as int))
}

proof fn lemma_ascii(text: Seq<char>)
    requires
        forall|i: int| 0 <= i < text.len() ==> '0' <= #[trigger] text[i] <= '9',
    ensures
        utf8(text).len() == text.len(),
        forall|i: int| 0 <= i < text.len() ==> #[trigger] utf8(text)[i] == text[i] as u8,
        valid_utf8(utf8(text)),
        decode_utf8(utf8(text)) == text,
{
    vstd::utf8::is_ascii_chars_encode_utf8(text);
    vstd::utf8::encode_utf8_valid_utf8(text);
    vstd::utf8::encode_utf8_decode_utf8(text);
}

proof fn lemma_pushed_name(path: Seq<u8>, mode: u32)
    ensures
        send_target(pushed_name(path, mode)) == Ok::<(Seq<u8>, u32), SyncError>((path, mode)),
{
    let digits = decimal(mode as int);
    law_written_numbers_are_read_back(mode as nat, u32::MAX as nat);
    lemma_ascii(digits);
    let name = pushed_name(path, mode);
    let at = path.len() as int;
    assert forall|i: int| at < i < name.len() implies #[trigger] name[i] != 0x2c by {
        assert(name[i] == utf8(digits)[i - at - 1]);
        assert('0' <= digits[i - at - 1]);
    }
    lemma_last_byte(name, 0x2c, at, name.len() as int);
    assert(name.skip(at + 1) =~= utf8(digits));
    assert(name.take(at) =~= path);
}

/// A host that pushes a file has it made: `SEND` with a path and a mode leads to the creation of a
/// file at that path, or of a directory where the mode is that of one, and the file that is under
/// way then has that path and that mode and no failure. A symbolic link is not made: it is under
/// way with a failure.
pub proof fn law_pushed_files_are_made(path: Seq<u8>, mode: u32, more: Seq<u8>)
    requires
        pushed_name(path, mode).len() <= u32::MAX,
        pushed_name(path, mode).len() + 8 <= usize::MAX,
    ensures
        ({
            let fresh = SendView { path, mode, file: false, failure: None };
            session_step(
                requested(seq![0x53u8, 0x45u8, 0x4eu8, 0x44u8], pushed_name(path, mode), more),
            ) matches Ok((step, after)) && after.buffer == more && {
                if mode & 0xf000 == 0x4000 {
                    step == StepView::MakeDirectory(path) && after.send == Some(fresh)
                } else if mode & 0xf000 == 0xa000 {
                    &&& step == StepView::Go
                    &&& after.send matches Some(send) && send.failure is Some && !send.file
                        && send.path == path
                } else {
                    step == StepView::CreateFile(path) && after.send == Some(fresh)
                }
            }
        }),
{
    lemma_requested(seq![0x53u8, 0x45u8, 0x4eu8, 0x44u8], pushed_name(path, mode), more);
    lemma_pushed_name(path, mode);
    lemma_letters_differ();
    assert(SyncId::Send.letters() =~= seq![0x53u8, 0x45u8, 0x4eu8, 0x44u8]);
}

/// What a host pushes is written: while a file is open and nothing went wrong, `DATA` leads to its
/// bytes being written to the file, and the file stays under way.
pub proof fn law_pushed_data_is_written(send: SendView, data: Seq<u8>, more: Seq<u8>)
    requires
        data.len() <= u32::MAX,
        data.len() + 8 <= usize::MAX,
    ensures
        ({
            let s = SessionView {
                buffer: seq![0x44u8, 0x41u8, 0x54u8, 0x41u8] + length_bytes(data.len() as int)
                    + data + more,
                send: Some(send),
            };
            session_step(s) matches Ok((step, after)) && after.buffer == more && {
                if send.failure is None && send.file {
                    step == StepView::Write(data) && after.send == Some(send)
                } else {
                    &&& step == StepView::Go
                    &&& after.send matches Some(now) && now.path == send.path && now.mode
                        == send.mode && (send.failure is Some ==> now == send) && (data.len() > 0
                        ==> now.failure is Some)
                }
            }
        }),
{
    let letters = seq![0x44u8, 0x41u8, 0x54u8, 0x41u8];
    let n = data.len() as int;
    let s = SessionView { buffer: letters + length_bytes(n) + data + more, send: Some(send) };
    assert(s.buffer =~= letters + length_bytes(n) + (data + more));
    lemma_length_bytes(letters, n, data + more);
    assert(s.buffer.subrange(8, 8 + n) =~= s.buffer.skip(8).take(n));
    assert((data + more).take(n) =~= data);
    assert(s.buffer.skip(8 + n) =~= more);
    assert(SyncId::Data.letters() =~= letters);
    assert(session_step(s) == Ok::<(StepView, SessionView), SyncError>(
        (
            data_step(data, send).0,
            SessionView { buffer: more, send: Some(data_step(data, send).1) },
        ),
    ));
}

/// `DONE` with a time leads to the file under way being finished and dated, whatever went wrong
/// before, and nothing is under way then.
pub proof fn law_pushed_files_are_finished(send: SendView, time: u32, more: Seq<u8>)
    ensures
        session_step(
            SessionView {
                buffer: seq![0x44u8, 0x4fu8, 0x4eu8, 0x45u8] + length_bytes(time as int) + more,
                send: Some(send),
            },
        ) == Ok::<(StepView, SessionView), SyncError>((StepView::Finish(send, time), idle(more))),
{
    let done = seq![0x44u8, 0x4fu8, 0x4eu8, 0x45u8];
    lemma_length_bytes(done, time as int, more);
    lemma_letters_differ();
    assert(SyncId::Done.letters() =~= done);
}

/// The replies to a host are framed as its requests are: a piece of a file is `DATA`, its length and
/// its bytes, the end of a file `DONE` and a zero, a success `OKAY` and a zero, and a failure `FAIL`,
/// the length of the words and the words.
pub proof fn law_replies_are_framed(data: Seq<u8>, words: Seq<char>)
    requires
        data.len() <= u32::MAX,
        utf8(words).len() <= u32::MAX,
    ensures
        block_bytes(SyncId::Data, data) == seq![0x44u8, 0x41u8, 0x54u8, 0x41u8] + length_bytes(
            data.len() as int,
        ) + data,
        status_bytes(SyncId::Done, 0) == seq![0x44u8, 0x4fu8, 0x4eu8, 0x45u8, 0, 0, 0, 0],
        status_bytes(SyncId::Okay, 0) == seq![0x4fu8, 0x4bu8, 0x41u8, 0x59u8, 0, 0, 0, 0],
        fail_bytes(words) == Ok::<Seq<u8>, SyncError>(
            seq![0x46u8, 0x41u8, 0x49u8, 0x4cu8] + length_bytes(utf8(words).len() as int) + utf8(
                words,
            ),
        ),
{
    let letters = seq![0x44u8, 0x41u8, 0x54u8, 0x41u8];
    lemma_length_bytes(letters, data.len() as int, data);
    lemma_length_bytes(letters, utf8(words).len() as int, data);
    lemma_length_bytes(letters, 0, data);
    assert(status_bytes(SyncId::Done, 0) =~= seq![0x44u8, 0x4fu8, 0x4eu8, 0x45u8, 0, 0, 0, 0]);
    assert(status_bytes(SyncId::Okay, 0) =~= seq![0x4fu8, 0x4bu8, 0x41u8, 0x59u8, 0, 0, 0, 0]);
}

/// What is told of a file is `STAT`, or `DENT` in a directory with the name behind it, and its mode,
/// size and time in that order.
pub proof fn law_files_are_told_of(mode: u32, size: u32, time: u32, name: Seq<u8>)
    requires
        name.len() <= u32::MAX,
    ensures
        stat_bytes(mode, size, time) == seq![0x53u8, 0x54u8, 0x41u8, 0x54u8] + length_bytes(
            mode as int,
        ) + length_bytes(size as int) + length_bytes(time as int),
        dent_bytes(mode, size, time, name) == seq![0x44u8, 0x45u8, 0x4eu8, 0x54u8]
            + length_bytes(mode as int) + length_bytes(size as int) + length_bytes(time as int)
            + length_bytes(name.len() as int) + name,
        list_done_bytes() == seq![0x44u8, 0x4fu8, 0x4eu8, 0x45u8] + Seq::new(16, |i: int| 0u8),
{
    let letters = seq![0x44u8, 0x41u8, 0x54u8, 0x41u8];
    lemma_length_bytes(letters, mode as int, name);
    lemma_length_bytes(letters, size as int, name);
    lemma_length_bytes(letters, time as int, name);
    lemma_length_bytes(letters, name.len() as int, name);
    lemma_length_bytes(letters, 0, name);
    assert(list_done_bytes() =~= seq![0x44u8, 0x4fu8, 0x4eu8, 0x45u8] + Seq::new(
        16,
        |i: int| 0u8,
    ));
}

} // verus!
