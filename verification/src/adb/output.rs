//! What the device sends on the streams of ADB.
use vstd::prelude::*;
use vstd::string::*;

use crate::adb::sync::{
    block_bytes, dent_bytes, end_failure, fail_bytes, list_done_bytes, stat_bytes, status_bytes,
    law_files_are_told_of, law_replies_are_framed, length_bytes, sync_chunk_size, sync_data_packet, sync_dent_packet, sync_fail_packet, sync_list_done_packet,
    sync_mtime, sync_size, sync_stat_packet, sync_status_packet, SyncError, SyncId, SYNC_CHUNK,
};
use crate::bytes::parts;
use crate::text::{cat, decode_lossy};

verus! {

/// The greatest number of bytes of a command's output that are sent at once.
pub const SHELL_CHUNK: usize = 0x1000;

/// How far the sending of a command's output has come: what was asked for last.
#[derive(Clone, Copy, Debug, PartialEq, Eq, Structural)]
pub enum OutputStage {
    Start,
    Credit,
    Read,
    Send,
    /// The end of the command, on a stream that is closed already.
    Abandon,
    /// The end of the command.
    Wait,
    Close,
    SayClosed,
}

/// What came of the last thing that was asked for.
#[derive(Clone, Copy, Debug, PartialEq, Eq, Structural)]
pub enum OutputEvent {
    Did,
    Failed,
    /// Whether the host takes more.
    Credit(bool),
    /// The number of bytes that were read.
    Bytes(usize),
    /// Whether the stream was open until now.
    Closed(bool),
}

/// What is to be done next for a command's output.
#[derive(Clone, Copy, Debug, PartialEq, Eq, Structural)]
pub enum OutputAction {
    /// Wait until the host takes more, or the stream is closed.
    WaitForCredit,
    /// Read at most as many bytes.
    Read(usize),
    /// Send the first bytes of those that were read.
    Send(usize),
    /// Wait for the end of the command.
    WaitForChild,
    /// Close the stream on this side.
    Close,
    /// Tell the host that the stream is closed.
    SayClosed,
    Done,
}

/// What is done where there is no more output.
pub open spec fn output_ends(has_child: bool) -> (OutputStage, OutputAction) {
    if has_child {
        (OutputStage::Wait, OutputAction::WaitForChild)
    } else {
        (OutputStage::Close, OutputAction::Close)
    }
}

/// What follows an event at a stage. A command that is no shell has its own end to be waited for.
pub open spec fn output_next(has_child: bool, stage: OutputStage, event: OutputEvent) -> (
    OutputStage,
    OutputAction,
) {
    match (stage, event) {
        (OutputStage::Start, _) => (OutputStage::Credit, OutputAction::WaitForCredit),
        (OutputStage::Credit, OutputEvent::Credit(true)) => (
            OutputStage::Read,
            OutputAction::Read(SHELL_CHUNK),
        ),
        (OutputStage::Credit, _) => if has_child {
            (OutputStage::Abandon, OutputAction::WaitForChild)
        } else {
            (OutputStage::Credit, OutputAction::Done)
        },
        (OutputStage::Read, OutputEvent::Bytes(count)) => if count == 0 {
            output_ends(has_child)
        } else {
            (OutputStage::Send, OutputAction::Send(count))
        },
        (OutputStage::Read, _) => output_ends(has_child),
        (OutputStage::Send, OutputEvent::Failed) => output_ends(has_child),
        (OutputStage::Send, _) => (OutputStage::Credit, OutputAction::WaitForCredit),
        (OutputStage::Abandon, _) => (stage, OutputAction::Done),
        (OutputStage::Wait, _) => (OutputStage::Close, OutputAction::Close),
        (OutputStage::Close, OutputEvent::Closed(true)) => (
            OutputStage::SayClosed,
            OutputAction::SayClosed,
        ),
        (OutputStage::Close, _) => (stage, OutputAction::Done),
        (OutputStage::SayClosed, _) => (stage, OutputAction::Done),
    }
}

fn end_output(has_child: bool) -> (r: (OutputStage, OutputAction))
    ensures
        r == output_ends(has_child),
{
    if has_child {
        (OutputStage::Wait, OutputAction::WaitForChild)
    } else {
        (OutputStage::Close, OutputAction::Close)
    }
}

/// What follows an event at a stage.
pub fn output_step(has_child: bool, stage: OutputStage, event: OutputEvent) -> (r: (
    OutputStage,
    OutputAction,
))
    ensures
        r == output_next(has_child, stage, event),
{
    match (stage, event) {
        (OutputStage::Start, _) => (OutputStage::Credit, OutputAction::WaitForCredit),
        (OutputStage::Credit, OutputEvent::Credit(true)) => (
            OutputStage::Read,
            OutputAction::Read(SHELL_CHUNK),
        ),
        (OutputStage::Credit, _) => if has_child {
            (OutputStage::Abandon, OutputAction::WaitForChild)
        } else {
            (OutputStage::Credit, OutputAction::Done)
        },
        (OutputStage::Read, OutputEvent::Bytes(count)) => if count == 0 {
            end_output(has_child)
        } else {
            (OutputStage::Send, OutputAction::Send(count))
        },
        (OutputStage::Read, _) => end_output(has_child),
        (OutputStage::Send, OutputEvent::Failed) => end_output(has_child),
        (OutputStage::Send, _) => (OutputStage::Credit, OutputAction::WaitForCredit),
        (OutputStage::Abandon, _) => (stage, OutputAction::Done),
        (OutputStage::Wait, _) => (OutputStage::Close, OutputAction::Close),
        (OutputStage::Close, OutputEvent::Closed(true)) => (
            OutputStage::SayClosed,
            OutputAction::SayClosed,
        ),
        (OutputStage::Close, _) => (stage, OutputAction::Done),
        (OutputStage::SayClosed, _) => (stage, OutputAction::Done),
    }
}

/// Output is sent only once the host has taken what was sent before: between two pieces there is
/// an answer of the host that it takes more.
pub proof fn law_output_waits_for_the_host(
    has_child: bool,
    stage: OutputStage,
    first: OutputEvent,
    second: OutputEvent,
)
    requires
        output_next(
            has_child,
            output_next(has_child, stage, first).0,
            second,
        ).1 is Send,
    ensures
        stage == OutputStage::Credit,
        first == OutputEvent::Credit(true),
{
}

/// Output ends with a word to the host only where the stream was open until then, and never while
/// a command that has its own end is still running.
pub proof fn law_closing_is_told_once(has_child: bool, stage: OutputStage, event: OutputEvent)
    ensures
        output_next(has_child, stage, event).1 is SayClosed ==> event == OutputEvent::Closed(true),
        output_next(has_child, stage, event).1 is Close ==> !has_child || stage
            == OutputStage::Wait,
{
}

/// How far the sending of a file has come: what was asked for last.
#[derive(Clone, Copy, Debug, PartialEq, Eq, Structural)]
pub enum FileStage {
    Start,
    Open,
    Read,
    /// A piece of the file.
    Piece,
    /// The last packet.
    Last,
}

/// What came of the last thing that was asked for.
#[derive(Debug)]
pub enum FileEvent {
    Did,
    Failed(String),
    /// The bytes that were read.
    Bytes(Vec<u8>),
    /// Whether a packet went out.
    Sent(bool),
}

/// What is to be done next for a file.
#[derive(Debug)]
pub enum FileAction {
    Open,
    /// Read at most as many bytes.
    Read(u32),
    /// Send a packet, once the host takes it.
    Send(Vec<u8>),
    /// The file is done. The flag tells whether the stream goes on.
    Done(bool),
}

/// What an action is to the one that performs it.
pub enum FileActionView {
    Open,
    Read(u32),
    Send(Seq<u8>),
    Done(bool),
}

impl View for FileAction {
    type V = FileActionView;

    open spec fn view(&self) -> FileActionView {
        match self {
            FileAction::Open => FileActionView::Open,
            FileAction::Read(count) => FileActionView::Read(*count),
            FileAction::Send(packet) => FileActionView::Send(packet@),
            FileAction::Done(goes_on) => FileActionView::Done(*goes_on),
        }
    }
}

/// The number of bytes of a file that are sent at once.
pub open spec fn piece_size(max_payload: u32) -> u32 {
    if max_payload <= 9 {
        1
    } else if max_payload - 8 > SYNC_CHUNK {
        SYNC_CHUNK
    } else {
        (max_payload - 8) as u32
    }
}

/// What is done where a file could not be opened or read.
pub open spec fn file_fails(stage: FileStage, verb: Seq<char>, path: Seq<u8>, error: Seq<char>) -> (
    FileStage,
    FileActionView,
) {
    match fail_bytes(end_failure(verb, path, error)) {
        Ok(packet) => (FileStage::Last, FileActionView::Send(packet)),
        Err(e) => (stage, FileActionView::Done(false)),
    }
}

/// What follows an event at a stage: the file is sent in pieces, and behind them the word that it
/// is done, or a word of why it could not be opened or read.
pub open spec fn file_next(path: Seq<u8>, max_payload: u32, stage: FileStage, event: FileEvent) -> (
    FileStage,
    FileActionView,
) {
    match stage {
        FileStage::Start => (FileStage::Open, FileActionView::Open),
        FileStage::Open => match event {
            FileEvent::Failed(error) => file_fails(stage, "open "@, path, error@),
            _ => (FileStage::Read, FileActionView::Read(piece_size(max_payload))),
        },
        FileStage::Read => match event {
            FileEvent::Bytes(data) => if data@.len() == 0 {
                (FileStage::Last, FileActionView::Send(status_bytes(SyncId::Done, 0)))
            } else if data@.len() > u32::MAX {
                (stage, FileActionView::Done(false))
            } else {
                (FileStage::Piece, FileActionView::Send(block_bytes(SyncId::Data, data@)))
            },
            FileEvent::Failed(error) => file_fails(stage, "read "@, path, error@),
            _ => (stage, FileActionView::Done(false)),
        },
        FileStage::Piece => match event {
            FileEvent::Sent(true) => (
                FileStage::Read,
                FileActionView::Read(piece_size(max_payload)),
            ),
            _ => (stage, FileActionView::Done(false)),
        },
        FileStage::Last => (stage, FileActionView::Done(event == FileEvent::Sent(true))),
    }
}

fn fail_file(stage: FileStage, verb: &str, path: &[u8], error: &str) -> (r: (FileStage, FileAction))
    ensures
        (r.0, r.1@) == file_fails(stage, verb@, path@, error@),
{
    let mut told = cat(verb, decode_lossy(path).as_str());
    told.append(": ");
    told.append(error);
    match sync_fail_packet(told.as_str()) {
        Ok(packet) => (FileStage::Last, FileAction::Send(packet)),
        Err(_) => (stage, FileAction::Done(false)),
    }
}

/// What follows an event at a stage of the sending of a file.
pub fn send_sync_file(path: &[u8], max_payload: u32, stage: FileStage, event: FileEvent) -> (r: (
    FileStage,
    FileAction,
))
    ensures
        (r.0, r.1@) == file_next(path@, max_payload, stage, event),
{
    match stage {
        FileStage::Start => (FileStage::Open, FileAction::Open),
        FileStage::Open => match event {
            FileEvent::Failed(error) => fail_file(stage, "open ", path, error.as_str()),
            _ => (FileStage::Read, FileAction::Read(sync_chunk_size(max_payload))),
        },
        FileStage::Read => match event {
            FileEvent::Bytes(data) => {
                if data.len() == 0 {
                    return (
                        FileStage::Last,
                        FileAction::Send(sync_status_packet(SyncId::Done, 0)),
                    );
                }
                match sync_data_packet(&data) {
                    Ok(packet) => (FileStage::Piece, FileAction::Send(packet)),
                    Err(_) => (stage, FileAction::Done(false)),
                }
            },
            FileEvent::Failed(error) => fail_file(stage, "read ", path, error.as_str()),
            _ => (stage, FileAction::Done(false)),
        },
        FileStage::Piece => match event {
            FileEvent::Sent(true) => (
                FileStage::Read,
                FileAction::Read(sync_chunk_size(max_payload)),
            ),
            _ => (stage, FileAction::Done(false)),
        },
        FileStage::Last => match event {
            FileEvent::Sent(true) => (stage, FileAction::Done(true)),
            _ => (stage, FileAction::Done(false)),
        },
    }
}

/// A piece of a file that is no longer than was asked for makes a packet that the host can take.
pub proof fn law_pieces_fit(path: Seq<u8>, max_payload: u32, data: Vec<u8>)
    requires
        max_payload >= 9,
        0 < data@.len() <= piece_size(max_payload),
    ensures
        ({
            let next = file_next(path, max_payload, FileStage::Read, FileEvent::Bytes(data));
            &&& next.0 == FileStage::Piece
            &&& next.1 matches FileActionView::Send(packet) && packet.len() <= max_payload
                && packet.skip(8) == data@
        }),
{
    reveal(crate::bytes::le32_bytes);
    let packet = block_bytes(SyncId::Data, data@);
    assert(packet.len() == data@.len() + 8);
    assert(packet.skip(8) =~= data@);
}

/// The reply that tells of a file, by its mode, size and time, or of none.
pub fn stat_reply(facts: Option<(u32, u64, i64)>) -> (r: Vec<u8>)
    ensures
        match facts {
            Some((mode, size, mtime)) => r@ == stat_bytes(mode, told_size(size), told_time(mtime)),
            None => r@ == stat_bytes(0, 0, 0),
        },
{
    match facts {
        Some((mode, size, mtime)) => sync_stat_packet(mode, sync_size(size), sync_mtime(mtime)),
        None => sync_stat_packet(0, 0, 0),
    }
}

/// A size as it is told to the host.
pub open spec fn told_size(size: u64) -> u32 {
    if size > u32::MAX {
        u32::MAX
    } else {
        size as u32
    }
}

/// A time as it is told to the host.
pub open spec fn told_time(mtime: i64) -> u32 {
    if mtime < 0 {
        0
    } else if mtime > u32::MAX {
        u32::MAX
    } else {
        mtime as u32
    }
}

/// An entry of a directory, or why it is not known.
#[derive(Debug)]
pub enum ListEntry {
    Entry { mode: u32, size: u64, mtime: i64, name: Vec<u8> },
    /// The entry could not be read.
    Unreadable(String),
    /// Nothing is known of the file at a path.
    Unknown { path: Vec<u8>, error: String },
}

/// The replies where a directory could not be read.
pub open spec fn list_fails(verb: Seq<char>, path: Seq<u8>, error: Seq<char>) -> (
    Seq<Seq<u8>>,
    Option<SyncError>,
) {
    match fail_bytes(end_failure(verb, path, error)) {
        Ok(packet) => (seq![packet], None),
        Err(e) => (Seq::empty(), Some(e)),
    }
}

/// The replies that tell of the entries of a directory from number `i` on, and the error that ends
/// the stream, where there is one.
pub open spec fn list_from(path: Seq<u8>, entries: Seq<ListEntry>, i: int) -> (
    Seq<Seq<u8>>,
    Option<SyncError>,
)
    decreases entries.len() - i,
{
    if i < 0 || i >= entries.len() {
        (seq![list_done_bytes()], None)
    } else {
        match entries[i] {
            ListEntry::Unreadable(error) => list_fails("list "@, path, error@),
            ListEntry::Unknown { path: at, error } => list_fails("stat "@, at@, error@),
            ListEntry::Entry { mode, size, mtime, name } => if name@.len() > u32::MAX {
                (Seq::empty(), Some(SyncError::NameTooLong))
            } else {
                let rest = list_from(path, entries, i + 1);
                (
                    seq![dent_bytes(mode, told_size(size), told_time(mtime), name@)] + rest.0,
                    rest.1,
                )
            },
        }
    }
}

fn fail_list(verb: &str, path: &[u8], error: &str) -> (r: Result<Vec<u8>, SyncError>)
    ensures
        fail_bytes(end_failure(verb@, path@, error@)) == (match r {
            Ok(packet) => Ok(packet@),
            Err(e) => Err(e),
        }),
{
    let mut told = cat(verb, decode_lossy(path).as_str());
    told.append(": ");
    told.append(error);
    sync_fail_packet(told.as_str())
}

/// The replies that tell of the entries of a directory, and the error that ends the stream, where
/// there is one.
pub fn handle_list(path: &[u8], entries: &Result<Vec<ListEntry>, String>) -> (r: (
    Vec<Vec<u8>>,
    Option<SyncError>,
))
    ensures
        (parts(r.0@), r.1) == (match *entries {
            Err(error) => list_fails("list "@, path@, error@),
            Ok(list) => list_from(path@, list@, 0),
        }),
{
    let mut replies: Vec<Vec<u8>> = Vec::new();
    let ghost none = Seq::<Seq<u8>>::empty();
    assert(parts(replies@) =~= none);
    let list = match entries {
        Err(error) => {
            match fail_list("list ", path, error.as_str()) {
                Err(e) => {
                    return (replies, Some(e));
                },
                Ok(packet) => {
                    replies.push(packet);
                    assert(parts(replies@) =~= seq![packet@]);
                    return (replies, None);
                },
            }
        },
        Ok(list) => list,
    };
    let mut i: usize = 0;
    assert(parts(replies@) + list_from(path@, list@, 0).0 =~= list_from(path@, list@, 0).0);
    while i < list.len()
        invariant
            i <= list@.len(),
            *entries == Ok::<Vec<ListEntry>, String>(*list),
            parts(replies@) + list_from(path@, list@, i as int).0 == list_from(path@, list@, 0).0,
            list_from(path@, list@, i as int).1 == list_from(path@, list@, 0).1,
        decreases list@.len() - i,
    {
        let ghost before = parts(replies@);
        let ghost rest = list_from(path@, list@, i as int);
        let failed = match &list[i] {
            ListEntry::Unreadable(error) => fail_list("list ", path, error.as_str()),
            ListEntry::Unknown { path: at, error } => fail_list("stat ", at, error.as_str()),
            ListEntry::Entry { mode, size, mtime, name } => {
                match sync_dent_packet(*mode, sync_size(*size), sync_mtime(*mtime), name) {
                    Err(e) => {
                        assert(before + rest.0 =~= before);
                        return (replies, Some(e));
                    },
                    Ok(packet) => {
                        replies.push(packet);
                        proof {
                            let more = list_from(path@, list@, i + 1);
                            assert(parts(replies@) =~= before.push(packet@));
                            assert(before + (seq![packet@] + more.0) =~= before.push(packet@)
                                + more.0);
                        }
                        i += 1;
                        continue ;
                    },
                }
            },
        };
        match failed {
            Err(e) => {
                assert(before + rest.0 =~= before);
                return (replies, Some(e));
            },
            Ok(packet) => {
                replies.push(packet);
                assert(parts(replies@) =~= before.push(packet@));
                assert(before + rest.0 =~= before.push(packet@));
                return (replies, None);
            },
        }
    }
    let ghost before = parts(replies@);
    let done = sync_list_done_packet();
    replies.push(done);
    assert(parts(replies@) =~= before.push(done@));
    assert(before + seq![list_done_bytes()] =~= before.push(done@));
    (replies, None)
}

/// The bytes of a file that a packet holds, where it is a piece of one.
pub open spec fn piece_held(packet: Seq<u8>) -> Seq<u8> {
    packet.skip(8)
}

/// The packets that a file goes out in, where it is read in the given pieces and every packet is
/// taken: the stage is that before the first piece is read.
pub open spec fn packets_sent(path: Seq<u8>, max_payload: u32, pieces: Seq<Vec<u8>>, n: int) -> Seq<
    Seq<u8>,
>
    decreases n,
{
    if n <= 0 {
        Seq::empty()
    } else {
        match file_next(path, max_payload, FileStage::Read, FileEvent::Bytes(pieces[n - 1])).1 {
            FileActionView::Send(packet) => packets_sent(path, max_payload, pieces, n - 1).push(
                packet,
            ),
            _ => packets_sent(path, max_payload, pieces, n - 1),
        }
    }
}

/// The pieces of a file, one behind the other.
pub open spec fn pieces_joined(pieces: Seq<Vec<u8>>, n: int) -> Seq<u8>
    decreases n,
{
    if n <= 0 {
        Seq::empty()
    } else {
        pieces_joined(pieces, n - 1) + pieces[n - 1]@
    }
}

/// The contents of some packets, one behind the other.
pub open spec fn packets_joined(packets: Seq<Seq<u8>>, n: int) -> Seq<u8>
    decreases n,
{
    if n <= 0 {
        Seq::empty()
    } else {
        packets_joined(packets, n - 1) + piece_held(packets[n - 1])
    }
}

proof fn lemma_packets_prefix(packets: Seq<Seq<u8>>, more: Seq<u8>, n: int)
    requires
        n <= packets.len(),
    ensures
        packets_joined(packets.push(more), n) == packets_joined(packets, n),
    decreases n,
{
    if n > 0 {
        lemma_packets_prefix(packets, more, n - 1);
    }
}

proof fn lemma_packets_sent(path: Seq<u8>, max_payload: u32, pieces: Seq<Vec<u8>>, n: int)
    requires
        0 <= n <= pieces.len(),
        forall|i: int| 0 <= i < pieces.len() ==> 0 < (#[trigger] pieces[i])@.len() <= u32::MAX,
    ensures
        ({
            let packets = packets_sent(path, max_payload, pieces, n);
            &&& packets.len() == n
            &&& packets_joined(packets, n) == pieces_joined(pieces, n)
            &&& forall|i: int|
                0 <= i < n ==> #[trigger] packets[i] == seq![0x44u8, 0x41u8, 0x54u8, 0x41u8]
                    + length_bytes(pieces[i]@.len() as int) + pieces[i]@
        }),
    decreases n,
{
    if n > 0 {
        lemma_packets_sent(path, max_payload, pieces, n - 1);
        let data = pieces[n - 1]@;
        law_replies_are_framed(data, Seq::empty());
        let packet = block_bytes(SyncId::Data, data);
        assert(piece_held(packet) =~= data);
        let before = packets_sent(path, max_payload, pieces, n - 1);
        lemma_packets_prefix(before, packet, n - 1);
    }
}

/// A file that a host pulls arrives whole: it is opened, and read in pieces; each piece goes out as
/// `DATA` with its length, the contents of the packets one behind the other are the pieces one
/// behind the other, and the last packet is `DONE`. Behind each packet that was taken the next piece
/// is asked for, and behind the last one the stream goes on.
pub proof fn law_pulled_files_arrive_whole(
    path: Seq<u8>,
    max_payload: u32,
    pieces: Seq<Vec<u8>>,
    empty: Vec<u8>,
    event: FileEvent,
)
    requires
        forall|i: int| 0 <= i < pieces.len() ==> 0 < (#[trigger] pieces[i])@.len() <= u32::MAX,
        empty@.len() == 0,
    ensures
        ({
            let n = pieces.len() as int;
            let packets = packets_sent(path, max_payload, pieces, n);
            let asks = file_next(path, max_payload, FileStage::Open, FileEvent::Did);
            &&& packets.len() == n
            &&& packets_joined(packets, n) == pieces_joined(pieces, n)
            &&& forall|i: int|
                0 <= i < n ==> #[trigger] packets[i] == seq![0x44u8, 0x41u8, 0x54u8, 0x41u8]
                    + length_bytes(pieces[i]@.len() as int) + pieces[i]@
            &&& file_next(path, max_payload, FileStage::Start, event) == (
                FileStage::Open,
                FileActionView::Open,
            )
            &&& asks.0 == FileStage::Read
            &&& asks.1 matches FileActionView::Read(count) && 0 < count <= 0x10000 && (max_payload
                >= 9 ==> count + 8 <= max_payload)
            &&& forall|i: int|
                0 <= i < n ==> file_next(
                    path,
                    max_payload,
                    FileStage::Read,
                    FileEvent::Bytes(#[trigger] pieces[i]),
                ).0 == FileStage::Piece
            &&& file_next(path, max_payload, FileStage::Piece, FileEvent::Sent(true)) == asks
            &&& file_next(path, max_payload, FileStage::Read, FileEvent::Bytes(empty)) == (
                FileStage::Last,
                FileActionView::Send(seq![0x44u8, 0x4fu8, 0x4eu8, 0x45u8, 0, 0, 0, 0]),
            )
            &&& file_next(path, max_payload, FileStage::Last, FileEvent::Sent(true)).1
                == FileActionView::Done(true)
        }),
{
    lemma_packets_sent(path, max_payload, pieces, pieces.len() as int);
    law_replies_are_framed(Seq::empty(), Seq::empty());
}

/// What is known of an entry of a directory, as it is told to the host: `DENT`, the mode, the size
/// and the time as far as four bytes hold them, and the name with its length before it.
pub open spec fn entry_told(mode: u32, size: u64, mtime: i64, name: Seq<u8>) -> Seq<u8> {
    seq![0x44u8, 0x45u8, 0x4eu8, 0x54u8] + length_bytes(mode as int) + length_bytes(
        if size > 0xffff_ffff {
            0xffff_ffff
        } else {
            size as int
        },
    ) + length_bytes(
        if mtime < 0 {
            0
        } else if mtime > 0xffff_ffff {
            0xffff_ffff
        } else {
            mtime as int
        },
    ) + length_bytes(name.len() as int) + name
}

/// A directory is told whole: each entry has one reply, in the order of the entries, and the last
/// reply is the word that the directory is done.
pub proof fn law_directories_are_told_whole(path: Seq<u8>, entries: Seq<ListEntry>, i: int)
    requires
        0 <= i <= entries.len(),
        forall|k: int|
            0 <= k < entries.len() ==> (#[trigger] entries[k] matches ListEntry::Entry {
                name,
                ..
            } && name@.len() <= u32::MAX),
    ensures
        ({
            let (replies, failure) = list_from(path, entries, i);
            &&& failure is None
            &&& replies.len() == entries.len() - i + 1
            &&& replies.last() == seq![0x44u8, 0x4fu8, 0x4eu8, 0x45u8] + Seq::new(16, |k: int| 0u8)
            &&& forall|k: int|
                i <= k < entries.len() ==> (#[trigger] entries[k] matches ListEntry::Entry {
                    mode,
                    size,
                    mtime,
                    name,
                } && replies[k - i] == entry_told(mode, size, mtime, name@))
        }),
    decreases entries.len() - i,
{
    law_files_are_told_of(0, 0, 0, Seq::empty());
    if i < entries.len() {
        law_directories_are_told_whole(path, entries, i + 1);
        let rest = list_from(path, entries, i + 1);
        let replies = list_from(path, entries, i).0;
        assert(entries[i] is Entry);
        if let ListEntry::Entry { mode, size, mtime, name } = entries[i] {
            law_files_are_told_of(mode, told_size(size), told_time(mtime), name@);
            assert(replies == seq![dent_bytes(mode, told_size(size), told_time(mtime), name@)]
                + rest.0);
            assert(replies.last() == rest.0.last());
            assert forall|k: int| i <= k < entries.len() implies (
            #[trigger] entries[k] matches ListEntry::Entry { mode, size, mtime, name }
                && replies[k - i] == entry_told(mode, size, mtime, name@)) by {
                if k > i {
                    assert(replies[k - i] == rest.0[k - (i + 1)]);
                }
            }
        }
    }
}

/// What a command puts out is sent: whatever is read is sent as it was read, and behind it more is
/// read once the host takes it. The stream is closed at the end of the output, and not before.
pub proof fn law_output_is_sent_as_read(has_child: bool, count: usize, event: OutputEvent)
    ensures
        count > 0 ==> output_next(has_child, OutputStage::Read, OutputEvent::Bytes(count)) == (
            OutputStage::Send,
            OutputAction::Send(count),
        ),
        output_next(has_child, OutputStage::Send, OutputEvent::Did).1
            == OutputAction::WaitForCredit,
        output_next(
            has_child,
            output_next(has_child, OutputStage::Send, OutputEvent::Did).0,
            OutputEvent::Credit(true),
        ) == (OutputStage::Read, OutputAction::Read(4096)),
        output_next(has_child, OutputStage::Start, event).1 == OutputAction::WaitForCredit,
        output_next(has_child, OutputStage::Read, OutputEvent::Bytes(0)).1 == (if has_child {
            OutputAction::WaitForChild
        } else {
            OutputAction::Close
        }),
        output_next(has_child, OutputStage::Wait, event).1 == OutputAction::Close,
        output_next(has_child, OutputStage::Read, event).1 is Close ==> event
            == OutputEvent::Bytes(0) || !(event is Bytes),
{
}

} // verus!
