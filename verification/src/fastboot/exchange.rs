//! One command of the host from its first packet to its last answer.
use vstd::prelude::*;
use vstd::string::*;

use crate::fastboot::{
    asks_for, check_download, data, fail, finish_command_result, is_usb_disconnect, means_gone,
    law_responses_are_their_letters_and_words, next_chunk, next_request, okay, response, shortened, size_digits, upload_reply, Command,
    CommandEnd, CommandFlow, CommandResult, FastbootError, Handler, Request, ServerStep, Status, UploadReply,
    MAX_DOWNLOAD_SIZE, TRANSFER_CHUNK,
};
use crate::bytes::utf8;
use crate::errors::ErrorKind;

verus! {

/// How far a command has come: what was asked for last.
#[derive(Clone, Copy, Debug, PartialEq, Eq, Structural)]
pub enum Stage {
    /// The last answer of a command that goes no further.
    Answering,
    /// The answer to a host that leaves.
    Leaving,
    /// The answer that staged data follows.
    UploadData,
    /// The staged data.
    UploadBytes,
    /// A place for a download.
    Prepare { size: u32 },
    /// The answer that a download is awaited.
    DownloadData { size: u32 },
    /// A piece of a download, with as many bytes to go before it.
    Receive { size: u32, remaining: u64 },
    /// The staging of a download.
    Keep,
    /// The answer that a download was staged.
    DownloadOkay,
    /// A command with a handler.
    Running,
    /// The action that follows an answered command.
    Acting,
}

/// What is to be done next for a command.
#[derive(Debug)]
pub enum Action {
    /// Write an answer to the host.
    Reply(Vec<u8>),
    /// Write an answer to the host as far as it goes without waiting.
    ReplyBestEffort(Vec<u8>),
    /// Send the staged data to the host.
    SendStaged,
    /// Make a file for as many bytes.
    Prepare(u32),
    /// Take as many bytes from the host into the file.
    Receive(u64),
    /// Stage the file, from its start, as a download of as many bytes.
    Keep(u32),
    /// Carry a command out.
    Run(Handler, String),
    /// Run the action that the command left behind.
    Act,
    /// The command is done.
    Finish(ServerStep),
    /// The error is handed up.
    HandUp,
}

/// What an action is to the one that performs it.
pub enum ActionView {
    Reply(Seq<u8>),
    ReplyBestEffort(Seq<u8>),
    SendStaged,
    Prepare(u32),
    Receive(u64),
    Keep(u32),
    Run(Handler, Seq<char>),
    Act,
    Finish(ServerStep),
    HandUp,
}

impl View for Action {
    type V = ActionView;

    open spec fn view(&self) -> ActionView {
        match self {
            Action::Reply(packet) => ActionView::Reply(packet@),
            Action::ReplyBestEffort(packet) => ActionView::ReplyBestEffort(packet@),
            Action::SendStaged => ActionView::SendStaged,
            Action::Prepare(size) => ActionView::Prepare(*size),
            Action::Receive(count) => ActionView::Receive(*count),
            Action::Keep(size) => ActionView::Keep(*size),
            Action::Run(handler, command) => ActionView::Run(*handler, command@),
            Action::Act => ActionView::Act,
            Action::Finish(step) => ActionView::Finish(*step),
            Action::HandUp => ActionView::HandUp,
        }
    }
}

/// What came of the last thing that was asked for.
#[derive(Debug)]
pub enum Event {
    Did,
    Ran(CommandResult),
    Failed { errno: Option<i32>, kind: ErrorKind, text: String },
}

/// The answer that a command failed, in words.
pub open spec fn refusal(text: Seq<char>) -> (Stage, ActionView) {
    (Stage::Answering, ActionView::Reply(response(Status::Fail, shortened(utf8(text)))))
}

/// The answer that a command was carried out, without words.
pub open spec fn consent() -> Seq<u8> {
    response(Status::Okay, shortened(Seq::empty()))
}

/// The answer that as many bytes follow or are awaited.
pub open spec fn announcement(size: u32) -> Seq<u8> {
    response(Status::Data, utf8(size_digits(size)))
}

/// The first thing that is done for a request, with as many bytes staged.
pub open spec fn first_action(request: Request, staged: Option<u64>) -> (Stage, ActionView) {
    match request {
        Request::Refuse(words) => refusal(words@),
        Request::Continue => (Stage::Leaving, ActionView::ReplyBestEffort(consent())),
        Request::Upload => match staged {
            None => refusal("no staged data"@),
            Some(len) => if len > u32::MAX {
                refusal("staged data too large"@)
            } else {
                (Stage::UploadData, ActionView::Reply(announcement(len as u32)))
            },
        },
        Request::Download(size) => if size > MAX_DOWNLOAD_SIZE {
            refusal(FastbootError::DownloadTooLarge.words())
        } else {
            (Stage::Prepare { size }, ActionView::Prepare(size))
        },
        Request::BadDownload(e) => refusal(e.words()),
        Request::Run(handler, command) => (Stage::Running, ActionView::Run(handler, command@)),
    }
}

/// The number of bytes that are taken at once, with `remaining` bytes to go.
pub open spec fn piece(remaining: u64) -> u64 {
    if remaining < TRANSFER_CHUNK {
        remaining
    } else {
        TRANSFER_CHUNK
    }
}

/// What is done for a download with `remaining` bytes to go.
pub open spec fn receiving(size: u32, remaining: u64) -> (Stage, ActionView) {
    if remaining == 0 {
        (Stage::Keep, ActionView::Keep(size))
    } else {
        (Stage::Receive { size, remaining }, ActionView::Receive(piece(remaining)))
    }
}

/// What a failure of a download or of a handler leads to: it is answered in words where the host
/// is still there.
pub open spec fn failing(
    stage: Stage,
    errno: Option<i32>,
    kind: ErrorKind,
    text: Seq<char>,
) -> (Stage, ActionView) {
    if means_gone(errno, kind) {
        (stage, ActionView::HandUp)
    } else {
        refusal(text)
    }
}

/// What a result of a handler leads to: an action is run where the server goes on, and handed out
/// where it is left.
pub open spec fn finished(result: CommandResult) -> (Stage, ActionView) {
    match (result.flow, result.action) {
        (CommandFlow::Continue, false) => (
            Stage::Running,
            ActionView::Finish(ServerStep::Continue),
        ),
        (CommandFlow::Continue, true) => (Stage::Acting, ActionView::Act),
        (CommandFlow::Exit, action) => (
            Stage::Running,
            ActionView::Finish(ServerStep::Exit(action)),
        ),
    }
}

/// What follows an event at a stage.
pub open spec fn next_action(stage: Stage, event: Event) -> (Stage, ActionView) {
    match stage {
        Stage::Answering => match event {
            Event::Failed { .. } => (stage, ActionView::HandUp),
            _ => (stage, ActionView::Finish(ServerStep::Continue)),
        },
        Stage::Leaving => (stage, ActionView::Finish(ServerStep::Exit(false))),
        Stage::UploadData => match event {
            Event::Failed { .. } => (stage, ActionView::HandUp),
            _ => (Stage::UploadBytes, ActionView::SendStaged),
        },
        Stage::UploadBytes => match event {
            Event::Failed { .. } => (stage, ActionView::HandUp),
            _ => (Stage::Answering, ActionView::Reply(consent())),
        },
        Stage::Prepare { size } => match event {
            Event::Failed { errno, kind, text } => failing(stage, errno, kind, text@),
            _ => (Stage::DownloadData { size }, ActionView::Reply(announcement(size))),
        },
        Stage::DownloadData { size } => match event {
            Event::Failed { errno, kind, text } => failing(stage, errno, kind, text@),
            _ => receiving(size, size as u64),
        },
        Stage::Receive { size, remaining } => match event {
            Event::Failed { errno, kind, text } => failing(stage, errno, kind, text@),
            _ => receiving(size, (remaining - piece(remaining)) as u64),
        },
        Stage::Keep => match event {
            Event::Failed { errno, kind, text } => failing(stage, errno, kind, text@),
            _ => (Stage::DownloadOkay, ActionView::Reply(consent())),
        },
        Stage::DownloadOkay => match event {
            Event::Failed { errno, kind, text } => failing(stage, errno, kind, text@),
            _ => (stage, ActionView::Finish(ServerStep::Continue)),
        },
        Stage::Running => match event {
            Event::Failed { errno, kind, text } => failing(stage, errno, kind, text@),
            Event::Ran(result) => finished(result),
            Event::Did => (stage, ActionView::Finish(ServerStep::Continue)),
        },
        Stage::Acting => (stage, ActionView::Finish(ServerStep::Continue)),
    }
}

fn refuse(text: &str) -> (r: (Stage, Action))
    ensures
        (r.0, r.1@) == refusal(text@),
{
    (Stage::Answering, Action::Reply(fail(text.as_bytes())))
}

fn consenting() -> (r: Vec<u8>)
    ensures
        r@ == consent(),
{
    let none: Vec<u8> = Vec::new();
    assert(none@ =~= Seq::<u8>::empty());
    okay(&none)
}

fn failed(stage: Stage, errno: Option<i32>, kind: ErrorKind, text: &str) -> (r: (Stage, Action))
    ensures
        (r.0, r.1@) == failing(stage, errno, kind, text@),
{
    if is_usb_disconnect(errno, kind) {
        (stage, Action::HandUp)
    } else {
        refuse(text)
    }
}

fn receive(size: u32, remaining: u64) -> (r: (Stage, Action))
    ensures
        (r.0, r.1@) == receiving(size, remaining),
{
    if remaining == 0 {
        (Stage::Keep, Action::Keep(size))
    } else {
        (Stage::Receive { size, remaining }, Action::Receive(next_chunk(remaining)))
    }
}

/// The first thing that is done for a packet of the host, with as many bytes staged.
pub fn run_once(commands: &[Command], packet: &[u8], staged: Option<u64>) -> (r: (Stage, Action))
    ensures
        exists|request: Request| #[trigger]
            asks_for(request, commands@, packet@) && (r.0, r.1@) == first_action(request, staged),
{
    let request = next_request(commands, packet);
    let ghost asked = request;
    let r = match request {
        Request::Refuse(words) => refuse(words),
        Request::Continue => (Stage::Leaving, Action::ReplyBestEffort(consenting())),
        Request::Upload => match upload_reply(staged) {
            UploadReply::Refuse(words) => refuse(words),
            UploadReply::Send(size) => (Stage::UploadData, Action::Reply(data(size))),
        },
        Request::Download(size) => match check_download(size) {
            Err(e) => refuse(e.message().as_str()),
            Ok(()) => (Stage::Prepare { size }, Action::Prepare(size)),
        },
        Request::BadDownload(e) => refuse(e.message().as_str()),
        Request::Run(handler, command) => (Stage::Running, Action::Run(handler, command)),
    };
    assert(asks_for(asked, commands@, packet@) && (r.0, r.1@) == first_action(asked, staged));
    r
}

/// What follows an event at a stage.
pub fn step(stage: Stage, event: Event) -> (r: (Stage, Action))
    ensures
        (r.0, r.1@) == next_action(stage, event),
{
    match stage {
        Stage::Answering => match event {
            Event::Failed { .. } => (stage, Action::HandUp),
            _ => (stage, Action::Finish(ServerStep::Continue)),
        },
        Stage::Leaving => (stage, Action::Finish(ServerStep::Exit(false))),
        Stage::UploadData => match event {
            Event::Failed { .. } => (stage, Action::HandUp),
            _ => (Stage::UploadBytes, Action::SendStaged),
        },
        Stage::UploadBytes => match event {
            Event::Failed { .. } => (stage, Action::HandUp),
            _ => (Stage::Answering, Action::Reply(consenting())),
        },
        Stage::Prepare { size } => match event {
            Event::Failed { errno, kind, text } => failed(stage, errno, kind, text.as_str()),
            _ => (Stage::DownloadData { size }, Action::Reply(data(size))),
        },
        Stage::DownloadData { size } => match event {
            Event::Failed { errno, kind, text } => failed(stage, errno, kind, text.as_str()),
            _ => receive(size, size as u64),
        },
        Stage::Receive { size, remaining } => match event {
            Event::Failed { errno, kind, text } => failed(stage, errno, kind, text.as_str()),
            _ => receive(size, remaining - next_chunk(remaining)),
        },
        Stage::Keep => match event {
            Event::Failed { errno, kind, text } => failed(stage, errno, kind, text.as_str()),
            _ => (Stage::DownloadOkay, Action::Reply(consenting())),
        },
        Stage::DownloadOkay => match event {
            Event::Failed { errno, kind, text } => failed(stage, errno, kind, text.as_str()),
            _ => (stage, Action::Finish(ServerStep::Continue)),
        },
        Stage::Running => match event {
            Event::Failed { errno, kind, text } => failed(stage, errno, kind, text.as_str()),
            Event::Ran(result) => match finish_command_result(result) {
                CommandEnd::Act => (Stage::Acting, Action::Act),
                CommandEnd::Step(step) => (stage, Action::Finish(step)),
            },
            Event::Did => (stage, Action::Finish(ServerStep::Continue)),
        },
        Stage::Acting => (stage, Action::Finish(ServerStep::Continue)),
    }
}

/// Where a download stands once `n` pieces that were asked for from a stage on have come.
pub open spec fn after_pieces(stage: Stage, n: nat) -> (Stage, ActionView)
    decreases n,
{
    if n == 0 {
        next_action(stage, Event::Did)
    } else {
        after_pieces(next_action(stage, Event::Did).0, (n - 1) as nat)
    }
}

/// The number of bytes of the first `n` pieces that are asked for from a stage on.
pub open spec fn bytes_of_pieces(stage: Stage, n: nat) -> int
    decreases n,
{
    if n == 0 {
        0
    } else {
        (match next_action(stage, Event::Did).1 {
            ActionView::Receive(count) => count as int,
            _ => 0,
        }) + bytes_of_pieces(next_action(stage, Event::Did).0, (n - 1) as nat)
    }
}

proof fn lemma_pieces(size: u32, remaining: u64, stage: Stage)
    requires
        next_action(stage, Event::Did) == receiving(size, remaining),
    ensures
        exists|n: nat| #[trigger]
            after_pieces(stage, n) == (Stage::Keep, ActionView::Keep(size)) && bytes_of_pieces(
                stage,
                n,
            ) == remaining,
    decreases remaining,
{
    if remaining == 0 {
        assert(after_pieces(stage, 0) == (Stage::Keep, ActionView::Keep(size)));
        assert(bytes_of_pieces(stage, 0) == 0);
    } else {
        let next = Stage::Receive { size, remaining };
        let rest = (remaining - piece(remaining)) as u64;
        lemma_pieces(size, rest, next);
        let n = choose|n: nat| #[trigger]
            after_pieces(next, n) == (Stage::Keep, ActionView::Keep(size)) && bytes_of_pieces(
                next,
                n,
            ) == rest;
        let more = n + 1;
        assert(after_pieces(stage, more) == after_pieces(next, n));
        assert(bytes_of_pieces(stage, more) == piece(remaining) + rest);
    }
}

/// A download that is announced and comes without failures is staged, whole: from the
/// announcement on, pieces are asked for until as many bytes have come as were announced.
pub proof fn law_downloads_are_staged_whole(size: u32)
    ensures
        exists|n: nat| #[trigger]
            after_pieces(Stage::DownloadData { size }, n) == (
                Stage::Keep,
                ActionView::Keep(size),
            ) && bytes_of_pieces(Stage::DownloadData { size }, n) == size,
{
    lemma_pieces(size, size as u64, Stage::DownloadData { size });
}

/// An error is handed up, without an answer, only where the host is gone, where the answer itself
/// could not be written, or where staged data could not be sent.
pub proof fn law_failures_are_answered(
    stage: Stage,
    errno: Option<i32>,
    kind: ErrorKind,
    text: String,
)
    requires
        !means_gone(errno, kind),
        next_action(stage, (Event::Failed { errno, kind, text })).1 is HandUp,
    ensures
        stage == Stage::Answering || stage == Stage::UploadData || stage == Stage::UploadBytes,
{
}

/// An action that follows an answered command leaves the server running, whatever comes of it: it
/// is run at once, and the next command is awaited after it also where it failed.
pub proof fn law_actions_leave_the_server_running(result: CommandResult, outcome: Event)
    requires
        result.flow == CommandFlow::Continue,
        result.action,
    ensures
        next_action(Stage::Running, Event::Ran(result)) == (Stage::Acting, ActionView::Act),
        next_action(Stage::Acting, outcome).1 == ActionView::Finish(ServerStep::Continue),
{
}

/// The server is left only by a host that asks for it, or by a handler.
pub proof fn law_only_continue_and_handlers_leave(stage: Stage, event: Event, action: bool)
    requires
        next_action(stage, event).1 == ActionView::Finish(ServerStep::Exit(action)),
    ensures
        stage == Stage::Leaving || (stage == Stage::Running && event is Ran),
{
}

/// The letters of a size that is announced: `DATA` and the eight digits of the size.
pub open spec fn told_size(size: u32) -> Seq<u8> {
    seq![0x44u8, 0x41u8, 0x54u8, 0x41u8] + utf8(size_digits(size))
}

/// What is staged is sent to a host that asks for it: its size is announced, its bytes follow, and
/// behind them comes `OKAY`; where nothing is staged, or too much, the host is refused.
pub proof fn law_staged_data_is_sent(len: u64)
    ensures
        len <= u32::MAX ==> first_action(Request::Upload, Some(len)) == (
            Stage::UploadData,
            ActionView::Reply(told_size(len as u32)),
        ),
        next_action(Stage::UploadData, Event::Did).1 == ActionView::SendStaged,
        next_action(next_action(Stage::UploadData, Event::Did).0, Event::Did).1
            == ActionView::Reply(seq![0x4fu8, 0x4bu8, 0x41u8, 0x59u8]),
        next_action(
            next_action(next_action(Stage::UploadData, Event::Did).0, Event::Did).0,
            Event::Did,
        ).1 == ActionView::Finish(ServerStep::Continue),
        len > u32::MAX ==> first_action(Request::Upload, Some(len)).0 == Stage::Answering,
        first_action(Request::Upload, None).0 == Stage::Answering,
{
    law_responses_are_their_letters_and_words(Seq::empty());
    assert(announcement(len as u32) =~= told_size(len as u32));
    assert(consent() =~= seq![0x4fu8, 0x4bu8, 0x41u8, 0x59u8]);
}

/// A download of up to 256 mebibytes is announced to the host before it is taken, and answered with
/// `OKAY` once it is staged; a greater one is refused.
pub proof fn law_downloads_are_announced(size: u32)
    ensures
        size <= 0x1000_0000 ==> first_action(Request::Download(size), None) == (
            Stage::Prepare { size },
            ActionView::Prepare(size),
        ),
        size > 0x1000_0000 ==> first_action(Request::Download(size), None).0 == Stage::Answering,
        next_action(Stage::Prepare { size }, Event::Did) == (
            Stage::DownloadData { size },
            ActionView::Reply(told_size(size)),
        ),
        next_action(Stage::Keep, Event::Did) == (
            Stage::DownloadOkay,
            ActionView::Reply(seq![0x4fu8, 0x4bu8, 0x41u8, 0x59u8]),
        ),
        next_action(Stage::DownloadOkay, Event::Did).1 == ActionView::Finish(ServerStep::Continue),
{
    law_responses_are_their_letters_and_words(Seq::empty());
    assert(announcement(size) =~= told_size(size));
    assert(consent() =~= seq![0x4fu8, 0x4bu8, 0x41u8, 0x59u8]);
}

/// What fails while the host is there is told to it in words: the answer is `FAIL` and the words, as
/// far as sixty bytes go, and the next command is awaited behind it.
pub proof fn law_failures_are_told_in_words(
    stage: Stage,
    errno: Option<i32>,
    kind: ErrorKind,
    text: String,
)
    requires
        !means_gone(errno, kind),
        stage is Prepare || stage is DownloadData || stage is Receive || stage is Keep
            || stage is DownloadOkay || stage is Running,
        utf8(text@).len() <= 60,
    ensures
        next_action(stage, (Event::Failed { errno, kind, text })) == (
            Stage::Answering,
            ActionView::Reply(seq![0x46u8, 0x41u8, 0x49u8, 0x4cu8] + utf8(text@)),
        ),
        next_action(Stage::Answering, Event::Did).1 == ActionView::Finish(ServerStep::Continue),
{
    law_responses_are_their_letters_and_words(utf8(text@));
}

/// Each request is met: a command is handed to its handler as it is; `continue` is answered with
/// `OKAY`, and the server is left behind it; a handler that asks for the server to be left leaves it,
/// with its action where it has one, and any other has the next command awaited.
pub proof fn law_requests_are_met(handler: Handler, command: String, event: Event, action: bool)
    ensures
        first_action(Request::Run(handler, command), None) == (
            Stage::Running,
            ActionView::Run(handler, command@),
        ),
        first_action(Request::Continue, None) == (
            Stage::Leaving,
            ActionView::ReplyBestEffort(seq![0x4fu8, 0x4bu8, 0x41u8, 0x59u8]),
        ),
        next_action(Stage::Leaving, event).1 == ActionView::Finish(ServerStep::Exit(false)),
        next_action(
            Stage::Running,
            Event::Ran(CommandResult { flow: CommandFlow::Exit, action }),
        ).1 == ActionView::Finish(ServerStep::Exit(action)),
        next_action(
            Stage::Running,
            Event::Ran(CommandResult { flow: CommandFlow::Continue, action: false }),
        ).1 == ActionView::Finish(ServerStep::Continue),
        next_action(Stage::Running, Event::Did).1 == ActionView::Finish(ServerStep::Continue),
{
    law_responses_are_their_letters_and_words(Seq::empty());
    assert(consent() =~= seq![0x4fu8, 0x4bu8, 0x41u8, 0x59u8]);
}

} // verus!
