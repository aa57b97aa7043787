//! The fastboot protocol: commands, responses and transfers.
pub mod boot;
pub mod cat;
pub mod dmesg;
pub mod exchange;
pub mod flash;
pub mod getvar;
pub mod shell;
pub mod slots;
pub mod ums;

use vstd::prelude::*;
use vstd::string::*;
use vstd::utf8::*;

use crate::bytes::{
    c_bytes, chunks, concat, law_chunks_join, lemma_next_byte, next_byte, parts, push_bytes,
    until_zero, utf8,
};
use crate::errors::ErrorKind;
use crate::text::{
    after_prefix, begins_with, chars, decode, hex, hex_padded, law_eight_digits_are_read_back,
    owned, padded, parse_number, parse_unsigned, same_text, strip_prefix,
};

verus! {

/// The greatest length of a command.
pub const COMMAND_MAX: usize = 64;

/// The greatest number of bytes that can be downloaded.
pub const MAX_DOWNLOAD_SIZE: u32 = 0x1000_0000;

/// The greatest number of bytes that are moved at once.
pub const TRANSFER_CHUNK: u64 = 0x10_0000;

/// The greatest length of what follows the status of a response.
pub const RESPONSE_PAYLOAD_MAX: usize = 60;

/// The status of a response.
#[derive(Clone, Copy, Debug, PartialEq, Eq, Structural)]
pub enum Status {
    Info,
    Okay,
    Fail,
    Data,
}

impl Status {
    /// The four letters that a response starts with.
    pub open spec fn letters(self) -> Seq<u8> {
        match self {
            Status::Info => seq![0x49u8, 0x4eu8, 0x46u8, 0x4fu8],
            Status::Okay => seq![0x4fu8, 0x4bu8, 0x41u8, 0x59u8],
            Status::Fail => seq![0x46u8, 0x41u8, 0x49u8, 0x4cu8],
            Status::Data => seq![0x44u8, 0x41u8, 0x54u8, 0x41u8],
        }
    }

    fn code(self) -> (r: [u8; 4])
        ensures
            r@ == self.letters(),
    {
        let r: [u8; 4] = match self {
            Status::Info => [0x49, 0x4e, 0x46, 0x4f],
            Status::Okay => [0x4f, 0x4b, 0x41, 0x59],
            Status::Fail => [0x46, 0x41, 0x49, 0x4c],
            Status::Data => [0x44, 0x41, 0x54, 0x41],
        };
        assert(r@ =~= self.letters());
        r
    }
}

/// Why something was refused.
#[derive(Clone, Copy, Debug, PartialEq, Eq, Structural)]
pub enum FastbootError {
    PayloadTooLarge,
    DownloadDigits,
    DownloadSize,
    DownloadTooLarge,
}

impl FastbootError {
    /// The kind of the error.
    pub fn kind(self) -> (k: ErrorKind)
        ensures
            k == ErrorKind::InvalidInput,
    {
        ErrorKind::InvalidInput
    }

    /// The error in words.
    pub open spec fn words(self) -> Seq<char> {
        match self {
            FastbootError::PayloadTooLarge => "fastboot response payload too large"@,
            FastbootError::DownloadDigits => "download size must be 8 hex digits"@,
            FastbootError::DownloadSize => "invalid download size"@,
            FastbootError::DownloadTooLarge =>
                "download size exceeds max-download-size 0x10000000"@,
        }
    }

    /// The error in words.
    pub fn message(self) -> (s: String)
        ensures
            s@ == self.words(),
    {
        match self {
            FastbootError::PayloadTooLarge => owned("fastboot response payload too large"),
            FastbootError::DownloadDigits => owned("download size must be 8 hex digits"),
            FastbootError::DownloadSize => owned("invalid download size"),
            FastbootError::DownloadTooLarge => owned(
                "download size exceeds max-download-size 0x10000000",
            ),
        }
    }
}

/// A response: the status, then the payload.
pub open spec fn response(status: Status, payload: Seq<u8>) -> Seq<u8> {
    status.letters() + payload
}

/// `data` cut off behind 60 bytes.
pub open spec fn shortened(data: Seq<u8>) -> Seq<u8> {
    if data.len() <= RESPONSE_PAYLOAD_MAX {
        data
    } else {
        data.take(RESPONSE_PAYLOAD_MAX as int)
    }
}

/// The response of a status with a payload.
pub fn packet(status: Status, payload: &[u8]) -> (r: Result<Vec<u8>, FastbootError>)
    ensures
        match r {
            Ok(packet) => payload@.len() <= RESPONSE_PAYLOAD_MAX && packet@ == response(
                status,
                payload@,
            ),
            Err(e) => payload@.len() > RESPONSE_PAYLOAD_MAX && e == FastbootError::PayloadTooLarge,
        },
{
    if payload.len() > RESPONSE_PAYLOAD_MAX {
        return Err(FastbootError::PayloadTooLarge);
    }
    let mut out: Vec<u8> = Vec::new();
    push_bytes(&mut out, status.code().as_slice());
    push_bytes(&mut out, payload);
    assert(out@ =~= response(status, payload@));
    Ok(out)
}

/// The response of a status with as much of a message as fits.
pub fn packet_truncated(status: Status, message: &[u8]) -> (r: Vec<u8>)
    ensures
        r@ == response(status, shortened(message@)),
{
    let end = if message.len() <= RESPONSE_PAYLOAD_MAX {
        message.len()
    } else {
        RESPONSE_PAYLOAD_MAX
    };
    let payload = &message[0..end];
    assert(payload@ =~= shortened(message@));
    let mut out: Vec<u8> = Vec::new();
    push_bytes(&mut out, status.code().as_slice());
    push_bytes(&mut out, payload);
    assert(out@ =~= response(status, payload@));
    out
}

/// The response that a command was carried out.
pub fn okay(message: &[u8]) -> (r: Vec<u8>)
    ensures
        r@ == response(Status::Okay, shortened(message@)),
{
    packet_truncated(Status::Okay, message)
}

/// The response that a command failed.
pub fn fail(message: &[u8]) -> (r: Vec<u8>)
    ensures
        r@ == response(Status::Fail, shortened(message@)),
{
    packet_truncated(Status::Fail, message)
}

/// `size` with eight hexadecimal digits.
pub open spec fn size_digits(size: u32) -> Seq<char> {
    padded(hex(size as int), 8, '0')
}

/// The response that `size` bytes of data follow or are awaited.
pub fn data(size: u32) -> (r: Vec<u8>)
    ensures
        r@ == response(Status::Data, utf8(size_digits(size))),
{
    let digits = hex_padded(size as u64, 8);
    let mut out: Vec<u8> = Vec::new();
    push_bytes(&mut out, Status::Data.code().as_slice());
    push_bytes(&mut out, digits.as_str().as_bytes());
    assert(out@ =~= response(Status::Data, utf8(size_digits(size))));
    out
}

/// The responses that tell a message.
pub open spec fn info_packets(message: Seq<u8>) -> Seq<Seq<u8>> {
    chunks(message, RESPONSE_PAYLOAD_MAX as int).map_values(
        |piece: Seq<u8>| response(Status::Info, piece),
    )
}

/// The responses that tell a message.
pub fn info(message: &[u8]) -> (r: Vec<Vec<u8>>)
    ensures
        parts(r@) == info_packets(message@),
{
    let mut out: Vec<Vec<u8>> = Vec::new();
    let mut at: usize = 0;
    let n = message.len();
    assert(message@.skip(0) =~= message@);
    assert(parts(out@) + info_packets(message@) =~= info_packets(message@));
    while at < n
        invariant
            at <= n,
            n == message@.len(),
            parts(out@) + info_packets(message@.skip(at as int)) == info_packets(message@),
        decreases n - at,
    {
        let end = if n - at <= RESPONSE_PAYLOAD_MAX {
            n
        } else {
            at + RESPONSE_PAYLOAD_MAX
        };
        let mut one: Vec<u8> = Vec::new();
        push_bytes(&mut one, Status::Info.code().as_slice());
        push_bytes(&mut one, &message[at..end]);
        let ghost before = parts(out@);
        let ghost rest = message@.skip(at as int);
        let ghost piece = message@.subrange(at as int, end as int);
        assert(one@ =~= response(Status::Info, piece));
        out.push(one);
        proof {
            assert(parts(out@) =~= before.push(one@));
            let more = info_packets(message@.skip(end as int));
            if rest.len() <= RESPONSE_PAYLOAD_MAX {
                assert(piece =~= rest);
                assert(message@.skip(end as int) =~= Seq::<u8>::empty());
                assert(info_packets(rest) =~= seq![one@]);
                assert(more =~= Seq::<Seq<u8>>::empty());
            } else {
                assert(piece =~= rest.take(RESPONSE_PAYLOAD_MAX as int));
                assert(message@.skip(end as int) =~= rest.skip(RESPONSE_PAYLOAD_MAX as int));
                assert(info_packets(rest) =~= seq![one@] + more);
            }
            assert(before + (seq![one@] + more) =~= parts(out@) + more);
        }
        at = end;
    }
    proof {
        assert(message@.skip(at as int) =~= Seq::<u8>::empty());
        assert(parts(out@) =~= parts(out@) + info_packets(message@.skip(at as int)));
    }
    out
}

/// No response is longer than 64 bytes, and the responses that tell a message hold all of it in
/// order.
pub proof fn law_responses_fit(message: Seq<u8>, status: Status)
    ensures
        response(status, shortened(message)).len() <= COMMAND_MAX,
        forall|i: int|
            0 <= i < info_packets(message).len() ==> (#[trigger] info_packets(message)[i]).len()
                <= COMMAND_MAX,
        concat(info_packets(message).map_values(|one: Seq<u8>| one.skip(4))) == message,
{
    let list = chunks(message, RESPONSE_PAYLOAD_MAX as int);
    law_chunks_join(message, RESPONSE_PAYLOAD_MAX as int);
    assert forall|i: int| 0 <= i < info_packets(message).len() implies (
    #[trigger] info_packets(message)[i]).len() <= COMMAND_MAX by {
        assert(info_packets(message)[i] == response(Status::Info, list[i]));
    }
    let stripped = info_packets(message).map_values(|one: Seq<u8>| one.skip(4));
    assert forall|i: int| 0 <= i < list.len() implies stripped[i] == list[i] by {
        assert(response(Status::Info, list[i]).skip(4) =~= list[i]);
    }
    assert(stripped =~= list);
}

/// What carries a command out.
#[derive(Clone, Copy, Debug, PartialEq, Eq, Structural)]
pub enum Handler {
    Boot,
    KexecLoad,
    KexecStatus,
    Getvar,
    Flash,
    Erase,
    SetActive,
    Cat,
    Dmesg,
    Shell,
    ShellStaged,
    UmsStart,
    UmsStop,
    Reboot,
}

/// How a command is recognised: as a whole, or by what it starts with.
#[derive(Clone, Copy, Debug, PartialEq, Eq, Structural)]
pub enum CommandMatch {
    Exact,
    Prefix,
}

/// A command and what carries it out.
#[derive(Clone, Copy, Debug)]
pub struct Command {
    pub name: &'static str,
    pub match_kind: CommandMatch,
    pub handler: Handler,
}

impl Command {
    /// A command that is recognised as a whole.
    pub fn exact(name: &'static str, handler: Handler) -> (c: Command)
        ensures
            c == (Command { name, match_kind: CommandMatch::Exact, handler }),
    {
        Command { name, match_kind: CommandMatch::Exact, handler }
    }

    /// A command that is recognised by what it starts with.
    pub fn prefix(prefix: &'static str, handler: Handler) -> (c: Command)
        ensures
            c == (Command { name: prefix, match_kind: CommandMatch::Prefix, handler }),
    {
        Command { name: prefix, match_kind: CommandMatch::Prefix, handler }
    }
}

/// Whether a command is the entry, as a whole.
pub open spec fn exactly(entry: Command, command: Seq<char>) -> bool {
    entry.match_kind == CommandMatch::Exact && entry.name@ == command
}

/// Whether a command starts as the entry says.
pub open spec fn starts_as(entry: Command, command: Seq<char>) -> bool {
    entry.match_kind == CommandMatch::Prefix && entry.name@.is_prefix_of(command)
}

/// The first entry from number `i` on that is the command as a whole.
pub open spec fn exact_from(commands: Seq<Command>, command: Seq<char>, i: int) -> Option<Handler>
    decreases commands.len() - i,
{
    if i < 0 || i >= commands.len() {
        None
    } else if exactly(commands[i], command) {
        Some(commands[i].handler)
    } else {
        exact_from(commands, command, i + 1)
    }
}

/// The first entry from number `i` on that the command starts as.
pub open spec fn prefix_from(commands: Seq<Command>, command: Seq<char>, i: int) -> Option<Handler>
    decreases commands.len() - i,
{
    if i < 0 || i >= commands.len() {
        None
    } else if starts_as(commands[i], command) {
        Some(commands[i].handler)
    } else {
        prefix_from(commands, command, i + 1)
    }
}

/// What carries a command out: an entry that is the command as a whole comes before one that the
/// command only starts as.
pub open spec fn handler_for(commands: Seq<Command>, command: Seq<char>) -> Option<Handler> {
    match exact_from(commands, command, 0) {
        Some(handler) => Some(handler),
        None => prefix_from(commands, command, 0),
    }
}

/// What carries a command out.
pub fn find_command_handler(commands: &[Command], command: &str) -> (r: Option<Handler>)
    ensures
        r == handler_for(commands@, command@),
{
    let mut i: usize = 0;
    while i < commands.len()
        invariant
            i <= commands@.len(),
            exact_from(commands@, command@, 0) == exact_from(commands@, command@, i as int),
        decreases commands@.len() - i,
    {
        let entry = commands[i];
        if entry.match_kind == CommandMatch::Exact && same_text(entry.name, command) {
            return Some(entry.handler);
        }
        i += 1;
    }
    i = 0;
    while i < commands.len()
        invariant
            i <= commands@.len(),
            exact_from(commands@, command@, 0) is None,
            prefix_from(commands@, command@, 0) == prefix_from(commands@, command@, i as int),
        decreases commands@.len() - i,
    {
        let entry = commands[i];
        if entry.match_kind == CommandMatch::Prefix && begins_with(command, entry.name) {
            return Some(entry.handler);
        }
        i += 1;
    }
    None
}

/// The commands that boot an image.
pub fn boot_commands() -> (r: Vec<Command>)
    ensures
        r@.len() == 3,
        r@[0].match_kind == CommandMatch::Exact && r@[0].name@ == "boot"@ && r@[0].handler
            == Handler::Boot,
        r@[1].match_kind == CommandMatch::Exact && r@[1].name@ == "oem kexec-load"@ && r@[1].handler
            == Handler::KexecLoad,
        r@[2].match_kind == CommandMatch::Exact && r@[2].name@ == "oem kexec-status"@
            && r@[2].handler == Handler::KexecStatus,
{
    vec![
        Command::exact("boot", Handler::Boot),
        Command::exact("oem kexec-load", Handler::KexecLoad),
        Command::exact("oem kexec-status", Handler::KexecStatus),
    ]
}

/// The commands that show what the device holds.
pub fn diagnostic_commands() -> (r: Vec<Command>)
    ensures
        r@.len() == 4,
        r@[0].match_kind == CommandMatch::Prefix && r@[0].name@ == "oem cat:"@ && r@[0].handler
            == Handler::Cat,
        r@[1].match_kind == CommandMatch::Exact && r@[1].name@ == "oem dmesg"@ && r@[1].handler
            == Handler::Dmesg,
        r@[2].match_kind == CommandMatch::Prefix && r@[2].name@ == "oem shell:"@ && r@[2].handler
            == Handler::Shell,
        r@[3].match_kind == CommandMatch::Exact && r@[3].name@ == "oem shell-staged"@
            && r@[3].handler == Handler::ShellStaged,
{
    vec![
        Command::prefix("oem cat:", Handler::Cat),
        Command::exact("oem dmesg", Handler::Dmesg),
        Command::prefix("oem shell:", Handler::Shell),
        Command::exact("oem shell-staged", Handler::ShellStaged),
    ]
}

/// The commands that tell variables.
pub fn getvar_commands() -> (r: Vec<Command>)
    ensures
        r@.len() == 1,
        r@[0].match_kind == CommandMatch::Prefix && r@[0].name@ == "getvar:"@ && r@[0].handler
            == Handler::Getvar,
{
    vec![Command::prefix("getvar:", Handler::Getvar)]
}

/// The commands that write partitions.
pub fn flash_commands() -> (r: Vec<Command>)
    ensures
        r@.len() == 2,
        r@[0].match_kind == CommandMatch::Prefix && r@[0].name@ == "flash:"@ && r@[0].handler
            == Handler::Flash,
        r@[1].match_kind == CommandMatch::Prefix && r@[1].name@ == "erase:"@ && r@[1].handler
            == Handler::Erase,
{
    vec![Command::prefix("flash:", Handler::Flash), Command::prefix("erase:", Handler::Erase)]
}

/// The commands that choose a slot.
pub fn slot_commands() -> (r: Vec<Command>)
    ensures
        r@.len() == 1,
        r@[0].match_kind == CommandMatch::Prefix && r@[0].name@ == "set_active:"@ && r@[0].handler
            == Handler::SetActive,
{
    vec![Command::prefix("set_active:", Handler::SetActive)]
}

/// The commands that lend disks to the host.
pub fn ums_commands() -> (r: Vec<Command>)
    ensures
        r@.len() == 2,
        r@[0].match_kind == CommandMatch::Prefix && r@[0].name@ == "oem ums-start:"@
            && r@[0].handler == Handler::UmsStart,
        r@[1].match_kind == CommandMatch::Prefix && r@[1].name@ == "oem ums-stop:"@ && r@[1].handler
            == Handler::UmsStop,
{
    vec![
        Command::prefix("oem ums-start:", Handler::UmsStart),
        Command::prefix("oem ums-stop:", Handler::UmsStop),
    ]
}

/// The command that restarts the device.
pub fn reboot_command() -> (r: Command)
    ensures
        r.match_kind == CommandMatch::Exact && r.name@ == "reboot"@ && r.handler
            == Handler::Reboot,
{
    Command::exact("reboot", Handler::Reboot)
}

/// Whether an entry is the given command.
pub open spec fn is_entry(
    entry: Command,
    kind: CommandMatch,
    name: Seq<char>,
    handler: Handler,
) -> bool {
    entry.match_kind == kind && entry.name@ == name && entry.handler == handler
}

/// All commands, in the order in which they are looked through.
pub fn fastboot_commands() -> (r: Vec<Command>)
    ensures
        r@.len() == 14,
        is_entry(r@[0], CommandMatch::Exact, "boot"@, Handler::Boot),
        is_entry(r@[1], CommandMatch::Exact, "oem kexec-load"@, Handler::KexecLoad),
        is_entry(r@[2], CommandMatch::Exact, "oem kexec-status"@, Handler::KexecStatus),
        is_entry(r@[3], CommandMatch::Prefix, "getvar:"@, Handler::Getvar),
        is_entry(r@[4], CommandMatch::Prefix, "flash:"@, Handler::Flash),
        is_entry(r@[5], CommandMatch::Prefix, "erase:"@, Handler::Erase),
        is_entry(r@[6], CommandMatch::Prefix, "set_active:"@, Handler::SetActive),
        is_entry(r@[7], CommandMatch::Prefix, "oem cat:"@, Handler::Cat),
        is_entry(r@[8], CommandMatch::Exact, "oem dmesg"@, Handler::Dmesg),
        is_entry(r@[9], CommandMatch::Prefix, "oem shell:"@, Handler::Shell),
        is_entry(r@[10], CommandMatch::Exact, "oem shell-staged"@, Handler::ShellStaged),
        is_entry(r@[11], CommandMatch::Prefix, "oem ums-start:"@, Handler::UmsStart),
        is_entry(r@[12], CommandMatch::Prefix, "oem ums-stop:"@, Handler::UmsStop),
        is_entry(r@[13], CommandMatch::Exact, "reboot"@, Handler::Reboot),
{
    let mut commands = boot_commands();
    commands.append(&mut getvar_commands());
    commands.append(&mut flash_commands());
    commands.append(&mut slot_commands());
    commands.append(&mut diagnostic_commands());
    commands.append(&mut ums_commands());
    commands.push(reboot_command());
    commands
}

/// The size that a `download:` command asks for.
pub open spec fn download_size(command: Seq<char>) -> Result<Option<u32>, FastbootError> {
    match after_prefix(command, "download:"@) {
        None => Ok(None),
        Some(size) => if utf8(size).len() != 8 {
            Err(FastbootError::DownloadDigits)
        } else {
            match parse_number(size, 16, u32::MAX as nat) {
                None => Err(FastbootError::DownloadSize),
                Some(n) => Ok(Some(n as u32)),
            }
        },
    }
}

/// The size that a `download:` command asks for.
pub fn parse_download_command(command: &str) -> (r: Result<Option<u32>, FastbootError>)
    ensures
        r == download_size(command@),
{
    match strip_prefix(command, "download:") {
        None => Ok(None),
        Some(size) => {
            if size.as_bytes().len() != 8 {
                return Err(FastbootError::DownloadDigits);
            }
            let digits = chars(size);
            match parse_unsigned(&digits, 16, u32::MAX as u64) {
                None => Err(FastbootError::DownloadSize),
                Some(n) => Ok(Some(n as u32)),
            }
        },
    }
}

/// What a packet of the host asks for.
#[derive(Debug)]
pub enum Request {
    /// The packet is no text, or no command is known by it; the words are those of the answer.
    Refuse(&'static str),
    /// The server is left.
    Continue,
    /// What is staged is sent to the host.
    Upload,
    /// Bytes are taken from the host.
    Download(u32),
    /// A download that is refused.
    BadDownload(FastbootError),
    /// A command with its handler.
    Run(Handler, String),
}

/// Whether a packet of the host asks for `request`.
pub open spec fn asks_for(request: Request, commands: Seq<Command>, packet: Seq<u8>) -> bool {
    let bytes = c_bytes(packet);
    let command = decode_utf8(bytes);
    if !valid_utf8(bytes) {
        request matches Request::Refuse(words) && words@ == "unrecognized command"@
    } else if command == "continue"@ {
        request is Continue
    } else if command == "upload"@ || command == "get_staged"@ {
        request is Upload
    } else if "download:"@.is_prefix_of(command) {
        match download_size(command) {
            Ok(Some(size)) => request == Request::Download(size),
            Ok(None) => false,
            Err(e) => request == Request::BadDownload(e),
        }
    } else {
        match handler_for(commands, command) {
            Some(handler) => request matches Request::Run(found, text) && found == handler && text@
                == command,
            None => request matches Request::Refuse(words) && words@ == "unsupported command"@,
        }
    }
}

/// What a packet of the host asks for.
pub fn next_request(commands: &[Command], packet: &[u8]) -> (r: Request)
    ensures
        asks_for(r, commands@, packet@),
{
    let command = match decode(until_zero(packet)) {
        None => {
            return Request::Refuse("unrecognized command");
        },
        Some(command) => command,
    };
    let text = command.as_str();
    if same_text(text, "continue") {
        return Request::Continue;
    }
    if same_text(text, "upload") || same_text(text, "get_staged") {
        return Request::Upload;
    }
    if begins_with(text, "download:") {
        return match parse_download_command(text) {
            Ok(Some(size)) => Request::Download(size),
            Err(e) => Request::BadDownload(e),
            Ok(None) => {
                assert(false);
                Request::Continue
            },
        };
    }
    match find_command_handler(commands, text) {
        Some(handler) => Request::Run(handler, command),
        None => Request::Refuse("unsupported command"),
    }
}

/// Whether an error of the transport means that the host is gone.
pub open spec fn means_gone(errno: Option<i32>, kind: ErrorKind) -> bool {
    ||| errno == Some(108i32)
    ||| errno == Some(32i32)
    ||| errno == Some(19i32)
    ||| errno == Some(104i32)
    ||| errno == Some(5i32)
    ||| kind == ErrorKind::BrokenPipe
    ||| kind == ErrorKind::ConnectionAborted
    ||| kind == ErrorKind::ConnectionReset
    ||| kind == ErrorKind::NotConnected
}

/// Whether an error of the transport means that the host is gone, by its number (`ESHUTDOWN`,
/// `EPIPE`, `ENODEV`, `ECONNRESET` or `EIO`) or by its kind.
pub fn is_usb_disconnect(errno: Option<i32>, kind: ErrorKind) -> (r: bool)
    ensures
        r == means_gone(errno, kind),
{
    (match errno {
        Some(n) => n == 108 || n == 32 || n == 19 || n == 104 || n == 5,
        None => false,
    }) || kind == ErrorKind::BrokenPipe || kind == ErrorKind::ConnectionAborted || kind
        == ErrorKind::ConnectionReset || kind == ErrorKind::NotConnected
}

/// Whether a command leaves the server.
#[derive(Clone, Copy, Debug, PartialEq, Eq, Structural)]
pub enum CommandFlow {
    Continue,
    Exit,
}

/// What a command comes to once it is answered: whether the server is left, and whether an action
/// follows.
#[derive(Clone, Copy, Debug, PartialEq, Eq, Structural)]
pub struct CommandResult {
    pub flow: CommandFlow,
    pub action: bool,
}

impl CommandResult {
    /// The server goes on.
    pub fn continue_() -> (r: CommandResult)
        ensures
            r == (CommandResult { flow: CommandFlow::Continue, action: false }),
    {
        CommandResult { flow: CommandFlow::Continue, action: false }
    }

    /// An action follows, then the server goes on.
    pub fn continue_then() -> (r: CommandResult)
        ensures
            r == (CommandResult { flow: CommandFlow::Continue, action: true }),
    {
        CommandResult { flow: CommandFlow::Continue, action: true }
    }

    /// The server is left, with or without an action.
    pub fn exit(action: bool) -> (r: CommandResult)
        ensures
            r == (CommandResult { flow: CommandFlow::Exit, action }),
    {
        CommandResult { flow: CommandFlow::Exit, action }
    }
}

/// What the server does once a command is answered.
#[derive(Clone, Copy, Debug, PartialEq, Eq, Structural)]
pub enum ServerStep {
    /// The next command is awaited.
    Continue,
    /// The server is left; the action, where there is one, is handed out.
    Exit(bool),
}

/// What follows the answer to a command.
#[derive(Clone, Copy, Debug, PartialEq, Eq, Structural)]
pub enum CommandEnd {
    /// The action is run first.
    Act,
    /// The server goes on or is left.
    Step(ServerStep),
}

/// What follows the answer to a command: an action is run here where the server goes on, and
/// handed out where it is left.
pub fn finish_command_result(result: CommandResult) -> (r: CommandEnd)
    ensures
        r == (match (result.flow, result.action) {
            (CommandFlow::Continue, false) => CommandEnd::Step(ServerStep::Continue),
            (CommandFlow::Continue, true) => CommandEnd::Act,
            (CommandFlow::Exit, action) => CommandEnd::Step(ServerStep::Exit(action)),
        }),
{
    match result.flow {
        CommandFlow::Continue => if result.action {
            CommandEnd::Act
        } else {
            CommandEnd::Step(ServerStep::Continue)
        },
        CommandFlow::Exit => CommandEnd::Step(ServerStep::Exit(result.action)),
    }
}

/// How the server takes an error of a command or of a download.
#[derive(Clone, Copy, Debug, PartialEq, Eq, Structural)]
pub enum FailureReply {
    /// The host is gone: nothing is answered, and the error is handed up.
    HandUp,
    /// The error is answered in words.
    Answer,
}

/// How the server takes an error of a command or of a download.
pub fn failure_reply(errno: Option<i32>, kind: ErrorKind) -> (r: FailureReply)
    ensures
        r == (if means_gone(errno, kind) {
            FailureReply::HandUp
        } else {
            FailureReply::Answer
        }),
{
    if is_usb_disconnect(errno, kind) {
        FailureReply::HandUp
    } else {
        FailureReply::Answer
    }
}

/// What came of one command.
#[derive(Clone, Copy, Debug, PartialEq, Eq, Structural)]
pub enum Outcome {
    Continue,
    Exit,
    Failed { errno: Option<i32>, kind: ErrorKind },
}

/// What the server does next.
#[derive(Clone, Copy, Debug, PartialEq, Eq, Structural)]
pub enum ServerAction {
    /// The next command is awaited. The flag tells that the host is back.
    Await(bool),
    /// The server ends well.
    Leave,
    /// A while is waited for the host. The flag tells that the host has just gone.
    Wait(bool),
    /// The server ends with the error.
    Fail,
}

/// What the server does next, and whether the host is held to be gone from then on.
pub open spec fn server_next(disconnected: bool, outcome: Outcome) -> (ServerAction, bool) {
    match outcome {
        Outcome::Continue => (ServerAction::Await(disconnected), false),
        Outcome::Exit => (ServerAction::Leave, disconnected),
        Outcome::Failed { errno, kind } => if means_gone(errno, kind) {
            (ServerAction::Wait(!disconnected), true)
        } else {
            (ServerAction::Fail, disconnected)
        },
    }
}

/// What the server does next, and whether the host is held to be gone from then on.
pub fn server_step(disconnected: bool, outcome: Outcome) -> (r: (ServerAction, bool))
    ensures
        r == server_next(disconnected, outcome),
{
    match outcome {
        Outcome::Continue => (ServerAction::Await(disconnected), false),
        Outcome::Exit => (ServerAction::Leave, disconnected),
        Outcome::Failed { errno, kind } => if is_usb_disconnect(errno, kind) {
            (ServerAction::Wait(!disconnected), true)
        } else {
            (ServerAction::Fail, disconnected)
        },
    }
}

/// The server waits for a lost host as long as it takes: only a command, or an error that does not
/// mean that the host is gone, ends it.
pub proof fn law_lost_hosts_are_awaited(disconnected: bool, outcome: Outcome)
    ensures
        server_next(disconnected, outcome).0 is Leave <==> outcome is Exit,
        server_next(disconnected, outcome).0 is Fail <==> (outcome matches Outcome::Failed {
            errno,
            kind,
        } && !means_gone(errno, kind)),
{
}

/// Refuses a download that is too large.
pub fn check_download(size: u32) -> (r: Result<(), FastbootError>)
    ensures
        r == (if size > MAX_DOWNLOAD_SIZE {
            Err::<(), FastbootError>(FastbootError::DownloadTooLarge)
        } else {
            Ok(())
        }),
{
    if size > MAX_DOWNLOAD_SIZE {
        Err(FastbootError::DownloadTooLarge)
    } else {
        Ok(())
    }
}

/// The number of bytes that are moved next, with `remaining` bytes to go.
pub fn next_chunk(remaining: u64) -> (r: u64)
    ensures
        r == (if remaining < TRANSFER_CHUNK {
            remaining
        } else {
            TRANSFER_CHUNK
        }),
        remaining > 0 ==> r > 0,
        r <= remaining,
{
    if remaining < TRANSFER_CHUNK {
        remaining
    } else {
        TRANSFER_CHUNK
    }
}

/// What is answered to a host that asks for what is staged.
#[derive(Clone, Copy, Debug)]
pub enum UploadReply {
    Refuse(&'static str),
    Send(u32),
}

/// What is answered to a host that asks for what is staged, by the number of staged bytes.
pub fn upload_reply(staged: Option<u64>) -> (r: UploadReply)
    ensures
        match staged {
            None => r matches UploadReply::Refuse(words) && words@ == "no staged data"@,
            Some(len) => if len > u32::MAX {
                r matches UploadReply::Refuse(words) && words@ == "staged data too large"@
            } else {
                r == UploadReply::Send(len as u32)
            },
        },
{
    match staged {
        None => UploadReply::Refuse("no staged data"),
        Some(len) => if len > u32::MAX as u64 {
            UploadReply::Refuse("staged data too large")
        } else {
            UploadReply::Send(len as u32)
        },
    }
}

/// A response is the four letters of its status and what it tells, as far as sixty bytes go: `OKAY`,
/// `FAIL`, `INFO` or `DATA`.
pub proof fn law_responses_are_their_letters_and_words(message: Seq<u8>)
    ensures
        message.len() <= 60 ==> shortened(message) == message,
        message.len() > 60 ==> shortened(message) == message.take(60),
        response(Status::Okay, message) == seq![0x4fu8, 0x4bu8, 0x41u8, 0x59u8] + message,
        response(Status::Fail, message) == seq![0x46u8, 0x41u8, 0x49u8, 0x4cu8] + message,
        response(Status::Info, message) == seq![0x49u8, 0x4eu8, 0x46u8, 0x4fu8] + message,
        response(Status::Data, message) == seq![0x44u8, 0x41u8, 0x54u8, 0x41u8] + message,
{
}

/// The size of a download is what the host writes with eight hexadecimal digits, and the size that
/// the device announces is written in the same way.
pub proof fn law_sizes_are_understood(size: u32)
    ensures
        download_size("download:"@ + size_digits(size)) == Ok::<Option<u32>, FastbootError>(
            Some(size),
        ),
        size_digits(size).len() == 8,
        parse_number(size_digits(size), 16, u32::MAX as nat) == Some(size as nat),
{
    let digits = size_digits(size);
    law_eight_digits_are_read_back(size);
    reveal_strlit("download:");
    let command = "download:"@ + digits;
    assert(command.skip(9) =~= digits);
    assert(vstd::utf8::is_ascii_chars(digits)) by {
        assert forall|i: int| 0 <= i < digits.len() implies '\0' <= #[trigger] digits[i]
            <= '\u{7f}' by {
            assert(0 <= i < 8);
        }
    }
    vstd::utf8::is_ascii_chars_encode_utf8(digits);
}

proof fn lemma_exact_from(commands: Seq<Command>, command: Seq<char>, from: int, i: int)
    requires
        0 <= from <= i <= commands.len(),
        forall|k: int| from <= k < i ==> !exactly(#[trigger] commands[k], command),
    ensures
        exact_from(commands, command, from) == exact_from(commands, command, i),
    decreases i - from,
{
    if from < i {
        lemma_exact_from(commands, command, from + 1, i);
    }
}

proof fn lemma_prefix_from(commands: Seq<Command>, command: Seq<char>, from: int, i: int)
    requires
        0 <= from <= i <= commands.len(),
        forall|k: int| from <= k < i ==> !starts_as(#[trigger] commands[k], command),
    ensures
        prefix_from(commands, command, from) == prefix_from(commands, command, i),
    decreases i - from,
{
    if from < i {
        lemma_prefix_from(commands, command, from + 1, i);
    }
}

/// A command of the host has the handler that the table gives for it: that of the first entry with
/// its name; without one, that of the first entry whose beginning it has; and none where there is
/// neither.
pub proof fn law_commands_have_their_handlers(commands: Seq<Command>, command: Seq<char>, i: int)
    requires
        0 <= i <= commands.len(),
    ensures
        ({
            let named = |k: int|
                commands[k].match_kind == CommandMatch::Exact && commands[k].name@ == command;
            let begun = |k: int|
                commands[k].match_kind == CommandMatch::Prefix
                    && commands[k].name@.is_prefix_of(command);
            &&& i < commands.len() && named(i) && (forall|k: int|
                0 <= k < i ==> !#[trigger] exactly(commands[k], command)) ==> handler_for(
                commands,
                command,
            ) == Some(commands[i].handler)
            &&& i < commands.len() && begun(i) && (forall|k: int|
                0 <= k < commands.len() ==> !#[trigger] exactly(commands[k], command)) && (forall|
                k: int,
            |
                0 <= k < i ==> !#[trigger] starts_as(commands[k], command)) ==> handler_for(
                commands,
                command,
            ) == Some(commands[i].handler)
        }),
        (forall|k: int|
            0 <= k < commands.len() ==> !exactly(#[trigger] commands[k], command) && !starts_as(
                commands[k],
                command,
            )) ==> handler_for(commands, command) is None,
{
    if i < commands.len() && exactly(commands[i], command) && (forall|k: int|
        0 <= k < i ==> !#[trigger] exactly(commands[k], command)) {
        lemma_exact_from(commands, command, 0, i);
    }
    if forall|k: int| 0 <= k < commands.len() ==> !#[trigger] exactly(commands[k], command) {
        lemma_exact_from(commands, command, 0, commands.len() as int);
        if i < commands.len() && starts_as(commands[i], command) && (forall|k: int|
            0 <= k < i ==> !#[trigger] starts_as(commands[k], command)) {
            lemma_prefix_from(commands, command, 0, i);
        }
        if forall|k: int| 0 <= k < commands.len() ==> !#[trigger] starts_as(commands[k], command) {
            lemma_prefix_from(commands, command, 0, commands.len() as int);
        }
    }
}

/// Which entries a command is is a matter of its name: of the whole of it, or of its beginning.
pub proof fn law_entries_are_told_by_name(entry: Command, command: Seq<char>)
    ensures
        exactly(entry, command) == (entry.match_kind == CommandMatch::Exact && entry.name@
            == command),
        starts_as(entry, command) == (entry.match_kind == CommandMatch::Prefix && entry.name@.len()
            <= command.len() && command.take(entry.name@.len() as int) == entry.name@),
{
    if entry.name@.len() <= command.len() {
        assert(command.take(entry.name@.len() as int) =~= command.subrange(
            0,
            entry.name@.len() as int,
        ));
    }
}

/// A packet of the host asks for what its text says, up to the first zero byte: `continue` for the
/// end, `upload` or `get_staged` for what is staged, `download:` and eight digits for a download of
/// that size, and any other command for what its handler does with the whole text.
pub proof fn law_packets_ask_for_what_they_say(
    request: Request,
    commands: Seq<Command>,
    command: Seq<char>,
    more: Seq<u8>,
    size: u32,
    handler: Handler,
)
    requires
        !utf8(command).contains(0u8),
        asks_for(request, commands, utf8(command) + seq![0u8] + more) || asks_for(
            request,
            commands,
            utf8(command),
        ),
    ensures
        command == "continue"@ ==> request is Continue,
        command == "upload"@ || command == "get_staged"@ ==> request is Upload,
        command == "download:"@ + size_digits(size) ==> request == Request::Download(size),
        command != "continue"@ && command != "upload"@ && command != "get_staged"@
            && !"download:"@.is_prefix_of(command) && handler_for(commands, command) == Some(
            handler,
        ) ==> (request matches Request::Run(found, text) && found == handler && text@ == command),
        command != "continue"@ && command != "upload"@ && command != "get_staged"@
            && !"download:"@.is_prefix_of(command) && handler_for(commands, command) is None
            ==> request is Refuse,
{
    let bytes = utf8(command);
    let packet = bytes + seq![0u8] + more;
    lemma_next_byte(packet, 0, 0u8);
    lemma_next_byte(bytes, 0, 0u8);
    let n = bytes.len() as int;
    assert(packet[n] == 0);
    let at = next_byte(packet, 0, 0u8);
    if at < n {
        assert(packet[at] == bytes[at]);
        assert(bytes.contains(bytes[at]));
    }
    let end = next_byte(bytes, 0, 0u8);
    if end < n {
        assert(bytes.contains(bytes[end]));
    }
    assert(c_bytes(packet) =~= bytes);
    assert(c_bytes(bytes) =~= bytes);
    encode_utf8_valid_utf8(command);
    encode_utf8_decode_utf8(command);
    reveal_strlit("continue");
    reveal_strlit("upload");
    reveal_strlit("get_staged");
    reveal_strlit("download:");
    law_sizes_are_understood(size);
    let whole = "download:"@ + size_digits(size);
    assert(whole[0] == 'd');
    assert("download:"@.is_prefix_of(whole));
}

/// A host that is gone is waited for, as one that was lost the first time only; once it is back and
/// asks for something, it counts as there again.
pub proof fn law_hosts_come_back(disconnected: bool, errno: Option<i32>, kind: ErrorKind)
    ensures
        means_gone(errno, kind) ==> server_next(
            disconnected,
            Outcome::Failed { errno, kind },
        ) == (ServerAction::Wait(!disconnected), true),
        server_next(disconnected, Outcome::Continue) == (ServerAction::Await(disconnected), false),
        means_gone(Some(108i32), kind) && means_gone(Some(19i32), kind),
        means_gone(None, kind) ==> kind != ErrorKind::TimedOut && kind != ErrorKind::InvalidInput,
{
}

/// What is told to the host in words begins with `INFO`, piece by piece.
pub proof fn law_information_is_marked(message: Seq<u8>, i: int)
    requires
        0 <= i < info_packets(message).len(),
    ensures
        info_packets(message)[i].take(4) == seq![0x49u8, 0x4eu8, 0x46u8, 0x4fu8],
        4 < info_packets(message)[i].len() <= 64,
{
    let list = chunks(message, RESPONSE_PAYLOAD_MAX as int);
    law_chunks_join(message, RESPONSE_PAYLOAD_MAX as int);
    assert(info_packets(message)[i] == response(Status::Info, list[i]));
    assert(Status::Info.letters() =~= seq![0x49u8, 0x4eu8, 0x46u8, 0x4fu8]);
    assert(info_packets(message)[i].take(4) =~= seq![0x49u8, 0x4eu8, 0x46u8, 0x4fu8]);
}

} // verus!
