//! Records of the kernel log.
use vstd::prelude::*;
use vstd::string::*;
use vstd::utf8::*;

use crate::bytes::{find_byte, lemma_next_byte, next_byte, utf8};
use crate::cmdline::{value_of, KernelCommandLine};
use crate::text::{
    cat, chars, decimal, decimal_text, decode, decode_lossy, from_chars, joined,
    law_joined_texts_are_cut_again, law_written_numbers_are_read_back, lines, owned, pad, padded,
    parse_number, parse_unsigned, pieces, same_text, split_chars, split_lines, texts, utf8_lossy,
};

verus! {

/// How much is logged.
#[derive(Clone, Copy, Debug, PartialEq, Eq, Structural)]
pub enum LogLevel {
    Off,
    Error,
    Warn,
    Info,
    Debug,
    Trace,
}

/// The level that a word names.
pub open spec fn level_named(word: Seq<char>) -> LogLevel {
    if word == "trace"@ {
        LogLevel::Trace
    } else if word == "debug"@ {
        LogLevel::Debug
    } else if word == "info"@ {
        LogLevel::Info
    } else if word == "warn"@ || word == "warning"@ {
        LogLevel::Warn
    } else if word == "error"@ {
        LogLevel::Error
    } else if word == "off"@ {
        LogLevel::Off
    } else {
        LogLevel::Info
    }
}

/// The level that the command line asks for with `pocketboot.log`; warnings, where it asks for
/// none.
pub fn log_level(cmdline: &KernelCommandLine) -> (r: LogLevel)
    ensures
        r == (match value_of(cmdline@, "pocketboot.log"@) {
            Some(word) => level_named(word),
            None => LogLevel::Warn,
        }),
{
    match cmdline.value("pocketboot.log") {
        None => LogLevel::Warn,
        Some(word) => {
            let word = word.as_str();
            if same_text(word, "trace") {
                LogLevel::Trace
            } else if same_text(word, "debug") {
                LogLevel::Debug
            } else if same_text(word, "info") {
                LogLevel::Info
            } else if same_text(word, "warn") || same_text(word, "warning") {
                LogLevel::Warn
            } else if same_text(word, "error") {
                LogLevel::Error
            } else if same_text(word, "off") {
                LogLevel::Off
            } else {
                LogLevel::Info
            }
        },
    }
}

/// Whether a byte ends a record: a line feed, a carriage return or a zero.
pub open spec fn ends_record(b: u8) -> bool {
    b == 0x0a || b == 0x0d || b == 0
}

/// Whether a byte ends a line: a carriage return or a zero.
pub open spec fn ends_line(b: u8) -> bool {
    b == 0x0d || b == 0
}

/// Whether there is anything to write in a buffer of the log: a byte that does not end a record.
pub fn has_message(buffer: &[u8]) -> (r: bool)
    ensures
        r == exists|i: int| 0 <= i < buffer@.len() && !ends_record(#[trigger] buffer@[i]),
{
    let mut i: usize = 0;
    while i < buffer.len()
        invariant
            i <= buffer@.len(),
            forall|k: int| 0 <= k < i ==> ends_record(#[trigger] buffer@[k]),
        decreases buffer@.len() - i,
    {
        let b = buffer[i];
        if !(b == 0x0a || b == 0x0d || b == 0) {
            assert(!ends_record(buffer@[i as int]));
            return true;
        }
        i += 1;
    }
    false
}

/// `s` without the bytes at its end that end a record.
pub open spec fn record_body(s: Seq<u8>) -> Seq<u8>
    decreases s.len(),
{
    if s.len() > 0 && ends_record(s.last()) {
        record_body(s.drop_last())
    } else {
        s
    }
}

/// `s` without the bytes at its end that end a line.
pub open spec fn line_body(s: Seq<u8>) -> Seq<u8>
    decreases s.len(),
{
    if s.len() > 0 && ends_line(s.last()) {
        line_body(s.drop_last())
    } else {
        s
    }
}

fn trim_record_end(value: &[u8]) -> (r: &[u8])
    ensures
        r@ == record_body(value@),
{
    let mut n: usize = value.len();
    assert(value@.take(n as int) =~= value@);
    while n > 0 && (value[n - 1] == 0x0a || value[n - 1] == 0x0d || value[n - 1] == 0)
        invariant
            n <= value@.len(),
            record_body(value@) == record_body(value@.take(n as int)),
        decreases n,
    {
        assert(value@.take(n as int).drop_last() =~= value@.take(n - 1));
        n -= 1;
    }
    let r = &value[0..n];
    assert(r@ =~= value@.take(n as int));
    r
}

fn trim_line_end(value: &[u8]) -> (r: &[u8])
    ensures
        r@ == line_body(value@),
{
    let mut n: usize = value.len();
    assert(value@.take(n as int) =~= value@);
    while n > 0 && (value[n - 1] == 0x0d || value[n - 1] == 0)
        invariant
            n <= value@.len(),
            line_body(value@) == line_body(value@.take(n as int)),
        decreases n,
    {
        assert(value@.take(n as int).drop_last() =~= value@.take(n - 1));
        n -= 1;
    }
    let r = &value[0..n];
    assert(r@ =~= value@.take(n as int));
    r
}

/// The value of a hexadecimal digit.
pub open spec fn nibble(b: u8) -> Option<u8> {
    if 0x30 <= b <= 0x39 {
        Some((b - 0x30) as u8)
    } else if 0x61 <= b <= 0x66 {
        Some((b - 0x61 + 10) as u8)
    } else if 0x41 <= b <= 0x46 {
        Some((b - 0x41 + 10) as u8)
    } else {
        None
    }
}

fn hex_value(byte: u8) -> (r: Option<u8>)
    ensures
        r == nibble(byte),
        r matches Some(v) ==> v < 16,
{
    if 0x30 <= byte && byte <= 0x39 {
        Some(byte - 0x30)
    } else if 0x61 <= byte && byte <= 0x66 {
        Some(byte - 0x61 + 10)
    } else if 0x41 <= byte && byte <= 0x46 {
        Some(byte - 0x41 + 10)
    } else {
        None
    }
}

/// Whether an escape such as `\x0a` stands at `i`.
pub open spec fn escape_at(s: Seq<u8>, i: int) -> bool {
    i + 3 < s.len() && s[i] == 0x5c && s[i + 1] == 0x78 && nibble(s[i + 2]) is Some && nibble(
        s[i + 3],
    ) is Some
}

/// What `s` means from `i` on, with its escapes replaced by the bytes they stand for.
pub open spec fn unescaped_from(s: Seq<u8>, i: int) -> Seq<u8>
    decreases s.len() - i,
{
    if i < 0 || i >= s.len() {
        Seq::empty()
    } else if escape_at(s, i) {
        seq![(nibble(s[i + 2])->0 * 16 + nibble(s[i + 3])->0) as u8] + unescaped_from(s, i + 4)
    } else {
        seq![s[i]] + unescaped_from(s, i + 1)
    }
}

/// The text of a record, with its escapes replaced.
pub open spec fn kmsg_text(s: Seq<u8>) -> Seq<char> {
    utf8_lossy(unescaped_from(s, 0))
}

/// The text of a record, with its escapes replaced.
pub fn decode_kmsg_text(input: &[u8]) -> (r: String)
    ensures
        r@ == kmsg_text(input@),
{
    let mut out: Vec<u8> = Vec::new();
    let mut i: usize = 0;
    let n = input.len();
    let ghost whole = unescaped_from(input@, 0);
    assert(out@ + whole =~= whole);
    while i < n
        invariant
            i <= n,
            n == input@.len(),
            whole == unescaped_from(input@, 0),
            out@ + unescaped_from(input@, i as int) == whole,
        decreases n - i,
    {
        let ghost before = out@;
        if input[i] == 0x5c && n - i > 3 && input[i + 1] == 0x78 {
            if let (Some(hi), Some(lo)) = (hex_value(input[i + 2]), hex_value(input[i + 3])) {
                let b: u8 = hi * 16 + lo;
                out.push(b);
                assert(before + (seq![b] + unescaped_from(input@, i + 4)) =~= out@
                    + unescaped_from(input@, i + 4));
                i += 4;
                continue;
            }
        }
        let b: u8 = input[i];
        out.push(b);
        assert(before + (seq![b] + unescaped_from(input@, i + 1)) =~= out@ + unescaped_from(
            input@,
            i + 1,
        ));
        i += 1;
    }
    assert(out@ =~= whole);
    decode_lossy(&out)
}

/// The time of a record.
pub open spec fn time_text(timestamp_us: int) -> Seq<char> {
    "["@ + padded(decimal(timestamp_us / 1_000_000), 5, ' ') + "."@ + padded(
        decimal(timestamp_us % 1_000_000),
        6,
        '0',
    ) + "]"@
}

/// The time of a record.
pub fn format_kmsg_time(timestamp_us: u64) -> (s: String)
    ensures
        s@ == time_text(timestamp_us as int),
{
    let mut s = owned("[");
    s.append(pad(decimal_text(timestamp_us / 1_000_000).as_str(), 5, ' ').as_str());
    s.append(".");
    s.append(pad(decimal_text(timestamp_us % 1_000_000).as_str(), 6, '0').as_str());
    s.append("]");
    s
}

/// A record of the kernel log: its time in microseconds, and its text.
pub struct KmsgRecord<'a> {
    pub timestamp_us: u64,
    pub text: &'a [u8],
}

/// The first line of the body of a record.
pub open spec fn first_line(body: Seq<u8>) -> Seq<u8> {
    line_body(body.take(next_byte(body, 0, 0x0au8)))
}

/// The time and the text of a record.
pub open spec fn record_told(raw: Seq<u8>) -> Option<(u64, Seq<u8>)> {
    let at = next_byte(raw, 0, 0x3bu8);
    let header = raw.take(at);
    let fields = pieces(decode_utf8(header), ',');
    if at >= raw.len() || !valid_utf8(header) || fields.len() < 3 {
        None
    } else {
        match parse_number(fields[2], 10, u64::MAX as nat) {
            Some(n) => Some((n as u64, first_line(raw.skip(at + 1)))),
            None => None,
        }
    }
}

fn first_body_line(body: &[u8]) -> (r: &[u8])
    ensures
        r@ == first_line(body@),
{
    let end = find_byte(body, 0, 0x0a);
    let line = &body[0..end];
    assert(line@ =~= body@.take(end as int));
    trim_line_end(line)
}

impl<'a> KmsgRecord<'a> {
    /// The time and the text of a record.
    pub fn parse(raw: &'a [u8]) -> (r: Option<KmsgRecord<'a>>)
        ensures
            record_told(raw@) == (match r {
                Some(record) => Some((record.timestamp_us, record.text@)),
                None => None,
            }),
    {
        let at = find_byte(raw, 0, 0x3b);
        if at >= raw.len() {
            return None;
        }
        let header = &raw[0..at];
        assert(header@ =~= raw@.take(at as int));
        let header = match decode(header) {
            Some(header) => header,
            None => {
                return None;
            },
        };
        let v = chars(header.as_str());
        let fields = split_chars(&v, ',');
        assert(texts(fields@).len() == fields@.len());
        if fields.len() < 3 {
            return None;
        }
        assert(texts(fields@)[2] == fields@[2]@);
        let digits = chars(fields[2].as_str());
        match parse_unsigned(&digits, 10, u64::MAX) {
            Some(timestamp_us) => {
                let body = &raw[at + 1..raw.len()];
                assert(body@ =~= raw@.skip(at + 1));
                Some(KmsgRecord { timestamp_us, text: first_body_line(body) })
            },
            None => None,
        }
    }
}

/// `s` without carriage returns and zeros at its end.
pub open spec fn without_ends(s: Seq<char>) -> Seq<char>
    decreases s.len(),
{
    if s.len() > 0 && (s.last() == '\r' || s.last() == '\0') {
        without_ends(s.drop_last())
    } else {
        s
    }
}

fn trim_ends(v: &[char]) -> (r: &[char])
    ensures
        r@ == without_ends(v@),
{
    let mut n: usize = v.len();
    assert(v@.take(n as int) =~= v@);
    while n > 0 && (v[n - 1] == '\r' || v[n - 1] == '\0')
        invariant
            n <= v@.len(),
            without_ends(v@) == without_ends(v@.take(n as int)),
        decreases n,
    {
        assert(v@.take(n as int).drop_last() =~= v@.take(n - 1));
        n -= 1;
    }
    let r = &v[0..n];
    assert(r@ =~= v@.take(n as int));
    r
}

/// The first `n` lines of a message, each behind its time; empty ones are left out.
pub open spec fn timed_lines(time: Seq<char>, list: Seq<Seq<char>>, n: int) -> Seq<Seq<char>>
    decreases n,
{
    if n <= 0 {
        Seq::empty()
    } else {
        let line = without_ends(list[n - 1]);
        if line.len() == 0 {
            timed_lines(time, list, n - 1)
        } else {
            timed_lines(time, list, n - 1).push(time + " "@ + line)
        }
    }
}

/// The lines that a record is shown as.
pub open spec fn shown_lines(raw: Seq<u8>) -> Seq<Seq<char>> {
    let body = record_body(raw);
    if body.len() == 0 {
        Seq::empty()
    } else {
        match record_told(body) {
            None => if kmsg_text(body).len() == 0 {
                Seq::empty()
            } else {
                seq![kmsg_text(body)]
            },
            Some((time, text)) => {
                let list = lines(kmsg_text(text));
                timed_lines(time_text(time as int), list, list.len() as int)
            },
        }
    }
}

/// The lines that a record is shown as.
pub fn record_lines(raw: &[u8]) -> (r: Vec<String>)
    ensures
        texts(r@) == shown_lines(raw@),
{
    let raw = trim_record_end(raw);
    let mut out: Vec<String> = Vec::new();
    assert(texts(out@) =~= Seq::<Seq<char>>::empty());
    if raw.len() == 0 {
        return out;
    }
    let record = match KmsgRecord::parse(raw) {
        None => {
            let message = decode_kmsg_text(raw);
            if message.as_str().unicode_len() > 0 {
                out.push(message);
                assert(texts(out@) =~= seq![message@]);
            }
            return out;
        },
        Some(record) => record,
    };
    let mut prefix = format_kmsg_time(record.timestamp_us);
    prefix.append(" ");
    let message = decode_kmsg_text(record.text);
    let list = split_lines(message.as_str());
    let ghost time = time_text(record.timestamp_us as int);
    let ghost all = lines(message@);
    let mut i: usize = 0;
    while i < list.len()
        invariant
            i <= list@.len(),
            texts(list@) == all,
            prefix@ == time + " "@,
            texts(out@) == timed_lines(time, all, i as int),
        decreases list@.len() - i,
    {
        assert(all[i as int] == list@[i as int]@);
        let v = chars(list[i].as_str());
        let line = trim_ends(&v);
        if line.len() > 0 {
            let ghost before = out@;
            let shown = cat(prefix.as_str(), from_chars(line).as_str());
            out.push(shown);
            assert(texts(out@) =~= texts(before).push(shown@));
        }
        i += 1;
    }
    assert(texts(list@).len() == list@.len());
    out
}

/// A record of the kernel log, as the kernel writes it: fields with commas between them, of which
/// the third is the time, a semicolon, and the text of the record up to the end of the line.
pub open spec fn record_written(
    priority: Seq<char>,
    number: Seq<char>,
    time: u64,
    rest: Seq<char>,
    text: Seq<u8>,
    more: Seq<u8>,
) -> Seq<u8> {
    utf8(record_header(priority, number, time, rest)) + seq![0x3bu8] + text + more
}

/// The fields of a record before its text.
pub open spec fn record_header(
    priority: Seq<char>,
    number: Seq<char>,
    time: u64,
    rest: Seq<char>,
) -> Seq<char> {
    joined(seq![priority, number, decimal(time as int), rest], seq![','])
}

proof fn lemma_line_body(s: Seq<u8>)
    requires
        s.len() > 0 ==> !ends_line(s.last()),
    ensures
        line_body(s) == s,
{
}

/// A record of the kernel log is read as it was written: its time is the third of its fields, and
/// its text is what stands behind the semicolon, up to the end of the line.
pub proof fn law_records_are_read(
    priority: Seq<char>,
    number: Seq<char>,
    time: u64,
    rest: Seq<char>,
    text: Seq<u8>,
    more: Seq<u8>,
)
    requires
        !priority.contains(','),
        !number.contains(','),
        !rest.contains(','),
        !utf8(record_header(priority, number, time, rest)).contains(0x3bu8),
        !text.contains(0x0au8),
        text.len() > 0 ==> text.last() != 0x0d && text.last() != 0,
        more.len() > 0 ==> more[0] == 0x0a,
    ensures
        record_told(record_written(priority, number, time, rest, text, more)) == Some((time, text)),
{
    let header = record_header(priority, number, time, rest);
    let fields = seq![priority, number, decimal(time as int), rest];
    law_written_numbers_are_read_back(time as nat, u64::MAX as nat);
    assert forall|i: int| 0 <= i < fields.len() implies !(#[trigger] fields[i]).contains(',') by {
        if i == 2 {
            assert(fields[2] == decimal(time as int));
        }
    }
    law_joined_texts_are_cut_again(fields, ',');
    let raw = record_written(priority, number, time, rest, text, more);
    let bytes = utf8(header);
    let n = bytes.len() as int;
    encode_utf8_valid_utf8(header);
    encode_utf8_decode_utf8(header);
    lemma_next_byte(raw, 0, 0x3bu8);
    let at = next_byte(raw, 0, 0x3bu8);
    assert(raw[n] == 0x3b);
    if at < n {
        assert(raw[at] == bytes[at]);
        assert(bytes.contains(bytes[at]));
    }
    assert(at == n);
    assert(raw.take(at) =~= bytes);
    let body = text + more;
    assert(raw.skip(at + 1) =~= body);
    lemma_next_byte(body, 0, 0x0au8);
    let end = next_byte(body, 0, 0x0au8);
    if end < text.len() {
        assert(body[end] == text[end]);
        assert(text.contains(text[end]));
    }
    if more.len() > 0 {
        assert(body[text.len() as int] == more[0]);
    }
    assert(end == text.len());
    assert(body.take(end) =~= text);
    lemma_line_body(text);
}

proof fn lemma_unescaped(s: Seq<u8>, i: int)
    requires
        0 <= i <= s.len(),
        forall|k: int| i <= k < s.len() ==> #[trigger] s[k] != 0x5c,
    ensures
        unescaped_from(s, i) == s.skip(i),
    decreases s.len() - i,
{
    if i < s.len() {
        lemma_unescaped(s, i + 1);
        assert(seq![s[i]] + s.skip(i + 1) =~= s.skip(i));
    } else {
        assert(s.skip(i) =~= Seq::<u8>::empty());
    }
}

proof fn lemma_unescaped_behind(front: Seq<u8>, s: Seq<u8>, i: int)
    requires
        0 <= i <= s.len(),
    ensures
        unescaped_from(front + s, front.len() + i) == unescaped_from(s, i),
    decreases s.len() - i,
{
    let whole = front + s;
    let at = front.len() + i;
    if i < s.len() {
        assert(whole[at] == s[i]);
        if i + 3 < s.len() {
            assert(whole[at + 1] == s[i + 1]);
            assert(whole[at + 2] == s[i + 2]);
            assert(whole[at + 3] == s[i + 3]);
        }
        if escape_at(s, i) {
            lemma_unescaped_behind(front, s, i + 4);
        } else {
            lemma_unescaped_behind(front, s, i + 1);
        }
    }
}

/// The digit of a half of a byte, as the kernel writes it.
pub open spec fn digit_byte(v: int) -> u8 {
    if v < 10 {
        (0x30 + v) as u8
    } else {
        (0x61 + v - 10) as u8
    }
}

/// The escapes of a record stand for bytes: a backslash, an `x` and the two digits of a byte stand
/// for the byte, and a text without backslashes stands for itself.
pub proof fn law_escapes_stand_for_bytes(b: u8, s: Seq<u8>)
    ensures
        (forall|k: int| 0 <= k < s.len() ==> #[trigger] s[k] != 0x5c) ==> unescaped_from(s, 0) == s,
        unescaped_from(
            seq![0x5cu8, 0x78u8, digit_byte(b as int / 16), digit_byte(b as int % 16)] + s,
            0,
        ) == seq![b] + unescaped_from(s, 0),
        b != 0x5c ==> unescaped_from(seq![b] + s, 0) == seq![b] + unescaped_from(s, 0),
{
    if forall|k: int| 0 <= k < s.len() ==> #[trigger] s[k] != 0x5c {
        lemma_unescaped(s, 0);
        assert(s.skip(0) =~= s);
    }
    let front = seq![0x5cu8, 0x78u8, digit_byte(b as int / 16), digit_byte(b as int % 16)];
    let whole = front + s;
    lemma_unescaped_behind(front, s, 0);
    assert(whole[0] == 0x5c && whole[1] == 0x78);
    assert(whole[2] == digit_byte(b as int / 16) && whole[3] == digit_byte(b as int % 16));
    assert(nibble(whole[2]) == Some((b / 16) as u8));
    assert(nibble(whole[3]) == Some((b % 16) as u8));
    assert(escape_at(whole, 0));
    lemma_unescaped_behind(seq![b], s, 0);
    assert((seq![b] + s)[0] == b);
}

} // verus!
