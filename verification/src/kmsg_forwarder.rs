//! Forwarding the kernel log to a terminal: the backlog before somebody listens, and what follows
//! each answer of the log and of the terminal.
use std::collections::VecDeque;

use vstd::prelude::*;
use vstd::string::*;

use crate::bytes::{push_bytes, utf8};
use crate::errors::ErrorKind;
use crate::kmsg::{record_lines, shown_lines};
use crate::text::{decimal, ended, owned, push_decimal, texts};

verus! {

/// The most bytes that the backlog holds.
pub const KMSG_BACKLOG_MAX: usize = 0x8_0000;

/// How many bytes may wait in the terminal before more are written.
pub const TTY_QUEUE_HIGH_WATER: usize = 4096;

/// How long a terminal that does not tell whether somebody listens is waited for.
pub const TTY_SETTLE_MS: u64 = 500;

/// The bit that a listening host sets.
pub const TIOCM_DTR: i32 = 2;

pub const EPIPE: i32 = 32;

pub const EINVAL: i32 = 22;

pub const ENOTTY: i32 = 25;

/// The records that wait until somebody listens, and what had to be dropped.
#[derive(Debug)]
pub struct Backlog {
    pub records: VecDeque<Vec<u8>>,
    pub bytes: usize,
    pub dropped_records: usize,
    pub dropped_bytes: usize,
}

/// The length of some records together.
pub open spec fn total(records: Seq<Seq<u8>>) -> int
    decreases records.len(),
{
    if records.len() == 0 {
        0
    } else {
        total(records.drop_last()) + records.last().len()
    }
}

/// How many of the oldest records make way for one of a length.
pub open spec fn spill(records: Seq<Seq<u8>>, len: int) -> int
    decreases records.len(),
{
    if records.len() == 0 || total(records) + len <= KMSG_BACKLOG_MAX {
        0
    } else {
        1 + spill(records.skip(1), len)
    }
}

proof fn lemma_total_front(records: Seq<Seq<u8>>)
    requires
        records.len() > 0,
    ensures
        total(records) == records[0].len() + total(records.skip(1)),
        total(records.skip(1)) >= 0,
    decreases records.len(),
{
    if records.len() == 1 {
        assert(records.drop_last() =~= Seq::<Seq<u8>>::empty());
        assert(records.skip(1) =~= Seq::<Seq<u8>>::empty());
    } else {
        lemma_total_front(records.drop_last());
        assert(records.drop_last().skip(1) =~= records.skip(1).drop_last());
    }
}

proof fn lemma_total_push(records: Seq<Seq<u8>>, record: Seq<u8>)
    ensures
        total(records.push(record)) == total(records) + record.len(),
{
    assert(records.push(record).drop_last() =~= records);
}

proof fn lemma_total_is_positive(records: Seq<Seq<u8>>)
    ensures
        total(records) >= 0,
    decreases records.len(),
{
    if records.len() > 0 {
        lemma_total_is_positive(records.drop_last());
    }
}

proof fn lemma_spill(records: Seq<Seq<u8>>, len: int)
    requires
        0 <= len <= KMSG_BACKLOG_MAX,
    ensures
        0 <= spill(records, len) <= records.len(),
        total(records.skip(spill(records, len))) + len <= KMSG_BACKLOG_MAX,
    decreases records.len(),
{
    if records.len() == 0 || total(records) + len <= KMSG_BACKLOG_MAX {
        assert(records.skip(0) =~= records);
    } else {
        lemma_spill(records.skip(1), len);
        let rest = spill(records.skip(1), len);
        assert(records.skip(1).skip(rest) =~= records.skip(1 + rest));
    }
}

/// The model of a backlog.
#[verifier::ext_equal]
pub struct BacklogView {
    pub records: Seq<Seq<u8>>,
    pub dropped_records: int,
    pub dropped_bytes: int,
}

/// The views of the records that wait.
pub open spec fn record_views(v: Seq<Vec<u8>>) -> Seq<Seq<u8>> {
    Seq::new(v.len(), |i: int| v[i]@)
}

impl View for Backlog {
    type V = BacklogView;

    open spec fn view(&self) -> BacklogView {
        BacklogView {
            records: record_views(self.records@),
            dropped_records: self.dropped_records as int,
            dropped_bytes: self.dropped_bytes as int,
        }
    }
}

/// A backlog with a record more: the oldest records make way where there is no room, and a record
/// that is too long for the backlog is dropped itself.
pub open spec fn with_record(b: BacklogView, record: Seq<u8>) -> BacklogView {
    if record.len() > KMSG_BACKLOG_MAX {
        BacklogView {
            records: b.records,
            dropped_records: b.dropped_records + 1,
            dropped_bytes: b.dropped_bytes + record.len(),
        }
    } else {
        let k = spill(b.records, record.len() as int);
        BacklogView {
            records: b.records.skip(k).push(record),
            dropped_records: b.dropped_records + k,
            dropped_bytes: b.dropped_bytes + total(b.records) - total(b.records.skip(k)),
        }
    }
}

impl Backlog {
    /// Whether the length of the records is kept, and the backlog stays in its bounds.
    pub open spec fn wf(self) -> bool {
        &&& self.bytes == total(self@.records)
        &&& self.bytes <= KMSG_BACKLOG_MAX
    }

    /// An empty backlog.
    pub fn new() -> (r: Backlog)
        ensures
            r.wf(),
            r@ == (BacklogView { records: Seq::empty(), dropped_records: 0, dropped_bytes: 0 }),
    {
        let r = Backlog {
            records: VecDeque::new(),
            bytes: 0,
            dropped_records: 0,
            dropped_bytes: 0,
        };
        assert(r@.records =~= Seq::<Seq<u8>>::empty());
        r
    }

    /// Adds a record.
    pub fn push(&mut self, record: &[u8])
        requires
            old(self).wf(),
            old(self).dropped_records + old(self)@.records.len() + 1 <= usize::MAX,
            old(self).dropped_bytes + old(self).bytes + record@.len() <= usize::MAX,
        ensures
            final(self).wf(),
            final(self)@ == with_record(old(self)@, record@),
    {
        let ghost before = self@;
        let size = record.len();
        if size > KMSG_BACKLOG_MAX {
            self.dropped_records = self.dropped_records + 1;
            self.dropped_bytes = self.dropped_bytes + size;
            return;
        }
        let ghost k = spill(before.records, size as int);
        let ghost mut n: int = 0;
        proof {
            lemma_spill(before.records, size as int);
            assert(before.records.skip(0) =~= before.records);
        }
        while self.bytes + size > KMSG_BACKLOG_MAX
            invariant
                size == record@.len(),
                size <= KMSG_BACKLOG_MAX,
                k == spill(before.records, size as int),
                0 <= n <= k <= before.records.len(),
                self@.records == before.records.skip(n),
                spill(self@.records, size as int) == k - n,
                self.bytes == total(self@.records),
                self.bytes <= KMSG_BACKLOG_MAX,
                self.dropped_records == before.dropped_records + n,
                self.dropped_bytes == before.dropped_bytes + total(before.records) - total(
                    self@.records,
                ),
                before.dropped_records + before.records.len() + 1 <= usize::MAX,
                before.dropped_bytes + total(before.records) + size <= usize::MAX,
            decreases before.records.len() - n,
        {
            let ghost now = self@.records;
            proof {
                lemma_total_is_positive(now);
                lemma_total_front(now);
                lemma_spill(now.skip(1), size as int);
            }
            let ghost held = self.records@;
            match self.records.pop_front() {
                Some(dropped) => {
                    assert(record_views(self.records@) =~= now.skip(1));
                    assert(dropped@ == now[0]);
                    self.bytes = self.bytes - dropped.len();
                    self.dropped_records = self.dropped_records + 1;
                    self.dropped_bytes = self.dropped_bytes + dropped.len();
                    proof {
                        assert(before.records.skip(n).skip(1) =~= before.records.skip(n + 1));
                        n = n + 1;
                    }
                },
                None => {
                    assert(false);
                },
            }
        }
        let ghost kept = self@.records;
        self.bytes = self.bytes + size;
        let mut copy: Vec<u8> = Vec::new();
        push_bytes(&mut copy, record);
        assert(copy@ =~= record@);
        self.records.push_back(copy);
        proof {
            assert(record_views(self.records@) =~= kept.push(record@));
            lemma_total_push(kept, record@);
            assert(n == k);
        }
        assert(self@ =~= with_record(before, record@));
    }

    /// Takes the oldest record.
    pub fn pop(&mut self) -> (r: Option<Vec<u8>>)
        requires
            old(self).wf(),
        ensures
            final(self).wf(),
            match r {
                Some(record) => {
                    &&& old(self)@.records.len() > 0
                    &&& record@ == old(self)@.records[0]
                    &&& final(self)@ == (BacklogView {
                        records: old(self)@.records.skip(1),
                        ..old(self)@
                    })
                },
                None => old(self)@.records.len() == 0 && final(self)@ == old(self)@,
            },
    {
        let ghost before = self@;
        match self.records.pop_front() {
            None => {
                assert(self@ =~= before);
                None
            },
            Some(record) => {
                proof {
                    lemma_total_front(before.records);
                    assert(record_views(self.records@) =~= before.records.skip(1));
                }
                self.bytes = self.bytes - record.len();
                assert(self@ =~= (BacklogView { records: before.records.skip(1), ..before }));
                Some(record)
            },
        }
    }

    /// The lines that precede the records of the backlog.
    pub fn opening_lines(&self) -> (r: Vec<String>)
        ensures
            texts(r@) == opening(self@),
    {
        let mut out: Vec<String> = Vec::new();
        out.push(owned("pocketboot: forwarding kernel log from /dev/kmsg"));
        if self.dropped_records > 0 {
            let mut line = owned("pocketboot: kmsg backlog dropped ");
            push_decimal(&mut line, self.dropped_records as u64);
            line.append(" records/");
            push_decimal(&mut line, self.dropped_bytes as u64);
            line.append(" bytes");
            out.push(line);
        }
        assert(texts(out@) =~= opening(self@));
        out
    }
}

/// The lines that precede the records of a backlog: that the log starts, and what was dropped, if
/// anything was.
pub open spec fn opening(b: BacklogView) -> Seq<Seq<char>> {
    let first = "pocketboot: forwarding kernel log from /dev/kmsg"@;
    if b.dropped_records > 0 {
        seq![
            first,
            "pocketboot: kmsg backlog dropped "@ + decimal(b.dropped_records) + " records/"@
                + decimal(b.dropped_bytes) + " bytes"@,
        ]
    } else {
        seq![first]
    }
}

/// No record is lost without being counted, and no byte: what waits and what was dropped grow
/// together by what is added.
pub proof fn law_records_are_accounted_for(b: BacklogView, record: Seq<u8>)
    ensures
        ({
            let after = with_record(b, record);
            &&& after.records.len() + after.dropped_records == b.records.len() + b.dropped_records
                + 1
            &&& total(after.records) + after.dropped_bytes == total(b.records) + b.dropped_bytes
                + record.len()
        }),
{
    if record.len() <= KMSG_BACKLOG_MAX {
        lemma_spill(b.records, record.len() as int);
        lemma_total_push(b.records.skip(spill(b.records, record.len() as int)), record);
    }
}

/// The newest record is kept, behind the newest of those that waited, in their order; and the
/// backlog stays in its bounds.
pub proof fn law_newest_records_stay(b: BacklogView, record: Seq<u8>)
    requires
        record.len() <= KMSG_BACKLOG_MAX,
    ensures
        ({
            let after = with_record(b, record);
            &&& after.records.last() == record
            &&& exists|k: int|
                0 <= k <= b.records.len() && after.records.drop_last() == #[trigger] b.records.skip(
                    k,
                )
            &&& total(after.records) <= KMSG_BACKLOG_MAX
        }),
{
    let k = spill(b.records, record.len() as int);
    lemma_spill(b.records, record.len() as int);
    lemma_total_push(b.records.skip(k), record);
    assert(with_record(b, record).records.drop_last() =~= b.records.skip(k));
}

/// What came of reading the log.
#[derive(Clone, Copy, Debug, PartialEq, Eq, Structural)]
pub enum KmsgRead {
    Record(usize),
    Empty,
    /// Records were lost before they were read.
    Overwritten,
    Failed,
}

/// What came of reading the log, by the length of what was read or the error.
pub fn read_kmsg(answer: Result<usize, (ErrorKind, Option<i32>)>) -> (r: KmsgRead)
    ensures
        r == (match answer {
            Ok(read) => if read == 0 {
                KmsgRead::Empty
            } else {
                KmsgRead::Record(read)
            },
            Err((kind, errno)) => if kind == ErrorKind::Interrupted || kind
                == ErrorKind::WouldBlock {
                KmsgRead::Empty
            } else if errno == Some(EPIPE) {
                KmsgRead::Overwritten
            } else {
                KmsgRead::Failed
            },
        }),
{
    match answer {
        Ok(read) => {
            if read == 0 {
                KmsgRead::Empty
            } else {
                KmsgRead::Record(read)
            }
        },
        Err((kind, errno)) => {
            if kind == ErrorKind::Interrupted || kind == ErrorKind::WouldBlock {
                return KmsgRead::Empty;
            }
            match errno {
                Some(number) => {
                    if number == EPIPE {
                        KmsgRead::Overwritten
                    } else {
                        KmsgRead::Failed
                    }
                },
                None => KmsgRead::Failed,
            }
        },
    }
}

/// Whether a terminal that could not be opened is tried again.
pub fn should_retry_open(kind: ErrorKind) -> (r: bool)
    ensures
        r == (kind == ErrorKind::NotFound || kind == ErrorKind::PermissionDenied || kind
            == ErrorKind::WouldBlock),
{
    kind == ErrorKind::NotFound || kind == ErrorKind::PermissionDenied || kind
        == ErrorKind::WouldBlock
}

/// Whether an error says that a terminal does not know a question.
pub open spec fn not_known(errno: Option<i32>) -> bool {
    errno == Some(EINVAL) || errno == Some(ENOTTY)
}

fn is_not_known(errno: Option<i32>) -> (r: bool)
    ensures
        r == not_known(errno),
{
    match errno {
        Some(number) => number == EINVAL || number == ENOTTY,
        None => false,
    }
}

/// What waiting for a terminal takes next.
#[derive(Clone, Copy, Debug, PartialEq, Eq, Structural)]
pub enum TtyWait {
    /// The terminal is ready.
    Ready,
    /// It is asked again after a while.
    Later,
    /// It is asked again.
    Again,
    /// It does not tell.
    Unknown,
    Failed,
}

/// What waiting for a listening host takes next, by the bits of the terminal.
pub fn wait_for_host_dtr(answer: Result<i32, (ErrorKind, Option<i32>)>) -> (r: TtyWait)
    ensures
        r == (match answer {
            Ok(bits) => if bits & TIOCM_DTR != 0 {
                TtyWait::Ready
            } else {
                TtyWait::Later
            },
            Err((kind, errno)) => if kind == ErrorKind::Interrupted {
                TtyWait::Again
            } else if not_known(errno) {
                TtyWait::Unknown
            } else {
                TtyWait::Failed
            },
        }),
{
    match answer {
        Ok(bits) => {
            if bits & TIOCM_DTR != 0 {
                TtyWait::Ready
            } else {
                TtyWait::Later
            }
        },
        Err((kind, errno)) => {
            if kind == ErrorKind::Interrupted {
                TtyWait::Again
            } else if is_not_known(errno) {
                TtyWait::Unknown
            } else {
                TtyWait::Failed
            }
        },
    }
}

/// What waiting for room in a terminal takes next, by how many bytes wait in it: a terminal that
/// does not tell is taken to have room.
pub fn wait_for_tty_queue(answer: Result<i32, (ErrorKind, Option<i32>)>) -> (r: TtyWait)
    ensures
        r == (match answer {
            Ok(pending) => if pending <= TTY_QUEUE_HIGH_WATER {
                TtyWait::Ready
            } else {
                TtyWait::Later
            },
            Err((kind, errno)) => if kind == ErrorKind::Interrupted {
                TtyWait::Again
            } else if not_known(errno) {
                TtyWait::Ready
            } else {
                TtyWait::Failed
            },
        }),
{
    match answer {
        Ok(pending) => {
            if pending <= TTY_QUEUE_HIGH_WATER as i32 {
                TtyWait::Ready
            } else {
                TtyWait::Later
            }
        },
        Err((kind, errno)) => {
            if kind == ErrorKind::Interrupted {
                TtyWait::Again
            } else if is_not_known(errno) {
                TtyWait::Ready
            } else {
                TtyWait::Failed
            }
        },
    }
}

/// The bytes of a line on a terminal.
pub fn tty_line(line: &[u8]) -> (r: Vec<u8>)
    ensures
        r@ == line@ + seq![0x0du8, 0x0au8],
{
    let mut out: Vec<u8> = Vec::new();
    push_bytes(&mut out, line);
    out.push(0x0d);
    out.push(0x0a);
    assert(out@ =~= line@ + seq![0x0du8, 0x0au8]);
    out
}

/// What draining the log comes to after one read.
#[derive(Clone, Copy, Debug, PartialEq, Eq, Structural)]
pub enum Drain {
    /// There may be more.
    Again,
    /// There is no more for now.
    Done,
    Failed,
}

/// The record that a read adds to the backlog, where it adds one.
pub open spec fn drained_record(read: KmsgRead, buffer: Seq<u8>) -> Option<Seq<u8>> {
    match read {
        KmsgRead::Record(count) => Some(buffer.take(count as int)),
        KmsgRead::Overwritten => Some(
            utf8("pocketboot: kmsg records were overwritten before tty ready"@),
        ),
        _ => None,
    }
}

/// Adds what was read of the log, at the start of a buffer, to the backlog.
pub fn drain_kmsg_to_backlog(backlog: &mut Backlog, read: KmsgRead, buffer: &[u8]) -> (r: Drain)
    requires
        old(backlog).wf(),
        old(backlog).dropped_records + old(backlog)@.records.len() + 1 <= usize::MAX,
        old(backlog).dropped_bytes + old(backlog).bytes + buffer@.len() + 64 <= usize::MAX,
        read matches KmsgRead::Record(count) ==> count <= buffer@.len(),
    ensures
        final(backlog).wf(),
        final(backlog)@ == (match drained_record(read, buffer@) {
            Some(record) => with_record(old(backlog)@, record),
            None => old(backlog)@,
        }),
        r == (match read {
            KmsgRead::Record(_) => Drain::Again,
            KmsgRead::Overwritten => Drain::Again,
            KmsgRead::Empty => Drain::Done,
            KmsgRead::Failed => Drain::Failed,
        }),
{
    match read {
        KmsgRead::Record(count) => {
            let record = &buffer[0..count];
            assert(record@ =~= buffer@.take(count as int));
            backlog.push(record);
            Drain::Again
        },
        KmsgRead::Overwritten => {
            let words = "pocketboot: kmsg records were overwritten before tty ready";
            proof {
                reveal_strlit("pocketboot: kmsg records were overwritten before tty ready");
                vstd::utf8::is_ascii_chars_encode_utf8(words@);
            }
            backlog.push(words.as_bytes());
            Drain::Again
        },
        KmsgRead::Empty => Drain::Done,
        KmsgRead::Failed => Drain::Failed,
    }
}

/// The bytes of lines on a terminal.
pub open spec fn tty_bytes(list: Seq<Seq<char>>, n: int) -> Seq<u8>
    decreases n,
{
    if n <= 0 {
        Seq::empty()
    } else {
        tty_bytes(list, n - 1) + (utf8(list[n - 1]) + seq![0x0du8, 0x0au8])
    }
}

fn tty_lines(list: &[String]) -> (r: Vec<u8>)
    ensures
        r@ == tty_bytes(texts(list@), list@.len() as int),
{
    let mut out: Vec<u8> = Vec::new();
    assert(out@ =~= Seq::<u8>::empty());
    let mut i: usize = 0;
    while i < list.len()
        invariant
            i <= list@.len(),
            out@ == tty_bytes(texts(list@), i as int),
        decreases list@.len() - i,
    {
        let line = tty_line(list[i].as_str().as_bytes());
        assert(texts(list@)[i as int] == list@[i as int]@);
        let ghost before = out@;
        push_bytes(&mut out, &line);
        assert(out@ =~= before + line@);
        i += 1;
    }
    out
}

/// The bytes that a record of the log is on a terminal.
pub fn record_on_tty(raw: &[u8]) -> (r: Vec<u8>)
    ensures
        r@ == tty_bytes(shown_lines(raw@), shown_lines(raw@).len() as int),
{
    let list = record_lines(raw);
    assert(texts(list@).len() == list@.len());
    tty_lines(&list)
}

/// The bytes that precede the records of the backlog on a terminal.
pub fn opening_on_tty(backlog: &Backlog) -> (r: Vec<u8>)
    ensures
        r@ == tty_bytes(opening(backlog@), opening(backlog@).len() as int),
{
    let list = backlog.opening_lines();
    assert(texts(list@).len() == list@.len());
    tty_lines(&list)
}

/// What is done with what was read of the log once somebody listens.
#[derive(Debug)]
pub enum Forward {
    /// Bytes are written to the terminal. The flag tells that its queue is waited for afterwards.
    Write(Vec<u8>, bool),
    /// A while is waited.
    Sleep,
    Failed,
}

/// What is done with what was read of the log, at the start of a buffer, once somebody listens.
pub fn forward_once(read: KmsgRead, buffer: &[u8]) -> (r: Forward)
    requires
        read matches KmsgRead::Record(count) ==> count <= buffer@.len(),
    ensures
        match read {
            KmsgRead::Record(count) => {
                let told = shown_lines(buffer@.take(count as int));
                r matches Forward::Write(bytes, true) && bytes@ == tty_bytes(
                    told,
                    told.len() as int,
                )
            },
            KmsgRead::Overwritten => r matches Forward::Write(bytes, false) && bytes@ == utf8(
                "pocketboot: kmsg records were overwritten"@,
            ) + seq![0x0du8, 0x0au8],
            KmsgRead::Empty => r is Sleep,
            KmsgRead::Failed => r is Failed,
        },
{
    match read {
        KmsgRead::Record(count) => {
            let record = &buffer[0..count];
            assert(record@ =~= buffer@.take(count as int));
            Forward::Write(record_on_tty(record), true)
        },
        KmsgRead::Overwritten => Forward::Write(
            tty_line("pocketboot: kmsg records were overwritten".as_bytes()),
            false,
        ),
        KmsgRead::Empty => Forward::Sleep,
        KmsgRead::Failed => Forward::Failed,
    }
}

/// Each line on a terminal is its text, a carriage return and a line feed, behind the lines before.
pub proof fn law_lines_are_ended_for_terminals(list: Seq<Seq<char>>, n: int)
    requires
        0 <= n <= list.len(),
    ensures
        tty_bytes(list, n) == ended(
            Seq::new(n as nat, |i: int| utf8(list[i]).push(13u8)),
            10u8,
        ),
    decreases n,
{
    let all = Seq::new(n as nat, |i: int| utf8(list[i]).push(13u8));
    if n > 0 {
        law_lines_are_ended_for_terminals(list, n - 1);
        assert(all.drop_last() =~= Seq::new((n - 1) as nat, |i: int| utf8(list[i]).push(13u8)));
        assert(all.last() == utf8(list[n - 1]).push(13u8));
        assert(utf8(list[n - 1]) + seq![0x0du8, 0x0au8] =~= all.last().push(10u8));
    }
}

proof fn lemma_spill_is_least(records: Seq<Seq<u8>>, len: int, k: int)
    requires
        0 <= k < spill(records, len),
        k <= records.len(),
    ensures
        total(records.skip(k)) + len > 0x8_0000,
    decreases records.len(),
{
    if k == 0 {
        assert(records.skip(0) =~= records);
    } else {
        lemma_spill_is_least(records.skip(1), len, k - 1);
        assert(records.skip(1).skip(k - 1) =~= records.skip(k));
    }
}

/// No more is dropped than has to be: a record goes into a backlog of half a mebibyte, and only as
/// many of the oldest records leave it as make room; where there is room, none leaves. A record that
/// is greater than the whole backlog is dropped alone.
pub proof fn law_only_the_oldest_leave(b: BacklogView, record: Seq<u8>, k: int)
    requires
        k == with_record(b, record).dropped_records - b.dropped_records,
    ensures
        record.len() <= 0x8_0000 ==> {
            &&& 0 <= k <= b.records.len()
            &&& with_record(b, record).records == b.records.skip(k).push(record)
            &&& k > 0 ==> total(b.records.skip(k - 1)) + record.len() > 0x8_0000
            &&& total(b.records) + record.len() <= 0x8_0000 ==> k == 0
        },
        record.len() > 0x8_0000 ==> k == 1 && with_record(b, record).records == b.records,
{
    if record.len() <= 0x8_0000 {
        lemma_spill(b.records, record.len() as int);
        if k > 0 {
            lemma_spill_is_least(b.records, record.len() as int, k - 1);
        }
    }
}

} // verus!
