//! Capturing the kernel log for the host.
use vstd::prelude::*;
use vstd::slice::slice_subrange;
use vstd::string::*;

use crate::bytes::{push_bytes, utf8};
use crate::errors::ErrorKind;
use crate::kmsg_forwarder::{self, read_kmsg, EPIPE};
use crate::kmsg::{record_lines, shown_lines};
use crate::text::{decimal, decimal_text, ended, owned, push_decimal, texts};

verus! {

/// The greatest length of a record.
pub const KMSG_RECORD_MAX: usize = 0x1_0000;

/// How much is captured at most.
#[derive(Clone, Copy, Debug, PartialEq, Eq, Structural)]
pub struct CaptureLimits {
    pub bytes: usize,
    pub records: usize,
}

/// How much is captured at most for the host: 4 MiB and 32768 records.
pub fn capture_limits() -> (r: CaptureLimits)
    ensures
        r == (CaptureLimits { bytes: 0x40_0000, records: 0x8000 }),
{
    CaptureLimits { bytes: 0x40_0000, records: 0x8000 }
}

/// What has been captured.
#[derive(Debug)]
pub struct DmesgCapture {
    pub data: Vec<u8>,
    pub records: usize,
    pub overwritten: bool,
}

/// Why the capture was given up.
#[derive(Clone, Copy, Debug, PartialEq, Eq, Structural)]
pub enum CaptureError {
    Records(usize),
    Bytes(usize),
}

impl CaptureError {
    /// The kind of the error.
    pub fn kind(self) -> (k: ErrorKind)
        ensures
            k == ErrorKind::InvalidData,
    {
        ErrorKind::InvalidData
    }

    /// The error in words.
    pub open spec fn words(self) -> Seq<char> {
        match self {
            CaptureError::Records(limit) => "dmesg capture exceeds record limit ("@ + decimal(
                limit as int,
            ) + ")"@,
            CaptureError::Bytes(limit) => "dmesg capture exceeds byte limit ("@ + decimal(
                limit as int,
            ) + ")"@,
        }
    }

    /// The error in words.
    pub fn message(self) -> (s: String)
        ensures
            s@ == self.words(),
    {
        let (front, limit) = match self {
            CaptureError::Records(limit) => ("dmesg capture exceeds record limit (", limit),
            CaptureError::Bytes(limit) => ("dmesg capture exceeds byte limit (", limit),
        };
        let mut s = owned(front);
        push_decimal(&mut s, limit as u64);
        s.append(")");
        s
    }
}

/// A line as it is captured.
pub open spec fn line_bytes(line: Seq<char>) -> Seq<u8> {
    utf8(line).push(0x0au8)
}

/// The first `n` lines as they are captured.
pub open spec fn lines_bytes(list: Seq<Seq<char>>, n: int) -> Seq<u8>
    decreases n,
{
    if n <= 0 {
        Seq::empty()
    } else {
        lines_bytes(list, n - 1) + line_bytes(list[n - 1])
    }
}

/// A record as it is captured.
pub open spec fn record_bytes(raw: Seq<u8>) -> Seq<u8> {
    lines_bytes(shown_lines(raw), shown_lines(raw).len() as int)
}

fn append_line(output: &mut Vec<u8>, line: &str)
    ensures
        final(output)@ == old(output)@ + line_bytes(line@),
{
    push_bytes(output, line.as_bytes());
    output.push(0x0a);
    assert(output@ =~= old(output)@ + line_bytes(line@));
}

fn kmsg_record_bytes(raw: &[u8]) -> (r: Vec<u8>)
    ensures
        r@ == record_bytes(raw@),
{
    let list = record_lines(raw);
    let mut out: Vec<u8> = Vec::new();
    let mut i: usize = 0;
    while i < list.len()
        invariant
            i <= list@.len(),
            texts(list@) == shown_lines(raw@),
            out@ == lines_bytes(shown_lines(raw@), i as int),
        decreases list@.len() - i,
    {
        assert(shown_lines(raw@)[i as int] == list@[i as int]@);
        append_line(&mut out, list[i].as_str());
        i += 1;
    }
    assert(texts(list@).len() == list@.len());
    out
}

/// Appends bytes, unless there would be more than `limit`.
pub fn append_limited(output: &mut Vec<u8>, data: &[u8], limit: usize) -> (r: Result<
    (),
    CaptureError,
>)
    ensures
        match r {
            Ok(()) => old(output)@.len() + data@.len() <= limit && final(output)@ == old(output)@
                + data@,
            Err(e) => old(output)@.len() + data@.len() > limit && e == CaptureError::Bytes(limit)
                && final(output)@ == old(output)@,
        },
{
    if output.len() > limit || data.len() > limit - output.len() {
        return Err(CaptureError::Bytes(limit));
    }
    push_bytes(output, data);
    Ok(())
}

/// What a read of the kernel log gives.
#[derive(Debug)]
pub enum KmsgRead {
    /// A record.
    Record(Vec<u8>),
    /// The read was interrupted.
    Interrupted,
    /// Records were overwritten before they could be read.
    Overwritten,
    /// There is nothing more to read.
    End,
}

/// What came of a read of the kernel log into `record`, where it is none of the errors that end a
/// capture: a read of no bytes and one that would wait end the log, an interrupted one is made
/// again, and `EPIPE` tells that records were overwritten.
pub open spec fn log_read(
    record: Seq<u8>,
    answer: Result<usize, (ErrorKind, Option<i32>)>,
) -> Option<KmsgReadView> {
    match answer {
        Ok(read) => if read == 0 {
            Some(KmsgReadView::End)
        } else {
            Some(KmsgReadView::Record(record.take(read as int)))
        },
        Err((kind, errno)) => if kind == ErrorKind::Interrupted {
            Some(KmsgReadView::Interrupted)
        } else if kind == ErrorKind::WouldBlock {
            Some(KmsgReadView::End)
        } else if errno == Some(EPIPE) {
            Some(KmsgReadView::Overwritten)
        } else {
            None
        },
    }
}

/// What a read of the kernel log gives, as plain values.
pub enum KmsgReadView {
    Record(Seq<u8>),
    Interrupted,
    Overwritten,
    End,
}

impl View for KmsgRead {
    type V = KmsgReadView;

    open spec fn view(&self) -> KmsgReadView {
        match self {
            KmsgRead::Record(raw) => KmsgReadView::Record(raw@),
            KmsgRead::Interrupted => KmsgReadView::Interrupted,
            KmsgRead::Overwritten => KmsgReadView::Overwritten,
            KmsgRead::End => KmsgReadView::End,
        }
    }
}

/// What came of a read of the kernel log into `record`; nothing where the error ends the capture.
pub fn read_log(record: &[u8], answer: Result<usize, (ErrorKind, Option<i32>)>) -> (r: Option<
    KmsgRead,
>)
    requires
        answer matches Ok(read) ==> read <= record@.len(),
    ensures
        match r {
            Some(read) => log_read(record@, answer) == Some(read@),
            None => log_read(record@, answer) is None,
        },
{
    match answer {
        Ok(read) => if read == 0 {
            Some(KmsgRead::End)
        } else {
            let mut raw: Vec<u8> = Vec::new();
            push_bytes(&mut raw, slice_subrange(record, 0, read));
            assert(raw@ =~= record@.take(read as int));
            Some(KmsgRead::Record(raw))
        },
        Err((kind, errno)) => {
            if kind == ErrorKind::Interrupted {
                return Some(KmsgRead::Interrupted);
            }
            match read_kmsg(Err((kind, errno))) {
                kmsg_forwarder::KmsgRead::Empty => Some(KmsgRead::End),
                kmsg_forwarder::KmsgRead::Overwritten => Some(KmsgRead::Overwritten),
                _ => None,
            }
        },
    }
}

/// What is captured after a read, or why the capture is given up.
pub open spec fn captured(
    data: Seq<u8>,
    records: int,
    overwritten: bool,
    read: KmsgRead,
    limits: CaptureLimits,
) -> Result<(Seq<u8>, int, bool), CaptureError> {
    match read {
        KmsgRead::Record(raw) => if records >= limits.records {
            Err(CaptureError::Records(limits.records))
        } else if data.len() + record_bytes(raw@).len() > limits.bytes {
            Err(CaptureError::Bytes(limits.bytes))
        } else {
            Ok((data + record_bytes(raw@), records + 1, overwritten))
        },
        KmsgRead::Overwritten => {
            let line = line_bytes("pocketboot: kmsg records were overwritten"@);
            if data.len() + line.len() > limits.bytes {
                Err(CaptureError::Bytes(limits.bytes))
            } else {
                Ok((data + line, records, true))
            }
        },
        KmsgRead::Interrupted | KmsgRead::End => Ok((data, records, overwritten)),
    }
}

impl DmesgCapture {
    /// Nothing captured.
    pub fn new() -> (r: DmesgCapture)
        ensures
            r.data@.len() == 0,
            r.records == 0,
            !r.overwritten,
    {
        DmesgCapture { data: Vec::new(), records: 0, overwritten: false }
    }

    /// Takes a read in. Returns whether there may be more to read.
    pub fn take(&mut self, read: &KmsgRead, limits: CaptureLimits) -> (r: Result<
        bool,
        CaptureError,
    >)
        ensures
            match r {
                Ok(more) => {
                    &&& captured(
                        old(self).data@,
                        old(self).records as int,
                        old(self).overwritten,
                        *read,
                        limits,
                    ) == Ok::<(Seq<u8>, int, bool), CaptureError>(
                        (
                            final(self).data@,
                            final(self).records as int,
                            final(self).overwritten,
                        ),
                    )
                    &&& more == !(read is End)
                },
                Err(e) => captured(
                    old(self).data@,
                    old(self).records as int,
                    old(self).overwritten,
                    *read,
                    limits,
                ) == Err::<(Seq<u8>, int, bool), CaptureError>(e),
            },
    {
        match read {
            KmsgRead::Record(raw) => {
                if self.records >= limits.records {
                    return Err(CaptureError::Records(limits.records));
                }
                let formatted = kmsg_record_bytes(raw);
                append_limited(&mut self.data, &formatted, limits.bytes)?;
                self.records += 1;
                Ok(true)
            },
            KmsgRead::Overwritten => {
                let mut line: Vec<u8> = Vec::new();
                append_line(&mut line, "pocketboot: kmsg records were overwritten");
                assert(line@ =~= line_bytes("pocketboot: kmsg records were overwritten"@));
                append_limited(&mut self.data, &line, limits.bytes)?;
                self.overwritten = true;
                Ok(true)
            },
            KmsgRead::Interrupted => Ok(true),
            KmsgRead::End => Ok(false),
        }
    }

    /// Ends the capture: where nothing was captured, a line says so.
    pub fn finish(&mut self, limits: CaptureLimits) -> (r: Result<(), CaptureError>)
        ensures
            ({
                let line = line_bytes("pocketboot: no dmesg records captured"@);
                match r {
                    Ok(()) => {
                        &&& final(self).records == old(self).records
                        &&& final(self).overwritten == old(self).overwritten
                        &&& if old(self).data@.len() > 0 {
                            final(self).data@ == old(self).data@
                        } else {
                            final(self).data@ == line && line.len() <= limits.bytes
                        }
                    },
                    Err(e) => old(self).data@.len() == 0 && line.len() > limits.bytes && e
                        == CaptureError::Bytes(limits.bytes),
                }
            }),
    {
        if self.data.len() == 0 {
            let mut line: Vec<u8> = Vec::new();
            append_line(&mut line, "pocketboot: no dmesg records captured");
            assert(line@ =~= line_bytes("pocketboot: no dmesg records captured"@));
            append_limited(&mut self.data, &line, limits.bytes)?;
            assert(self.data@ =~= line@);
        }
        Ok(())
    }
}

/// A capture never grows beyond its limits, whatever is read.
pub proof fn law_capture_stays_in_limits(
    data: Seq<u8>,
    records: int,
    overwritten: bool,
    read: KmsgRead,
    limits: CaptureLimits,
)
    requires
        data.len() <= limits.bytes,
        records <= limits.records,
    ensures
        captured(data, records, overwritten, read, limits) matches Ok((more, count, _)) ==> {
            &&& more.len() <= limits.bytes
            &&& count <= limits.records
            &&& data.is_prefix_of(more)
        },
{
}

/// What is told of a capture.
pub fn capture_text(capture: &DmesgCapture) -> (s: String)
    ensures
        s@ == decimal(capture.records as int) + " dmesg records staged ("@ + decimal(
            capture.data@.len() as int,
        ) + " bytes)"@,
{
    let mut s = decimal_text(capture.records as u64);
    s.append(" dmesg records staged (");
    push_decimal(&mut s, capture.data.len() as u64);
    s.append(" bytes)");
    s
}

proof fn lemma_lines_ended(list: Seq<Seq<char>>, n: int)
    requires
        0 <= n <= list.len(),
    ensures
        lines_bytes(list, n) == ended(Seq::new(n as nat, |i: int| utf8(list[i])), 0x0au8),
    decreases n,
{
    let all = Seq::new(n as nat, |i: int| utf8(list[i]));
    if n > 0 {
        lemma_lines_ended(list, n - 1);
        assert(all.drop_last() =~= Seq::new((n - 1) as nat, |i: int| utf8(list[i])));
        assert(all.last() == utf8(list[n - 1]));
    }
}

/// A record that fits is captured: its lines, each ended by a line feed, follow what was captured
/// before, and it counts once.
pub proof fn law_records_are_captured(
    data: Seq<u8>,
    records: int,
    overwritten: bool,
    raw: Vec<u8>,
    limits: CaptureLimits,
)
    ensures
        ({
            let list = shown_lines(raw@);
            let text = ended(Seq::new(list.len(), |i: int| utf8(list[i])), 0x0au8);
            records < limits.records && data.len() + text.len() <= limits.bytes ==> captured(
                data,
                records,
                overwritten,
                KmsgRead::Record(raw),
                limits,
            ) == Ok::<(Seq<u8>, int, bool), CaptureError>((data + text, records + 1, overwritten))
        }),
{
    lemma_lines_ended(shown_lines(raw@), shown_lines(raw@).len() as int);
}

} // verus!
