//! Calls of the secure firmware: how they are laid out, how their answers are taken, and which calls
//! name the entry of the other processors.
use vstd::prelude::*;

use crate::bytes::{
    law_double_word_bytes_round_trip, law_word_bytes_round_trip, le32, le32_bytes, le64,
    le64_bytes, push_le_u32, push_le_u64,
};
use crate::preboot::msm8916::Error;

verus! {

/// The entry is one of 64-bit code.
pub const BOOT_MC_FLAG_AARCH64: u32 = 1;

/// The entry is one after power-on.
pub const BOOT_MC_FLAG_COLDBOOT: u32 = 2;

pub const SVC_BOOT: u32 = 0x01;

pub const BOOT_SET_ADDR_MC: u32 = 0x11;

pub const SVC_INFO: u32 = 0x06;

pub const INFO_IS_CALL_AVAIL: u32 = 0x01;

/// The most arguments of a call.
pub const MAX_ARGS: usize = 10;

/// The length of the block of arguments that registers do not hold.
pub const EXT_SIZE: usize = 56;

/// How often an interrupted call is taken up.
pub const MAX_TURNS: u32 = 1024;

/// How often a call is made again while the firmware is busy.
pub const MAX_RETRIES: u32 = 20;

/// How long is waited before a call is made again.
pub const BUSY_DELAY_US: u64 = 30_000;

/// How wide the registers of a call are.
#[derive(Clone, Copy, Debug, PartialEq, Eq, Structural)]
pub enum Convention {
    Smc32,
    Smc64,
}

/// The number of a function of the firmware.
pub open spec fn function_number(convention: Convention, svc: u32, cmd: u32, fast: bool) -> u32 {
    ((if fast {
        0x8000_0000int
    } else {
        0
    }) + (if convention == Convention::Smc64 {
        0x4000_0000int
    } else {
        0
    }) + 0x0200_0000 + (svc % 256) * 256 + cmd % 256) as u32
}

proof fn lemma_number_bits(fast: u32, wide: u32, svc: u32, cmd: u32)
    by (bit_vector)
    requires
        fast <= 1,
        wide <= 1,
    ensures
        (fast << 31) | (wide << 30) | (2u32 << 24) | ((svc & 0xff) << 8) | (cmd & 0xff) == fast
            * 0x8000_0000 + wide * 0x4000_0000 + 0x0200_0000 + (svc % 256) * 256 + cmd % 256,
{
}

impl Convention {
    /// The number of a function of the firmware.
    pub fn function(self, svc: u32, cmd: u32, fast: bool) -> (r: u32)
        ensures
            r == function_number(self, svc, cmd, fast),
    {
        let wide: u32 = if self == Convention::Smc64 {
            1
        } else {
            0
        };
        let quick: u32 = if fast {
            1
        } else {
            0
        };
        proof {
            lemma_number_bits(quick, wide, svc, cmd);
        }
        (quick << 31) | (wide << 30) | (2u32 << 24) | ((svc & 0xff) << 8) | (cmd & 0xff)
    }
}

/// The low word of a value.
pub open spec fn low_word(value: u64) -> u32 {
    (value % 0x1_0000_0000) as u32
}

fn low_half(value: u64) -> (r: u32)
    ensures
        r == low_word(value),
{
    assert(value as u32 == value % 0x1_0000_0000) by (bit_vector);
    value as u32
}

/// The arguments that registers do not hold, one after the other, as wide as the registers are.
pub open spec fn packed(convention: Convention, args: Seq<u64>) -> Seq<u8>
    decreases args.len(),
{
    if args.len() == 0 {
        Seq::empty()
    } else {
        packed(convention, args.drop_last()) + if convention == Convention::Smc32 {
            le32_bytes(low_word(args.last()))
        } else {
            le64_bytes(args.last())
        }
    }
}

/// The block of arguments that registers do not hold: those after the third, and zeros to its end.
pub open spec fn ext_block(convention: Convention, args: Seq<u64>) -> Seq<u8> {
    let words = packed(convention, args.skip(3));
    words + Seq::new((EXT_SIZE - words.len()) as nat, |i: int| 0u8)
}

/// The block of arguments that registers do not hold.
pub fn pack_ext(convention: Convention, args: &[u64]) -> (r: Vec<u8>)
    requires
        args@.len() == MAX_ARGS,
    ensures
        r@ == ext_block(convention, args@),
        r@.len() == EXT_SIZE,
{
    let mut out: Vec<u8> = Vec::new();
    let mut i: usize = 3;
    let ghost list = args@.skip(3);
    assert(list.take(0) =~= Seq::<u64>::empty());
    while i < 10
        invariant
            3 <= i <= 10,
            args@.len() == 10,
            list == args@.skip(3),
            out@ == packed(convention, list.take(i - 3)),
            out@.len() == (i - 3) * (if convention == Convention::Smc32 {
                4int
            } else {
                8
            }),
        decreases 10 - i,
    {
        assert(list.take(i - 3 + 1).drop_last() =~= list.take(i - 3));
        assert(list.take(i - 3 + 1).last() == args@[i as int]);
        if convention == Convention::Smc32 {
            push_le_u32(&mut out, low_half(args[i]));
        } else {
            push_le_u64(&mut out, args[i]);
        }
        i += 1;
    }
    assert(list.take(7) =~= list);
    let ghost words = out@;
    while out.len() < EXT_SIZE
        invariant
            words.len() <= out@.len() <= EXT_SIZE,
            out@ == words + Seq::new((out@.len() - words.len()) as nat, |i: int| 0u8),
        decreases EXT_SIZE - out@.len(),
    {
        out.push(0);
    }
    out
}

/// A call of the firmware.
#[derive(Debug)]
pub struct Call {
    pub convention: Convention,
    pub svc: u32,
    pub cmd: u32,
    pub arglen: u32,
    pub args: Vec<u64>,
    pub fast: bool,
}

/// The model of a call.
pub struct CallView {
    pub convention: Convention,
    pub svc: u32,
    pub cmd: u32,
    pub arglen: u32,
    pub args: Seq<u64>,
    pub fast: bool,
}

impl View for Call {
    type V = CallView;

    open spec fn view(&self) -> CallView {
        CallView {
            convention: self.convention,
            svc: self.svc,
            cmd: self.cmd,
            arglen: self.arglen,
            args: self.args@,
            fast: self.fast,
        }
    }
}

/// A register of a call, as wide as the convention says.
pub open spec fn register(convention: Convention, value: u64) -> u64 {
    if convention == Convention::Smc32 {
        low_word(value) as u64
    } else {
        value
    }
}

/// The registers that a call starts with, by where its block of arguments is: the number, the count
/// of the arguments, the first arguments, and the block where they do not suffice.
pub open spec fn call_registers(call: CallView, ext: u64) -> Result<Seq<u64>, Error> {
    if call.arglen > MAX_ARGS || (call.arglen > 4 && call.convention == Convention::Smc32 && ext
        > u32::MAX) {
        Err(Error::Scm)
    } else {
        Ok(
            seq![
                function_number(call.convention, call.svc, call.cmd, call.fast) as u64,
                call.arglen as u64,
                register(call.convention, call.args[0]),
                register(call.convention, call.args[1]),
                register(call.convention, call.args[2]),
                register(
                    call.convention,
                    if call.arglen > 4 {
                        ext
                    } else {
                        call.args[3]
                    },
                ),
                0u64,
                0u64,
            ],
        )
    }
}

impl Call {
    fn narrow(&self, value: u64) -> (r: u64)
        ensures
            r == register(self.convention, value),
    {
        if self.convention == Convention::Smc32 {
            low_half(value) as u64
        } else {
            value
        }
    }

    /// The registers that the call starts with, by where its block of arguments is.
    pub fn registers(&self, ext: u64) -> (r: Result<Vec<u64>, Error>)
        requires
            self.args@.len() == MAX_ARGS,
        ensures
            call_registers(self@, ext) == match r {
                Ok(v) => Ok(v@),
                Err(e) => Err(e),
            },
    {
        if self.arglen > MAX_ARGS as u32 {
            return Err(Error::Scm);
        }
        let mut last = self.args[3];
        if self.arglen > 4 {
            if self.convention == Convention::Smc32 && ext > u32::MAX as u64 {
                return Err(Error::Scm);
            }
            last = ext;
        }
        let r = vec![
            self.convention.function(self.svc, self.cmd, self.fast) as u64,
            self.arglen as u64,
            self.narrow(self.args[0]),
            self.narrow(self.args[1]),
            self.narrow(self.args[2]),
            self.narrow(last),
            0u64,
            0u64,
        ];
        assert(call_registers(self@, ext)->Ok_0 =~= r@);
        Ok(r)
    }
}

/// Where a call in progress stands: the first register and the cookie of the next turn, the turns
/// of this attempt, and the attempts that found the firmware busy.
#[derive(Clone, Copy, Debug, PartialEq, Eq, Structural)]
pub struct Progress {
    pub function: u64,
    pub x0: u64,
    pub cookie: u64,
    pub turns: u32,
    pub attempt: u32,
}

/// What a call takes next.
#[derive(Clone, Copy, Debug, PartialEq, Eq, Structural)]
pub enum CallStep {
    /// The firmware is entered, with the other registers as at the start.
    Enter { x0: u64, x6: u64 },
    /// The firmware is entered after a while.
    EnterLater { delay_us: u64, x0: u64, x6: u64 },
    /// The call succeeded, with a value.
    Done(u64),
    Failed(Error),
}

/// What a call takes next after the firmware came back.
pub open spec fn call_next(p: Progress, x0: u64, x1: u64, x6: u64) -> (Progress, CallStep) {
    let status = low_word(x0);
    if status == 1 {
        // The call was interrupted: it goes on with the cookie that the firmware left.
        if p.turns + 1 >= MAX_TURNS {
            (p, CallStep::Failed(Error::Scm))
        } else {
            (
                Progress { x0: 1, cookie: x6, turns: (p.turns + 1) as u32, ..p },
                CallStep::Enter { x0: 1, x6 },
            )
        }
    } else if status == 0xffff_fff4 && p.attempt < MAX_RETRIES {
        // The firmware is busy: the call starts anew.
        (
            Progress {
                function: p.function,
                x0: p.function,
                cookie: 0,
                turns: 0,
                attempt: (p.attempt + 1) as u32,
            },
            CallStep::EnterLater { delay_us: BUSY_DELAY_US, x0: p.function, x6: 0 },
        )
    } else if status != 0 {
        (p, CallStep::Failed(Error::Scm))
    } else {
        (p, CallStep::Done(x1))
    }
}

impl Progress {
    /// A call that starts.
    pub fn new(function: u64) -> (r: (Progress, CallStep))
        ensures
            r.0 == (Progress { function, x0: function, cookie: 0, turns: 0, attempt: 0 }),
            r.1 == (CallStep::Enter { x0: function, x6: 0 }),
    {
        (
            Progress { function, x0: function, cookie: 0, turns: 0, attempt: 0 },
            CallStep::Enter { x0: function, x6: 0 },
        )
    }

    /// What the call takes next after the firmware came back.
    pub fn returned(&mut self, x0: u64, x1: u64, x6: u64) -> (r: CallStep)
        requires
            old(self).turns < MAX_TURNS,
            old(self).attempt <= MAX_RETRIES,
        ensures
            (*final(self), r) == call_next(*old(self), x0, x1, x6),
            final(self).turns < MAX_TURNS,
            final(self).attempt <= MAX_RETRIES,
    {
        let status = low_half(x0);
        if status == 1 {
            if self.turns + 1 >= MAX_TURNS {
                return CallStep::Failed(Error::Scm);
            }
            self.x0 = 1;
            self.cookie = x6;
            self.turns = self.turns + 1;
            return CallStep::Enter { x0: 1, x6 };
        }
        if status == 0xffff_fff4 && self.attempt < MAX_RETRIES {
            self.x0 = self.function;
            self.cookie = 0;
            self.turns = 0;
            self.attempt = self.attempt + 1;
            return CallStep::EnterLater { delay_us: BUSY_DELAY_US, x0: self.function, x6: 0 };
        }
        if status != 0 {
            return CallStep::Failed(Error::Scm);
        }
        CallStep::Done(x1)
    }
}

/// The entries of the firmware that a call may still take.
pub open spec fn entries_left(p: Progress) -> int {
    (MAX_RETRIES - p.attempt) * MAX_TURNS + (MAX_TURNS - p.turns)
}

/// A call ends, whatever the firmware answers: each entry uses up one of a bounded number.
pub proof fn law_calls_end(p: Progress, x0: u64, x1: u64, x6: u64)
    requires
        p.turns < MAX_TURNS,
        p.attempt <= MAX_RETRIES,
        call_next(p, x0, x1, x6).1 is Enter || call_next(p, x0, x1, x6).1 is EnterLater,
    ensures
        0 <= entries_left(call_next(p, x0, x1, x6).0) < entries_left(p),
{
}

/// A firmware that is busy or interrupts a call is never taken for one that did what it was asked
/// to.
pub proof fn law_only_success_is_taken(p: Progress, x0: u64, x1: u64, x6: u64)
    ensures
        call_next(p, x0, x1, x6).1 is Done <==> low_word(x0) == 0,
{
}

/// The call that asks whether a function is there.
pub open spec fn query(convention: Convention, svc: u32, cmd: u32, fast: bool) -> CallView {
    CallView {
        convention,
        svc: SVC_INFO,
        cmd: INFO_IS_CALL_AVAIL,
        arglen: 1,
        args: Seq::new(
            10,
            |i: int|
                if i == 0 {
                    function_number(Convention::Smc32, svc, cmd, false) as u64
                } else {
                    0
                },
        ),
        fast,
    }
}

/// The call that asks whether a function is there.
pub fn is_call_available(convention: Convention, svc: u32, cmd: u32, fast: bool) -> (r: Call)
    ensures
        r@ == query(convention, svc, cmd, fast),
{
    let number = Convention::Smc32.function(svc, cmd, false) as u64;
    let args = vec![number, 0u64, 0u64, 0u64, 0u64, 0u64, 0u64, 0u64, 0u64, 0u64];
    assert(args@ =~= query(convention, svc, cmd, fast).args);
    Call { convention, svc: SVC_INFO, cmd: INFO_IS_CALL_AVAIL, arglen: 1, args, fast }
}

/// The call that names the entry of all processors.
pub open spec fn entry_call(convention: Convention, entry: u64, flags: u32) -> CallView {
    CallView {
        convention,
        svc: SVC_BOOT,
        cmd: BOOT_SET_ADDR_MC,
        arglen: 6,
        args: seq![
            entry,
            u64::MAX,
            u64::MAX,
            u64::MAX,
            u64::MAX,
            flags as u64,
            0u64,
            0u64,
            0u64,
            0u64,
        ],
        fast: false,
    }
}

fn entry_request(convention: Convention, entry: u64, flags: u32) -> (r: Call)
    ensures
        r@ == entry_call(convention, entry, flags),
{
    let args = vec![
        entry,
        u64::MAX,
        u64::MAX,
        u64::MAX,
        u64::MAX,
        flags as u64,
        0u64,
        0u64,
        0u64,
        0u64,
    ];
    assert(args@ =~= entry_call(convention, entry, flags).args);
    Call { convention, svc: SVC_BOOT, cmd: BOOT_SET_ADDR_MC, arglen: 6, args, fast: false }
}

/// Where the naming of the entry stands.
#[derive(Clone, Copy, Debug, PartialEq, Eq, Structural)]
pub enum EntryStage {
    /// Nothing was asked yet.
    Start,
    /// It was asked whether a convention works.
    Probe(Convention),
    /// It was asked whether the entry can be named.
    Available(Convention),
    /// The entry was named.
    Named,
}

/// What naming the entry takes next.
#[derive(Debug)]
pub enum EntryStep {
    Ask(Call),
    Done(Result<(), Error>),
}

/// What naming the entry takes next, for contracts.
pub enum EntryStepView {
    Ask(CallView),
    Done(Result<(), Error>),
}

impl View for EntryStep {
    type V = EntryStepView;

    open spec fn view(&self) -> EntryStepView {
        match *self {
            EntryStep::Ask(call) => EntryStepView::Ask(call@),
            EntryStep::Done(r) => EntryStepView::Done(r),
        }
    }
}

/// What naming the entry takes next, by the answer to the last call: the wide convention is tried,
/// then the narrow one, both by quick calls; then it is asked whether the entry can be named, and it
/// is named, where it fits the convention.
pub open spec fn entry_next(
    stage: EntryStage,
    answer: Result<u64, Error>,
    entry: u64,
    flags: u32,
) -> (EntryStage, EntryStepView) {
    match stage {
        EntryStage::Start => (
            EntryStage::Probe(Convention::Smc64),
            EntryStepView::Ask(query(Convention::Smc64, SVC_INFO, INFO_IS_CALL_AVAIL, true)),
        ),
        EntryStage::Probe(convention) => if answer == Ok::<u64, Error>(1) {
            (
                EntryStage::Available(convention),
                EntryStepView::Ask(query(convention, SVC_BOOT, BOOT_SET_ADDR_MC, false)),
            )
        } else if convention == Convention::Smc64 {
            (
                EntryStage::Probe(Convention::Smc32),
                EntryStepView::Ask(query(Convention::Smc32, SVC_INFO, INFO_IS_CALL_AVAIL, true)),
            )
        } else {
            (stage, EntryStepView::Done(Err(Error::Scm)))
        },
        EntryStage::Available(convention) => match answer {
            Err(error) => (stage, EntryStepView::Done(Err(error))),
            Ok(value) => if value != 1 || (convention == Convention::Smc32 && entry > u32::MAX) {
                (stage, EntryStepView::Done(Err(Error::Scm)))
            } else {
                (EntryStage::Named, EntryStepView::Ask(entry_call(convention, entry, flags)))
            },
        },
        EntryStage::Named => match answer {
            Err(error) => (stage, EntryStepView::Done(Err(error))),
            Ok(_) => (stage, EntryStepView::Done(Ok(()))),
        },
    }
}

/// What naming the entry of the other processors takes next, by the answer to the last call.
pub fn set_boot_addr_mc(
    stage: EntryStage,
    answer: Result<u64, Error>,
    entry: u64,
    flags: u32,
) -> (r: (EntryStage, EntryStep))
    ensures
        (r.0, r.1@) == entry_next(stage, answer, entry, flags),
{
    match stage {
        EntryStage::Start => (
            EntryStage::Probe(Convention::Smc64),
            EntryStep::Ask(
                is_call_available(Convention::Smc64, SVC_INFO, INFO_IS_CALL_AVAIL, true),
            ),
        ),
        EntryStage::Probe(convention) => {
            if let Ok(value) = answer {
                if value == 1 {
                    return (
                        EntryStage::Available(convention),
                        EntryStep::Ask(
                            is_call_available(convention, SVC_BOOT, BOOT_SET_ADDR_MC, false),
                        ),
                    );
                }
            }
            if convention == Convention::Smc64 {
                (
                    EntryStage::Probe(Convention::Smc32),
                    EntryStep::Ask(
                        is_call_available(Convention::Smc32, SVC_INFO, INFO_IS_CALL_AVAIL, true),
                    ),
                )
            } else {
                (stage, EntryStep::Done(Err(Error::Scm)))
            }
        },
        EntryStage::Available(convention) => match answer {
            Err(error) => (stage, EntryStep::Done(Err(error))),
            Ok(value) => {
                if value != 1 || (convention == Convention::Smc32 && entry > u32::MAX as u64) {
                    (stage, EntryStep::Done(Err(Error::Scm)))
                } else {
                    (
                        EntryStage::Named,
                        EntryStep::Ask(entry_request(convention, entry, flags)),
                    )
                }
            },
        },
        EntryStage::Named => match answer {
            Err(error) => (stage, EntryStep::Done(Err(error))),
            Ok(_) => (stage, EntryStep::Done(Ok(()))),
        },
    }
}

/// The entry is named only to a firmware that said it can take it, by the convention that it
/// answered to, and only where the entry fits that convention.
pub proof fn law_entry_is_named_where_it_can_be(
    stage: EntryStage,
    answer: Result<u64, Error>,
    entry: u64,
    flags: u32,
)
    requires
        entry_next(stage, answer, entry, flags).0 == EntryStage::Named,
        stage != EntryStage::Named,
    ensures
        answer == Ok::<u64, Error>(1),
        stage matches EntryStage::Available(convention) && (convention == Convention::Smc32 ==> entry
            <= u32::MAX),
{
}

/// The number of a function tells the service and the command, whether the call is fast, and which
/// convention it follows.
pub proof fn law_function_numbers_are_told_apart(convention: Convention, svc: u32, cmd: u32, fast: bool)
    requires
        svc < 256,
        cmd < 256,
    ensures
        ({
            let number = function_number(convention, svc, cmd, fast);
            &&& number % 256 == cmd
            &&& number / 256 % 256 == svc
            &&& number / 0x1_0000 % 256 == 0
            &&& number / 0x100_0000 % 64 == 2
            &&& number / 0x4000_0000 % 2 == (if convention == Convention::Smc64 {
                1int
            } else {
                0
            })
            &&& number / 0x8000_0000 == (if fast {
                1int
            } else {
                0
            })
        }),
{
}

proof fn lemma_words_behind(a: Seq<u8>, b: Seq<u8>, at: int)
    requires
        0 <= at,
    ensures
        at + 4 <= a.len() ==> le32(a + b, at) == le32(a, at),
        at + 8 <= a.len() ==> le64(a + b, at) == le64(a, at),
        b.len() >= 4 ==> le32(a + b, a.len() as int) == le32(b, 0),
        b.len() >= 8 ==> le64(a + b, a.len() as int) == le64(b, 0),
{
}

proof fn lemma_packed(convention: Convention, args: Seq<u64>, i: int)
    requires
        0 <= i < args.len(),
    ensures
        convention == Convention::Smc32 ==> packed(convention, args).len() == 4 * args.len() && le32(
            packed(convention, args),
            4 * i,
        ) == args[i] % 0x1_0000_0000,
        convention == Convention::Smc64 ==> packed(convention, args).len() == 8 * args.len() && le64(
            packed(convention, args),
            8 * i,
        ) == args[i],
    decreases args.len(),
{
    reveal_with_fuel(packed, 2);
    let fewer = args.drop_last();
    let last = args.last();
    law_word_bytes_round_trip(low_word(last));
    law_double_word_bytes_round_trip(last);
    if fewer.len() > 0 {
        lemma_packed(
            convention,
            fewer,
            if i < fewer.len() {
                i
            } else {
                0
            },
        );
    }
    let front = packed(convention, fewer);
    let more = if convention == Convention::Smc32 {
        le32_bytes(low_word(last))
    } else {
        le64_bytes(last)
    };
    lemma_words_behind(
        front,
        more,
        if convention == Convention::Smc32 {
            4 * i
        } else {
            8 * i
        },
    );
}

/// The firmware gets all arguments of a call: the first three in registers, and the others in the
/// block that the last register tells of, in words of the width of the convention. A call with up to
/// four arguments has them all in registers.
pub proof fn law_arguments_reach_the_firmware(call: CallView, ext: u64, i: int)
    requires
        call.args.len() == 10,
        0 <= i < 10,
    ensures
        call_registers(call, ext) matches Ok(registers) ==> {
            let value = if call.convention == Convention::Smc64 {
                call.args[i] as int
            } else {
                call.args[i] as int % 0x1_0000_0000
            };
            &&& registers[1] == call.arglen
            &&& i < 3 ==> registers[2 + i] == value
            &&& i == 3 && call.arglen <= 4 ==> registers[5] == value
            &&& call.arglen > 4 ==> registers[5] == ext
        },
        i >= 3 && call.convention == Convention::Smc64 ==> le64(
            ext_block(call.convention, call.args),
            8 * (i - 3),
        ) == call.args[i],
        i >= 3 && call.convention == Convention::Smc32 ==> le32(
            ext_block(call.convention, call.args),
            4 * (i - 3),
        ) == call.args[i] % 0x1_0000_0000,
{
    if i >= 3 {
        let rest = call.args.skip(3);
        lemma_packed(call.convention, rest, i - 3);
        assert(rest[i - 3] == call.args[i]);
        let words = packed(call.convention, rest);
        let fill = Seq::new((EXT_SIZE - words.len()) as nat, |i: int| 0u8);
        lemma_words_behind(
            words,
            fill,
            if call.convention == Convention::Smc32 {
                4 * (i - 3)
            } else {
                8 * (i - 3)
            },
        );
    }
}

/// The call that names the entry gives the firmware the entry first, then the marks of all
/// processors, and last the flags; the call that asks whether a function is there gives its number.
pub proof fn law_calls_ask_for_what_they_are_for(
    convention: Convention,
    entry: u64,
    flags: u32,
    svc: u32,
    cmd: u32,
    fast: bool,
)
    ensures
        ({
            let call = entry_call(convention, entry, flags);
            &&& call.svc == 1 && call.cmd == 0x11 && call.arglen == 6 && !call.fast
            &&& call.convention == convention
            &&& call.args.len() == 10
            &&& call.args[0] == entry
            &&& forall|i: int| 1 <= i < 5 ==> #[trigger] call.args[i] == 0xffff_ffff_ffff_ffff
            &&& call.args[5] == flags
        }),
        ({
            let call = query(convention, svc, cmd, fast);
            &&& call.svc == 6 && call.cmd == 1 && call.arglen == 1 && call.fast == fast
            &&& call.convention == convention
            &&& call.args.len() == 10
            &&& call.args[0] == function_number(Convention::Smc32, svc, cmd, false)
        }),
{
}

} // verus!
