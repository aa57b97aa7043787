//! Starting the MSM8916: what is checked before the other processors are touched, and how each of
//! them is started and heard of.
use vstd::prelude::*;

use crate::bytes::utf8;
use crate::preboot::fdt::{reserve_list, Reader};
use crate::preboot::msm8916::{
    collect_cpus, cpus_told, descriptor_sound, find_spin_table, has_coherency_diagnostics,
    memory_check, page_told, parked, require_coherency, stands_at, validate_memory,
    validate_parked_slots, validate_resident_descriptor, CpuInfo, CpuList, Error, SlotReads,
    SpinTable, Surroundings, SPIN_TABLE_CPUECTLR_OFFSET, SPIN_TABLE_ENTRY_EL_OFFSET,
};
use crate::preboot::patch::{patch_fdt, patched};
use crate::preboot::scm::{BOOT_MC_FLAG_AARCH64, BOOT_MC_FLAG_COLDBOOT};

verus! {

/// The most bytes of a patched tree.
pub const MAX_DTB_SIZE: usize = 0x8_0000;

/// How often the acknowledgment of a processor is looked for.
pub const ACK_POLLS: u64 = 100_000;

/// How long is waited between two looks.
pub const ACK_DELAY_US: u64 = 10;

/// Whether a processor takes part in coherency.
pub open spec fn coherent(cpuectlr: u64) -> bool {
    cpuectlr & 0x40 != 0
}

/// Refuses to go on from a state that the boot code was not made for: on another processor than the
/// first, with caches on, without a timer, or without coherency.
pub fn check_entry(mpidr: u64, caches_off: bool, frequency: u64, cpuectlr: u64) -> (r: Result<
    (),
    Error,
>)
    ensures
        r == (if mpidr != 0 || !caches_off || frequency == 0 {
            Err::<(), Error>(Error::EntryState)
        } else if !coherent(cpuectlr) {
            Err(Error::Coherency)
        } else {
            Ok(())
        }),
{
    if mpidr != 0 || !caches_off || frequency == 0 {
        return Err(Error::EntryState);
    }
    require_coherency(cpuectlr)
}

/// What the tree asks for: the resident page, the processors, and the tree for the kernel.
#[derive(Debug)]
pub struct Plan {
    pub table: SpinTable,
    pub cpus: CpuList,
    pub patched: Vec<u8>,
}

/// Whether a plan is what a tree asks for. All that can fail is done before a processor is touched:
/// the page is found, memory is checked, the processors are collected, and the tree is patched.
pub open spec fn plan_of(reader: &Reader<'_>, around: Surroundings, r: Result<Plan, Error>) -> bool {
    let t = reader.tree();
    let reserve = reserve_list(reader.data@, reader.header.off_mem_rsvmap as int);
    match page_told(t) {
        Err(e) => r == Err::<Plan, Error>(e),
        Ok(addr) => match memory_check(t, reserve, addr as int, around) {
            Err(e) => r == Err::<Plan, Error>(e),
            Ok(()) => match cpus_told(t) {
                Err(e) => r == Err::<Plan, Error>(e),
                Ok((values, mode)) => match patched(
                    t,
                    reader.header,
                    reserve,
                    SpinTable { addr },
                    MAX_DTB_SIZE as int,
                ) {
                    None => r == Err::<Plan, Error>(Error::Fdt),
                    Some(tree) => r matches Ok(plan) && plan.table.addr == addr
                        && plan.cpus.values@ == values && plan.cpus.mode == mode
                        && plan.patched@ == tree,
                },
            },
        },
    }
}

/// What the tree asks for, or why it cannot be had.
pub fn plan_startup(reader: &Reader<'_>, around: &Surroundings) -> (r: Result<Plan, Error>)
    ensures
        plan_of(reader, *around, r),
        r matches Ok(plan) ==> plan.table.low(),
{
    let table = find_spin_table(reader)?;
    validate_memory(reader, table, around)?;
    let cpus = collect_cpus(reader)?;
    let tree = patch_fdt(reader, MAX_DTB_SIZE, table)?;
    assert(table == SpinTable { addr: table.addr });
    Ok(Plan { table, cpus, patched: tree })
}

/// Whether the first `n` of some processors take part in coherency.
pub open spec fn all_coherent(values: Seq<u64>, n: int) -> bool {
    forall|i: int| 0 <= i < n ==> coherent(#[trigger] values[i])
}

/// What came of looking at the resident processors: whether their coherency was told.
pub open spec fn handoff(
    prefix: Seq<u8>,
    entry_el: u64,
    first_release: u64,
    slots: Seq<SlotReads>,
    cpuectlrs: Seq<u64>,
) -> Result<bool, Error> {
    let told = stands_at(prefix, 0xb0, utf8("PBSDIAG1"@));
    if !descriptor_sound(prefix) {
        Err(Error::BadSpinTable)
    } else if !(entry_el == 4 || entry_el == 8) || first_release != 0 || !(forall|i: int|
        0 <= i < slots.len() ==> parked(#[trigger] slots[i], entry_el)) {
        Err(Error::UnparkedResident)
    } else if told && !all_coherent(cpuectlrs, cpuectlrs.len() as int) {
        Err(Error::Coherency)
    } else {
        Ok(told)
    }
}

/// Takes over processors that an earlier kernel has parked; nothing is written, since they may be
/// running the code that is looked at. Tells whether their coherency was told.
pub fn take_over(
    prefix: &[u8],
    entry_el: u64,
    first_release: u64,
    slots: &[SlotReads],
    cpuectlrs: &[u64],
) -> (r: Result<bool, Error>)
    ensures
        r == handoff(prefix@, entry_el, first_release, slots@, cpuectlrs@),
{
    validate_resident_descriptor(prefix)?;
    validate_parked_slots(entry_el, first_release, slots)?;
    let told = has_coherency_diagnostics(prefix);
    if told {
        let mut i: usize = 0;
        while i < cpuectlrs.len()
            invariant
                i <= cpuectlrs@.len(),
                all_coherent(cpuectlrs@, i as int),
                !all_coherent(cpuectlrs@, cpuectlrs@.len() as int) ==> handoff(
                    prefix@,
                    entry_el,
                    first_release,
                    slots@,
                    cpuectlrs@,
                ) == Err::<bool, Error>(Error::Coherency),
            ensures
                all_coherent(cpuectlrs@, cpuectlrs@.len() as int),
            decreases cpuectlrs@.len() - i,
        {
            if let Err(error) = require_coherency(cpuectlrs[i]) {
                assert(!coherent(cpuectlrs@[i as int]));
                return Err(error);
            }
            i += 1;
        }
    }
    Ok(told)
}

/// Where the start of the processors stands.
#[derive(Clone, Copy, Debug, PartialEq, Eq, Structural)]
pub enum Stage {
    /// The firmware is told where the processors enter.
    Entry,
    /// The next processor is looked for.
    Next,
    /// A processor was switched on.
    Powered,
    /// The acknowledgment was looked at, so often without success before.
    Look(u64),
    /// A while was waited, after so many looks.
    Wait(u64),
    /// The level of the processor was looked at.
    Level,
    /// The coherency of the processor was looked at.
    Coherency,
    Finished,
}

/// The start of the processors: the page, the level of the first processor, and the place of the
/// processor that is being started.
#[derive(Clone, Copy, Debug, PartialEq, Eq, Structural)]
pub struct Startup {
    pub table: SpinTable,
    pub current_el: u64,
    pub at: usize,
    pub stage: Stage,
}

/// What the start of the processors takes next.
#[derive(Clone, Copy, Debug, PartialEq, Eq, Structural)]
pub enum Action {
    /// The firmware is told where the processors enter.
    SetEntry { entry: u64, flags: u32 },
    /// A processor is switched on, by its power controller.
    PowerOn { cpu: u32, acc_base: u64 },
    /// A word is read.
    Read(u64),
    /// A while is waited.
    Delay(u64),
    /// All processors are started.
    Started,
    /// A processor was not started.
    Failed(Error),
}

/// What came of the last action.
#[derive(Clone, Copy, Debug, PartialEq, Eq, Structural)]
pub enum Event {
    /// The action was done.
    Did,
    /// The firmware refused.
    Refused(Error),
    /// What was read.
    Word(u64),
}

/// The place of the next processor that is not the first one.
pub open spec fn next_secondary(cpus: Seq<CpuInfo>, at: int) -> int
    decreases cpus.len() - at,
{
    if at >= cpus.len() || cpus[at].reg != 0 {
        at
    } else {
        next_secondary(cpus, at + 1)
    }
}

/// What follows once a processor is done with, or none was started yet.
pub open spec fn start_next(s: Startup, cpus: Seq<CpuInfo>, from: int) -> (Startup, Action) {
    let at = next_secondary(cpus, from);
    if at >= cpus.len() {
        (
            Startup { at: at as usize, stage: Stage::Finished, ..s },
            Action::Started,
        )
    } else {
        (
            Startup { at: at as usize, stage: Stage::Powered, ..s },
            Action::PowerOn { cpu: cpus[at].reg, acc_base: cpus[at].acc_base },
        )
    }
}

/// The start of the processors has failed.
pub open spec fn start_failed(s: Startup, error: Error) -> (Startup, Action) {
    (Startup { stage: Stage::Finished, ..s }, Action::Failed(error))
}

/// What the start of the processors takes next. Each processor but the first is switched on, and
/// has to acknowledge that it is parked in time, at the level of the first one and coherent.
pub open spec fn start_step(s: Startup, cpus: Seq<CpuInfo>, event: Event) -> (Startup, Action) {
    let slot = s.table.slot(cpus[s.at as int].reg as int);
    match (s.stage, event) {
        (Stage::Entry, _) => (
            Startup { stage: Stage::Next, ..s },
            Action::SetEntry {
                entry: (s.table.addr + 0x100) as u64,
                flags: 3,
            },
        ),
        (Stage::Next, Event::Refused(error)) => start_failed(s, error),
        (Stage::Next, _) => start_next(s, cpus, 0),
        (Stage::Powered, _) => (
            Startup { stage: Stage::Look(0), ..s },
            Action::Read((slot + 0x40) as u64),
        ),
        (Stage::Look(looks), Event::Word(word)) => if word == 1 {
            (
                Startup { stage: Stage::Level, ..s },
                Action::Read((slot + SPIN_TABLE_ENTRY_EL_OFFSET) as u64),
            )
        } else {
            (
                Startup { stage: Stage::Wait((looks + 1) as u64), ..s },
                Action::Delay(ACK_DELAY_US),
            )
        },
        (Stage::Wait(looks), _) => if looks >= ACK_POLLS {
            start_failed(s, Error::StartupTimeout)
        } else {
            (Startup { stage: Stage::Look(looks), ..s }, Action::Read((slot + 0x40) as u64))
        },
        (Stage::Level, Event::Word(word)) => if word != s.current_el {
            start_failed(s, Error::EntryState)
        } else {
            (
                Startup { stage: Stage::Coherency, ..s },
                Action::Read((slot + SPIN_TABLE_CPUECTLR_OFFSET) as u64),
            )
        },
        (Stage::Coherency, Event::Word(word)) => if !coherent(word) {
            start_failed(s, Error::Coherency)
        } else {
            start_next(s, cpus, s.at + 1)
        },
        _ => start_failed(s, Error::EntryState),
    }
}

impl Startup {
    /// Whether the start is one of processors that a plan holds.
    pub open spec fn wf(self, cpus: Seq<CpuInfo>) -> bool {
        &&& self.table.low()
        &&& forall|i: int| 0 <= i < cpus.len() ==> (#[trigger] cpus[i]).reg < 4
        &&& match self.stage {
            Stage::Entry | Stage::Next | Stage::Finished => true,
            Stage::Look(looks) => self.at < cpus.len() && looks < ACK_POLLS,
            Stage::Wait(looks) => self.at < cpus.len() && looks <= ACK_POLLS,
            _ => self.at < cpus.len(),
        }
    }

    /// The start of processors by way of a page, for a first processor at some level.
    pub fn new(table: SpinTable, current_el: u64) -> (r: Startup)
        ensures
            r == (Startup { table, current_el, at: 0, stage: Stage::Entry }),
    {
        Startup { table, current_el, at: 0, stage: Stage::Entry }
    }

    fn begin_from(&mut self, cpus: &[CpuInfo], from: usize) -> (r: Action)
        requires
            old(self).wf(cpus@),
            from <= cpus@.len(),
        ensures
            (*final(self), r) == start_next(*old(self), cpus@, from as int),
            final(self).wf(cpus@),
    {
        let mut at: usize = from;
        while at < cpus.len() && cpus[at].reg == 0
            invariant
                from <= at <= cpus@.len(),
                next_secondary(cpus@, at as int) == next_secondary(cpus@, from as int),
            decreases cpus@.len() - at,
        {
            at += 1;
        }
        self.at = at;
        if at >= cpus.len() {
            self.stage = Stage::Finished;
            Action::Started
        } else {
            self.stage = Stage::Powered;
            Action::PowerOn { cpu: cpus[at].reg, acc_base: cpus[at].acc_base }
        }
    }

    fn fail(&mut self, error: Error) -> (r: Action)
        ensures
            (*final(self), r) == start_failed(*old(self), error),
    {
        self.stage = Stage::Finished;
        Action::Failed(error)
    }

    /// What the start of the processors takes next, by what came of the last action.
    pub fn step(&mut self, cpus: &[CpuInfo], event: Event) -> (r: Action)
        requires
            old(self).wf(cpus@),
        ensures
            (*final(self), r) == start_step(*old(self), cpus@, event),
            final(self).wf(cpus@),
    {
        match (self.stage, event) {
            (Stage::Entry, _) => {
                self.stage = Stage::Next;
                Action::SetEntry {
                    entry: self.table.code_addr(),
                    flags: BOOT_MC_FLAG_AARCH64 + BOOT_MC_FLAG_COLDBOOT,
                }
            },
            (Stage::Next, Event::Refused(error)) => self.fail(error),
            (Stage::Next, _) => self.begin_from(cpus, 0),
            (Stage::Powered, _) => {
                self.stage = Stage::Look(0);
                Action::Read(self.table.ack_addr(cpus[self.at].reg))
            },
            (Stage::Look(looks), Event::Word(word)) => {
                if word == 1 {
                    self.stage = Stage::Level;
                    Action::Read(
                        self.table.release_addr(cpus[self.at].reg) + SPIN_TABLE_ENTRY_EL_OFFSET,
                    )
                } else {
                    self.stage = Stage::Wait(looks + 1);
                    Action::Delay(ACK_DELAY_US)
                }
            },
            (Stage::Wait(looks), _) => {
                if looks >= ACK_POLLS {
                    self.fail(Error::StartupTimeout)
                } else {
                    self.stage = Stage::Look(looks);
                    Action::Read(self.table.ack_addr(cpus[self.at].reg))
                }
            },
            (Stage::Level, Event::Word(word)) => {
                if word != self.current_el {
                    self.fail(Error::EntryState)
                } else {
                    self.stage = Stage::Coherency;
                    Action::Read(
                        self.table.release_addr(cpus[self.at].reg) + SPIN_TABLE_CPUECTLR_OFFSET,
                    )
                }
            },
            (Stage::Coherency, Event::Word(word)) => {
                if let Err(error) = require_coherency(word) {
                    self.fail(error)
                } else {
                    let count = cpus.len();
                    let from = self.at + 1;
                    self.begin_from(cpus, from)
                }
            },
            _ => self.fail(Error::EntryState),
        }
    }
}

proof fn lemma_next_secondary(cpus: Seq<CpuInfo>, at: int)
    requires
        0 <= at <= cpus.len(),
    ensures
        at <= next_secondary(cpus, at) <= cpus.len(),
        next_secondary(cpus, at) < cpus.len() ==> cpus[next_secondary(cpus, at)].reg != 0,
        forall|i: int| at <= i < next_secondary(cpus, at) ==> (#[trigger] cpus[i]).reg == 0,
    decreases cpus.len() - at,
{
    if at < cpus.len() && cpus[at].reg == 0 {
        lemma_next_secondary(cpus, at + 1);
    }
}

/// No processor is passed over: the start moves on from a processor, and ends well, only once the
/// processor was found coherent, and all between it and the next are the first one.
pub proof fn law_no_processor_is_passed_over(s: Startup, cpus: Seq<CpuInfo>, event: Event)
    requires
        s.wf(cpus),
        s.stage != Stage::Entry,
        s.stage != Stage::Next,
        s.stage != Stage::Finished,
        cpus.len() <= usize::MAX,
    ensures
        ({
            let (after, action) = start_step(s, cpus, event);
            (after.at != s.at || action == Action::Started) ==> {
                &&& s.stage == Stage::Coherency
                &&& event matches Event::Word(word) && coherent(word)
                &&& s.at < after.at
                &&& forall|i: int| s.at < i < after.at ==> (#[trigger] cpus[i]).reg == 0
                &&& action == Action::Started <==> after.at == cpus.len()
            }
        }),
{
    lemma_next_secondary(cpus, s.at + 1);
}

/// The coherency of a processor is looked at only once it was found parked at the level of the first
/// one, and its level only once it acknowledged.
pub proof fn law_processors_are_heard_of(s: Startup, cpus: Seq<CpuInfo>, event: Event)
    ensures
        start_step(s, cpus, event).0.stage == Stage::Coherency ==> s.stage == Stage::Level
            && event == Event::Word(s.current_el),
        start_step(s, cpus, event).0.stage == Stage::Level ==> s.stage is Look && event
            == Event::Word(1),
{
}

/// A processor is started and then heard: the firmware is told the entry, the processor is switched
/// on, its acknowledgment is read until it comes, and then its level, which has to be that of the
/// first processor, and its coherency, which has to be on.
pub proof fn law_processors_are_started_step_by_step(
    s: Startup,
    cpus: Seq<CpuInfo>,
    event: Event,
    word: u64,
)
    requires
        s.wf(cpus),
    ensures
        ({
            let slot = s.table.addr + 0x400 + cpus[s.at as int].reg * 0x80;
            &&& s.stage == Stage::Entry ==> start_step(s, cpus, event).1 == (Action::SetEntry {
                entry: (s.table.addr + 0x100) as u64,
                flags: 3,
            })
            &&& s.stage == Stage::Powered ==> start_step(s, cpus, event).1 == Action::Read(
                (slot + 0x40) as u64,
            )
            &&& s.stage is Look && word == 1 ==> start_step(s, cpus, Event::Word(word)).1
                == Action::Read((slot + 0x48) as u64)
            &&& s.stage is Look && word != 1 ==> start_step(s, cpus, Event::Word(word)).1 is Delay
            &&& s.stage == Stage::Level && word == s.current_el ==> start_step(
                s,
                cpus,
                Event::Word(word),
            ).1 == Action::Read((slot + 0x50) as u64)
            &&& s.stage == Stage::Level && word != s.current_el ==> start_step(
                s,
                cpus,
                Event::Word(word),
            ).1 is Failed
            &&& s.stage == Stage::Coherency && word & 0x40 == 0 ==> start_step(
                s,
                cpus,
                Event::Word(word),
            ).1 is Failed
            &&& s.stage == Stage::Coherency && word & 0x40 != 0 && s.at + 1 < cpus.len()
                && cpus[s.at + 1].reg != 0 ==> start_step(s, cpus, Event::Word(word)).1
                == (Action::PowerOn {
                cpu: cpus[s.at + 1].reg,
                acc_base: cpus[s.at + 1].acc_base,
            })
            &&& s.stage == Stage::Coherency && word & 0x40 != 0 && s.at + 1 == cpus.len()
                ==> start_step(s, cpus, Event::Word(word)).1 == Action::Started
        }),
{
}

} // verus!
