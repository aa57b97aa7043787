//! Disks that the device lends to the host over USB.
pub mod storage;

use vstd::prelude::*;
use vstd::string::*;

use crate::errors::{Fault, is_fault};
use crate::text::{cat, decimal, owned, push_decimal, same_text};

verus! {

/// The number of units that can be lent at once.
pub const MAX_UMS_LUNS: usize = 8;

/// The units that are lent: the directory of the USB function, where there is one, and the disk
/// behind each unit.
#[derive(Debug)]
pub struct UmsState {
    pub function_dir: Option<String>,
    pub slots: Vec<Option<String>>,
}

/// A disk behind a unit, as a plain value.
pub open spec fn slot_text(slot: Option<String>) -> Option<Seq<char>> {
    match slot {
        Some(path) => Some(path@),
        None => None,
    }
}

/// The disks behind the units, as plain values.
pub open spec fn slot_texts(slots: Seq<Option<String>>) -> Seq<Option<Seq<char>>> {
    Seq::new(slots.len(), |i: int| slot_text(slots[i]))
}

/// The number of units among the first `n` that have a disk.
pub open spec fn taken(slots: Seq<Option<Seq<char>>>, n: int) -> nat
    decreases n,
{
    if n <= 0 {
        0
    } else if slots[n - 1] is Some {
        taken(slots, n - 1) + 1
    } else {
        taken(slots, n - 1)
    }
}

/// The first unit from number `i` on with this disk.
pub open spec fn lun_from(slots: Seq<Option<Seq<char>>>, backing: Seq<char>, i: int) -> Option<int>
    decreases slots.len() - i,
{
    if i < 0 || i >= slots.len() {
        None
    } else if slots[i] == Some(backing) {
        Some(i)
    } else {
        lun_from(slots, backing, i + 1)
    }
}

/// The first unit from number `i` on without a disk.
pub open spec fn free_from(slots: Seq<Option<Seq<char>>>, i: int) -> Option<int>
    decreases slots.len() - i,
{
    if i < 0 || i >= slots.len() {
        None
    } else if slots[i] is None {
        Some(i)
    } else {
        free_from(slots, i + 1)
    }
}

/// What lending a disk takes.
#[derive(Clone, Copy, Debug, PartialEq, Eq, Structural)]
pub enum MassStorageStart {
    /// The disk is lent already.
    AlreadyStarted { lun: usize },
    /// The disk goes behind a free unit.
    Attach { lun: usize },
    /// The USB function has to be added first, once the command is answered.
    AfterResponse,
    /// No unit is free.
    Full,
}

/// What taking a disk back takes.
#[derive(Clone, Copy, Debug, PartialEq, Eq, Structural)]
pub enum MassStorageStop {
    /// The disk is not lent.
    NotStarted,
    /// The unit loses its disk.
    Detach { lun: usize },
    /// There is no USB function.
    NoFunction,
}

/// What lending a disk takes.
pub open spec fn start_decision(
    function: bool,
    slots: Seq<Option<Seq<char>>>,
    backing: Seq<char>,
) -> MassStorageStart {
    match lun_from(slots, backing, 0) {
        Some(lun) => MassStorageStart::AlreadyStarted { lun: lun as usize },
        None => if !function {
            MassStorageStart::AfterResponse
        } else {
            match free_from(slots, 0) {
                Some(lun) => MassStorageStart::Attach { lun: lun as usize },
                None => MassStorageStart::Full,
            }
        },
    }
}

/// What taking a disk back takes.
pub open spec fn stop_decision(
    function: bool,
    slots: Seq<Option<Seq<char>>>,
    backing: Seq<char>,
) -> MassStorageStop {
    match lun_from(slots, backing, 0) {
        None => MassStorageStop::NotStarted,
        Some(lun) => if function {
            MassStorageStop::Detach { lun: lun as usize }
        } else {
            MassStorageStop::NoFunction
        },
    }
}

impl UmsState {
    /// The disks behind the units, as plain values.
    pub open spec fn disks(&self) -> Seq<Option<Seq<char>>> {
        slot_texts(self.slots@)
    }

    /// Nothing lent.
    pub fn new() -> (r: UmsState)
        ensures
            r.function_dir is None,
            r.disks() == Seq::<Option<Seq<char>>>::empty(),
    {
        let r = UmsState { function_dir: None, slots: Vec::new() };
        assert(r.disks() =~= Seq::<Option<Seq<char>>>::empty());
        r
    }

    /// Takes everything back.
    pub fn clear(&mut self)
        ensures
            final(self).function_dir is None,
            final(self).disks() == Seq::<Option<Seq<char>>>::empty(),
    {
        self.function_dir = None;
        self.slots = Vec::new();
        assert(self.disks() =~= Seq::<Option<Seq<char>>>::empty());
    }

    /// The number of disks that are lent.
    pub fn active_count(&self) -> (r: usize)
        ensures
            r == taken(self.disks(), self.disks().len() as int),
    {
        let mut n: usize = 0;
        let mut i: usize = 0;
        while i < self.slots.len()
            invariant
                i <= self.slots@.len(),
                n <= i,
                n == taken(self.disks(), i as int),
            decreases self.slots@.len() - i,
        {
            assert(self.disks()[i as int] == slot_text(self.slots@[i as int]));
            if self.slots[i].is_some() {
                n += 1;
            }
            i += 1;
        }
        n
    }

    /// The unit with this disk.
    pub fn mass_storage_lun(&self, backing: &str) -> (r: Option<usize>)
        ensures
            lun_from(self.disks(), backing@, 0) == (match r {
                Some(lun) => Some(lun as int),
                None => None,
            }),
            r matches Some(lun) ==> lun < self.slots@.len(),
    {
        let mut i: usize = 0;
        while i < self.slots.len()
            invariant
                i <= self.slots@.len(),
                lun_from(self.disks(), backing@, 0) == lun_from(
                    self.disks(),
                    backing@,
                    i as int,
                ),
            decreases self.slots@.len() - i,
        {
            assert(self.disks()[i as int] == slot_text(self.slots@[i as int]));
            if let Some(path) = &self.slots[i] {
                if same_text(path.as_str(), backing) {
                    return Some(i);
                }
            }
            i += 1;
        }
        None
    }

    fn free_lun(&self) -> (r: Option<usize>)
        ensures
            free_from(self.disks(), 0) == (match r {
                Some(lun) => Some(lun as int),
                None => None,
            }),
            r matches Some(lun) ==> lun < self.slots@.len(),
    {
        let mut i: usize = 0;
        while i < self.slots.len()
            invariant
                i <= self.slots@.len(),
                free_from(self.disks(), 0) == free_from(self.disks(), i as int),
            decreases self.slots@.len() - i,
        {
            assert(self.disks()[i as int] == slot_text(self.slots@[i as int]));
            if self.slots[i].is_none() {
                return Some(i);
            }
            i += 1;
        }
        None
    }

    /// What lending a disk takes.
    pub fn start_mass_storage(&self, backing: &str) -> (r: MassStorageStart)
        ensures
            r == start_decision(self.function_dir is Some, self.disks(), backing@),
            r matches MassStorageStart::Attach { lun } ==> lun < self.slots@.len(),
    {
        if let Some(lun) = self.mass_storage_lun(backing) {
            return MassStorageStart::AlreadyStarted { lun };
        }
        if self.function_dir.is_none() {
            return MassStorageStart::AfterResponse;
        }
        match self.free_lun() {
            Some(lun) => MassStorageStart::Attach { lun },
            None => MassStorageStart::Full,
        }
    }

    /// What taking a disk back takes.
    pub fn stop_mass_storage(&self, backing: &str) -> (r: MassStorageStop)
        ensures
            r == stop_decision(self.function_dir is Some, self.disks(), backing@),
            r matches MassStorageStop::Detach { lun } ==> lun < self.slots@.len(),
    {
        match self.mass_storage_lun(backing) {
            None => MassStorageStop::NotStarted,
            Some(lun) => if self.function_dir.is_some() {
                MassStorageStop::Detach { lun }
            } else {
                MassStorageStop::NoFunction
            },
        }
    }

    /// Notes that a disk is behind a unit.
    pub fn attached(&mut self, lun: usize, backing: &str)
        requires
            lun < old(self).slots@.len(),
        ensures
            final(self).function_dir == old(self).function_dir,
            final(self).disks() == old(self).disks().update(lun as int, Some(backing@)),
    {
        let ghost before = self.slots@;
        self.slots.set(lun, Some(owned(backing)));
        assert(self.disks() =~= slot_texts(before).update(lun as int, Some(backing@)));
    }

    /// Notes that a unit has lost its disk. Returns whether the USB function is idle from then on.
    pub fn detached(&mut self, lun: usize) -> (idle: bool)
        requires
            lun < old(self).slots@.len(),
        ensures
            final(self).function_dir == old(self).function_dir,
            final(self).disks() == old(self).disks().update(lun as int, None),
            idle == (taken(final(self).disks(), final(self).disks().len() as int) == 0),
    {
        let ghost before = self.slots@;
        self.slots.set(lun, None);
        assert(self.disks() =~= slot_texts(before).update(lun as int, None));
        self.active_count() == 0
    }

    /// Notes that the USB function has been added, with a disk behind its first unit.
    pub fn activated(&mut self, function_dir: &str, backing: &str)
        ensures
            final(self).function_dir matches Some(dir) && dir@ == function_dir@,
            final(self).disks() == Seq::new(
                MAX_UMS_LUNS as nat,
                |i: int|
                    if i == 0 {
                        Some(backing@)
                    } else {
                        None
                    },
            ),
    {
        let mut slots: Vec<Option<String>> = Vec::new();
        slots.push(Some(owned(backing)));
        while slots.len() < MAX_UMS_LUNS
            invariant
                1 <= slots@.len() <= MAX_UMS_LUNS,
                slot_text(slots@[0]) == Some(backing@),
                forall|i: int| 1 <= i < slots@.len() ==> #[trigger] slots@[i] is None,
            decreases MAX_UMS_LUNS - slots@.len(),
        {
            slots.push(None);
        }
        self.slots = slots;
        self.function_dir = Some(owned(function_dir));
        assert(self.disks() =~= Seq::new(
            MAX_UMS_LUNS as nat,
            |i: int|
                if i == 0 {
                    Some(backing@)
                } else {
                    None
                },
        ));
    }
}

proof fn lemma_lun_from(slots: Seq<Option<Seq<char>>>, backing: Seq<char>, i: int)
    requires
        0 <= i,
    ensures
        lun_from(slots, backing, i) matches Some(lun) ==> i <= lun < slots.len() && slots[lun]
            == Some(backing),
        lun_from(slots, backing, i) is None ==> forall|k: int|
            i <= k < slots.len() ==> #[trigger] slots[k] != Some(backing),
    decreases slots.len() - i,
{
    if i < slots.len() {
        lemma_lun_from(slots, backing, i + 1);
    }
}

proof fn lemma_free_from(slots: Seq<Option<Seq<char>>>, i: int)
    requires
        0 <= i,
    ensures
        free_from(slots, i) matches Some(lun) ==> i <= lun < slots.len() && slots[lun] is None,
    decreases slots.len() - i,
{
    if i < slots.len() {
        lemma_free_from(slots, i + 1);
    }
}

/// Whether no disk is behind two units.
pub open spec fn no_disk_twice(slots: Seq<Option<Seq<char>>>) -> bool {
    forall|i: int, j: int|
        0 <= i < j < slots.len() && #[trigger] slots[i] is Some ==> slots[i] != #[trigger] slots[j]
}

/// A disk that is lent goes behind a free unit, and no disk is ever behind two units.
pub proof fn law_disks_are_lent_once(slots: Seq<Option<Seq<char>>>, backing: Seq<char>)
    requires
        no_disk_twice(slots),
        slots.len() <= MAX_UMS_LUNS,
    ensures
        start_decision(true, slots, backing) matches MassStorageStart::Attach { lun } ==> {
            &&& lun < slots.len()
            &&& slots[lun as int] is None
            &&& no_disk_twice(slots.update(lun as int, Some(backing)))
        },
        stop_decision(true, slots, backing) matches MassStorageStop::Detach { lun } ==> {
            &&& slots[lun as int] == Some(backing)
            &&& no_disk_twice(slots.update(lun as int, None))
            &&& !slots.update(lun as int, None).contains(Some(backing))
        },
{
    lemma_lun_from(slots, backing, 0);
    lemma_free_from(slots, 0);
    if let MassStorageStop::Detach { lun } = stop_decision(true, slots, backing) {
        let after = slots.update(lun as int, None);
        assert forall|k: int| 0 <= k < after.len() implies after[k] != Some(backing) by {
            if k != lun as int {
                if k < lun {
                    assert(slots[k] is Some ==> slots[k] != slots[lun as int]);
                } else {
                    assert(slots[lun as int] is Some);
                    assert(slots[lun as int] != slots[k]);
                }
            }
        }
    }
}

/// The directory of the USB function under that of the gadget.
pub fn mass_storage_function_dir(gadget_path: &str) -> (s: String)
    ensures
        s@ == gadget_path@ + "/functions/mass_storage.pocketboot-ums"@,
{
    cat(gadget_path, "/functions/mass_storage.pocketboot-ums")
}

/// The link by which the configuration has the USB function.
pub fn mass_storage_config_link(gadget_path: &str) -> (s: String)
    ensures
        s@ == gadget_path@ + "/configs/c.1/mass_storage.pocketboot-ums"@,
{
    cat(gadget_path, "/configs/c.1/mass_storage.pocketboot-ums")
}

/// The directory of a unit under that of the USB function.
pub fn lun_dir(function_dir: &str, index: usize) -> (s: String)
    ensures
        s@ == function_dir@ + "/lun."@ + decimal(index as int),
{
    let mut s = cat(function_dir, "/lun.");
    push_decimal(&mut s, index as u64);
    s
}

/// What is told when an operation failed, by what came of binding the gadget again.
pub fn rebind_after_error(error: Fault, rebind: Option<Fault>, operation: &str) -> (r: Fault)
    ensures
        match rebind {
            None => r == error,
            Some(second) => is_fault(
                r,
                second.kind,
                operation@ + " failed: "@ + error.text@ + "; USB rebind failed: "@ + second.text@,
            ),
        },
{
    match rebind {
        None => error,
        Some(second) => {
            let mut text = cat(operation, " failed: ");
            text.append(error.text.as_str());
            text.append("; USB rebind failed: ");
            text.append(second.text.as_str());
            Fault { kind: second.kind, text }
        },
    }
}

proof fn lemma_no_free(slots: Seq<Option<Seq<char>>>, i: int, k: int)
    requires
        0 <= i <= k < slots.len(),
        slots[k] is None,
    ensures
        free_from(slots, i) is Some,
    decreases k - i,
{
    if i < k {
        lemma_no_free(slots, i + 1, k);
    }
}

/// A disk is lent where it can be: one that is lent already is found, one that is not goes behind a
/// free unit, and it is refused only where no unit is free. It is taken back where it is lent.
pub proof fn law_disks_are_lent_where_a_unit_is_free(
    function: bool,
    slots: Seq<Option<Seq<char>>>,
    backing: Seq<char>,
)
    requires
        slots.len() <= MAX_UMS_LUNS,
    ensures
        ({
            let lent = slots.contains(Some(backing));
            let free = slots.contains(None);
            let start = start_decision(function, slots, backing);
            let stop = stop_decision(function, slots, backing);
            &&& start is AlreadyStarted <==> lent
            &&& start is AfterResponse <==> !lent && !function
            &&& start is Attach <==> !lent && function && free
            &&& start is Full <==> !lent && function && !free
            &&& stop is NotStarted <==> !lent
            &&& stop is Detach <==> lent && function
            &&& start matches MassStorageStart::AlreadyStarted { lun } ==> slots[lun as int] == Some(
                backing,
            )
        }),
{
    lemma_lun_from(slots, backing, 0);
    lemma_free_from(slots, 0);
    if slots.contains(Some(backing)) {
        let k = choose|k: int| 0 <= k < slots.len() && slots[k] == Some(backing);
        assert(slots[k] == Some(backing));
    }
    if let Some(lun) = lun_from(slots, backing, 0) {
        assert(slots[lun] == Some(backing));
    }
    if slots.contains(None) {
        let k = choose|k: int| 0 <= k < slots.len() && slots[k] == None::<Seq<char>>;
        lemma_no_free(slots, 0, k);
    }
    if let Some(lun) = free_from(slots, 0) {
        assert(slots[lun] == None::<Seq<char>>);
    }
}

} // verus!
