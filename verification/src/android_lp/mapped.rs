//! The partitions that are mapped for reading, and how they are let go of.
use vstd::prelude::*;
use vstd::string::*;

use crate::android_lp::{
    mapping_plans, plan_views, plans_for, resolve_physical_devices, resolver, slot_suffix,
    suffix_of, LpError, MappingPlan, Metadata, MetadataView, PlanView,
};
use crate::collect::collected;
use crate::errors::ErrorKind;
use crate::partitions::Partition;
use crate::text::{
    ascending, lemma_precedes, lemma_text_place, lemma_with_text, precedes, same_text, text_before,
    text_place, texts,
};

verus! {

/// A mapped partition: the name it was asked for by, the name of its mapping, and its device.
#[derive(Debug)]
pub struct Mapping {
    pub base_name: String,
    pub uuid: String,
    pub path: String,
}

/// The model of a mapped partition.
pub struct MappingView {
    pub base_name: Seq<char>,
    pub uuid: Seq<char>,
    pub path: Seq<char>,
}

impl View for Mapping {
    type V = MappingView;

    open spec fn view(&self) -> MappingView {
        MappingView { base_name: self.base_name@, uuid: self.uuid@, path: self.path@ }
    }
}

/// The mapped partitions, by name.
#[derive(Debug)]
pub struct MappedPartitions {
    pub mappings: Vec<Mapping>,
}

/// The names of mapped partitions.
pub open spec fn names(list: Seq<Mapping>) -> Seq<Seq<char>> {
    Seq::new(list.len(), |i: int| list[i].base_name@)
}

/// What came of letting go of a mapped partition: why its mapping, and why its device, could not be
/// removed.
#[derive(Clone, Copy, Debug, PartialEq, Eq, Structural)]
pub struct Removal {
    pub mapping: Option<ErrorKind>,
    pub device: Option<ErrorKind>,
}

/// Which failure is told.
#[derive(Clone, Copy, Debug, PartialEq, Eq, Structural)]
pub enum RemovalFailure {
    Mapping(usize),
    Device(usize),
}

/// The failure of a removal that is told: a device that was not there is none.
pub open spec fn failure_of(removal: Removal, i: int) -> Option<RemovalFailure> {
    if removal.mapping is Some {
        Some(RemovalFailure::Mapping(i as usize))
    } else if removal.device is Some && removal.device != Some(ErrorKind::NotFound) {
        Some(RemovalFailure::Device(i as usize))
    } else {
        None
    }
}

/// The first failure of some removals.
pub open spec fn first_failure(removals: Seq<Removal>, from: int) -> Option<RemovalFailure>
    decreases removals.len() - from,
{
    if from >= removals.len() {
        None
    } else if failure_of(removals[from], from) is Some {
        failure_of(removals[from], from)
    } else {
        first_failure(removals, from + 1)
    }
}

/// The first failure of letting go of mapped partitions, if there was one.
pub fn cleanup(removals: &[Removal]) -> (r: Option<RemovalFailure>)
    ensures
        r == first_failure(removals@, 0),
{
    let mut i: usize = 0;
    while i < removals.len()
        invariant
            i <= removals@.len(),
            first_failure(removals@, i as int) == first_failure(removals@, 0),
        decreases removals@.len() - i,
    {
        let removal = removals[i];
        if removal.mapping.is_some() {
            return Some(RemovalFailure::Mapping(i));
        }
        if let Some(kind) = removal.device {
            if kind != ErrorKind::NotFound {
                return Some(RemovalFailure::Device(i));
            }
        }
        i += 1;
    }
    None
}

impl MappedPartitions {
    /// Whether the partitions stand in the order of their names, each once.
    pub open spec fn wf(self) -> bool {
        ascending(names(self.mappings@))
    }

    /// No mapped partitions.
    pub fn new() -> (r: MappedPartitions)
        ensures
            r.wf(),
            r.mappings@.len() == 0,
    {
        MappedPartitions { mappings: Vec::new() }
    }

    fn place(&self, name: &str) -> (r: usize)
        ensures
            r == text_place(names(self.mappings@), name@, 0),
            r <= self.mappings@.len(),
    {
        let mut at: usize = 0;
        while at < self.mappings.len() && text_before(self.mappings[at].base_name.as_str(), name)
            invariant
                at <= self.mappings@.len(),
                text_place(names(self.mappings@), name@, at as int) == text_place(
                    names(self.mappings@),
                    name@,
                    0,
                ),
            decreases self.mappings@.len() - at,
        {
            assert(names(self.mappings@)[at as int] == self.mappings@[at as int].base_name@);
            at += 1;
        }
        at
    }

    fn index_of(&self, name: &str) -> (r: Option<usize>)
        requires
            self.wf(),
        ensures
            match r {
                Some(i) => i < self.mappings@.len() && self.mappings@[i as int].base_name@ == name@,
                None => !names(self.mappings@).contains(name@),
            },
    {
        let at = self.place(name);
        let ghost list = names(self.mappings@);
        if at < self.mappings.len() && same_text(self.mappings[at].base_name.as_str(), name) {
            return Some(at);
        }
        proof {
            lemma_text_place(list, name@, 0);
            if list.contains(name@) {
                let k = choose|k: int| 0 <= k < list.len() && list[k] == name@;
                lemma_precedes(name@, name@, name@);
                if k > at {
                    assert(precedes(list[at as int], list[k]));
                }
            }
        }
        None
    }

    /// Whether a partition of a name is mapped.
    pub fn is_mapped(&self, name: &str) -> (r: bool)
        requires
            self.wf(),
        ensures
            r == names(self.mappings@).contains(name@),
    {
        match self.index_of(name) {
            Some(i) => {
                assert(names(self.mappings@)[i as int] == name@);
                true
            },
            None => false,
        }
    }

    /// Adds a mapped partition, unless one of its name is there; tells whether it was added.
    pub fn insert(&mut self, mapping: Mapping) -> (r: bool)
        requires
            old(self).wf(),
        ensures
            final(self).wf(),
            r == !names(old(self).mappings@).contains(mapping.base_name@),
            !r ==> final(self).mappings@ == old(self).mappings@,
            r ==> final(self).mappings@ == old(self).mappings@.insert(
                text_place(names(old(self).mappings@), mapping.base_name@, 0),
                mapping,
            ),
    {
        let ghost list = names(self.mappings@);
        if self.is_mapped(mapping.base_name.as_str()) {
            return false;
        }
        let at = self.place(mapping.base_name.as_str());
        let ghost name = mapping.base_name@;
        proof {
            lemma_with_text(list, name);
            if at < list.len() && list[at as int] == name {
                assert(list.contains(name));
            }
        }
        self.mappings.insert(at, mapping);
        assert(names(self.mappings@) =~= list.insert(at as int, name));
        true
    }

    /// The device of the mapped partition of a name.
    pub fn path_for(&self, base_name: &str) -> (r: Option<&str>)
        requires
            self.wf(),
        ensures
            match r {
                Some(path) => exists|i: int|
                    0 <= i < self.mappings@.len() && (#[trigger] self.mappings@[i]).base_name@
                        == base_name@ && self.mappings@[i].path@ == path@,
                None => !names(self.mappings@).contains(base_name@),
            },
    {
        match self.index_of(base_name) {
            Some(i) => Some(self.mappings[i].path.as_str()),
            None => None,
        }
    }

    /// The mapped partitions, in the order in which they are let go of: the last first.
    pub fn take_all(&mut self) -> (r: Vec<Mapping>)
        ensures
            final(self).mappings@.len() == 0,
            r@ == old(self).mappings@.reverse(),
    {
        let ghost whole = self.mappings@;
        let mut out: Vec<Mapping> = Vec::new();
        while self.mappings.len() > 0
            invariant
                self.mappings@.len() + out@.len() == whole.len(),
                self.mappings@ == whole.take(self.mappings@.len() as int),
                forall|k: int|
                    0 <= k < out@.len() ==> out@[k] == whole[whole.len() - 1 - k],
            decreases self.mappings@.len(),
        {
            if let Some(mapping) = self.mappings.pop() {
                out.push(mapping);
            }
            assert(self.mappings@ =~= whole.take(self.mappings@.len() as int));
        }
        assert(out@ =~= whole.reverse());
        out
    }
}

/// Each name is mapped to one device at most.
pub proof fn law_names_are_mapped_once(mapped: MappedPartitions, i: int, j: int)
    requires
        mapped.wf(),
        0 <= i < j < mapped.mappings@.len(),
    ensures
        mapped.mappings@[i].base_name@ != mapped.mappings@[j].base_name@,
{
    let list = names(mapped.mappings@);
    assert(precedes(list[i], list[j]));
    lemma_precedes(list[i], list[i], list[i]);
}

/// The mappings for the requested partitions of a slot, on the partitions that there are, with the
/// metadata read from the one at a path.
pub open spec fn read_only_plans(
    metadata: MetadataView,
    partitions: Seq<Partition>,
    metadata_path: Seq<char>,
    slot: u32,
    requested: Seq<Seq<char>>,
) -> Result<Seq<PlanView>, LpError> {
    match suffix_of(slot) {
        Err(e) => Err(e),
        Ok(suffix) => match collected(
            resolver(metadata.block_devices, partitions, metadata_path, suffix),
            metadata.block_devices.len() as int,
        ) {
            Err(e) => Err(e),
            Ok(physical) => plans_for(metadata, physical, slot, requested),
        },
    }
}

/// The mappings that are made for the requested partitions of a slot, one after the other.
pub fn map_read_only(
    metadata: &Metadata,
    partitions: &[Partition],
    metadata_path: &str,
    slot: u32,
    requested: &[String],
) -> (r: Result<Vec<MappingPlan>, LpError>)
    requires
        metadata.wf(),
    ensures
        read_only_plans(metadata@, partitions@, metadata_path@, slot, texts(requested@)) == (
        match r {
            Ok(plans) => Ok(plan_views(plans@)),
            Err(e) => Err(e),
        }),
{
    let suffix = slot_suffix(slot)?;
    let physical = resolve_physical_devices(metadata, partitions, metadata_path, suffix)?;
    mapping_plans(metadata, &physical, slot, requested)
}

/// What is told of a removal is its first failure: there is none where each mapping was removed, and
/// each device with it or before.
pub proof fn law_first_failures_are_told(removals: Seq<Removal>, from: int)
    requires
        0 <= from <= removals.len() <= usize::MAX,
    ensures
        ({
            let went = |k: int|
                removals[k].mapping is None && (removals[k].device is None || removals[k].device
                    == Some(ErrorKind::NotFound));
            match first_failure(removals, from) {
                None => forall|k: int| from <= k < removals.len() ==> #[trigger] went(k),
                Some(RemovalFailure::Mapping(i)) => from <= i < removals.len()
                    && removals[i as int].mapping is Some && forall|k: int|
                    from <= k < i ==> #[trigger] went(k),
                Some(RemovalFailure::Device(i)) => from <= i < removals.len()
                    && removals[i as int].mapping is None && !went(i as int) && forall|k: int|
                    from <= k < i ==> #[trigger] went(k),
            }
        }),
    decreases removals.len() - from,
{
    if from < removals.len() {
        law_first_failures_are_told(removals, from + 1);
    }
}

} // verus!
