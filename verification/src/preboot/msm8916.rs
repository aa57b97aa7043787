//! Starting the secondary processors of the MSM8916 into a resident page.
use vstd::prelude::*;
use vstd::string::*;

use crate::bytes::{
    be32, be_u32, find_byte, le32, le64, le_u32, lemma_next_byte, next_byte, same_bytes, utf8,
};
use crate::preboot::fdt;
use crate::preboot::fdt::{
    base_name, basename_eq, cells, child_from, content_start, lemma_child_from, lists, name_of,
    phandle_from, read_cells, reserve_list, root_of, stringlist_contains, Node, Reader, Tree,
};
use crate::text::ended;

verus! {

/// The number of processors.
pub const MAX_CPUS: usize = 4;

/// The length of the resident page.
pub const SPIN_TABLE_SIZE: u64 = 4096;

pub const SPIN_TABLE_ENTRY_OFFSET: u64 = 0x100;

pub const SPIN_TABLE_SLOTS_OFFSET: u64 = 0x400;

pub const SPIN_TABLE_SLOT_STRIDE: u64 = 0x80;

pub const SPIN_TABLE_REQUEST_OFFSET: u64 = 8;

pub const SPIN_TABLE_ACK_OFFSET: u64 = 0x40;

pub const SPIN_TABLE_ENTRY_EL_OFFSET: u64 = 0x48;

pub const SPIN_TABLE_CPUECTLR_OFFSET: u64 = 0x50;

/// Why the processors were not started.
#[derive(Clone, Copy, Debug, PartialEq, Eq, Structural)]
pub enum Error {
    Fdt,
    MissingUart,
    MissingSpinTable,
    BadSpinTable,
    MissingCpu,
    Scm,
    EntryState,
    OccupiedSpinTable,
    UnparkedResident,
    Coherency,
    StartupTimeout,
}

impl Error {
    /// The error in words.
    pub open spec fn words(self) -> Seq<char> {
        match self {
            Error::Fdt => "bad fdt"@,
            Error::MissingUart => "missing uart"@,
            Error::MissingSpinTable => "missing spin-table reserved memory"@,
            Error::BadSpinTable => "bad spin-table reserved memory"@,
            Error::MissingCpu => "missing cpu data"@,
            Error::Scm => "scm call failed or unsupported convention"@,
            Error::EntryState => "requires CPU0 at EL1/EL2 with MMU and D-cache off"@,
            Error::OccupiedSpinTable =>
                "spin-table already occupied; refusing to overwrite resident code"@,
            Error::UnparkedResident => "resident CPUs have not acknowledged a safe handoff"@,
            Error::Coherency => "firmware did not enable Cortex-A53 SMPEN coherency"@,
            Error::StartupTimeout => "secondary did not acknowledge resident parking"@,
        }
    }

    /// The error in words.
    pub fn message(self) -> (s: &'static str)
        ensures
            s@ == self.words(),
    {
        match self {
            Error::Fdt => "bad fdt",
            Error::MissingUart => "missing uart",
            Error::MissingSpinTable => "missing spin-table reserved memory",
            Error::BadSpinTable => "bad spin-table reserved memory",
            Error::MissingCpu => "missing cpu data",
            Error::Scm => "scm call failed or unsupported convention",
            Error::EntryState => "requires CPU0 at EL1/EL2 with MMU and D-cache off",
            Error::OccupiedSpinTable =>
                "spin-table already occupied; refusing to overwrite resident code",
            Error::UnparkedResident => "resident CPUs have not acknowledged a safe handoff",
            Error::Coherency => "firmware did not enable Cortex-A53 SMPEN coherency",
            Error::StartupTimeout => "secondary did not acknowledge resident parking",
        }
    }
}

fn sound<T>(r: Result<T, fdt::Error>) -> (out: Result<T, Error>)
    ensures
        match r {
            Ok(value) => out == Ok::<T, Error>(value),
            Err(_) => out == Err::<T, Error>(Error::Fdt),
        },
{
    match r {
        Ok(value) => Ok(value),
        Err(_) => Err(Error::Fdt),
    }
}

/// The name or the path of the console: what stands before the options.
pub open spec fn console_name(stdout: Seq<u8>) -> Option<Seq<u8>> {
    let end = next_byte(stdout, 0, 0x3au8);
    if end == 0 {
        None
    } else {
        Some(stdout.take(end))
    }
}

/// The name or the path of the console.
pub fn stdout_target(stdout: &[u8]) -> (r: Option<&[u8]>)
    ensures
        console_name(stdout@) == (match r {
            Some(name) => Some(name@),
            None => None,
        }),
        r matches Some(name) ==> name@.len() > 0,
{
    let end = find_byte(stdout, 0, 0x3a);
    if end == 0 {
        return None;
    }
    let name = &stdout[0..end];
    assert(name@ =~= stdout@.take(end as int));
    Some(name)
}

/// What `/chosen` tells of the console.
pub open spec fn stdout_path(t: Tree) -> Result<Seq<u8>, Error> {
    match t.node("/chosen"@) {
        Err(_) => Err(Error::Fdt),
        Ok(chosen) => match t.text(chosen, "stdout-path"@) {
            Ok(text) => Ok(text),
            Err(_) => match t.text(chosen, "linux,stdout-path"@) {
                Ok(text) => Ok(text),
                Err(_) => Err(Error::Fdt),
            },
        },
    }
}

/// The path of the console: its name itself, or the path that the name is an alias of.
pub open spec fn console_path(t: Tree) -> Result<Seq<u8>, Error> {
    match stdout_path(t) {
        Err(e) => Err(e),
        Ok(stdout) => match console_name(stdout) {
            None => Err(Error::MissingUart),
            Some(target) => if target[0] == 0x2f {
                Ok(target)
            } else {
                match t.node("/aliases"@) {
                    Err(_) => Err(Error::Fdt),
                    Ok(aliases) => match fdt::prop_text(t.structure, t.strings, aliases, target) {
                        Err(_) => Err(Error::Fdt),
                        Ok(path) => Ok(path),
                    },
                }
            },
        },
    }
}

/// The address of a serial port at a node, which has to be one of the known kind.
pub open spec fn uart_at(t: Tree, uart: int) -> Result<u64, Error> {
    match t.prop(uart, "compatible"@) {
        Err(_) => Err(Error::Fdt),
        Ok(compatible) => if !lists(compatible, utf8("qcom,msm-uartdm-v1.4"@)) {
            Err(Error::MissingUart)
        } else {
            match t.prop(uart, "reg"@) {
                Err(_) => Err(Error::Fdt),
                Ok(reg) => if reg.len() != 8 || be32(reg, 4) < 0x140 {
                    Err(Error::MissingUart)
                } else {
                    Ok(be32(reg, 0) as u64)
                },
            }
        },
    }
}

/// The address of the serial port that the console is on.
pub open spec fn uart_base(t: Tree) -> Result<u64, Error> {
    match console_path(t) {
        Err(e) => Err(e),
        Ok(path) => match fdt::node_at(t.structure, path) {
            Err(_) => Err(Error::Fdt),
            Ok(uart) => uart_at(t, uart),
        },
    }
}

fn find_console_path<'a>(reader: &Reader<'a>) -> (r: Result<&'a [u8], Error>)
    ensures
        stdout_path(reader.tree()) == (match r {
            Ok(text) => Ok(text@),
            Err(e) => Err(e),
        }),
{
    let chosen = sound(reader.find_path("/chosen".as_bytes()))?;
    match reader.prop_str(chosen, "stdout-path".as_bytes()) {
        Ok(text) => Ok(text),
        Err(_) => sound(reader.prop_str(chosen, "linux,stdout-path".as_bytes())),
    }
}

/// The address of the serial port that the console is on.
pub fn find_uart_base(reader: &Reader<'_>) -> (r: Result<u64, Error>)
    ensures
        r == uart_base(reader.tree()),
{
    let stdout = find_console_path(reader)?;
    let target = match stdout_target(stdout) {
        None => {
            return Err(Error::MissingUart);
        },
        Some(target) => target,
    };
    let path = if target[0] == 0x2f {
        target
    } else {
        let aliases = sound(reader.find_path("/aliases".as_bytes()))?;
        sound(reader.prop_str(aliases, target))?
    };
    let uart = sound(reader.find_path(path))?;
    let compatible = sound(reader.prop(uart, "compatible".as_bytes()))?;
    if !stringlist_contains(compatible, "qcom,msm-uartdm-v1.4".as_bytes()) {
        return Err(Error::MissingUart);
    }
    let reg = sound(reader.prop(uart, "reg".as_bytes()))?;
    if reg.len() != 8 || be_u32(reg, 4) < 0x140 {
        return Err(Error::MissingUart);
    }
    Ok(be_u32(reg, 0) as u64)
}

/// The resident page.
#[derive(Clone, Copy, Debug, PartialEq, Eq, Structural)]
pub struct SpinTable {
    pub addr: u64,
}

impl SpinTable {
    /// Whether the page lies below 4 GiB.
    pub open spec fn low(self) -> bool {
        self.addr + SPIN_TABLE_SIZE <= 0x1_0000_0000
    }

    /// Where the slot of a processor stands.
    pub open spec fn slot(self, cpu: int) -> int {
        self.addr + SPIN_TABLE_SLOTS_OFFSET + cpu * SPIN_TABLE_SLOT_STRIDE
    }

    /// Where the secondary processors enter.
    pub fn code_addr(self) -> (r: u64)
        requires
            self.low(),
        ensures
            r == self.addr + SPIN_TABLE_ENTRY_OFFSET,
    {
        self.addr + SPIN_TABLE_ENTRY_OFFSET
    }

    /// Where a processor is released.
    pub fn release_addr(self, cpu: u32) -> (r: u64)
        requires
            self.low(),
        ensures
            r == self.slot(cpu as int),
            r < 0x100_0000_0000,
    {
        self.addr + SPIN_TABLE_SLOTS_OFFSET + cpu as u64 * SPIN_TABLE_SLOT_STRIDE
    }

    /// Where a processor acknowledges.
    pub fn ack_addr(self, cpu: u32) -> (r: u64)
        requires
            self.low(),
        ensures
            r == self.slot(cpu as int) + SPIN_TABLE_ACK_OFFSET,
    {
        self.release_addr(cpu) + SPIN_TABLE_ACK_OFFSET
    }
}

/// The name of the resident page's kind.
pub open spec fn page_kind() -> Seq<u8> {
    utf8("pocketboot,spin-table-v1"@)
}

/// The value of a property of a node, or nothing.
pub open spec fn prop_or_empty(t: Tree, node: int, name: Seq<char>) -> Seq<u8> {
    match t.prop(node, name) {
        Ok(value) => value,
        Err(_) => Seq::empty(),
    }
}

/// Whether a node is switched off by its status.
pub open spec fn switched_off(t: Tree, node: int) -> bool {
    match t.text(node, "status"@) {
        Ok(status) => status != utf8("okay"@) && status != utf8("ok"@),
        Err(_) => false,
    }
}

fn is_switched_off(reader: &Reader<'_>, node: Node) -> (r: bool)
    ensures
        r == switched_off(reader.tree(), node.offset as int),
{
    match reader.prop_str(node, "status".as_bytes()) {
        Ok(status) => !same_bytes(status, "okay".as_bytes()) && !same_bytes(
            status,
            "ok".as_bytes(),
        ),
        Err(_) => false,
    }
}

/// The page that the range of a node gives.
pub open spec fn page_range(t: Tree, child: int) -> Result<u64, Error> {
    match t.prop(child, "reg"@) {
        Err(_) => Err(Error::Fdt),
        Ok(reg) => match (cells(reg, 0, 2), cells(reg, 8, 2)) {
            (Ok(addr), Ok(size)) => if reg.len() != 16 || addr == 0 || size != SPIN_TABLE_SIZE
                || addr % SPIN_TABLE_SIZE != 0 || addr + size > 0x1_0000_0000 {
                Err(Error::BadSpinTable)
            } else {
                Ok(addr)
            },
            _ => Err(Error::Fdt),
        },
    }
}

/// What a child of `/reserved-memory` tells of the page: nothing, or where it is.
pub open spec fn page_child(t: Tree, child: int, found: bool) -> Result<Option<u64>, Error> {
    let compatible = prop_or_empty(t, child, "compatible"@);
    match name_of(t.structure, child) {
        Err(_) => Err(Error::Fdt),
        Ok(name) => if base_name(name) != utf8("spin-table"@) && !lists(compatible, page_kind()) {
            Ok(None)
        } else if found || !lists(compatible, page_kind()) {
            Err(Error::BadSpinTable)
        } else {
            match t.prop(child, "no-map"@) {
                Err(_) => Err(Error::Fdt),
                Ok(value) => if value.len() != 0 || t.prop(child, "reusable"@) is Ok
                    || switched_off(t, child) {
                    Err(Error::BadSpinTable)
                } else {
                    match page_range(t, child) {
                        Err(e) => Err(e),
                        Ok(addr) => Ok(Some(addr)),
                    }
                },
            }
        },
    }
}

#[via_fn]
proof fn page_from_decreases(t: Tree, cursor: int, found: Option<u64>) {
    lemma_child_from(t.structure, cursor);
}

/// The page that the children at or behind `cursor` tell of.
pub open spec fn page_from(t: Tree, cursor: int, found: Option<u64>) -> Result<u64, Error>
    decreases (if cursor < t.structure.len() { t.structure.len() - cursor } else { 0 }),
    when 0 <= cursor
    via page_from_decreases
{
    match child_from(t.structure, cursor) {
        Err(_) => Err(Error::Fdt),
        Ok(None) => match found {
            Some(addr) => Ok(addr),
            None => Err(Error::MissingSpinTable),
        },
        Ok(Some((child, next))) => match page_child(t, child, found is Some) {
            Err(e) => Err(e),
            Ok(None) => page_from(t, next, found),
            Ok(Some(addr)) => page_from(t, next, Some(addr)),
        },
    }
}

/// Whether `/reserved-memory` has addresses and sizes of two cells, and no translation.
pub open spec fn reserved_cells(t: Tree, reserved: int) -> Result<bool, Error> {
    match t.cell(reserved, "#address-cells"@) {
        Err(_) => Err(Error::Fdt),
        Ok(address) => if address != 2 {
            Ok(false)
        } else {
            match t.cell(reserved, "#size-cells"@) {
                Err(_) => Err(Error::Fdt),
                Ok(size) => if size != 2 {
                    Ok(false)
                } else {
                    match t.prop(reserved, "ranges"@) {
                        Err(_) => Err(Error::Fdt),
                        Ok(ranges) => Ok(ranges.len() == 0),
                    }
                },
            }
        },
    }
}

/// The resident page that the tree reserves.
#[verifier::opaque]
pub open spec fn page_told(t: Tree) -> Result<u64, Error> {
    match t.node("/reserved-memory"@) {
        Err(_) => Err(Error::Fdt),
        Ok(reserved) => match reserved_cells(t, reserved) {
            Err(e) => Err(e),
            Ok(false) => Err(Error::BadSpinTable),
            Ok(true) => match content_start(t.structure, reserved) {
                Err(_) => Err(Error::Fdt),
                Ok(start) => page_from(t, start, None),
            },
        },
    }
}

fn read_page_child(reader: &Reader<'_>, child: Node, found: bool) -> (r: Result<
    Option<u64>,
    Error,
>)
    ensures
        r == page_child(reader.tree(), child.offset as int, found),
        r matches Ok(Some(addr)) ==> addr + SPIN_TABLE_SIZE <= 0x1_0000_0000,
{
    let name = sound(reader.node_name(child))?;
    let compatible: &[u8] = match reader.prop(child, "compatible".as_bytes()) {
        Ok(value) => value,
        Err(_) => &[],
    };
    assert(compatible@ =~= prop_or_empty(reader.tree(), child.offset as int, "compatible"@));
    let kind = "pocketboot,spin-table-v1".as_bytes();
    let right = stringlist_contains(compatible, kind);
    if !basename_eq(name, "spin-table".as_bytes()) && !right {
        return Ok(None);
    }
    if found || !right {
        return Err(Error::BadSpinTable);
    }
    if sound(reader.prop(child, "no-map".as_bytes()))?.len() != 0 || reader.prop(
        child,
        "reusable".as_bytes(),
    ).is_ok() || is_switched_off(reader, child) {
        return Err(Error::BadSpinTable);
    }
    let reg = sound(reader.prop(child, "reg".as_bytes()))?;
    let addr = sound(read_cells(reg, 0, 2))?;
    let size = sound(read_cells(reg, 8, 2))?;
    if reg.len() != 16 || addr == 0 || size != SPIN_TABLE_SIZE || addr % SPIN_TABLE_SIZE != 0 || addr
        > 0x1_0000_0000 - SPIN_TABLE_SIZE {
        return Err(Error::BadSpinTable);
    }
    Ok(Some(addr))
}

/// The resident page that the tree reserves.
pub fn find_spin_table(reader: &Reader<'_>) -> (r: Result<SpinTable, Error>)
    ensures
        page_told(reader.tree()) == (match r {
            Ok(table) => Ok(table.addr),
            Err(e) => Err(e),
        }),
        r matches Ok(table) ==> table.low(),
{
    proof {
        reveal(page_told);
    }
    let reserved = sound(reader.find_path("/reserved-memory".as_bytes()))?;
    if sound(reader.prop_u32(reserved, "#address-cells".as_bytes()))? != 2 || sound(
        reader.prop_u32(reserved, "#size-cells".as_bytes()),
    )? != 2 || sound(reader.prop(reserved, "ranges".as_bytes()))?.len() != 0 {
        return Err(Error::BadSpinTable);
    }
    let mut cursor = sound(reader.node_content_start(reserved))?;
    let mut found: Option<u64> = None;
    loop
        invariant
            page_told(reader.tree()) == page_from(reader.tree(), cursor as int, found),
            found matches Some(addr) ==> addr + SPIN_TABLE_SIZE <= 0x1_0000_0000,
        decreases
                (if cursor < reader.structure@.len() { reader.structure@.len() - cursor } else { 0 }),
    {
        match sound(reader.next_child(cursor))? {
            None => {
                return match found {
                    Some(addr) => Ok(SpinTable { addr }),
                    None => Err(Error::MissingSpinTable),
                };
            },
            Some((child, next)) => {
                if let Some(addr) = read_page_child(reader, child, found.is_some())? {
                    found = Some(addr);
                }
                cursor = next;
            },
        }
    }
}

/// Whether two ranges of memory meet. A range that does not end below the top of memory meets
/// every other.
pub open spec fn meets(start: int, size: int, other: int, other_size: int) -> bool {
    if size == 0 || other_size == 0 {
        false
    } else {
        start + size > u64::MAX || other + other_size > u64::MAX || (start < other + other_size
            && other < start + size)
    }
}

/// Whether two ranges of memory meet.
pub fn overlaps(start: u64, size: u64, other: u64, other_size: u64) -> (r: bool)
    ensures
        r == meets(start as int, size as int, other as int, other_size as int),
{
    if size == 0 || other_size == 0 {
        return false;
    }
    if start > u64::MAX - size || other > u64::MAX - other_size {
        return true;
    }
    start < other + other_size && other < start + size
}

/// The range that the entry with number `i` of a list of ranges of two cells each gives.
pub open spec fn range_at(list: Seq<u8>, i: int) -> (int, int) {
    (
        be32(list, 16 * i) * 0x1_0000_0000 + be32(list, 16 * i + 4),
        be32(list, 16 * i + 8) * 0x1_0000_0000 + be32(list, 16 * i + 12),
    )
}

fn range_of(list: &[u8], i: usize) -> (r: (u64, u64))
    requires
        16 * i + 16 <= list@.len(),
    ensures
        (r.0 as int, r.1 as int) == range_at(list@, i as int),
{
    let size = list.len();
    let at = i * 16;
    (
        be_u32(list, at) as u64 * 0x1_0000_0000 + be_u32(list, at + 4) as u64,
        be_u32(list, at + 8) as u64 * 0x1_0000_0000 + be_u32(list, at + 12) as u64,
    )
}

/// Whether a range meets the page without being it.
pub open spec fn disturbs(addr: int, range: (int, int)) -> bool {
    meets(addr, SPIN_TABLE_SIZE as int, range.0, range.1) && (range.0 != addr || range.1
        != SPIN_TABLE_SIZE)
}

/// Whether one of the ranges meets the page without being it.
pub open spec fn any_disturbs(addr: int, list: Seq<u8>) -> bool {
    exists|i: int| 0 <= i < list.len() / 16 && disturbs(addr, #[trigger] range_at(list, i))
}

fn has_disturbing(addr: u64, list: &[u8]) -> (r: bool)
    ensures
        r == any_disturbs(addr as int, list@),
{
    let n = list.len() / 16;
    let mut i: usize = 0;
    while i < n
        invariant
            i <= n,
            n == list@.len() / 16,
            forall|k: int| 0 <= k < i ==> !disturbs(addr as int, #[trigger] range_at(list@, k)),
        decreases n - i,
    {
        let (start, size) = range_of(list, i);
        if overlaps(addr, SPIN_TABLE_SIZE, start, size) && (start != addr || size
            != SPIN_TABLE_SIZE) {
            assert(disturbs(addr as int, range_at(list@, i as int)));
            return true;
        }
        i += 1;
    }
    false
}

/// Whether a range holds the page.
pub open spec fn holds(addr: int, range: (int, int)) -> bool {
    range.0 <= addr && range.0 + range.1 <= u64::MAX && range.0 + range.1 >= addr
        + SPIN_TABLE_SIZE
}

/// Whether one of the ranges holds the page.
pub open spec fn any_holds(addr: int, list: Seq<u8>) -> bool {
    exists|i: int| 0 <= i < list.len() / 16 && holds(addr, #[trigger] range_at(list, i))
}

fn has_holding(addr: u64, list: &[u8]) -> (r: bool)
    requires
        addr + SPIN_TABLE_SIZE <= 0x1_0000_0000,
    ensures
        r == any_holds(addr as int, list@),
{
    let n = list.len() / 16;
    let mut i: usize = 0;
    while i < n
        invariant
            i <= n,
            n == list@.len() / 16,
            addr + SPIN_TABLE_SIZE <= 0x1_0000_0000,
            forall|k: int| 0 <= k < i ==> !holds(addr as int, #[trigger] range_at(list@, k)),
        decreases n - i,
    {
        let (start, size) = range_of(list, i);
        if start <= addr && size <= u64::MAX - start && start + size >= addr + SPIN_TABLE_SIZE {
            assert(holds(addr as int, range_at(list@, i as int)));
            return true;
        }
        i += 1;
    }
    false
}

/// Whether one of the ranges meets the page.
pub open spec fn any_meets(addr: int, list: Seq<u8>) -> bool {
    exists|i: int|
        0 <= i < list.len() / 16 && meets(
            addr,
            SPIN_TABLE_SIZE as int,
            (#[trigger] range_at(list, i)).0,
            range_at(list, i).1,
        )
}

fn has_meeting(addr: u64, list: &[u8]) -> (r: bool)
    ensures
        r == any_meets(addr as int, list@),
{
    let n = list.len() / 16;
    let mut i: usize = 0;
    while i < n
        invariant
            i <= n,
            n == list@.len() / 16,
            forall|k: int|
                0 <= k < i ==> !meets(
                    addr as int,
                    SPIN_TABLE_SIZE as int,
                    (#[trigger] range_at(list@, k)).0,
                    range_at(list@, k).1,
                ),
        decreases n - i,
    {
        let (start, size) = range_of(list, i);
        if overlaps(addr, SPIN_TABLE_SIZE, start, size) {
            assert(meets(
                addr as int,
                SPIN_TABLE_SIZE as int,
                range_at(list@, i as int).0,
                range_at(list@, i as int).1,
            ));
            return true;
        }
        i += 1;
    }
    false
}

#[via_fn]
proof fn ram_from_decreases(t: Tree, addr: int, cursor: int, found: bool) {
    lemma_child_from(t.structure, cursor);
}

/// Whether the memory that the children at or behind `cursor` tell of holds the page.
pub open spec fn ram_from(t: Tree, addr: int, cursor: int, found: bool) -> Result<bool, Error>
    decreases (if cursor < t.structure.len() { t.structure.len() - cursor } else { 0 }),
    when 0 <= cursor
    via ram_from_decreases
{
    match child_from(t.structure, cursor) {
        Err(_) => Err(Error::Fdt),
        Ok(None) => Ok(found),
        Ok(Some((child, next))) => if t.text(child, "device_type"@) != Ok::<Seq<u8>, fdt::Error>(
            utf8("memory"@),
        ) {
            ram_from(t, addr, next, found)
        } else {
            match t.prop(child, "reg"@) {
                Err(_) => Err(Error::Fdt),
                Ok(reg) => if reg.len() % 16 != 0 {
                    Err(Error::BadSpinTable)
                } else {
                    ram_from(t, addr, next, found || any_holds(addr, reg))
                },
            }
        },
    }
}

fn is_in_ram(reader: &Reader<'_>, addr: u64, start: usize) -> (r: Result<bool, Error>)
    requires
        addr + SPIN_TABLE_SIZE <= 0x1_0000_0000,
    ensures
        r == ram_from(reader.tree(), addr as int, start as int, false),
{
    let mut cursor = start;
    let mut found = false;
    loop
        invariant
            addr + SPIN_TABLE_SIZE <= 0x1_0000_0000,
            ram_from(reader.tree(), addr as int, start as int, false) == ram_from(
                reader.tree(),
                addr as int,
                cursor as int,
                found,
            ),
        decreases
                (if cursor < reader.structure@.len() { reader.structure@.len() - cursor } else { 0 }),
    {
        match sound(reader.next_child(cursor))? {
            None => {
                return Ok(found);
            },
            Some((child, next)) => {
                let memory = match reader.prop_str(child, "device_type".as_bytes()) {
                    Ok(text) => same_bytes(text, "memory".as_bytes()),
                    Err(_) => false,
                };
                if memory {
                    let reg = sound(reader.prop(child, "reg".as_bytes()))?;
                    if reg.len() % 16 != 0 {
                        return Err(Error::BadSpinTable);
                    }
                    if has_holding(addr, reg) {
                        found = true;
                    }
                }
                cursor = next;
            },
        }
    }
}

#[via_fn]
proof fn carveouts_from_decreases(t: Tree, addr: int, cursor: int) {
    lemma_child_from(t.structure, cursor);
}

/// Whether the memory that is reserved by the children at or behind `cursor` leaves the page
/// alone.
pub open spec fn carveouts_from(t: Tree, addr: int, cursor: int) -> Result<(), Error>
    decreases (if cursor < t.structure.len() { t.structure.len() - cursor } else { 0 }),
    when 0 <= cursor
    via carveouts_from_decreases
{
    match child_from(t.structure, cursor) {
        Err(_) => Err(Error::Fdt),
        Ok(None) => Ok(()),
        Ok(Some((child, next))) => if lists(
            prop_or_empty(t, child, "compatible"@),
            page_kind(),
        ) {
            carveouts_from(t, addr, next)
        } else {
            match t.prop(child, "reg"@) {
                Err(_) => carveouts_from(t, addr, next),
                Ok(reg) => if reg.len() % 16 != 0 || any_meets(addr, reg) {
                    Err(Error::BadSpinTable)
                } else {
                    carveouts_from(t, addr, next)
                },
            }
        },
    }
}

fn check_carveouts(reader: &Reader<'_>, addr: u64, start: usize) -> (r: Result<(), Error>)
    ensures
        r == carveouts_from(reader.tree(), addr as int, start as int),
{
    let mut cursor = start;
    loop
        invariant
            carveouts_from(reader.tree(), addr as int, start as int) == carveouts_from(
                reader.tree(),
                addr as int,
                cursor as int,
            ),
        decreases
                (if cursor < reader.structure@.len() { reader.structure@.len() - cursor } else { 0 }),
    {
        match sound(reader.next_child(cursor))? {
            None => {
                return Ok(());
            },
            Some((child, next)) => {
                let compatible: &[u8] = match reader.prop(child, "compatible".as_bytes()) {
                    Ok(value) => value,
                    Err(_) => &[],
                };
                assert(compatible@ =~= prop_or_empty(
                    reader.tree(),
                    child.offset as int,
                    "compatible"@,
                ));
                if !stringlist_contains(compatible, "pocketboot,spin-table-v1".as_bytes()) {
                    if let Ok(reg) = reader.prop(child, "reg".as_bytes()) {
                        if reg.len() % 16 != 0 || has_meeting(addr, reg) {
                            return Err(Error::BadSpinTable);
                        }
                    }
                }
                cursor = next;
            },
        }
    }
}

/// Whether the tree has addresses and sizes of two cells at its top.
pub open spec fn root_cells(t: Tree, root: int) -> Result<bool, Error> {
    match t.cell(root, "#address-cells"@) {
        Err(_) => Err(Error::Fdt),
        Ok(address) => if address != 2 {
            Ok(false)
        } else {
            match t.cell(root, "#size-cells"@) {
                Err(_) => Err(Error::Fdt),
                Ok(size) => Ok(size == 2),
            }
        },
    }
}

/// What surrounds the page in memory: the payload, the program itself, where it is known, and the
/// tree.
#[derive(Clone, Copy, Debug, PartialEq, Eq, Structural)]
pub struct Surroundings {
    pub payload: u64,
    pub payload_size: u64,
    pub program: Option<u64>,
    pub tree_addr: u64,
    pub tree_size: u64,
}

/// Whether the page keeps clear of the payload, of the program in front of it, and of the tree.
pub open spec fn keeps_clear(addr: int, s: Surroundings) -> bool {
    &&& s.payload_size != 0
    &&& !meets(addr, SPIN_TABLE_SIZE as int, s.payload as int, s.payload_size as int)
    &&& s.program matches Some(start) ==> s.payload > start && !meets(
        addr,
        SPIN_TABLE_SIZE as int,
        start as int,
        s.payload - start,
    )
    &&& !meets(addr, SPIN_TABLE_SIZE as int, s.tree_addr as int, s.tree_size as int)
}

fn is_clear(addr: u64, s: &Surroundings) -> (r: bool)
    ensures
        r == keeps_clear(addr as int, *s),
{
    let program_clear = match s.program {
        Some(start) => s.payload > start && !overlaps(
            addr,
            SPIN_TABLE_SIZE,
            start,
            s.payload - start,
        ),
        None => true,
    };
    s.payload_size != 0 && !overlaps(addr, SPIN_TABLE_SIZE, s.payload, s.payload_size)
        && program_clear && !overlaps(addr, SPIN_TABLE_SIZE, s.tree_addr, s.tree_size)
}

/// Whether the page can be used: it keeps clear of all else, lies in memory, and is reserved by
/// nothing else.
pub open spec fn memory_check(
    t: Tree,
    reserve: Result<Seq<u8>, fdt::Error>,
    addr: int,
    s: Surroundings,
) -> Result<(), Error> {
    match root_of(t.structure) {
        Err(_) => Err(Error::Fdt),
        Ok(root) => match root_cells(t, root) {
            Err(e) => Err(e),
            Ok(right) => if !right || !keeps_clear(addr, s) {
                Err(Error::BadSpinTable)
            } else {
                match reserve {
                    Err(_) => Err(Error::Fdt),
                    Ok(list) => if any_disturbs(addr, list) {
                        Err(Error::BadSpinTable)
                    } else {
                        match content_start(t.structure, root) {
                            Err(_) => Err(Error::Fdt),
                            Ok(start) => match ram_from(t, addr, start, false) {
                                Err(e) => Err(e),
                                Ok(false) => Err(Error::BadSpinTable),
                                Ok(true) => match t.node("/reserved-memory"@) {
                                    Err(_) => Err(Error::Fdt),
                                    Ok(reserved) => match content_start(t.structure, reserved) {
                                        Err(_) => Err(Error::Fdt),
                                        Ok(inner) => carveouts_from(t, addr, inner),
                                    },
                                },
                            },
                        }
                    },
                }
            },
        },
    }
}

/// Refuses a page that cannot be used.
pub fn validate_memory(reader: &Reader<'_>, table: SpinTable, around: &Surroundings) -> (r: Result<
    (),
    Error,
>)
    requires
        table.low(),
    ensures
        r == memory_check(
            reader.tree(),
            reserve_list(reader.data@, reader.header.off_mem_rsvmap as int),
            table.addr as int,
            *around,
        ),
{
    let root = sound(reader.root())?;
    if sound(reader.prop_u32(root, "#address-cells".as_bytes()))? != 2 || sound(
        reader.prop_u32(root, "#size-cells".as_bytes()),
    )? != 2 || !is_clear(table.addr, around) {
        return Err(Error::BadSpinTable);
    }
    let list = sound(reader.reserve_map())?;
    if has_disturbing(table.addr, list) {
        return Err(Error::BadSpinTable);
    }
    let start = sound(reader.node_content_start(root))?;
    if !is_in_ram(reader, table.addr, start)? {
        return Err(Error::BadSpinTable);
    }
    let reserved = sound(reader.find_path("/reserved-memory".as_bytes()))?;
    let inner = sound(reader.node_content_start(reserved))?;
    check_carveouts(reader, table.addr, inner)
}

/// How the processors are started.
#[derive(Clone, Copy, Debug, PartialEq, Eq, Structural)]
pub enum CpuBootMode {
    Cold,
    Resident,
}

/// A processor: its number, and where its power controller is.
#[derive(Clone, Copy, Debug, PartialEq, Eq, Structural)]
pub struct CpuInfo {
    pub reg: u32,
    pub acc_base: u64,
}

/// The processors, and how they are started.
#[derive(Debug)]
pub struct CpuList {
    pub values: Vec<CpuInfo>,
    pub mode: CpuBootMode,
}

/// How a processor is started, by its `enable-method`.
pub open spec fn boot_mode(method: Seq<u8>) -> Option<CpuBootMode> {
    if method == utf8("spin-table"@) {
        Some(CpuBootMode::Resident)
    } else if method == utf8("psci"@) || method == utf8("pocketboot,msm8916-acc"@) {
        Some(CpuBootMode::Cold)
    } else {
        None
    }
}

/// Whether one of the processors has this number.
pub open spec fn has_reg(list: Seq<CpuInfo>, reg: u32) -> bool {
    exists|i: int| 0 <= i < list.len() && (#[trigger] list[i]).reg == reg
}

/// Where the power controller of a processor is, by what its node refers to.
pub open spec fn controller_base(t: Tree, child: int, reg: u32) -> Result<u64, Error> {
    match t.cell(child, "qcom,acc"@) {
        Err(_) => Err(Error::Fdt),
        Ok(phandle) => match phandle_from(t.structure, t.strings, phandle, 0) {
            Err(_) => Err(Error::Fdt),
            Ok(acc) => match t.prop(acc, "reg"@) {
                Err(_) => Err(Error::Fdt),
                Ok(range) => if range.len() < 4 {
                    Err(Error::Fdt)
                } else if range.len() != 8 || be32(range, 4) < 0x18 || be32(range, 0) != 0x0b088000
                    + reg * 0x10000 {
                    Err(Error::MissingCpu)
                } else {
                    match t.prop(acc, "compatible"@) {
                        Err(_) => Err(Error::Fdt),
                        Ok(compatible) => if lists(compatible, utf8("qcom,msm8916-acc"@)) {
                            Ok(be32(range, 0) as u64)
                        } else {
                            Err(Error::MissingCpu)
                        },
                    }
                },
            },
        },
    }
}

/// Whether a processor that is already resident is released where the page says.
pub open spec fn release_check(t: Tree, child: int, reg: u32) -> Result<u64, Error> {
    match t.prop(child, "cpu-release-addr"@) {
        Err(_) => Err(Error::Fdt),
        Ok(release) => if release.len() != 8 {
            Err(Error::BadSpinTable)
        } else {
            match page_told(t) {
                Err(e) => Err(e),
                Ok(addr) => if be32(release, 0) * 0x1_0000_0000 + be32(release, 4)
                    != (SpinTable { addr }).slot(reg as int) {
                    Err(Error::BadSpinTable)
                } else {
                    Ok(0)
                },
            }
        },
    }
}

/// What a child of `/cpus` with a processor tells.
pub open spec fn cpu_told(t: Tree, child: int, list: Seq<CpuInfo>, mode: CpuBootMode) -> Result<
    (CpuInfo, CpuBootMode),
    Error,
> {
    match t.prop(child, "compatible"@) {
        Err(_) => Err(Error::Fdt),
        Ok(compatible) => if !lists(compatible, utf8("arm,cortex-a53"@)) {
            Err(Error::MissingCpu)
        } else {
            match t.prop(child, "reg"@) {
                Err(_) => Err(Error::Fdt),
                Ok(range) => if range.len() != 4 {
                    Err(Error::MissingCpu)
                } else {
                    let reg = be32(range, 0);
                    match t.text(child, "enable-method"@) {
                        Err(_) => Err(Error::Fdt),
                        Ok(method) => match boot_mode(method) {
                            None => Err(Error::MissingCpu),
                            Some(own) => if list.len() != 0 && mode != own {
                                Err(Error::OccupiedSpinTable)
                            } else if reg >= MAX_CPUS || has_reg(list, reg) || switched_off(
                                t,
                                child,
                            ) {
                                Err(Error::MissingCpu)
                            } else {
                                let base = if own == CpuBootMode::Resident {
                                    release_check(t, child, reg)
                                } else {
                                    controller_base(t, child, reg)
                                };
                                match base {
                                    Err(e) => Err(e),
                                    Ok(acc_base) => Ok((CpuInfo { reg, acc_base }, own)),
                                }
                            },
                        },
                    }
                },
            }
        },
    }
}

/// Whether a child of `/cpus` is a processor.
pub open spec fn is_cpu(t: Tree, child: int) -> Result<bool, Error> {
    match name_of(t.structure, child) {
        Err(_) => Err(Error::Fdt),
        Ok(name) => if base_name(name) != utf8("cpu"@) {
            Ok(false)
        } else {
            match t.text(child, "device_type"@) {
                Err(_) => Err(Error::Fdt),
                Ok(kind) => Ok(kind == utf8("cpu"@)),
            }
        },
    }
}

#[via_fn]
proof fn cpus_from_decreases(t: Tree, cursor: int, list: Seq<CpuInfo>, mode: CpuBootMode) {
    lemma_child_from(t.structure, cursor);
}

/// The processors that the children at or behind `cursor` tell of, behind those of `list`.
pub open spec fn cpus_from(t: Tree, cursor: int, list: Seq<CpuInfo>, mode: CpuBootMode) -> Result<
    (Seq<CpuInfo>, CpuBootMode),
    Error,
>
    decreases (if cursor < t.structure.len() { t.structure.len() - cursor } else { 0 }),
    when 0 <= cursor
    via cpus_from_decreases
{
    match child_from(t.structure, cursor) {
        Err(_) => Err(Error::Fdt),
        Ok(None) => Ok((list, mode)),
        Ok(Some((child, next))) => match is_cpu(t, child) {
            Err(e) => Err(e),
            Ok(false) => cpus_from(t, next, list, mode),
            Ok(true) => match cpu_told(t, child, list, mode) {
                Err(e) => Err(e),
                Ok((info, own)) => cpus_from(t, next, list.push(info), own),
            },
        },
    }
}

/// The four processors that the tree tells of, and how they are started.
pub open spec fn cpus_told(t: Tree) -> Result<(Seq<CpuInfo>, CpuBootMode), Error> {
    match t.node("/cpus"@) {
        Err(_) => Err(Error::Fdt),
        Ok(cpus) => match t.cell(cpus, "#address-cells"@) {
            Err(_) => Err(Error::Fdt),
            Ok(address) => if address != 1 {
                Err(Error::MissingCpu)
            } else {
                match t.cell(cpus, "#size-cells"@) {
                    Err(_) => Err(Error::Fdt),
                    Ok(size) => if size != 0 {
                        Err(Error::MissingCpu)
                    } else {
                        match content_start(t.structure, cpus) {
                            Err(_) => Err(Error::Fdt),
                            Ok(start) => match cpus_from(
                                t,
                                start,
                                Seq::empty(),
                                CpuBootMode::Cold,
                            ) {
                                Err(e) => Err(e),
                                Ok((list, mode)) => if list.len() != MAX_CPUS {
                                    Err(Error::MissingCpu)
                                } else {
                                    Ok((list, mode))
                                },
                            },
                        }
                    },
                }
            },
        },
    }
}

fn read_controller_base(reader: &Reader<'_>, child: Node, reg: u32) -> (r: Result<u64, Error>)
    requires
        reg < MAX_CPUS,
    ensures
        r == controller_base(reader.tree(), child.offset as int, reg),
{
    let phandle = sound(reader.prop_u32(child, "qcom,acc".as_bytes()))?;
    let acc = sound(reader.find_phandle(phandle))?;
    let range = sound(reader.prop(acc, "reg".as_bytes()))?;
    if range.len() < 4 {
        return Err(Error::Fdt);
    }
    let base = be_u32(range, 0);
    if range.len() != 8 || be_u32(range, 4) < 0x18 || base != 0x0b088000 + reg * 0x10000 {
        return Err(Error::MissingCpu);
    }
    let compatible = sound(reader.prop(acc, "compatible".as_bytes()))?;
    if !stringlist_contains(compatible, "qcom,msm8916-acc".as_bytes()) {
        return Err(Error::MissingCpu);
    }
    Ok(base as u64)
}

fn check_release(reader: &Reader<'_>, child: Node, reg: u32) -> (r: Result<u64, Error>)
    ensures
        r == release_check(reader.tree(), child.offset as int, reg),
{
    let release = sound(reader.prop(child, "cpu-release-addr".as_bytes()))?;
    if release.len() != 8 {
        return Err(Error::BadSpinTable);
    }
    let told = be_u32(release, 0) as u64 * 0x1_0000_0000 + be_u32(release, 4) as u64;
    if told != find_spin_table(reader)?.release_addr(reg) {
        return Err(Error::BadSpinTable);
    }
    Ok(0)
}

fn any_reg(list: &[CpuInfo], reg: u32) -> (r: bool)
    ensures
        r == has_reg(list@, reg),
{
    let mut i: usize = 0;
    while i < list.len()
        invariant
            i <= list@.len(),
            forall|k: int| 0 <= k < i ==> (#[trigger] list@[k]).reg != reg,
        decreases list@.len() - i,
    {
        if list[i].reg == reg {
            assert(list@[i as int].reg == reg);
            return true;
        }
        i += 1;
    }
    false
}

fn read_cpu(reader: &Reader<'_>, child: Node, list: &[CpuInfo], mode: CpuBootMode) -> (r: Result<
    (CpuInfo, CpuBootMode),
    Error,
>)
    ensures
        r == cpu_told(reader.tree(), child.offset as int, list@, mode),
{
    let compatible = sound(reader.prop(child, "compatible".as_bytes()))?;
    if !stringlist_contains(compatible, "arm,cortex-a53".as_bytes()) {
        return Err(Error::MissingCpu);
    }
    let range = sound(reader.prop(child, "reg".as_bytes()))?;
    if range.len() != 4 {
        return Err(Error::MissingCpu);
    }
    let reg = be_u32(range, 0);
    let method = sound(reader.prop_str(child, "enable-method".as_bytes()))?;
    let own = if same_bytes(method, "spin-table".as_bytes()) {
        CpuBootMode::Resident
    } else if same_bytes(method, "psci".as_bytes()) || same_bytes(
        method,
        "pocketboot,msm8916-acc".as_bytes(),
    ) {
        CpuBootMode::Cold
    } else {
        return Err(Error::MissingCpu);
    };
    if list.len() != 0 && mode != own {
        return Err(Error::OccupiedSpinTable);
    }
    if reg >= MAX_CPUS as u32 || any_reg(list, reg) || is_switched_off(reader, child) {
        return Err(Error::MissingCpu);
    }
    let acc_base = if own == CpuBootMode::Resident {
        check_release(reader, child, reg)?
    } else {
        read_controller_base(reader, child, reg)?
    };
    Ok((CpuInfo { reg, acc_base }, own))
}

fn is_cpu_node(reader: &Reader<'_>, child: Node) -> (r: Result<bool, Error>)
    ensures
        r == is_cpu(reader.tree(), child.offset as int),
{
    let name = sound(reader.node_name(child))?;
    if !basename_eq(name, "cpu".as_bytes()) {
        return Ok(false);
    }
    let kind = sound(reader.prop_str(child, "device_type".as_bytes()))?;
    Ok(same_bytes(kind, "cpu".as_bytes()))
}

/// The four processors that the tree tells of, and how they are started.
pub fn collect_cpus(reader: &Reader<'_>) -> (r: Result<CpuList, Error>)
    ensures
        cpus_told(reader.tree()) == (match r {
            Ok(cpus) => Ok((cpus.values@, cpus.mode)),
            Err(e) => Err(e),
        }),
{
    let node = sound(reader.find_path("/cpus".as_bytes()))?;
    if sound(reader.prop_u32(node, "#address-cells".as_bytes()))? != 1 || sound(
        reader.prop_u32(node, "#size-cells".as_bytes()),
    )? != 0 {
        return Err(Error::MissingCpu);
    }
    let start = sound(reader.node_content_start(node))?;
    let mut cursor = start;
    let mut values: Vec<CpuInfo> = Vec::new();
    let mut mode = CpuBootMode::Cold;
    let ghost t = reader.tree();
    loop
        invariant_except_break
            t == reader.tree(),
            cpus_from(t, start as int, Seq::empty(), CpuBootMode::Cold) == cpus_from(
                t,
                cursor as int,
                values@,
                mode,
            ),
            match cpus_from(t, start as int, Seq::empty(), CpuBootMode::Cold) {
                Err(e) => cpus_told(t) == Err::<(Seq<CpuInfo>, CpuBootMode), Error>(e),
                Ok((list, own)) => cpus_told(t) == (if list.len() != MAX_CPUS {
                    Err::<(Seq<CpuInfo>, CpuBootMode), Error>(Error::MissingCpu)
                } else {
                    Ok((list, own))
                }),
            },
        ensures
            cpus_told(t) == (if values@.len() != MAX_CPUS {
                Err::<(Seq<CpuInfo>, CpuBootMode), Error>(Error::MissingCpu)
            } else {
                Ok((values@, mode))
            }),
        decreases
                (if cursor < reader.structure@.len() { reader.structure@.len() - cursor } else { 0 }),
    {
        match sound(reader.next_child(cursor))? {
            None => {
                break;
            },
            Some((child, next)) => {
                if is_cpu_node(reader, child)? {
                    let (info, own) = read_cpu(reader, child, &values, mode)?;
                    values.push(info);
                    mode = own;
                }
                cursor = next;
            },
        }
    }
    if values.len() != MAX_CPUS {
        return Err(Error::MissingCpu);
    }
    Ok(CpuList { values, mode })
}

proof fn lemma_cpus_from(t: Tree, cursor: int, list: Seq<CpuInfo>, mode: CpuBootMode)
    requires
        0 <= cursor,
        regs_sound(list),
    ensures
        cpus_from(t, cursor, list, mode) matches Ok((all, _)) ==> regs_sound(all),
    decreases (if cursor < t.structure.len() { t.structure.len() - cursor } else { 0 }),
{
    lemma_child_from(t.structure, cursor);
    if let Ok(Some((child, next))) = child_from(t.structure, cursor) {
        if let Ok(cpu) = is_cpu(t, child) {
            if cpu {
                if let Ok((info, own)) = cpu_told(t, child, list, mode) {
                    lemma_cpus_from(t, next, list.push(info), own);
                }
            } else {
                lemma_cpus_from(t, next, list, mode);
            }
        }
    }
}

/// Whether the numbers are those of processors, and no number occurs twice.
pub open spec fn regs_sound(list: Seq<CpuInfo>) -> bool {
    &&& forall|i: int| 0 <= i < list.len() ==> (#[trigger] list[i]).reg < MAX_CPUS
    &&& forall|i: int, j: int|
        0 <= i < j < list.len() ==> (#[trigger] list[i]).reg != (#[trigger] list[j]).reg
}

/// The processors that are collected are four different ones, numbered from 0 to 3.
pub proof fn law_processors_are_distinct(t: Tree)
    ensures
        cpus_told(t) matches Ok((list, _)) ==> list.len() == MAX_CPUS && regs_sound(list),
{
    if let Ok((list, mode)) = cpus_told(t) {
        let start = content_start(t.structure, t.node("/cpus"@)->Ok_0)->Ok_0;
        lemma_cpus_from(t, start, Seq::empty(), CpuBootMode::Cold);
    }
}

/// Whether the bytes of `text` stand at `at`.
pub open spec fn stands_at(data: Seq<u8>, at: int, text: Seq<u8>) -> bool {
    at + text.len() <= data.len() && data.subrange(at, at + text.len()) == text
}

fn text_at(data: &[u8], at: usize, text: &[u8]) -> (r: bool)
    requires
        at <= 0x1000,
    ensures
        r == stands_at(data@, at as int, text@),
{
    if at > data.len() || data.len() - at < text.len() {
        return false;
    }
    same_bytes(&data[at..at + text.len()], text)
}

fn word_stands_at(data: &[u8], at: usize, value: u32) -> (r: bool)
    requires
        at <= 0x1000,
    ensures
        r == (at + 4 <= data@.len() && le32(data@, at as int) == value),
{
    data.len() >= 4 && at <= data.len() - 4 && le_u32(data, at) == value
}

/// Whether a page already holds resident code, of this kind or of another.
pub fn occupied_prefix(prefix: &[u8]) -> (r: bool)
    ensures
        r == (stands_at(prefix@, 0x80, utf8("spin-tab"@)) || stands_at(
            prefix@,
            0x90,
            utf8("PBSPIN"@),
        )),
{
    text_at(prefix, 0x80, "spin-tab".as_bytes()) || text_at(prefix, 0x90, "PBSPIN".as_bytes())
}

/// Whether the little-endian word at `at` is `value`.
pub open spec fn word_is(data: Seq<u8>, at: int, value: u32) -> bool {
    at + 4 <= data.len() && le32(data, at) == value
}

/// Whether a page starts with the descriptor of resident code of this kind.
pub open spec fn descriptor_sound(prefix: Seq<u8>) -> bool {
    &&& word_is(prefix, 0, 0x14000040)
    &&& stands_at(prefix, 0x80, utf8("spin-tab"@))
    &&& word_is(prefix, 0x88, 0)
    &&& word_is(prefix, 0x8c, 0)
    &&& stands_at(prefix, 0x90, utf8("PBSPIN01"@))
    &&& word_is(prefix, 0x98, 1)
    &&& word_is(prefix, 0x9c, 4096)
    &&& word_is(prefix, 0xa0, 0x100)
    &&& word_is(prefix, 0xa4, 0x400)
    &&& word_is(prefix, 0xa8, 0x80)
    &&& word_is(prefix, 0xac, 4)
}

/// Refuses a page without the descriptor of resident code of this kind.
pub fn validate_resident_descriptor(prefix: &[u8]) -> (r: Result<(), Error>)
    ensures
        r == (if descriptor_sound(prefix@) {
            Ok::<(), Error>(())
        } else {
            Err(Error::BadSpinTable)
        }),
{
    if word_stands_at(prefix, 0, 0x14000040) && text_at(prefix, 0x80, "spin-tab".as_bytes())
        && word_stands_at(prefix, 0x88, 0) && word_stands_at(prefix, 0x8c, 0) && text_at(
        prefix,
        0x90,
        "PBSPIN01".as_bytes(),
    ) && word_stands_at(prefix, 0x98, 1) && word_stands_at(prefix, 0x9c, 4096) && word_stands_at(
        prefix,
        0xa0,
        0x100,
    ) && word_stands_at(prefix, 0xa4, 0x400) && word_stands_at(prefix, 0xa8, 0x80)
        && word_stands_at(prefix, 0xac, 4) {
        Ok(())
    } else {
        Err(Error::BadSpinTable)
    }
}

/// Whether resident code tells of the coherency of its processors.
pub fn has_coherency_diagnostics(prefix: &[u8]) -> (r: bool)
    ensures
        r == stands_at(prefix@, 0xb0, utf8("PBSDIAG1"@)),
{
    text_at(prefix, 0xb0, "PBSDIAG1".as_bytes())
}

/// Refuses a processor that does not take part in coherency.
pub fn require_coherency(cpuectlr: u64) -> (r: Result<(), Error>)
    ensures
        r == (if cpuectlr & 0x40 != 0 {
            Ok::<(), Error>(())
        } else {
            Err(Error::Coherency)
        }),
{
    if cpuectlr & 0x40 != 0 {
        Ok(())
    } else {
        Err(Error::Coherency)
    }
}

/// What is read of the slot of a processor, in order: the request, where it is released, its
/// acknowledgment, the level at which it entered, the request again, and the release again.
#[derive(Clone, Copy, Debug, PartialEq, Eq, Structural)]
pub struct SlotReads {
    pub request: u64,
    pub release: u64,
    pub ack: u64,
    pub entry_el: u64,
    pub request_again: u64,
    pub release_again: u64,
}

/// Whether a processor is parked, and stays so while it is looked at.
pub open spec fn parked(slot: SlotReads, entry_el: u64) -> bool {
    &&& slot.request != 0
    &&& slot.release == 0
    &&& slot.ack == slot.request
    &&& slot.entry_el == entry_el
    &&& slot.request_again == slot.request
    &&& slot.release_again == 0
}

/// Refuses resident processors that are not parked. The level is that of the first processor, whose
/// own slot has to be empty.
pub fn validate_parked_slots(entry_el: u64, first_release: u64, slots: &[SlotReads]) -> (r: Result<
    (),
    Error,
>)
    ensures
        r == (if (entry_el == 4 || entry_el == 8) && first_release == 0 && forall|i: int|
            0 <= i < slots@.len() ==> parked(#[trigger] slots@[i], entry_el) {
            Ok::<(), Error>(())
        } else {
            Err(Error::UnparkedResident)
        }),
{
    if !(entry_el == 4 || entry_el == 8) || first_release != 0 {
        return Err(Error::UnparkedResident);
    }
    let mut i: usize = 0;
    while i < slots.len()
        invariant
            i <= slots@.len(),
            entry_el == 4 || entry_el == 8,
            first_release == 0,
            forall|k: int| 0 <= k < i ==> parked(#[trigger] slots@[k], entry_el),
        decreases slots@.len() - i,
    {
        let slot = slots[i];
        if slot.request == 0 || slot.release != 0 || slot.ack != slot.request || slot.entry_el
            != entry_el || slot.request_again != slot.request || slot.release_again != 0 {
            assert(!parked(slots@[i as int], entry_el));
            return Err(Error::UnparkedResident);
        }
        i += 1;
    }
    Ok(())
}

/// The page with the resident code in it: the code, zeros, and a request in the slot of each
/// secondary processor.
pub open spec fn resident_page(image: Seq<u8>) -> Seq<u8> {
    Seq::new(
        SPIN_TABLE_SIZE as nat,
        |i: int|
            if i < image.len() {
                image[i]
            } else if i == 0x488 || i == 0x508 || i == 0x588 {
                1u8
            } else {
                0u8
            },
    )
}

/// The page with the resident code in it, unless the page is in use or the code does not fit in
/// front of the slots.
pub fn init_spin_table(prefix: &[u8], image: &[u8]) -> (r: Result<Vec<u8>, Error>)
    ensures
        match r {
            Ok(page) => {
                &&& !(stands_at(prefix@, 0x80, utf8("spin-tab"@)) || stands_at(
                    prefix@,
                    0x90,
                    utf8("PBSPIN"@),
                ))
                &&& SPIN_TABLE_ENTRY_OFFSET <= image@.len() <= SPIN_TABLE_SLOTS_OFFSET
                &&& page@ == resident_page(image@)
            },
            Err(e) => if stands_at(prefix@, 0x80, utf8("spin-tab"@)) || stands_at(
                prefix@,
                0x90,
                utf8("PBSPIN"@),
            ) {
                e == Error::OccupiedSpinTable
            } else {
                !(SPIN_TABLE_ENTRY_OFFSET <= image@.len() <= SPIN_TABLE_SLOTS_OFFSET) && e
                    == Error::BadSpinTable
            },
        },
{
    if occupied_prefix(prefix) {
        return Err(Error::OccupiedSpinTable);
    }
    if (image.len() as u64) < SPIN_TABLE_ENTRY_OFFSET || image.len() as u64
        > SPIN_TABLE_SLOTS_OFFSET {
        return Err(Error::BadSpinTable);
    }
    let mut page: Vec<u8> = Vec::new();
    let mut i: usize = 0;
    while i < 4096
        invariant
            i <= 4096,
            page@.len() == i,
            image@.len() <= SPIN_TABLE_SLOTS_OFFSET,
            forall|k: int| 0 <= k < i ==> #[trigger] page@[k] == resident_page(image@)[k],
        decreases 4096 - i,
    {
        let b: u8 = if i < image.len() {
            image[i]
        } else if i == 0x488 || i == 0x508 || i == 0x588 {
            1
        } else {
            0
        };
        page.push(b);
        i += 1;
    }
    assert(page@ =~= resident_page(image@));
    Ok(page)
}

/// Each secondary processor finds a request for itself in the page, and no release.
pub proof fn law_page_asks_for_parking(image: Seq<u8>, table: SpinTable, cpu: int)
    requires
        image.len() <= SPIN_TABLE_SLOTS_OFFSET,
        1 <= cpu < MAX_CPUS,
    ensures
        ({
            let slot = table.slot(cpu) - table.addr;
            &&& le64(resident_page(image), slot + SPIN_TABLE_REQUEST_OFFSET) == 1
            &&& le64(resident_page(image), slot) == 0
            &&& le64(resident_page(image), slot + SPIN_TABLE_ACK_OFFSET) == 0
        }),
{
    let slot = table.slot(cpu) - table.addr;
    let page = resident_page(image);
    assert(slot == 0x480 || slot == 0x500 || slot == 0x580);
    assert(page[slot + 8] == 1);
}

/// A step in switching a processor on: a register is written, what was written has to arrive, or a
/// number of microseconds is waited.
#[derive(Clone, Copy, Debug, PartialEq, Eq, Structural)]
pub enum PowerStep {
    Write { address: u64, value: u32 },
    Barrier,
    Delay(u64),
}

/// The steps that switch a processor on, by the address of its power controller.
pub open spec fn power_steps(base: u64) -> Seq<PowerStep> {
    let control = (base + 4) as u64;
    let gate = (base + 0x14) as u64;
    seq![
        PowerStep::Write { address: control, value: 0x33 },
        PowerStep::Barrier,
        PowerStep::Write { address: gate, value: 0x1000_0001 },
        PowerStep::Barrier,
        PowerStep::Delay(2),
        PowerStep::Write { address: control, value: 0x31 },
        PowerStep::Barrier,
        PowerStep::Write { address: control, value: 0x39 },
        PowerStep::Barrier,
        PowerStep::Delay(2),
        PowerStep::Write { address: control, value: 0x38 },
        PowerStep::Barrier,
        PowerStep::Delay(2),
        PowerStep::Write { address: control, value: 0x08 },
        PowerStep::Barrier,
        PowerStep::Write { address: control, value: 0x88 },
        PowerStep::Barrier,
    ]
}

/// The steps that switch a processor on, by the address of its power controller.
pub fn boot_cortex_a53(acc_base: u64) -> (r: Vec<PowerStep>)
    requires
        acc_base + 0x14 <= u64::MAX,
    ensures
        r@ == power_steps(acc_base),
{
    let control = acc_base + 4;
    let gate = acc_base + 0x14;
    let steps = vec![
        PowerStep::Write { address: control, value: 0x33 },
        PowerStep::Barrier,
        PowerStep::Write { address: gate, value: 0x1000_0001 },
        PowerStep::Barrier,
        PowerStep::Delay(2),
        PowerStep::Write { address: control, value: 0x31 },
        PowerStep::Barrier,
        PowerStep::Write { address: control, value: 0x39 },
        PowerStep::Barrier,
        PowerStep::Delay(2),
        PowerStep::Write { address: control, value: 0x38 },
        PowerStep::Barrier,
        PowerStep::Delay(2),
        PowerStep::Write { address: control, value: 0x08 },
        PowerStep::Barrier,
        PowerStep::Write { address: control, value: 0x88 },
        PowerStep::Barrier,
    ];
    assert(steps@ =~= power_steps(acc_base));
    steps
}

/// Two ranges meet where a byte is in both, as long as neither goes beyond the last address.
pub proof fn law_ranges_meet_in_a_byte(start: int, size: int, other: int, other_size: int)
    requires
        0 <= start,
        0 <= size,
        0 <= other,
        0 <= other_size,
        start + size <= u64::MAX,
        other + other_size <= u64::MAX,
    ensures
        meets(start, size, other, other_size) <==> exists|x: int|
            #[trigger] is_in(x, start, size) && is_in(x, other, other_size),
{
    if meets(start, size, other, other_size) {
        let x = if start < other {
            other
        } else {
            start
        };
        assert(is_in(x, start, size) && is_in(x, other, other_size));
    }
}

/// Whether an address is in a range.
pub open spec fn is_in(x: int, start: int, size: int) -> bool {
    start <= x < start + size
}

/// A page that was found to be good lies clear of everything around it: no byte of it is in the
/// kernel, in the program in front of it, or in the tree, nor in any range of the list of reserved
/// memory but its own.
pub proof fn law_good_pages_are_free(
    t: Tree,
    reserve: Seq<u8>,
    addr: int,
    s: Surroundings,
    x: int,
    i: int,
)
    requires
        memory_check(t, Ok(reserve), addr, s) is Ok,
        0 <= addr,
        addr + 4096 <= 0x1_0000_0000,
        is_in(x, addr, 4096),
        0 <= i < reserve.len() / 16,
    ensures
        !is_in(x, s.payload as int, s.payload_size as int),
        !is_in(x, s.tree_addr as int, s.tree_size as int),
        s.program matches Some(start) ==> !is_in(x, start as int, s.payload - start),
        is_in(x, range_at(reserve, i).0, range_at(reserve, i).1) ==> range_at(reserve, i) == (
            addr,
            4096int,
        ),
{
    assert(keeps_clear(addr, s));
    assert(!any_disturbs(addr, reserve));
    assert(!disturbs(addr, range_at(reserve, i)));
}

/// The port of the console is told by what precedes a colon in the path of the console.
pub proof fn law_consoles_are_named_before_a_colon(name: Seq<u8>, options: Seq<u8>)
    requires
        name.len() > 0,
        !name.contains(0x3au8),
    ensures
        console_name(name) == Some(name),
        console_name(name.push(0x3au8) + options) == Some(name),
{
    let whole = name.push(0x3au8) + options;
    let n = name.len() as int;
    lemma_next_byte(name, 0, 0x3a);
    lemma_next_byte(whole, 0, 0x3a);
    let a = next_byte(name, 0, 0x3a);
    if a < n {
        assert(name.contains(name[a]));
    }
    assert(name.take(n) =~= name);
    let b = next_byte(whole, 0, 0x3a);
    assert(whole[n] == 0x3a);
    if b < n {
        assert(whole[b] == name[b]);
        assert(name.contains(name[b]));
    }
    assert(whole.take(n) =~= name);
}

/// The port is where its node says: a node of the right kind with a range that is long enough gives
/// the address that the range begins at, and one of another kind gives none.
pub proof fn law_ports_are_where_their_nodes_say(t: Tree, uart: int, kinds: Seq<Seq<u8>>, reg: Seq<u8>)
    requires
        forall|i: int| 0 <= i < kinds.len() ==> !(#[trigger] kinds[i]).contains(0u8),
        t.prop(uart, "compatible"@) == Ok::<Seq<u8>, fdt::Error>(ended(kinds, 0u8)),
        t.prop(uart, "reg"@) == Ok::<Seq<u8>, fdt::Error>(reg),
        reg.len() == 8,
        be32(reg, 4) >= 0x140,
    ensures
        kinds.contains(utf8("qcom,msm-uartdm-v1.4"@)) ==> uart_at(t, uart) == Ok::<u64, Error>(
            (reg[0] * 0x100_0000 + reg[1] * 0x1_0000 + reg[2] * 0x100 + reg[3]) as u64,
        ),
        !kinds.contains(utf8("qcom,msm-uartdm-v1.4"@)) ==> uart_at(t, uart) is Err,
{
    fdt::law_lists_have_their_strings(kinds, utf8("qcom,msm-uartdm-v1.4"@));
}

proof fn lemma_methods()
    ensures
        boot_mode(utf8("spin-table"@)) == Some(CpuBootMode::Resident),
        boot_mode(utf8("psci"@)) == Some(CpuBootMode::Cold),
        boot_mode(utf8("pocketboot,msm8916-acc"@)) == Some(CpuBootMode::Cold),
{
    reveal_strlit("spin-table");
    reveal_strlit("psci");
    reveal_strlit("pocketboot,msm8916-acc");
    vstd::utf8::is_ascii_chars_encode_utf8("spin-table"@);
    vstd::utf8::is_ascii_chars_encode_utf8("psci"@);
    vstd::utf8::is_ascii_chars_encode_utf8("pocketboot,msm8916-acc"@);
    assert(utf8("spin-table"@).len() == 10);
    assert(utf8("psci"@).len() == 4);
    assert(utf8("pocketboot,msm8916-acc"@).len() == 22);
}

/// A processor is told by its node: a node of the right kind, with a number that no other has and a
/// method that is known, gives that number, whether the processor is resident or cold by its method,
/// and the base of its power controller where it is cold, which follows from its number.
pub proof fn law_processors_are_told_by_their_nodes(
    t: Tree,
    child: int,
    list: Seq<CpuInfo>,
    mode: CpuBootMode,
    kinds: Seq<Seq<u8>>,
    reg: u32,
)
    requires
        forall|i: int| 0 <= i < kinds.len() ==> !(#[trigger] kinds[i]).contains(0u8),
        t.prop(child, "compatible"@) == Ok::<Seq<u8>, fdt::Error>(ended(kinds, 0u8)),
        kinds.contains(utf8("arm,cortex-a53"@)),
        t.prop(child, "reg"@) matches Ok(range) && range.len() == 4 && be32(range, 0) == reg,
        reg < 4,
        !has_reg(list, reg),
        !switched_off(t, child),
        list.len() == 0 || mode == CpuBootMode::Cold,
    ensures
        t.text(child, "enable-method"@) == Ok::<Seq<u8>, fdt::Error>(utf8("psci"@)) ==> match controller_base(
            t,
            child,
            reg,
        ) {
            Ok(base) => base == 0x0b08_8000 + reg * 0x1_0000 && cpu_told(t, child, list, mode) == Ok::<
                (CpuInfo, CpuBootMode),
                Error,
            >((CpuInfo { reg, acc_base: base }, CpuBootMode::Cold)),
            Err(e) => cpu_told(t, child, list, mode) == Err::<(CpuInfo, CpuBootMode), Error>(e),
        },
        t.text(child, "enable-method"@) == Ok::<Seq<u8>, fdt::Error>(utf8("spin-table"@))
            && list.len() > 0 ==> cpu_told(t, child, list, mode) == Err::<
            (CpuInfo, CpuBootMode),
            Error,
        >(Error::OccupiedSpinTable),
{
    lemma_methods();
    fdt::law_lists_have_their_strings(kinds, utf8("arm,cortex-a53"@));
}

/// The page is where its node says: sixteen bytes tell its address and its size, which is one page
/// of four kibibytes, on its own boundary and in the first four gibibytes.
pub proof fn law_pages_are_where_their_nodes_say(t: Tree, child: int, reg: Seq<u8>)
    requires
        t.prop(child, "reg"@) == Ok::<Seq<u8>, fdt::Error>(reg),
        reg.len() == 16,
    ensures
        ({
            let addr = be32(reg, 0) * 0x1_0000_0000 + be32(reg, 4);
            let size = be32(reg, 8) * 0x1_0000_0000 + be32(reg, 12);
            let good = addr > 0 && size == 4096 && addr % 4096 == 0 && addr + size <= 0x1_0000_0000;
            page_range(t, child) == (if good {
                Ok(addr as u64)
            } else {
                Err(Error::BadSpinTable)
            })
        }),
{
}

} // verus!
