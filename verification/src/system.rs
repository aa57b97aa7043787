//! What the system tells of the device: its serial number, its names and its disks.
use vstd::prelude::*;
use vstd::string::*;
use vstd::utf8::*;

use crate::bytes::{
    c_bytes, is_space_byte, parts, trim_ascii_bytes, until_zero, without_back, without_front,
};
use crate::cmdline::{value_of, KernelCommandLine};
use crate::order::{sort, sorted, Ranked};
use crate::partitions::{uevent_value, value_from};
use crate::text::{
    cat, chars, decimal, decode, ended, law_ended_pieces_are_cut_again, lemma_precedes, lines,
    owned, parse_number, parse_unsigned, pieces, precedes, push_decimal, same_text, split_bytes,
    text_before, texts, trim, trimmed,
};

verus! {

/// The error that tells that a file system was mounted before.
pub const EBUSY: i32 = 16;

/// The text of bytes, without the spaces around it, if there is one.
pub open spec fn fdt_text(bytes: Seq<u8>) -> Option<Seq<char>> {
    let inner = without_back(without_front(bytes));
    if inner.len() > 0 && valid_utf8(inner) {
        Some(decode_utf8(inner))
    } else {
        None
    }
}

/// The text of bytes, without the spaces around it, if there is one.
pub fn parse_fdt_string(bytes: &[u8]) -> (r: Option<String>)
    ensures
        fdt_text(bytes@) == (match r {
            Some(text) => Some(text@),
            None => None,
        }),
{
    let inner = trim_ascii_bytes(bytes);
    if inner.len() == 0 {
        return None;
    }
    decode(inner)
}

/// The serial number of a property: what precedes its first zero byte.
pub fn parse_fdt_serialno(bytes: &[u8]) -> (r: Option<String>)
    ensures
        fdt_text(c_bytes(bytes@)) == (match r {
            Some(text) => Some(text@),
            None => None,
        }),
{
    parse_fdt_string(until_zero(bytes))
}

/// The texts of the first `n` pieces of a property.
pub open spec fn fdt_texts(list: Seq<Seq<u8>>, n: int) -> Seq<Seq<char>>
    decreases n,
{
    if n <= 0 {
        Seq::empty()
    } else {
        match fdt_text(list[n - 1]) {
            Some(text) => fdt_texts(list, n - 1).push(text),
            None => fdt_texts(list, n - 1),
        }
    }
}

/// The texts of a property.
pub open spec fn told_texts(bytes: Seq<u8>) -> Seq<Seq<char>> {
    fdt_texts(pieces(bytes, 0u8), pieces(bytes, 0u8).len() as int)
}

/// The texts of a property.
pub fn read_fdt_strings(bytes: &[u8]) -> (r: Vec<String>)
    ensures
        texts(r@) == told_texts(bytes@),
{
    let list = split_bytes(bytes, 0);
    let ghost views = pieces(bytes@, 0u8);
    let mut out: Vec<String> = Vec::new();
    let mut i: usize = 0;
    assert(texts(out@) =~= Seq::<Seq<char>>::empty());
    while i < list.len()
        invariant
            i <= list@.len(),
            parts(list@) == views,
            texts(out@) == fdt_texts(views, i as int),
        decreases list@.len() - i,
    {
        assert(views[i as int] == list@[i as int]@);
        if let Some(text) = parse_fdt_string(&list[i]) {
            let ghost before = out@;
            let ghost added = text@;
            out.push(text);
            assert(texts(out@) =~= texts(before).push(added));
        }
        i += 1;
    }
    out
}

/// The first text of a property.
pub fn fdt_first_string(bytes: &[u8]) -> (r: Option<String>)
    ensures
        match r {
            Some(text) => told_texts(bytes@).len() > 0 && text@ == told_texts(bytes@)[0],
            None => told_texts(bytes@).len() == 0,
        },
{
    let list = read_fdt_strings(bytes);
    assert(texts(list@).len() == list@.len());
    if list.len() == 0 {
        None
    } else {
        Some(owned(list[0].as_str()))
    }
}

/// The kinds of a device, as they are shown: the first, or the first two.
pub open spec fn kinds_shown(list: Seq<Seq<char>>) -> Option<Seq<char>> {
    if list.len() == 0 {
        None
    } else if list.len() == 1 {
        Some(list[0])
    } else {
        Some(list[0] + " / "@ + list[1])
    }
}

/// The kinds of a device, as they are shown.
pub fn fdt_compatible_detail(bytes: &[u8]) -> (r: Option<String>)
    ensures
        kinds_shown(told_texts(bytes@)) == (match r {
            Some(text) => Some(text@),
            None => None,
        }),
{
    let list = read_fdt_strings(bytes);
    let ghost views = told_texts(bytes@);
    assert(texts(list@).len() == list@.len());
    if list.len() == 0 {
        None
    } else if list.len() == 1 {
        assert(views[0] == list@[0]@);
        Some(owned(list[0].as_str()))
    } else {
        assert(views[0] == list@[0]@ && views[1] == list@[1]@);
        Some(cat(cat(list[0].as_str(), " / ").as_str(), list[1].as_str()))
    }
}

/// The serial number that the command line gives.
pub fn cmdline_serialno(cmdline: &KernelCommandLine) -> (r: Option<String>)
    ensures
        value_of(cmdline@, "androidboot.serialno"@) == (match r {
            Some(text) => Some(text@),
            None => None,
        }),
{
    cmdline.value("androidboot.serialno")
}

/// The serial number of a device: the one in its device tree, or the one on the command line, or a
/// fixed one.
pub open spec fn serial_of(property: Option<Seq<u8>>, args: Seq<Seq<char>>) -> Seq<char> {
    let told = match property {
        Some(bytes) => fdt_text(c_bytes(bytes)),
        None => None,
    };
    match told {
        Some(text) => text,
        None => match value_of(args, "androidboot.serialno"@) {
            Some(text) => text,
            None => "0001"@,
        },
    }
}

/// The serial number of a device.
pub fn detect_serial(property: Option<&[u8]>, cmdline: &KernelCommandLine) -> (s: String)
    ensures
        s@ == serial_of(
            match property {
                Some(bytes) => Some(bytes@),
                None => None,
            },
            cmdline@,
        ),
{
    if let Some(bytes) = property {
        if let Some(text) = parse_fdt_serialno(bytes) {
            return text;
        }
    }
    match cmdline_serialno(cmdline) {
        Some(text) => text,
        None => owned("0001"),
    }
}

/// What is shown of a device.
#[derive(Debug)]
pub struct SystemInfo {
    pub device_name: String,
    pub device_detail: String,
    pub serialno: String,
}

/// The texts of a property that may not be there.
pub open spec fn texts_of(property: Option<Seq<u8>>) -> Seq<Seq<char>> {
    match property {
        Some(bytes) => told_texts(bytes),
        None => Seq::empty(),
    }
}

/// What is shown of a device, by the properties of its device tree and its serial number.
pub fn detect_system_info(model: Option<&[u8]>, compatible: Option<&[u8]>, serialno: &str) -> (r:
    SystemInfo)
    ensures
        ({
            let names = texts_of(
                match model {
                    Some(bytes) => Some(bytes@),
                    None => None,
                },
            );
            r.device_name@ == (if names.len() > 0 {
                names[0]
            } else {
                "Pocketboot Device"@
            })
        }),
        ({
            let kinds = kinds_shown(
                texts_of(
                    match compatible {
                        Some(bytes) => Some(bytes@),
                        None => None,
                    },
                ),
            );
            r.device_detail@ == (match kinds {
                Some(text) => text,
                None => "LinuxBoot environment"@,
            })
        }),
        r.serialno@ == serialno@,
{
    let name = match model {
        Some(bytes) => fdt_first_string(bytes),
        None => None,
    };
    let detail = match compatible {
        Some(bytes) => fdt_compatible_detail(bytes),
        None => None,
    };
    SystemInfo {
        device_name: match name {
            Some(text) => text,
            None => owned("Pocketboot Device"),
        },
        device_detail: match detail {
            Some(text) => text,
            None => owned("LinuxBoot environment"),
        },
        serialno: owned(serialno),
    }
}

/// The size of a disk in words.
pub open spec fn size_words(sectors: int) -> Seq<char> {
    "size="@ + decimal(sectors) + " sectors/"@ + decimal(sectors * 512 / 1024 / 1024) + " MiB"@
}

/// The size of a disk in words.
pub fn format_size(sectors: u64) -> (s: String)
    ensures
        s@ == size_words(sectors as int),
{
    let mib = (sectors as u128 * 512 / 1024 / 1024) as u64;
    let mut out = owned("size=");
    push_decimal(&mut out, sectors);
    out.append(" sectors/");
    push_decimal(&mut out, mib);
    out.append(" MiB");
    out
}

/// What the files of a disk hold, as far as they could be read.
#[derive(Debug)]
pub struct BlockFacts {
    pub dev: Option<String>,
    pub size: Option<String>,
    pub ro: Option<String>,
    pub removable: Option<String>,
    pub uevent: Option<String>,
}

/// What a file holds, without the spaces around it, if there is anything.
pub open spec fn file_value(contents: Option<String>) -> Option<Seq<char>> {
    match contents {
        Some(text) => if trim(text@).len() > 0 {
            Some(trim(text@))
        } else {
            None
        },
        None => None,
    }
}

/// What a file holds, without the spaces around it, if there is anything.
pub fn read_trimmed(contents: &Option<String>) -> (r: Option<String>)
    ensures
        file_value(*contents) == (match r {
            Some(text) => Some(text@),
            None => None,
        }),
{
    match contents {
        Some(text) => {
            let short = trimmed(text.as_str());
            if short.as_str().unicode_len() > 0 {
                Some(short)
            } else {
                None
            }
        },
        None => None,
    }
}

/// What a disk is, in words.
pub open spec fn disk_words(name: Seq<char>, f: BlockFacts) -> Seq<char> {
    let dev = match file_value(f.dev) {
        Some(text) => text,
        None => "?:?"@,
    };
    let size = match file_value(f.size) {
        Some(text) => match parse_number(text, 10, u64::MAX as nat) {
            Some(n) => size_words(n as int),
            None => "size=?"@,
        },
        None => "size=?"@,
    };
    let access = if file_value(f.ro) == Some("1"@) {
        "ro"@
    } else if file_value(f.ro) == Some("0"@) {
        "rw"@
    } else {
        "ro=?"@
    };
    let removable = if file_value(f.removable) == Some("1"@) {
        " removable"@
    } else {
        ""@
    };
    let label = match f.uevent {
        Some(text) => value_from(lines(text@), 0, "PARTNAME"@),
        None => None,
    };
    name + " dev="@ + dev + " "@ + size + " "@ + access + removable + (match label {
        Some(text) => " partname="@ + text,
        None => ""@,
    })
}

fn value_is(value: &Option<String>, wanted: &str) -> (r: bool)
    ensures
        r == (match *value {
            Some(text) => Some(text@),
            None => None,
        } == Some(wanted@)),
{
    match value {
        Some(text) => same_text(text.as_str(), wanted),
        None => false,
    }
}

/// What a disk or a partition is, in words.
pub fn describe(name: &str, facts: &BlockFacts) -> (s: String)
    ensures
        s@ == disk_words(name@, *facts),
{
    let mut out = owned(name);
    out.append(" dev=");
    match read_trimmed(&facts.dev) {
        Some(text) => {
            out.append(text.as_str());
        },
        None => {
            out.append("?:?");
        },
    }
    out.append(" ");
    match read_trimmed(&facts.size) {
        Some(text) => {
            let v = chars(text.as_str());
            match parse_unsigned(&v, 10, u64::MAX) {
                Some(n) => {
                    out.append(format_size(n).as_str());
                },
                None => {
                    out.append("size=?");
                },
            }
        },
        None => {
            out.append("size=?");
        },
    }
    out.append(" ");
    let ro = read_trimmed(&facts.ro);
    if value_is(&ro, "1") {
        out.append("ro");
    } else if value_is(&ro, "0") {
        out.append("rw");
    } else {
        out.append("ro=?");
    }
    let removable = read_trimmed(&facts.removable);
    if value_is(&removable, "1") {
        out.append(" removable");
    } else {
        out.append("");
    }
    let label = match &facts.uevent {
        Some(text) => uevent_value(text.as_str(), "PARTNAME"),
        None => None,
    };
    match label {
        Some(text) => {
            let more = cat(" partname=", text.as_str());
            out.append(more.as_str());
        },
        None => {
            out.append("");
        },
    }
    out
}

/// A disk with its partitions, or a partition.
#[derive(Debug)]
pub struct BlockDevice {
    pub name: String,
    pub path: String,
    pub partitions: Vec<BlockDevice>,
}

impl Ranked for BlockDevice {
    open spec fn goes_before(&self, other: &BlockDevice) -> bool {
        precedes(self.name@, other.name@)
    }

    proof fn lemma_order(a: &BlockDevice, b: &BlockDevice, c: &BlockDevice) {
        lemma_precedes(a.name@, b.name@, c.name@);
        lemma_precedes(c.name@, b.name@, a.name@);
        lemma_precedes(b.name@, a.name@, c.name@);
        lemma_precedes(a.name@, c.name@, b.name@);
    }

    fn before(&self, other: &BlockDevice) -> (r: bool) {
        text_before(self.name.as_str(), other.name.as_str())
    }
}

/// The disks, or the partitions of a disk, in the order of their names.
pub fn block_devices(found: Vec<BlockDevice>) -> (r: Vec<BlockDevice>)
    ensures
        r@ == sorted(found@, found@.len() as int),
{
    sort(found)
}

/// A file system that is mounted at the start.
#[derive(Debug)]
pub struct Mount {
    pub source: &'static str,
    pub target: &'static str,
    pub options: Option<&'static str>,
}

/// Whether a mount is one of a file system at a place.
pub open spec fn mounts(m: Mount, source: Seq<char>, target: Seq<char>, options: Option<Seq<char>>) -> bool {
    &&& m.source@ == source
    &&& m.target@ == target
    &&& match (m.options, options) {
        (Some(own), Some(wanted)) => own@ == wanted,
        (None, None) => true,
        _ => false,
    }
}

/// The file systems that are mounted at the start, in order. The kind of each is named like its
/// source.
pub fn core_mounts() -> (r: Vec<Mount>)
    ensures
        r@.len() == 5,
        mounts(r@[0], "proc"@, "/proc"@, None),
        mounts(r@[1], "sysfs"@, "/sys"@, None),
        mounts(r@[2], "devtmpfs"@, "/dev"@, Some("mode=0755"@)),
        mounts(r@[3], "devpts"@, "/dev/pts"@, None),
        mounts(r@[4], "tmpfs"@, "/run"@, Some("mode=0755"@)),
{
    let mut out: Vec<Mount> = Vec::new();
    out.push(Mount { source: "proc", target: "/proc", options: None });
    out.push(Mount { source: "sysfs", target: "/sys", options: None });
    out.push(Mount { source: "devtmpfs", target: "/dev", options: Some("mode=0755") });
    out.push(Mount { source: "devpts", target: "/dev/pts", options: None });
    out.push(Mount { source: "tmpfs", target: "/run", options: Some("mode=0755") });
    out
}

/// Whether a file system is there after mounting it: one that is busy was mounted before.
pub fn is_mounted(failure: Option<i32>) -> (r: bool)
    ensures
        r == (failure is None || failure == Some(EBUSY)),
{
    match failure {
        None => true,
        Some(errno) => errno == EBUSY,
    }
}

/// The failure to mount a file system, in words.
pub fn mount_failure(source: Option<&str>, target: &str, fstype: Option<&str>, error: &str) -> (s:
    String)
    ensures
        s@ == "mount "@ + (match source {
            Some(text) => text@,
            None => "none"@,
        }) + " on "@ + target@ + " as "@ + (match fstype {
            Some(text) => text@,
            None => "none"@,
        }) + ": "@ + error@,
{
    let mut out = owned("mount ");
    match source {
        Some(text) => {
            out.append(text);
        },
        None => {
            out.append("none");
        },
    }
    out.append(" on ");
    out.append(target);
    out.append(" as ");
    match fstype {
        Some(text) => {
            out.append(text);
        },
        None => {
            out.append("none");
        },
    }
    out.append(": ");
    out.append(error);
    out
}

proof fn lemma_plain_bytes(s: Seq<u8>)
    requires
        s.len() > 0,
        !is_space_byte(s[0]),
        !is_space_byte(s.last()),
    ensures
        without_back(without_front(s)) == s,
{
}

proof fn lemma_fdt_texts(parts: Seq<Seq<u8>>, n: int)
    requires
        0 <= n < parts.len(),
        parts.last().len() == 0,
        forall|i: int|
            0 <= i < parts.len() - 1 ==> (#[trigger] parts[i]).len() > 0 && valid_utf8(parts[i])
                && !is_space_byte(parts[i][0]) && !is_space_byte(parts[i].last()),
    ensures
        fdt_texts(parts, n) == Seq::new(n as nat, |i: int| decode_utf8(parts[i])),
    decreases n,
{
    if n > 0 {
        lemma_fdt_texts(parts, n - 1);
        lemma_plain_bytes(parts[n - 1]);
        assert(fdt_texts(parts, n) =~= Seq::new(n as nat, |i: int| decode_utf8(parts[i])));
    }
}

/// The texts of a property, each ended by a zero byte, are all told, in their order; the serial
/// number is the text of its property, or what the kernel was started with, or `0001`.
pub proof fn law_names_of_the_device_are_told(list: Seq<Seq<u8>>, args: Seq<Seq<char>>)
    requires
        forall|i: int|
            0 <= i < list.len() ==> (#[trigger] list[i]).len() > 0 && valid_utf8(list[i])
                && !is_space_byte(list[i][0]) && !is_space_byte(list[i].last())
                && !list[i].contains(0u8),
    ensures
        told_texts(ended(list, 0u8)) == Seq::new(list.len(), |i: int| decode_utf8(list[i])),
        value_of(args, "androidboot.serialno"@) matches Some(text) ==> serial_of(None, args) == text,
        value_of(args, "androidboot.serialno"@) is None ==> serial_of(None, args) == seq![
            '0',
            '0',
            '0',
            '1',
        ],
{
    reveal_strlit("0001");
    assert("0001"@ =~= seq!['0', '0', '0', '1']);
    law_ended_pieces_are_cut_again(list, 0u8);
    let cut = list.push(Seq::empty());
    let n = list.len() as int;
    assert forall|i: int| 0 <= i < cut.len() - 1 implies (#[trigger] cut[i]).len() > 0 && valid_utf8(
        cut[i],
    ) && !is_space_byte(cut[i][0]) && !is_space_byte(cut[i].last()) by {
        assert(cut[i] == list[i]);
    }
    lemma_fdt_texts(cut, n);
    assert(cut[n].len() == 0);
    assert(without_back(without_front(cut[n])).len() == 0);
    assert(Seq::new(n as nat, |i: int| decode_utf8(cut[i])) =~= Seq::new(
        list.len(),
        |i: int| decode_utf8(list[i]),
    ));
}

} // verus!
