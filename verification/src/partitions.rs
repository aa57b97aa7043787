//! Partitions of local flash disks.
use vstd::prelude::*;
use vstd::string::*;

use crate::errors::ErrorKind;
use crate::order::{in_order, lemma_sorted, sort, sorted, Ranked};
use crate::text::{
    after_prefix, begins_with, cat, chars, decimal, from_chars,
    law_beginnings_and_ends_are_taken_off, law_texts_are_cut_in_two,
    law_written_numbers_are_read_back, lemma_precedes, lines, parse_number, parse_unsigned,
    precedes, quoted, quoted_text, same_chars, same_text, split_first, split_lines, split_once,
    strip_prefix, text_before, texts, u64_error_text, u64_fault,
};

verus! {

/// A partition of a local flash disk.
#[derive(Debug)]
pub struct Partition {
    pub kernel_name: String,
    pub partname: Option<String>,
    pub dev_path: String,
    pub devnum: String,
    pub size_bytes: u64,
    pub read_only: bool,
}

/// Why a name means no partition.
#[derive(Clone, Copy, Debug, PartialEq, Eq, Structural)]
pub enum PartitionError {
    NotFound,
    Ambiguous,
}

impl PartitionError {
    /// What kind of error it is.
    pub open spec fn what_kind(self) -> ErrorKind {
        match self {
            PartitionError::NotFound => ErrorKind::NotFound,
            PartitionError::Ambiguous => ErrorKind::InvalidInput,
        }
    }

    /// What kind of error it is.
    pub fn kind(self) -> (r: ErrorKind)
        ensures
            r == self.what_kind(),
    {
        match self {
            PartitionError::NotFound => ErrorKind::NotFound,
            PartitionError::Ambiguous => ErrorKind::InvalidInput,
        }
    }

    /// The error in words, for the name that was asked for.
    pub open spec fn words(self, name: Seq<char>) -> Seq<char> {
        match self {
            PartitionError::NotFound => "partition "@ + quoted_text(name) + " not found"@,
            PartitionError::Ambiguous => "partition "@ + quoted_text(name) + " is ambiguous"@,
        }
    }

    /// The error in words, for the name that was asked for.
    pub fn message(self, name: &str) -> (s: String)
        ensures
            s@ == self.words(name@),
    {
        match self {
            PartitionError::NotFound => {
                let front = cat("partition ", quoted(name).as_str());
                cat(front.as_str(), " not found")
            },
            PartitionError::Ambiguous => {
                let front = cat("partition ", quoted(name).as_str());
                cat(front.as_str(), " is ambiguous")
            },
        }
    }
}

impl Partition {
    /// The name that the partition goes by: its own, or else that of the kernel.
    pub open spec fn shown_name(&self) -> Seq<char> {
        match self.partname {
            Some(name) => name@,
            None => self.kernel_name@,
        }
    }

    /// Whether the partition is meant by `name`.
    pub open spec fn is_named(&self, name: Seq<char>) -> bool {
        self.kernel_name@ == name || (self.partname matches Some(own) && own@ == name)
    }

    /// The name that the partition goes by.
    pub fn fastboot_name(&self) -> (s: &str)
        ensures
            s@ == self.shown_name(),
    {
        match &self.partname {
            Some(name) => name.as_str(),
            None => self.kernel_name.as_str(),
        }
    }

    /// A partition with the same fields.
    pub fn duplicate(&self) -> (r: Partition)
        ensures
            r == *self,
    {
        Partition {
            kernel_name: self.kernel_name.clone(),
            partname: match &self.partname {
                Some(name) => Some(name.clone()),
                None => None,
            },
            dev_path: self.dev_path.clone(),
            devnum: self.devnum.clone(),
            size_bytes: self.size_bytes,
            read_only: self.read_only,
        }
    }

    /// Whether the partition is meant by `name`.
    pub fn matches_name(&self, name: &str) -> (r: bool)
        ensures
            r == self.is_named(name@),
    {
        same_text(self.kernel_name.as_str(), name) || match &self.partname {
            Some(own) => same_text(own.as_str(), name),
            None => false,
        }
    }
}

impl Ranked for Partition {
    open spec fn goes_before(&self, other: &Partition) -> bool {
        precedes(self.shown_name(), other.shown_name()) || (self.shown_name() == other.shown_name()
            && precedes(self.kernel_name@, other.kernel_name@))
    }

    proof fn lemma_order(a: &Partition, b: &Partition, c: &Partition) {
        lemma_precedes(a.shown_name(), b.shown_name(), c.shown_name());
        lemma_precedes(c.shown_name(), b.shown_name(), a.shown_name());
        lemma_precedes(b.shown_name(), a.shown_name(), c.shown_name());
        lemma_precedes(b.shown_name(), c.shown_name(), a.shown_name());
        lemma_precedes(a.shown_name(), c.shown_name(), b.shown_name());
        lemma_precedes(a.kernel_name@, b.kernel_name@, c.kernel_name@);
        lemma_precedes(c.kernel_name@, b.kernel_name@, a.kernel_name@);
        lemma_precedes(b.kernel_name@, a.kernel_name@, c.kernel_name@);
        lemma_precedes(b.kernel_name@, c.kernel_name@, a.kernel_name@);
        lemma_precedes(a.kernel_name@, c.kernel_name@, b.kernel_name@);
    }

    fn before(&self, other: &Partition) -> (r: bool) {
        let own = self.fastboot_name();
        let their = other.fastboot_name();
        text_before(own, their) || (same_text(own, their) && text_before(
            self.kernel_name.as_str(),
            other.kernel_name.as_str(),
        ))
    }
}

/// The partitions in the order of the names that they go by.
pub fn list(found: Vec<Partition>) -> (r: Vec<Partition>)
    ensures
        r@ == sorted(found@, found@.len() as int),
        in_order(r@),
        r@.to_multiset() =~= found@.to_multiset(),
{
    proof {
        lemma_sorted(found@, found@.len() as int);
        assert(found@.take(found@.len() as int) =~= found@);
    }
    sort(found)
}

/// The numbers of the first `n` partitions that `name` means.
pub open spec fn matching(partitions: Seq<Partition>, name: Seq<char>, n: int) -> Seq<int>
    decreases n,
{
    if n <= 0 {
        Seq::empty()
    } else if partitions[n - 1].is_named(name) {
        matching(partitions, name, n - 1).push(n - 1)
    } else {
        matching(partitions, name, n - 1)
    }
}

/// The number of the one partition that `name` means.
pub open spec fn the_match(partitions: Seq<Partition>, name: Seq<char>) -> Result<
    int,
    PartitionError,
> {
    let found = matching(partitions, name, partitions.len() as int);
    if found.len() == 0 {
        Err(PartitionError::NotFound)
    } else if found.len() == 1 {
        Ok(found[0])
    } else {
        Err(PartitionError::Ambiguous)
    }
}

/// The number of the one partition that `name` means.
pub fn find(partitions: &[Partition], name: &str) -> (r: Result<usize, PartitionError>)
    ensures
        the_match(partitions@, name@) == (match r {
            Ok(i) => Ok(i as int),
            Err(e) => Err(e),
        }),
        r matches Ok(i) ==> i < partitions@.len() && partitions@[i as int].is_named(name@),
{
    let mut count: usize = 0;
    let mut first: usize = 0;
    let mut i: usize = 0;
    while i < partitions.len()
        invariant
            i <= partitions@.len(),
            count <= i,
            count == matching(partitions@, name@, i as int).len(),
            count > 0 ==> first == matching(partitions@, name@, i as int)[0] && first
                < partitions@.len() && partitions@[first as int].is_named(name@),
        decreases partitions@.len() - i,
    {
        if partitions[i].matches_name(name) {
            if count == 0 {
                first = i;
            }
            count += 1;
        }
        i += 1;
    }
    if count == 0 {
        Err(PartitionError::NotFound)
    } else if count == 1 {
        Ok(first)
    } else {
        Err(PartitionError::Ambiguous)
    }
}

/// The number of the one partition that `name` means, or nothing where there is none.
pub fn find_optional(partitions: &[Partition], name: &str) -> (r: Result<
    Option<usize>,
    PartitionError,
>)
    ensures
        match the_match(partitions@, name@) {
            Ok(i) => r matches Ok(Some(found)) && found == i,
            Err(PartitionError::NotFound) => r matches Ok(None),
            Err(e) => r matches Err(other) && other == e,
        },
        r matches Ok(Some(i)) ==> i < partitions@.len(),
{
    match find(partitions, name) {
        Ok(i) => Ok(Some(i)),
        Err(PartitionError::NotFound) => Ok(None),
        Err(e) => Err(e),
    }
}

/// The size in bytes that a size in sectors tells, or why the directory at `path` tells none.
pub open spec fn size_told(path: Seq<char>, sectors: Option<Seq<char>>) -> Result<u64, Seq<char>> {
    match sectors {
        None => Err(path + " has no size"@),
        Some(text) => match parse_number(text, 10, u64::MAX as nat) {
            None => Err(path + " size is invalid: "@ + u64_error_text(text)),
            Some(count) => if count * 512 > u64::MAX {
                Err(path + " size overflows"@)
            } else {
                Ok((count * 512) as u64)
            },
        },
    }
}

/// The size in bytes that a size in sectors tells, or why the directory at `path` tells none.
pub fn partition_size_bytes(path: &str, sectors: Option<&str>) -> (r: Result<u64, String>)
    ensures
        size_told(
            path@,
            match sectors {
                Some(text) => Some(text@),
                None => None,
            },
        ) == (match r {
            Ok(size) => Ok(size),
            Err(words) => Err(words@),
        }),
{
    match sectors {
        None => Err(cat(path, " has no size")),
        Some(text) => {
            let digits = chars(text);
            match parse_unsigned(&digits, 10, u64::MAX) {
                None => {
                    let mut words = cat(path, " size is invalid: ");
                    words.append(u64_fault(text).as_str());
                    Err(words)
                },
                Some(count) => if count > u64::MAX / 512 {
                    Err(cat(path, " size overflows"))
                } else {
                    Ok(count * 512)
                },
            }
        },
    }
}

/// Whether `prefix` starts `name`.
pub open spec fn starts(name: Seq<char>, prefix: Seq<char>) -> bool {
    prefix.is_prefix_of(name)
}

/// Whether a disk of this name is never one of local flash.
pub open spec fn excluded_name(name: Seq<char>) -> bool {
    ||| starts(name, "loop"@)
    ||| starts(name, "ram"@)
    ||| starts(name, "zram"@)
    ||| starts(name, "dm-"@)
    ||| starts(name, "md"@)
    ||| starts(name, "sr"@)
}

/// Whether a disk of this name is never one of local flash.
pub fn is_excluded_disk_name(name: &str) -> (r: bool)
    ensures
        r == excluded_name(name@),
{
    begins_with(name, "loop") || begins_with(name, "ram") || begins_with(name, "zram")
        || begins_with(name, "dm-") || begins_with(name, "md") || begins_with(name, "sr")
}

/// Whether `c` is a lower-case ASCII letter or a digit.
pub open spec fn scsi_char(c: char) -> bool {
    'a' <= c <= 'z' || '0' <= c <= '9'
}

/// Whether the name is that of a SCSI disk.
pub open spec fn scsi_name(name: Seq<char>) -> bool {
    match after_prefix(name, "sd"@) {
        None => false,
        Some(rest) => rest.len() > 0 && forall|i: int|
            0 <= i < rest.len() ==> scsi_char(#[trigger] rest[i]),
    }
}

/// Whether the name is that of a SCSI disk.
pub fn is_scsi_disk_like_name(name: &str) -> (r: bool)
    ensures
        r == scsi_name(name@),
{
    let rest = match strip_prefix(name, "sd") {
        Some(rest) => rest,
        None => return false,
    };
    let v = chars(rest);
    let mut i: usize = 0;
    while i < v.len()
        invariant
            i <= v@.len(),
            v@ == rest@,
            after_prefix(name@, "sd"@) == Some(rest@),
            forall|k: int| 0 <= k < i ==> scsi_char(#[trigger] v@[k]),
        decreases v@.len() - i,
    {
        let c = v[i];
        if !(('a' <= c && c <= 'z') || ('0' <= c && c <= '9')) {
            assert(!scsi_char(rest@[i as int]));
            return false;
        }
        i += 1;
    }
    v.len() > 0
}

/// Whether a disk of this name can be one of local flash.
pub open spec fn flash_name(name: Seq<char>) -> bool {
    ||| starts(name, "mmcblk"@)
    ||| starts(name, "nvme"@)
    ||| starts(name, "vd"@)
    ||| starts(name, "xvd"@)
    ||| scsi_name(name)
}

/// Whether a disk of this name can be one of local flash.
pub fn is_local_flash_like_name(name: &str) -> (r: bool)
    ensures
        r == flash_name(name@),
{
    begins_with(name, "mmcblk") || begins_with(name, "nvme") || begins_with(name, "vd")
        || begins_with(name, "xvd") || is_scsi_disk_like_name(name)
}

/// Whether a disk is one of local flash, by its name, by whether it is a virtual one, and by what
/// it tells of being removable.
pub fn is_local_flash_disk(name: &str, is_virtual: bool, removable: Option<&str>) -> (r: bool)
    ensures
        r == (!excluded_name(name@) && !is_virtual && !(removable matches Some(told) && told@
            == "1"@) && flash_name(name@)),
{
    let leaves = match removable {
        Some(told) => same_text(told, "1"),
        None => false,
    };
    !is_excluded_disk_name(name) && !is_virtual && !leaves && is_local_flash_like_name(name)
}

/// What one line of a `uevent` file tells of `key`.
pub open spec fn line_value(line: Seq<char>, key: Seq<char>) -> Option<Seq<char>> {
    match split_first(line, '=') {
        Some((name, value)) => if name == key {
            Some(value)
        } else {
            None
        },
        None => None,
    }
}

/// What the first of the lines from number `i` on that tells of `key` tells.
pub open spec fn value_from(map: Seq<Seq<char>>, i: int, key: Seq<char>) -> Option<Seq<char>>
    decreases map.len() - i,
{
    if i < 0 || i >= map.len() {
        None
    } else {
        match line_value(map[i], key) {
            Some(value) => Some(value),
            None => value_from(map, i + 1, key),
        }
    }
}

/// What a `uevent` file tells of `key`.
pub fn uevent_value(contents: &str, key: &str) -> (r: Option<String>)
    ensures
        value_from(lines(contents@), 0, key@) == (match r {
            Some(value) => Some(value@),
            None => None,
        }),
{
    let map = split_lines(contents);
    let wanted = chars(key);
    let mut i: usize = 0;
    while i < map.len()
        invariant
            i <= map@.len(),
            texts(map@) == lines(contents@),
            wanted@ == key@,
            value_from(lines(contents@), 0, key@) == value_from(
                lines(contents@),
                i as int,
                key@,
            ),
        decreases map@.len() - i,
    {
        assert(lines(contents@)[i as int] == map@[i as int]@);
        let line = chars(map[i].as_str());
        if let Some((name, value)) = split_once(&line, '=') {
            if same_chars(name, &wanted) {
                return Some(from_chars(value));
            }
        }
        i += 1;
    }
    None
}

proof fn lemma_matching(partitions: Seq<Partition>, name: Seq<char>, n: int)
    requires
        0 <= n <= partitions.len(),
    ensures
        forall|i: int|
            #![trigger partitions[i].is_named(name)]
            0 <= i < n && partitions[i].is_named(name) ==> matching(partitions, name, n).contains(
                i,
            ),
        forall|k: int|
            0 <= k < matching(partitions, name, n).len() ==> 0 <= #[trigger] matching(
                partitions,
                name,
                n,
            )[k] < n && partitions[matching(partitions, name, n)[k]].is_named(name),
        forall|j: int, k: int|
            0 <= j < k < matching(partitions, name, n).len() ==> #[trigger] matching(
                partitions,
                name,
                n,
            )[j] < #[trigger] matching(partitions, name, n)[k],
    decreases n,
{
    if n > 0 {
        lemma_matching(partitions, name, n - 1);
        let front = matching(partitions, name, n - 1);
        let all = matching(partitions, name, n);
        assert forall|i: int|
            #![trigger partitions[i].is_named(name)]
            0 <= i < n && partitions[i].is_named(name) implies all.contains(i) by {
            if i < n - 1 {
                assert(front.contains(i));
                let k = choose|k: int| 0 <= k < front.len() && front[k] == i;
                assert(all[k] == i);
            } else {
                assert(all[all.len() - 1] == i);
            }
        }
    }
}

/// A name means the one partition that goes by it, whether it is the name in the table or that of
/// the kernel; it is ambiguous where two go by it, and unknown where none does.
pub proof fn law_names_mean_their_partitions(
    partitions: Seq<Partition>,
    name: Seq<char>,
    i: int,
    j: int,
)
    requires
        0 <= i < partitions.len(),
        0 <= j < partitions.len(),
    ensures
        ({
            let goes_by = |k: int|
                partitions[k].kernel_name@ == name || (partitions[k].partname is Some
                    && partitions[k].partname->0@ == name);
            &&& goes_by(i) && (forall|k: int|
                0 <= k < partitions.len() && k != i ==> !(#[trigger] partitions[k]).is_named(name))
                ==> the_match(partitions, name) == Ok::<int, PartitionError>(i)
            &&& goes_by(i) && goes_by(j) && i != j ==> the_match(partitions, name) == Err::<
                int,
                PartitionError,
            >(PartitionError::Ambiguous)
            &&& partitions[i].is_named(name) == goes_by(i)
        }),
        (forall|k: int| 0 <= k < partitions.len() ==> !(#[trigger] partitions[k]).is_named(name))
            ==> the_match(partitions, name) == Err::<int, PartitionError>(PartitionError::NotFound),
{
    let n = partitions.len() as int;
    lemma_matching(partitions, name, n);
    let found = matching(partitions, name, n);
    if found.len() > 0 {
        assert(partitions[found[0]].is_named(name));
    }
    if found.len() > 1 {
        assert(partitions[found[1]].is_named(name));
        assert(found[0] < found[1]);
    }
    if partitions[i].is_named(name) {
        assert(found.contains(i));
    }
    if partitions[j].is_named(name) {
        assert(found.contains(j));
    }
}

/// The size of a partition is told in sectors of 512 bytes.
pub proof fn law_sizes_are_told_in_sectors(path: Seq<char>, count: nat)
    requires
        count * 512 <= u64::MAX,
    ensures
        size_told(path, Some(decimal(count as int))) == Ok::<u64, Seq<char>>((count * 512) as u64),
{
    law_written_numbers_are_read_back(count, u64::MAX as nat);
}

proof fn lemma_value_from(map: Seq<Seq<char>>, i: int, k: int, key: Seq<char>)
    requires
        0 <= i <= k <= map.len(),
        forall|j: int| i <= j < k ==> line_value(#[trigger] map[j], key) is None,
    ensures
        value_from(map, i, key) == value_from(map, k, key),
    decreases k - i,
{
    if i < k {
        lemma_value_from(map, i + 1, k, key);
    }
}

/// A key is told by the first line of the form `key=value`: the value is all that stands behind the
/// first equals sign.
pub proof fn law_keys_are_told_by_their_lines(
    map: Seq<Seq<char>>,
    k: int,
    key: Seq<char>,
    value: Seq<char>,
)
    requires
        0 <= k < map.len(),
        !key.contains('='),
        map[k] == key.push('=') + value,
        forall|j: int| 0 <= j < k ==> line_value(#[trigger] map[j], key) is None,
    ensures
        value_from(map, 0, key) == Some(value),
{
    law_texts_are_cut_in_two(key, '=', value);
    lemma_value_from(map, 0, k, key);
}

/// Disks of local flash are told by how their names begin, and SCSI disks by letters behind `sd`;
/// disks that are made of memory, files or other disks are none of them.
pub proof fn law_disks_are_told_by_name(rest: Seq<char>)
    ensures
        flash_name(seq!['m', 'm', 'c', 'b', 'l', 'k'] + rest),
        flash_name(seq!['n', 'v', 'm', 'e'] + rest),
        flash_name(seq!['v', 'd'] + rest),
        flash_name(seq!['x', 'v', 'd'] + rest),
        rest.len() > 0 && (forall|i: int| 0 <= i < rest.len() ==> scsi_char(#[trigger] rest[i]))
            ==> flash_name(seq!['s', 'd'] + rest),
        excluded_name(seq!['l', 'o', 'o', 'p'] + rest),
        excluded_name(seq!['r', 'a', 'm'] + rest),
        excluded_name(seq!['z', 'r', 'a', 'm'] + rest),
        excluded_name(seq!['d', 'm', '-'] + rest),
        excluded_name(seq!['m', 'd'] + rest),
        excluded_name(seq!['s', 'r'] + rest),
        !excluded_name(seq!['m', 'm', 'c', 'b', 'l', 'k'] + rest),
        !excluded_name(seq!['n', 'v', 'm', 'e'] + rest),
        !excluded_name(seq!['s', 'd'] + rest),
{
    reveal_strlit("mmcblk");
    reveal_strlit("nvme");
    reveal_strlit("vd");
    reveal_strlit("xvd");
    reveal_strlit("sd");
    reveal_strlit("loop");
    reveal_strlit("ram");
    reveal_strlit("zram");
    reveal_strlit("dm-");
    reveal_strlit("md");
    reveal_strlit("sr");
    assert("mmcblk"@ =~= seq!['m', 'm', 'c', 'b', 'l', 'k']);
    assert("nvme"@ =~= seq!['n', 'v', 'm', 'e']);
    assert("vd"@ =~= seq!['v', 'd']);
    assert("xvd"@ =~= seq!['x', 'v', 'd']);
    assert("sd"@ =~= seq!['s', 'd']);
    assert("loop"@ =~= seq!['l', 'o', 'o', 'p']);
    assert("ram"@ =~= seq!['r', 'a', 'm']);
    assert("zram"@ =~= seq!['z', 'r', 'a', 'm']);
    assert("dm-"@ =~= seq!['d', 'm', '-']);
    assert("md"@ =~= seq!['m', 'd']);
    assert("sr"@ =~= seq!['s', 'r']);
    let card = seq!['m', 'm', 'c', 'b', 'l', 'k'] + rest;
    let fast = seq!['n', 'v', 'm', 'e'] + rest;
    let disk = seq!['s', 'd'] + rest;
    law_beginnings_and_ends_are_taken_off("mmcblk"@, rest);
    law_beginnings_and_ends_are_taken_off("nvme"@, rest);
    law_beginnings_and_ends_are_taken_off("vd"@, rest);
    law_beginnings_and_ends_are_taken_off("xvd"@, rest);
    law_beginnings_and_ends_are_taken_off("sd"@, rest);
    law_beginnings_and_ends_are_taken_off("loop"@, rest);
    law_beginnings_and_ends_are_taken_off("ram"@, rest);
    law_beginnings_and_ends_are_taken_off("zram"@, rest);
    law_beginnings_and_ends_are_taken_off("dm-"@, rest);
    law_beginnings_and_ends_are_taken_off("md"@, rest);
    law_beginnings_and_ends_are_taken_off("sr"@, rest);
    assert(card[0] == 'm' && card[1] == 'm');
    assert(fast[0] == 'n' && fast[1] == 'v');
    assert(disk[0] == 's' && disk[1] == 'd');
}

} // verus!
