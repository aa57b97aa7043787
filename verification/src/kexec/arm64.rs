//! Where the parts of the next kernel go in memory.
use vstd::arithmetic::div_mod::lemma_fundamental_div_mod;
use vstd::arithmetic::div_mod::lemma_mod_multiples_basic;
use vstd::prelude::*;
use vstd::string::*;

use crate::bytes::{
    be64, law_double_word_bytes_round_trip, le32, le64, le64_bytes, le_u32, le_u64, push_bytes,
    push_le_u64, round_up, utf8,
};
use crate::errors::ErrorKind;
use crate::kexec::fdt::{chosen_patched, patch_chosen, FdtError};
use crate::kexec::tree::{chosen_property, law_next_kernel_reads_chosen, tree_items};
use crate::text::{
    cat, chars, decimal, decimal_text, from_chars, hex, hex_text, is_space,
    law_hex_digits_are_plain, law_texts_are_cut_in_two, law_trimming_takes_white_space,
    law_written_numbers_are_read_back, lines, owned, parse_number, parse_unsigned, same_text,
    split_first, split_lines, split_once, texts, trim, trim_chars, trim_start, trim_start_chars,
};

verus! {

/// Length of a page.
pub const PAGE_SIZE: u64 = 4096;

/// Two mebibytes.
pub const SZ_2M: u64 = 0x20_0000;

/// Sixteen mebibytes.
pub const SZ_16M: u64 = 0x100_0000;

/// One gibibyte.
pub const SZ_1G: u64 = 0x4000_0000;

/// Thirty-two gibibytes.
pub const SZ_32G: u64 = 0x8_0000_0000;

/// The magic of a raw arm64 image, as a number.
pub const ARM64_IMAGE_MAGIC: u32 = 0x644d_5241;

/// The greatest length of a patched device tree.
pub const MAX_DTB_SIZE: usize = 0x20_0000;

/// The physical addresses from `start` up to, and without, `end`.
#[derive(Clone, Copy, Debug, PartialEq, Eq, Structural)]
pub struct PhysRange {
    pub start: u64,
    pub end: u64,
}

impl PhysRange {
    /// Whether the range holds the address `x`.
    pub open spec fn has(self, x: int) -> bool {
        self.start <= x < self.end
    }

    /// Whether the two ranges share an address, for ranges that hold one.
    pub open spec fn meets(self, other: PhysRange) -> bool {
        self.start < other.end && other.start < self.end
    }

    /// The range, if it holds an address.
    pub fn new(start: u64, end: u64) -> (r: Option<PhysRange>)
        ensures
            r == (if start < end {
                Some(PhysRange { start, end })
            } else {
                None
            }),
    {
        if start < end {
            Some(PhysRange { start, end })
        } else {
            None
        }
    }

    /// Whether the two ranges share an address.
    pub fn overlaps(self, other: PhysRange) -> (r: bool)
        ensures
            r == self.meets(other),
    {
        self.start < other.end && other.start < self.end
    }
}

/// Whether one of the ranges holds the address `x`.
pub open spec fn covers(ranges: Seq<PhysRange>, x: int) -> bool {
    exists|i: int| 0 <= i < ranges.len() && (#[trigger] ranges[i]).has(x)
}

/// Whether each range holds an address, and the ranges stand in order with gaps between them.
pub open spec fn canonical(ranges: Seq<PhysRange>) -> bool {
    &&& forall|i: int| 0 <= i < ranges.len() ==> (#[trigger] ranges[i]).start < ranges[i].end
    &&& forall|i: int, j: int|
        0 <= i < j < ranges.len() ==> (#[trigger] ranges[i]).end < (#[trigger] ranges[j]).start
}

proof fn lemma_covers_push(ranges: Seq<PhysRange>, range: PhysRange, x: int)
    ensures
        covers(ranges.push(range), x) == (covers(ranges, x) || range.has(x)),
{
    let longer = ranges.push(range);
    if covers(ranges, x) {
        let i = choose|i: int| 0 <= i < ranges.len() && (#[trigger] ranges[i]).has(x);
        assert(longer[i].has(x));
    }
    if range.has(x) {
        assert(longer[ranges.len() as int].has(x));
    }
    if covers(longer, x) {
        let i = choose|i: int| 0 <= i < longer.len() && (#[trigger] longer[i]).has(x);
        if i < ranges.len() {
            assert(ranges[i].has(x));
        }
    }
}

proof fn lemma_covers_take(ranges: Seq<PhysRange>, i: int, x: int)
    requires
        0 <= i < ranges.len(),
    ensures
        covers(ranges.take(i + 1), x) == (covers(ranges.take(i), x) || ranges[i].has(x)),
{
    assert(ranges.take(i + 1) =~= ranges.take(i).push(ranges[i]));
    lemma_covers_push(ranges.take(i), ranges[i], x);
}

/// The order and the gaps leave one way to write a set of addresses: two canonical lists that
/// hold the same addresses are the same list.
pub proof fn law_canonical_is_unique(a: Seq<PhysRange>, b: Seq<PhysRange>)
    requires
        canonical(a),
        canonical(b),
        forall|x: int| covers(a, x) == covers(b, x),
    ensures
        a == b,
    decreases a.len(),
{
    if a.len() == 0 {
        if b.len() > 0 {
            assert(b[0].has(b[0].start as int));
            assert(covers(b, b[0].start as int));
            assert(covers(a, b[0].start as int));
        }
        assert(a =~= b);
    } else {
        let last = a.last();
        assert(a[a.len() - 1].has(last.end - 1));
        assert(covers(a, last.end - 1));
        assert(covers(b, last.end - 1));
        let tail = b.last();
        // The last ranges end at the same address.
        assert(last.end == tail.end) by {
            assert(b[b.len() - 1].has(tail.end - 1));
            assert(covers(b, tail.end - 1));
            assert(covers(a, tail.end - 1));
            let i = choose|i: int| 0 <= i < a.len() && (#[trigger] a[i]).has(tail.end - 1);
            let j = choose|j: int| 0 <= j < b.len() && (#[trigger] b[j]).has(last.end - 1);
            if i < a.len() - 1 {
                assert(a[i].end < a[a.len() - 1].start);
            }
            if j < b.len() - 1 {
                assert(b[j].end < b[b.len() - 1].start);
            }
        }
        // They start at the same address: the address below the start is in neither list.
        assert(last.start == tail.start) by {
            if last.start > tail.start {
                lemma_below_start(a, a.len() - 1);
                assert(b[b.len() - 1].has(last.start - 1));
                assert(covers(b, last.start - 1));
            }
            if tail.start > last.start {
                lemma_below_start(b, b.len() - 1);
                assert(a[a.len() - 1].has(tail.start - 1));
                assert(covers(a, tail.start - 1));
            }
        }
        let a1 = a.drop_last();
        let b1 = b.drop_last();
        assert(a =~= a1.push(last));
        assert(b =~= b1.push(tail));
        assert forall|x: int| covers(a1, x) == covers(b1, x) by {
            lemma_covers_push(a1, last, x);
            lemma_covers_push(b1, tail, x);
            if covers(a1, x) {
                let i = choose|i: int| 0 <= i < a1.len() && (#[trigger] a1[i]).has(x);
                assert(a[i].end < a[a.len() - 1].start);
            }
            if covers(b1, x) {
                let j = choose|j: int| 0 <= j < b1.len() && (#[trigger] b1[j]).has(x);
                assert(b[j].end < b[b.len() - 1].start);
            }
        }
        law_canonical_is_unique(a1, b1);
    }
}

proof fn lemma_below_start(ranges: Seq<PhysRange>, i: int)
    requires
        canonical(ranges),
        0 <= i < ranges.len(),
    ensures
        !covers(ranges, ranges[i].start - 1),
{
    let x = ranges[i].start - 1;
    if covers(ranges, x) {
        let j = choose|j: int| 0 <= j < ranges.len() && (#[trigger] ranges[j]).has(x);
        if j < i {
            assert(ranges[j].end < ranges[i].start);
        } else if j > i {
            assert(ranges[i].end < ranges[j].start);
        }
    }
}

/// Whether the ranges, or the pending one, hold the address `x`.
spec fn covers_with(ranges: Seq<PhysRange>, waiting: bool, pending: PhysRange, x: int) -> bool {
    covers(ranges, x) || (waiting && pending.has(x))
}

/// Adds the addresses of `range`.
pub fn add_range(ranges: &mut Vec<PhysRange>, range: PhysRange)
    requires
        canonical(old(ranges)@),
        range.start < range.end,
    ensures
        canonical(final(ranges)@),
        forall|x: int| #[trigger]
            covers(final(ranges)@, x) == (covers(old(ranges)@, x) || range.has(x)),
{
    let ghost before = ranges@;
    let mut merged: Vec<PhysRange> = Vec::new();
    let mut grown = range;
    let mut waiting = true;
    let mut i: usize = 0;
    assert forall|x: int| #[trigger] covers(merged@, x) implies covers(before.take(0), x) by {}
    assert forall|x: int| !covers(before.take(0), x) by {}
    while i < ranges.len()
        invariant
            before == ranges@,
            canonical(before),
            i <= before.len(),
            grown.start < grown.end,
            canonical(merged@),
            forall|k: int, j: int|
                0 <= k < merged@.len() && i <= j < before.len() ==> (#[trigger] merged@[k]).end < (
                #[trigger] before[j]).start,
            waiting ==> forall|k: int|
                0 <= k < merged@.len() ==> (#[trigger] merged@[k]).end < grown.start,
            forall|x: int| #[trigger]
                covers_with(merged@, waiting, grown, x) == (covers(before.take(i as int), x)
                    || range.has(x)),
        decreases before.len() - i,
    {
        let next = ranges[i];
        let ghost old_merged = merged@;
        let ghost old_grown = grown;
        let ghost old_waiting = waiting;
        if !waiting || next.end < grown.start {
            merged.push(next);
        } else if grown.end < next.start {
            merged.push(grown);
            merged.push(next);
            waiting = false;
        } else {
            if next.start < grown.start {
                grown.start = next.start;
            }
            if next.end > grown.end {
                grown.end = next.end;
            }
        }
        proof {
            assert forall|x: int| #[trigger]
                covers_with(merged@, waiting, grown, x) == (covers(before.take(i + 1), x)
                    || range.has(x)) by {
                lemma_covers_take(before, i as int, x);
                lemma_covers_push(old_merged, next, x);
                lemma_covers_push(old_merged, old_grown, x);
                lemma_covers_push(old_merged.push(old_grown), next, x);
                assert(covers_with(old_merged, old_waiting, old_grown, x) == (covers(
                    before.take(i as int),
                    x,
                ) || range.has(x)));
            }
        }
        i += 1;
    }
    let ghost old_merged = merged@;
    if waiting {
        merged.push(grown);
    }
    proof {
        assert(before.take(before.len() as int) =~= before);
        assert forall|x: int| #[trigger]
            covers(merged@, x) == (covers(before, x) || range.has(x)) by {
            lemma_covers_push(old_merged, grown, x);
            assert(covers_with(old_merged, waiting, grown, x) == (covers(before, x) || range.has(x)));
        }
    }
    *ranges = merged;
}

/// Takes the addresses of `remove` away.
pub fn subtract_range(ranges: &mut Vec<PhysRange>, remove: PhysRange)
    requires
        canonical(old(ranges)@),
        remove.start < remove.end,
    ensures
        canonical(final(ranges)@),
        forall|x: int| #[trigger]
            covers(final(ranges)@, x) == (covers(old(ranges)@, x) && !remove.has(x)),
{
    let ghost before = ranges@;
    let mut updated: Vec<PhysRange> = Vec::new();
    let mut i: usize = 0;
    assert forall|x: int| !covers(before.take(0), x) by {}
    while i < ranges.len()
        invariant
            before == ranges@,
            canonical(before),
            remove.start < remove.end,
            i <= before.len(),
            canonical(updated@),
            forall|k: int, j: int|
                0 <= k < updated@.len() && i <= j < before.len() ==> (#[trigger] updated@[k]).end
                    < (#[trigger] before[j]).start,
            forall|x: int| #[trigger]
                covers(updated@, x) == (covers(before.take(i as int), x) && !remove.has(x)),
        decreases before.len() - i,
    {
        let range = ranges[i];
        let ghost old_updated = updated@;
        let left = PhysRange {
            start: range.start,
            end: if remove.start < range.end { remove.start } else { range.end },
        };
        let right = PhysRange {
            start: if remove.end > range.start { remove.end } else { range.start },
            end: range.end,
        };
        let has_left = range.start < remove.start;
        let has_right = remove.end < range.end;
        if !range.overlaps(remove) {
            updated.push(range);
        } else {
            if has_left {
                updated.push(left);
            }
            if has_right {
                updated.push(right);
            }
        }
        proof {
            assert forall|x: int| #[trigger]
                covers(updated@, x) == (covers(before.take(i + 1), x) && !remove.has(x)) by {
                lemma_covers_take(before, i as int, x);
                lemma_covers_push(old_updated, range, x);
                lemma_covers_push(old_updated, left, x);
                lemma_covers_push(old_updated, right, x);
                lemma_covers_push(old_updated.push(left), right, x);
                assert(covers(old_updated, x) == (covers(before.take(i as int), x) && !remove.has(
                    x,
                )));
            }
        }
        i += 1;
    }
    assert(before.take(before.len() as int) =~= before);
    *ranges = updated;
}

/// The range and the name that a line of the memory map tells.
pub open spec fn iomem_entry(line: Seq<char>) -> Option<(PhysRange, Seq<char>)> {
    match split_first(trim_start(line), ':') {
        None => None,
        Some((range, name)) => match split_first(trim(range), '-') {
            None => None,
            Some((first, last)) => match (
                parse_number(first, 16, u64::MAX as nat),
                parse_number(last, 16, u64::MAX as nat),
            ) {
                (Some(start), Some(last)) => if last < u64::MAX && start <= last {
                    Some((PhysRange { start: start as u64, end: (last + 1) as u64 }, trim(name)))
                } else {
                    None
                },
                _ => None,
            },
        },
    }
}

/// The range and the name that a line of the memory map tells.
pub fn parse_iomem_line(line: &str) -> (r: Option<(PhysRange, String)>)
    ensures
        iomem_entry(line@) == (match r {
            Some((range, name)) => Some((range, name@)),
            None => None,
        }),
        r matches Some((range, _)) ==> range.start < range.end,
{
    let v = chars(line);
    let (range, name) = match split_once(trim_start_chars(&v), ':') {
        Some(p) => p,
        None => return None,
    };
    let (first, last) = match split_once(trim_chars(range), '-') {
        Some(p) => p,
        None => return None,
    };
    let start = match parse_unsigned(first, 16, u64::MAX) {
        Some(n) => n,
        None => return None,
    };
    let last = match parse_unsigned(last, 16, u64::MAX) {
        Some(n) => n,
        None => return None,
    };
    if last == u64::MAX || start > last {
        return None;
    }
    Some((PhysRange { start, end: last + 1 }, from_chars(trim_chars(name))))
}

/// Whether the address `x` is usable behind a line, if it was so before: memory is added, what
/// the running kernel occupies stays as it is, and anything else is taken away.
pub open spec fn usable_behind(before: bool, line: Seq<char>, x: int) -> bool {
    match iomem_entry(line) {
        None => before,
        Some((range, name)) => if name == "System RAM"@ {
            before || range.has(x)
        } else if name == "Kernel code"@ || name == "Kernel data"@ || name == "Kernel bss"@ {
            before
        } else {
            before && !range.has(x)
        },
    }
}

/// Whether the address `x` is usable behind the first `n` lines of the memory map.
pub open spec fn usable_after(map: Seq<Seq<char>>, n: int, x: int) -> bool
    decreases n,
{
    if n <= 0 {
        false
    } else {
        usable_behind(usable_after(map, n - 1, x), map[n - 1], x)
    }
}

/// The usable memory that a memory map tells.
pub fn parse_iomem(iomem: &str) -> (ranges: Vec<PhysRange>)
    ensures
        canonical(ranges@),
        forall|x: int| #[trigger]
            covers(ranges@, x) == usable_after(lines(iomem@), lines(iomem@).len() as int, x),
{
    let map = split_lines(iomem);
    let ghost views = lines(iomem@);
    let mut ranges: Vec<PhysRange> = Vec::new();
    let mut i: usize = 0;
    assert forall|x: int| !covers(ranges@, x) by {}
    while i < map.len()
        invariant
            i <= map@.len(),
            views == lines(iomem@),
            texts(map@) == views,
            canonical(ranges@),
            forall|x: int| #[trigger] covers(ranges@, x) == usable_after(views, i as int, x),
        decreases map@.len() - i,
    {
        let ghost before = ranges@;
        assert(views[i as int] == map@[i as int]@);
        if let Some((range, name)) = parse_iomem_line(map[i].as_str()) {
            let name = name.as_str();
            if same_text(name, "System RAM") {
                add_range(&mut ranges, range);
            } else if !(same_text(name, "Kernel code") || same_text(name, "Kernel data")
                || same_text(name, "Kernel bss")) {
                subtract_range(&mut ranges, range);
            }
        }
        proof {
            assert forall|x: int| #[trigger]
                covers(ranges@, x) == usable_after(views, i + 1, x) by {
                assert(covers(before, x) == usable_after(views, i as int, x));
            }
        }
        i += 1;
    }
    ranges
}

/// Whether `n` is a power of two.
pub open spec fn power_of_two(n: int) -> bool
    decreases n,
{
    n == 1 || (n > 1 && n % 2 == 0 && power_of_two(n / 2))
}

/// Whether `n` is a power of two.
pub fn is_power_of_two(n: u64) -> (r: bool)
    ensures
        r == power_of_two(n as int),
{
    let mut rest = n;
    while rest > 1 && rest % 2 == 0
        invariant
            power_of_two(n as int) == power_of_two(rest as int),
        decreases rest,
    {
        rest = rest / 2;
    }
    rest == 1
}

/// The multiples of `align` next to `value`.
pub proof fn lemma_round_up(value: int, align: int)
    requires
        0 <= value,
        0 < align,
    ensures
        value <= round_up(value, align) < value + align,
        round_up(value, align) % align == 0,
        forall|b: int| #![trigger b % align] value <= b && b % align == 0 ==> round_up(value, align) <= b,
{
    let top = value + align - 1;
    let q = top / align;
    lemma_fundamental_div_mod(top, align);
    lemma_mod_multiples_basic(q, align);
    assert(q * align == align * q) by (nonlinear_arith);
    assert forall|b: int| #![trigger b % align] value <= b && b % align == 0 implies round_up(
        value,
        align,
    ) <= b by {
        lemma_fundamental_div_mod(b, align);
        let k = b / align;
        assert(b == align * k);
        if k < q {
            assert(align * k <= align * (q - 1)) by (nonlinear_arith)
                requires
                    k <= q - 1,
                    0 < align,
            ;
            assert(align * (q - 1) == align * q - align) by (nonlinear_arith);
        } else {
            assert(align * q <= align * k) by (nonlinear_arith)
                requires
                    q <= k,
                    0 < align,
            ;
        }
    }
}

/// `value` rounded up to a multiple of `align`.
pub open spec fn aligned_up(value: int, align: int) -> Option<u64> {
    if value + align - 1 > u64::MAX {
        None
    } else {
        Some(round_up(value, align) as u64)
    }
}

/// `value` rounded up to a multiple of `align`.
pub fn align_up(value: u64, align: u64) -> (r: Option<u64>)
    requires
        align > 0,
    ensures
        r == aligned_up(value as int, align as int),
        r matches Some(up) ==> up == round_up(value as int, align as int) && value <= up,
{
    proof {
        lemma_round_up(value as int, align as int);
    }
    if value > u64::MAX - (align - 1) {
        return None;
    }
    let top: u64 = value + (align - 1);
    proof {
        lemma_fundamental_div_mod(top as int, align as int);
        assert(top as int / align as int * align as int <= top) by (nonlinear_arith)
            requires
                top == align * (top as int / align as int) + top as int % align as int,
                0 <= top as int % align as int,
        ;
    }
    Some(top / align * align)
}

/// `value` rounded down to a multiple of `align`.
pub fn align_down(value: u64, align: u64) -> (r: u64)
    requires
        align > 0,
    ensures
        r == value as int / align as int * align as int,
{
    proof {
        lemma_fundamental_div_mod(value as int, align as int);
        assert(0 <= value as int / align as int * align as int <= value) by (nonlinear_arith)
            requires
                value == align * (value as int / align as int) + value as int % align as int,
                0 <= value as int % align as int,
                0 <= value as int / align as int,
                0 < align,
        ;
    }
    value / align * align
}

/// `value` rounded up to whole pages.
pub open spec fn paged(value: int) -> Option<u64> {
    aligned_up(value, PAGE_SIZE as int)
}

/// `value` rounded up to whole pages.
pub fn page_align(value: u64) -> (r: Option<u64>)
    ensures
        r == paged(value as int),
{
    align_up(value, PAGE_SIZE)
}

/// The lowest end of those of the first `n` ranges that meet `wanted`.
pub open spec fn conflict_end(ranges: Seq<PhysRange>, n: int, wanted: PhysRange) -> Option<u64>
    decreases n,
{
    if n <= 0 {
        None
    } else {
        let before = conflict_end(ranges, n - 1, wanted);
        let range = ranges[n - 1];
        if !wanted.meets(range) {
            before
        } else {
            match before {
                Some(end) => if end <= range.end {
                    Some(end)
                } else {
                    Some(range.end)
                },
                None => Some(range.end),
            }
        }
    }
}

/// Where a search in one range ends.
pub enum Placement {
    Found(u64),
    Full,
    Overflow,
}

/// The search for `size` free bytes at a multiple of `align`, from the multiple `candidate` on and
/// up to `end`: a place that meets an occupied range is given up for the one behind that range.
pub open spec fn place_from(
    occupied: Seq<PhysRange>,
    size: int,
    align: int,
    end: int,
    candidate: int,
) -> Placement
    decreases (if candidate < end { end - candidate } else { 0 }),
{
    if candidate + size > u64::MAX {
        Placement::Overflow
    } else if candidate + size > end || size <= 0 {
        Placement::Full
    } else {
        let wanted = PhysRange { start: candidate as u64, end: (candidate + size) as u64 };
        match conflict_end(occupied, occupied.len() as int, wanted) {
            None => Placement::Found(candidate as u64),
            Some(behind) => match aligned_up(behind as int, align) {
                None => Placement::Overflow,
                Some(next) => if next <= candidate {
                    Placement::Full
                } else {
                    place_from(occupied, size, align, end, next as int)
                },
            },
        }
    }
}

/// The search for `size` free bytes in one usable range, between `min` and `max`.
pub open spec fn place_in(
    range: PhysRange,
    occupied: Seq<PhysRange>,
    size: int,
    align: int,
    min: int,
    max: int,
) -> Placement {
    let start = if range.start >= min {
        range.start as int
    } else {
        min
    };
    let end = if range.end <= max {
        range.end as int
    } else {
        max
    };
    if start + size > u64::MAX {
        Placement::Overflow
    } else if start + size > end {
        Placement::Full
    } else {
        match aligned_up(start, align) {
            None => Placement::Overflow,
            Some(first) => place_from(occupied, size, align, end, first as int),
        }
    }
}

/// The search for `size` free bytes in the usable ranges from number `i` on.
pub open spec fn region_from(
    usable: Seq<PhysRange>,
    i: int,
    occupied: Seq<PhysRange>,
    size: int,
    align: int,
    min: int,
    max: int,
) -> Option<u64>
    decreases usable.len() - i,
{
    if i < 0 || i >= usable.len() {
        None
    } else {
        match place_in(usable[i], occupied, size, align, min, max) {
            Placement::Found(at) => Some(at),
            Placement::Full => region_from(usable, i + 1, occupied, size, align, min, max),
            Placement::Overflow => None,
        }
    }
}

/// The place of `size` free bytes at a multiple of `align` in usable memory, between `min` and
/// `max` and clear of what is occupied.
pub open spec fn region(
    usable: Seq<PhysRange>,
    occupied: Seq<PhysRange>,
    size: int,
    align: int,
    min: int,
    max: int,
) -> Option<u64> {
    if size == 0 || !power_of_two(align) {
        None
    } else {
        region_from(usable, 0, occupied, size, align, min, max)
    }
}

proof fn lemma_conflict_end(ranges: Seq<PhysRange>, n: int, wanted: PhysRange)
    requires
        0 <= n <= ranges.len(),
    ensures
        match conflict_end(ranges, n, wanted) {
            None => forall|k: int| 0 <= k < n ==> !wanted.meets(#[trigger] ranges[k]),
            Some(end) => exists|k: int|
                0 <= k < n && wanted.meets(#[trigger] ranges[k]) && ranges[k].end == end,
        },
    decreases n,
{
    if n > 0 {
        lemma_conflict_end(ranges, n - 1, wanted);
        let before = conflict_end(ranges, n - 1, wanted);
        let range = ranges[n - 1];
        if wanted.meets(range) {
            assert(wanted.meets(ranges[n - 1]));
        }
        if before is Some {
            let k = choose|k: int|
                0 <= k < n - 1 && wanted.meets(#[trigger] ranges[k]) && ranges[k].end == before->0;
            assert(wanted.meets(ranges[k]));
        }
    }
}

/// Whether the `size` bytes at `at` are clear of the occupied ranges.
pub open spec fn is_clear(occupied: Seq<PhysRange>, at: int, size: int) -> bool {
    forall|k: int|
        0 <= k < occupied.len() ==> !((#[trigger] occupied[k]).start < at + size && at
            < occupied[k].end)
}

proof fn lemma_place_from(
    occupied: Seq<PhysRange>,
    size: int,
    align: int,
    end: int,
    candidate: int,
)
    requires
        0 < size,
        0 < align,
        0 <= candidate,
        candidate % align == 0,
    ensures
        place_from(occupied, size, align, end, candidate) matches Placement::Found(at) ==> {
            &&& candidate <= at
            &&& at + size <= end
            &&& at as int % align == 0
            &&& is_clear(occupied, at as int, size)
            &&& forall|b: int|
                #![trigger b % align]
                candidate <= b < at && b % align == 0 ==> !is_clear(occupied, b, size)
        },
    decreases (if candidate < end { end - candidate } else { 0 }),
{
    if candidate + size <= u64::MAX && candidate + size <= end {
        let wanted = PhysRange { start: candidate as u64, end: (candidate + size) as u64 };
        lemma_conflict_end(occupied, occupied.len() as int, wanted);
        match conflict_end(occupied, occupied.len() as int, wanted) {
            None => {},
            Some(behind) => {
                let k = choose|k: int|
                    0 <= k < occupied.len() && wanted.meets(#[trigger] occupied[k])
                        && occupied[k].end == behind;
                lemma_round_up(behind as int, align);
                match aligned_up(behind as int, align) {
                    None => {},
                    Some(next) => {
                        lemma_place_from(occupied, size, align, end, next as int);
                        if let Placement::Found(at) = place_from(
                            occupied,
                            size,
                            align,
                            end,
                            candidate,
                        ) {
                            assert forall|b: int|
                                #![trigger b % align]
                                candidate <= b < at && b % align == 0 implies !is_clear(
                                occupied,
                                b,
                                size,
                            ) by {
                                if b < next {
                                    assert(b < behind);
                                    assert(occupied[k].start < b + size && b < occupied[k].end);
                                }
                            }
                        }
                    },
                }
            },
        }
    }
}

/// A place that the search gives is usable and free: it is a multiple of the alignment between
/// the bounds, all of it lies in one usable range, and no occupied range meets it.
pub proof fn law_region_is_free(
    usable: Seq<PhysRange>,
    occupied: Seq<PhysRange>,
    size: u64,
    align: u64,
    min: u64,
    max: u64,
)
    ensures
        region(
            usable,
            occupied,
            size as int,
            align as int,
            min as int,
            max as int,
        ) matches Some(at) ==> {
            &&& at % align == 0
            &&& min <= at
            &&& at + size <= max
            &&& is_clear(occupied, at as int, size as int)
            &&& exists|i: int|
                0 <= i < usable.len() && (#[trigger] usable[i]).start <= at && at + size
                    <= usable[i].end
        },
{
    if size != 0 && power_of_two(align as int) {
        lemma_region_from(usable, 0, occupied, size, align, min, max);
    }
}

/// The search takes the lowest place of the usable range that it takes one from.
pub proof fn law_region_is_lowest(
    usable: Seq<PhysRange>,
    occupied: Seq<PhysRange>,
    size: u64,
    align: u64,
    min: u64,
    max: u64,
)
    ensures
        region(
            usable,
            occupied,
            size as int,
            align as int,
            min as int,
            max as int,
        ) matches Some(at) ==> exists|i: int|
            0 <= i < usable.len() && (#[trigger] usable[i]).start <= at && at + size
                <= usable[i].end && forall|b: int|
                #![trigger b % align as int]
                usable[i].start <= b < at && min <= b && b % align as int == 0 ==> !is_clear(
                    occupied,
                    b,
                    size as int,
                ),
{
    if size != 0 && power_of_two(align as int) {
        lemma_region_from(usable, 0, occupied, size, align, min, max);
    }
}

proof fn lemma_region_from(
    usable: Seq<PhysRange>,
    i: int,
    occupied: Seq<PhysRange>,
    size: u64,
    align: u64,
    min: u64,
    max: u64,
)
    requires
        0 <= i,
        0 < size,
        0 < align,
    ensures
        region_from(
            usable,
            i,
            occupied,
            size as int,
            align as int,
            min as int,
            max as int,
        ) matches Some(at) ==> {
            &&& at % align == 0
            &&& min <= at
            &&& at + size <= max
            &&& is_clear(occupied, at as int, size as int)
            &&& exists|k: int|
                0 <= k < usable.len() && (#[trigger] usable[k]).start <= at && at + size
                    <= usable[k].end && forall|b: int|
                    #![trigger b % align as int]
                    usable[k].start <= b < at && min <= b && b % align as int == 0 ==> !is_clear(
                        occupied,
                        b,
                        size as int,
                    )
        },
    decreases usable.len() - i,
{
    if i < usable.len() {
        lemma_region_from(usable, i + 1, occupied, size, align, min, max);
        let range = usable[i];
        let start = if range.start >= min {
            range.start as int
        } else {
            min as int
        };
        let end = if range.end <= max {
            range.end as int
        } else {
            max as int
        };
        if let Placement::Found(at) = place_in(
            range,
            occupied,
            size as int,
            align as int,
            min as int,
            max as int,
        ) {
            lemma_round_up(start, align as int);
            let first = aligned_up(start, align as int)->0;
            lemma_place_from(occupied, size as int, align as int, end, first as int);
            assert(usable[i].start <= at && at + size <= usable[i].end);
            assert forall|b: int|
                #![trigger b % align as int]
                usable[i].start <= b < at && min <= b && b % align as int == 0 implies !is_clear(
                occupied,
                b,
                size as int,
            ) by {
                assert(first <= b);
            }
        }
    }
}

/// Whether the `size` bytes at `b` are a free place: at a multiple of `align`, between the bounds,
/// inside the range, and clear of what is occupied.
pub open spec fn is_free(
    range: PhysRange,
    occupied: Seq<PhysRange>,
    size: int,
    align: int,
    min: int,
    max: int,
    b: int,
) -> bool {
    &&& b % align == 0
    &&& min <= b
    &&& b + size <= max
    &&& range.start <= b
    &&& b + size <= range.end
    &&& is_clear(occupied, b, size)
}

/// Whether addresses are low enough for a search not to count over.
pub open spec fn are_low(ranges: Seq<PhysRange>, limit: int) -> bool {
    forall|k: int| 0 <= k < ranges.len() ==> (#[trigger] ranges[k]).start <= limit && ranges[k].end
        <= limit
}

proof fn lemma_place_full(
    occupied: Seq<PhysRange>,
    size: int,
    align: int,
    end: int,
    candidate: int,
    limit: int,
)
    requires
        0 < size,
        0 < align,
        0 <= candidate < limit + align,
        candidate % align == 0,
        end <= limit,
        are_low(occupied, limit),
        limit + align + size <= u64::MAX,
    ensures
        match place_from(occupied, size, align, end, candidate) {
            Placement::Found(_) => true,
            Placement::Full => forall|b: int|
                #![trigger b % align]
                candidate <= b && b + size <= end && b % align == 0 ==> !is_clear(
                    occupied,
                    b,
                    size,
                ),
            Placement::Overflow => false,
        },
    decreases (if candidate < end { end - candidate } else { 0 }),
{
    if candidate + size <= end {
        let wanted = PhysRange { start: candidate as u64, end: (candidate + size) as u64 };
        lemma_conflict_end(occupied, occupied.len() as int, wanted);
        if let Some(behind) = conflict_end(occupied, occupied.len() as int, wanted) {
            let k = choose|k: int|
                0 <= k < occupied.len() && wanted.meets(#[trigger] occupied[k]) && occupied[k].end
                    == behind;
            lemma_round_up(behind as int, align);
            let next = aligned_up(behind as int, align)->0;
            lemma_place_full(occupied, size, align, end, next as int, limit);
            if place_from(occupied, size, align, end, candidate) is Full {
                assert forall|b: int|
                    #![trigger b % align]
                    candidate <= b && b + size <= end && b % align == 0 implies !is_clear(
                    occupied,
                    b,
                    size,
                ) by {
                    if b < next {
                        assert(b < behind);
                        assert(occupied[k].start < b + size && b < occupied[k].end);
                    }
                }
            }
        }
    }
}

proof fn lemma_in_full(
    range: PhysRange,
    occupied: Seq<PhysRange>,
    size: u64,
    align: u64,
    min: u64,
    max: u64,
    limit: int,
)
    requires
        0 < size,
        0 < align,
        min <= limit,
        range.start <= limit,
        range.end <= limit,
        are_low(occupied, limit),
        limit + align + size <= u64::MAX,
    ensures
        match place_in(range, occupied, size as int, align as int, min as int, max as int) {
            Placement::Found(_) => true,
            Placement::Full => forall|b: int| !
            #[trigger] is_free(
                range,
                occupied,
                size as int,
                align as int,
                min as int,
                max as int,
                b,
            ),
            Placement::Overflow => false,
        },
{
    let start = if range.start >= min {
        range.start as int
    } else {
        min as int
    };
    let end = if range.end <= max {
        range.end as int
    } else {
        max as int
    };
    if start + size <= end {
        lemma_round_up(start, align as int);
        let first = aligned_up(start, align as int)->0;
        lemma_place_full(occupied, size as int, align as int, end, first as int, limit);
        if place_in(range, occupied, size as int, align as int, min as int, max as int) is Full {
            assert forall|b: int| !#[trigger] is_free(
                range,
                occupied,
                size as int,
                align as int,
                min as int,
                max as int,
                b,
            ) by {
                if range.start <= b && min <= b && b % align as int == 0 {
                    assert(first <= b);
                }
            }
        }
    }
}

proof fn lemma_region_finds(
    usable: Seq<PhysRange>,
    i: int,
    occupied: Seq<PhysRange>,
    size: u64,
    align: u64,
    min: u64,
    max: u64,
    limit: int,
) -> (n: int)
    requires
        0 <= i,
        0 < size,
        0 < align,
        min <= limit,
        are_low(usable, limit),
        are_low(occupied, limit),
        limit + align + size <= u64::MAX,
    ensures
        region_from(
            usable,
            i,
            occupied,
            size as int,
            align as int,
            min as int,
            max as int,
        ) is None ==> forall|k: int, b: int|
            i <= k < usable.len() ==> !#[trigger] is_free(
                usable[k],
                occupied,
                size as int,
                align as int,
                min as int,
                max as int,
                b,
            ),
        region_from(
            usable,
            i,
            occupied,
            size as int,
            align as int,
            min as int,
            max as int,
        ) matches Some(at) ==> i <= n < usable.len() && first_free(
                usable,
                i,
                n,
                occupied,
                size as int,
                align as int,
                min as int,
                max as int,
                at as int,
            ),
    decreases usable.len() - i,
{
    if i < usable.len() {
        let s = size as int;
        let a = align as int;
        let lo = min as int;
        let hi = max as int;
        lemma_in_full(usable[i], occupied, size, align, min, max, limit);
        match place_in(usable[i], occupied, s, a, lo, hi) {
            Placement::Found(at) => {
                lemma_found_in(usable[i], occupied, size, align, min, max);
                assert(first_free(usable, i, i, occupied, s, a, lo, hi, at as int));
                i
            },
            _ => {
                let n = lemma_region_finds(usable, i + 1, occupied, size, align, min, max, limit);
                assert forall|b: int| !#[trigger] is_free(
                    usable[i],
                    occupied,
                    s,
                    a,
                    lo,
                    hi,
                    b,
                ) by {}
                if let Some(at) = region_from(usable, i + 1, occupied, s, a, lo, hi) {
                    assert(first_free(usable, i, n, occupied, s, a, lo, hi, at as int));
                }
                n
            },
        }
    } else {
        i
    }
}

proof fn lemma_found_in(
    range: PhysRange,
    occupied: Seq<PhysRange>,
    size: u64,
    align: u64,
    min: u64,
    max: u64,
)
    requires
        0 < size,
        0 < align,
    ensures
        place_in(
            range,
            occupied,
            size as int,
            align as int,
            min as int,
            max as int,
        ) matches Placement::Found(at) ==> {
            &&& is_free(
                range,
                occupied,
                size as int,
                align as int,
                min as int,
                max as int,
                at as int,
            )
            &&& forall|b: int|
                b < at ==> !#[trigger] is_free(
                    range,
                    occupied,
                    size as int,
                    align as int,
                    min as int,
                    max as int,
                    b,
                )
        },
{
    let start = if range.start >= min {
        range.start as int
    } else {
        min as int
    };
    let end = if range.end <= max {
        range.end as int
    } else {
        max as int
    };
    if let Placement::Found(at) = place_in(
        range,
        occupied,
        size as int,
        align as int,
        min as int,
        max as int,
    ) {
        lemma_round_up(start, align as int);
        let first = aligned_up(start, align as int)->0;
        lemma_place_from(occupied, size as int, align as int, end, first as int);
        assert forall|b: int| b < at implies !#[trigger] is_free(
            range,
            occupied,
            size as int,
            align as int,
            min as int,
            max as int,
            b,
        ) by {
            if range.start <= b && min <= b && b % align as int == 0 {
                assert(first <= b);
            }
        }
    }
}

/// Whether `at` is the lowest free place of range `n`, and no range from number `i` on before it has
/// one.
pub open spec fn first_free(
    usable: Seq<PhysRange>,
    i: int,
    n: int,
    occupied: Seq<PhysRange>,
    size: int,
    align: int,
    min: int,
    max: int,
    at: int,
) -> bool {
    &&& is_free(usable[n], occupied, size, align, min, max, at)
    &&& forall|b: int| b < at ==> !#[trigger] is_free(usable[n], occupied, size, align, min, max, b)
    &&& forall|k: int, b: int|
        i <= k < n ==> !#[trigger] is_free(usable[k], occupied, size, align, min, max, b)
}

/// The search finds a place wherever there is one, as long as the addresses are low enough for it
/// not to count over: it gives the lowest free place of the first usable range that has one.
pub proof fn law_search_finds_the_first_place(
    usable: Seq<PhysRange>,
    occupied: Seq<PhysRange>,
    size: u64,
    align: u64,
    min: u64,
    max: u64,
    limit: int,
)
    requires
        0 < size,
        power_of_two(align as int),
        min <= limit,
        are_low(usable, limit),
        are_low(occupied, limit),
        limit + align + size <= u64::MAX,
    ensures
        match region(usable, occupied, size as int, align as int, min as int, max as int) {
            Some(at) => exists|n: int|
                0 <= n < usable.len() && #[trigger] first_free(
                    usable,
                    0,
                    n,
                    occupied,
                    size as int,
                    align as int,
                    min as int,
                    max as int,
                    at as int,
                ),
            None => forall|k: int, b: int|
                0 <= k < usable.len() ==> !#[trigger] is_free(
                    usable[k],
                    occupied,
                    size as int,
                    align as int,
                    min as int,
                    max as int,
                    b,
                ),
        },
{
    let n = lemma_region_finds(usable, 0, occupied, size, align, min, max, limit);
    if let Some(at) = region(
        usable,
        occupied,
        size as int,
        align as int,
        min as int,
        max as int,
    ) {
        assert(first_free(
            usable,
            0,
            n,
            occupied,
            size as int,
            align as int,
            min as int,
            max as int,
            at as int,
        ));
    }
}

/// The lowest end of the ranges that meet `wanted`.
fn lowest_conflict(ranges: &[PhysRange], wanted: PhysRange) -> (r: Option<u64>)
    ensures
        r == conflict_end(ranges@, ranges@.len() as int, wanted),
{
    let mut found: Option<u64> = None;
    let mut i: usize = 0;
    while i < ranges.len()
        invariant
            i <= ranges@.len(),
            found == conflict_end(ranges@, i as int, wanted),
        decreases ranges@.len() - i,
    {
        let range = ranges[i];
        if wanted.overlaps(range) {
            found = match found {
                Some(end) => if end <= range.end {
                    Some(end)
                } else {
                    Some(range.end)
                },
                None => Some(range.end),
            };
        }
        i += 1;
    }
    found
}

/// The place of `size` free bytes at a multiple of `align` in usable memory, between `min` and
/// `max` and clear of what is occupied.
pub fn find_region(
    usable: &[PhysRange],
    occupied: &[PhysRange],
    size: u64,
    align: u64,
    min: u64,
    max: u64,
) -> (r: Option<u64>)
    ensures
        r == region(
            usable@,
            occupied@,
            size as int,
            align as int,
            min as int,
            max as int,
        ),
{
    if size == 0 || !is_power_of_two(align) {
        return None;
    }
    let mut i: usize = 0;
    while i < usable.len()
        invariant
            i <= usable@.len(),
            size > 0,
            align > 0,
            power_of_two(align as int),
            region(usable@, occupied@, size as int, align as int, min as int, max as int)
                == region_from(
                usable@,
                i as int,
                occupied@,
                size as int,
                align as int,
                min as int,
                max as int,
            ),
        decreases usable@.len() - i,
    {
        let range = usable[i];
        let start = if range.start >= min {
            range.start
        } else {
            min
        };
        let end = if range.end <= max {
            range.end
        } else {
            max
        };
        if size > u64::MAX - start {
            return None;
        }
        if start + size <= end {
            let mut candidate = match align_up(start, align) {
                Some(first) => first,
                None => return None,
            };
            let ghost first = candidate;
            loop
                invariant_except_break
                    size > 0,
                    align > 0,
                    power_of_two(align as int),
                    place_from(occupied@, size as int, align as int, end as int, first as int)
                        == place_from(
                        occupied@,
                        size as int,
                        align as int,
                        end as int,
                        candidate as int,
                    ),
                    i < usable@.len(),
                    place_in(
                        usable@[i as int],
                        occupied@,
                        size as int,
                        align as int,
                        min as int,
                        max as int,
                    ) == place_from(
                        occupied@,
                        size as int,
                        align as int,
                        end as int,
                        first as int,
                    ),
                    region(usable@, occupied@, size as int, align as int, min as int, max as int)
                        == region_from(
                        usable@,
                        i as int,
                        occupied@,
                        size as int,
                        align as int,
                        min as int,
                        max as int,
                    ),
                ensures
                    place_in(
                        usable@[i as int],
                        occupied@,
                        size as int,
                        align as int,
                        min as int,
                        max as int,
                    ) == Placement::Full,
                decreases (if candidate < end { end - candidate } else { 0 }),
            {
                if size > u64::MAX - candidate {
                    return None;
                }
                if candidate + size > end {
                    break;
                }
                let wanted = PhysRange { start: candidate, end: candidate + size };
                proof {
                    lemma_conflict_end(occupied@, occupied@.len() as int, wanted);
                }
                match lowest_conflict(occupied, wanted) {
                    None => {
                        return Some(candidate);
                    },
                    Some(behind) => {
                        candidate = match align_up(behind, align) {
                            Some(next) => next,
                            None => return None,
                        };
                    },
                }
            }
        }
        i += 1;
    }
    None
}

/// A part that gets a place in memory.
#[derive(Clone, Copy, Debug, PartialEq, Eq, Structural)]
pub enum SegmentKind {
    Kernel,
    Initrd,
    Dtb,
    Trampoline,
}

impl SegmentKind {
    /// The name of the part.
    pub open spec fn words(self) -> Seq<char> {
        match self {
            SegmentKind::Kernel => "kernel"@,
            SegmentKind::Initrd => "initrd"@,
            SegmentKind::Dtb => "dtb"@,
            SegmentKind::Trampoline => "trampoline"@,
        }
    }

    /// The name of the part.
    pub fn name(self) -> (s: &'static str)
        ensures
            s@ == self.words(),
    {
        match self {
            SegmentKind::Kernel => "kernel",
            SegmentKind::Initrd => "initrd",
            SegmentKind::Dtb => "dtb",
            SegmentKind::Trampoline => "trampoline",
        }
    }
}

/// Why the next kernel cannot be loaded.
#[derive(Clone, Copy, Debug, PartialEq, Eq, Structural)]
pub enum LoadError {
    EmptyKernel,
    EmptyDtb,
    SmallImage,
    NotRawImage,
    /// The text offset is not one of whole pages.
    TextOffset(u64),
    NoUsableMemory,
    SizeOverflow,
    AddressOverflow,
    NoHole(SegmentKind),
    Fdt(FdtError),
    /// The length of the patched device tree.
    DtbTooLarge(usize),
    TrampolineLayout,
}

impl LoadError {
    /// What kind of error it is.
    pub open spec fn what_kind(self) -> ErrorKind {
        match self {
            LoadError::EmptyKernel
            | LoadError::EmptyDtb
            | LoadError::SizeOverflow
            | LoadError::AddressOverflow => ErrorKind::InvalidInput,
            LoadError::NoHole(_) => ErrorKind::Other,
            _ => ErrorKind::InvalidData,
        }
    }

    /// What kind of error it is.
    pub fn kind(self) -> (r: ErrorKind)
        ensures
            r == self.what_kind(),
    {
        match self {
            LoadError::EmptyKernel
            | LoadError::EmptyDtb
            | LoadError::SizeOverflow
            | LoadError::AddressOverflow => ErrorKind::InvalidInput,
            LoadError::NoHole(_) => ErrorKind::Other,
            _ => ErrorKind::InvalidData,
        }
    }

    /// The error in words.
    pub open spec fn words(self) -> Seq<char> {
        match self {
            LoadError::EmptyKernel => "kernel payload is empty"@,
            LoadError::EmptyDtb => "DTB payload is empty"@,
            LoadError::SmallImage => "arm64 Image is smaller than its 64-byte header"@,
            LoadError::NotRawImage => "kernel is not a raw arm64 Image"@,
            LoadError::NoUsableMemory => "no usable System RAM ranges found in /proc/iomem"@,
            LoadError::SizeOverflow => "size overflow"@,
            LoadError::AddressOverflow => "physical address overflow"@,
            LoadError::TrampolineLayout => "invalid arm64 trampoline symbol layout"@,
            LoadError::TextOffset(offset) => "arm64 Image text_offset is not page-aligned: 0x"@
                + hex(offset as int),
            LoadError::NoHole(SegmentKind::Kernel) => "no suitable RAM hole for kernel"@,
            LoadError::NoHole(SegmentKind::Initrd) => "no suitable RAM hole for initrd"@,
            LoadError::NoHole(SegmentKind::Dtb) => "no suitable RAM hole for DTB"@,
            LoadError::NoHole(SegmentKind::Trampoline) => "no suitable RAM hole for trampoline"@,
            LoadError::Fdt(error) => error.words(),
            LoadError::DtbTooLarge(length) => "patched DTB is too large: "@ + decimal(length as int)
                + " bytes > 2097152 bytes"@,
        }
    }

    /// The error in words.
    pub fn message(self) -> (s: String)
        ensures
            s@ == self.words(),
    {
        match self {
            LoadError::EmptyKernel => owned("kernel payload is empty"),
            LoadError::EmptyDtb => owned("DTB payload is empty"),
            LoadError::SmallImage => owned("arm64 Image is smaller than its 64-byte header"),
            LoadError::NotRawImage => owned("kernel is not a raw arm64 Image"),
            LoadError::NoUsableMemory => owned("no usable System RAM ranges found in /proc/iomem"),
            LoadError::SizeOverflow => owned("size overflow"),
            LoadError::AddressOverflow => owned("physical address overflow"),
            LoadError::TrampolineLayout => owned("invalid arm64 trampoline symbol layout"),
            LoadError::TextOffset(offset) => cat(
                "arm64 Image text_offset is not page-aligned: 0x",
                hex_text(offset).as_str(),
            ),
            LoadError::NoHole(SegmentKind::Kernel) => owned("no suitable RAM hole for kernel"),
            LoadError::NoHole(SegmentKind::Initrd) => owned("no suitable RAM hole for initrd"),
            LoadError::NoHole(SegmentKind::Dtb) => owned("no suitable RAM hole for DTB"),
            LoadError::NoHole(SegmentKind::Trampoline) => owned("no suitable RAM hole for trampoline"),
            LoadError::Fdt(error) => error.message(),
            LoadError::DtbTooLarge(length) => cat(
                cat("patched DTB is too large: ", decimal_text(length as u64).as_str()).as_str(),
                " bytes > 2097152 bytes",
            ),
        }
    }
}

/// What the header of a raw arm64 image asks for.
#[derive(Clone, Copy, Debug, PartialEq, Eq, Structural)]
pub struct ImageHeader {
    pub text_offset: u64,
    pub image_size: u64,
}

/// What the header of a raw arm64 image asks for: an image that does not tell its size asks for
/// the old text offset and for sixteen mebibytes or its length.
pub open spec fn image_header(kernel: Seq<u8>) -> Result<ImageHeader, LoadError> {
    if kernel.len() < 64 {
        Err(LoadError::SmallImage)
    } else if le32(kernel, 56) != ARM64_IMAGE_MAGIC {
        Err(LoadError::NotRawImage)
    } else if le64(kernel, 16) == 0 {
        Ok(
            ImageHeader {
                text_offset: 0x80000,
                image_size: if kernel.len() as u64 >= SZ_16M {
                    kernel.len() as u64
                } else {
                    SZ_16M
                },
            },
        )
    } else {
        Ok(ImageHeader { text_offset: le64(kernel, 8), image_size: le64(kernel, 16) })
    }
}

impl ImageHeader {
    /// What the header of a raw arm64 image asks for.
    pub fn parse(kernel: &[u8]) -> (r: Result<ImageHeader, LoadError>)
        ensures
            r == image_header(kernel@),
    {
        if kernel.len() < 64 {
            return Err(LoadError::SmallImage);
        }
        if le_u32(kernel, 56) != ARM64_IMAGE_MAGIC {
            return Err(LoadError::NotRawImage);
        }
        let image_size = le_u64(kernel, 16);
        if image_size == 0 {
            let len = kernel.len() as u64;
            Ok(
                ImageHeader {
                    text_offset: 0x80000,
                    image_size: if len >= SZ_16M {
                        len
                    } else {
                        SZ_16M
                    },
                },
            )
        } else {
            Ok(ImageHeader { text_offset: le_u64(kernel, 8), image_size })
        }
    }
}

/// The code that enters the next kernel, with the places of the two addresses that it reads.
#[derive(Clone, Copy, Debug)]
pub struct Trampoline<'a> {
    pub code: &'a [u8],
    pub kernel_slot: usize,
    pub dtb_slot: usize,
}

/// `s` with the bytes of `v` at `at`.
pub open spec fn with_u64(s: Seq<u8>, at: int, v: u64) -> Seq<u8> {
    s.take(at) + le64_bytes(v) + s.skip(at + 8)
}

/// The code that enters the next kernel, with its addresses filled in.
pub open spec fn filled_trampoline(
    code: Seq<u8>,
    kernel_slot: int,
    dtb_slot: int,
    kernel_entry: u64,
    dtb_addr: u64,
) -> Result<Seq<u8>, LoadError> {
    if kernel_slot + 8 <= code.len() && dtb_slot + 8 <= code.len() {
        Ok(with_u64(with_u64(code, kernel_slot, kernel_entry), dtb_slot, dtb_addr))
    } else {
        Err(LoadError::TrampolineLayout)
    }
}

/// A copy of `s` with the bytes of `v` at `at`.
fn patched_u64(s: &[u8], at: usize, v: u64) -> (r: Vec<u8>)
    requires
        at + 8 <= s.len(),
    ensures
        r@ == with_u64(s@, at as int, v),
        r@.len() == s@.len(),
{
    let mut r: Vec<u8> = Vec::new();
    push_bytes(&mut r, &s[0..at]);
    assert(r@ =~= s@.take(at as int));
    push_le_u64(&mut r, v);
    push_bytes(&mut r, &s[at + 8..s.len()]);
    assert(s@.subrange(at + 8, s@.len() as int) =~= s@.skip(at + 8));
    r
}

/// The code that enters the next kernel, with its addresses filled in.
pub fn build_trampoline(trampoline: &Trampoline<'_>, kernel_entry: u64, dtb_addr: u64) -> (r:
    Result<Vec<u8>, LoadError>)
    ensures
        filled_trampoline(
            trampoline.code@,
            trampoline.kernel_slot as int,
            trampoline.dtb_slot as int,
            kernel_entry,
            dtb_addr,
        ) == (match r {
            Ok(code) => Ok(code@),
            Err(e) => Err(e),
        }),
        r matches Ok(code) ==> code@.len() == trampoline.code@.len(),
{
    let len = trampoline.code.len();
    if len < 8 || trampoline.kernel_slot > len - 8 || trampoline.dtb_slot > len - 8 {
        return Err(LoadError::TrampolineLayout);
    }
    let once = patched_u64(trampoline.code, trampoline.kernel_slot, kernel_entry);
    Ok(patched_u64(once.as_slice(), trampoline.dtb_slot, dtb_addr))
}

/// A part of the next kernel and its place in memory.
#[derive(Debug)]
pub struct Segment {
    pub kind: SegmentKind,
    pub data: Vec<u8>,
    pub phys: u64,
    pub memsz: u64,
}

/// What a segment is to the loader.
pub struct SegmentView {
    pub kind: SegmentKind,
    pub data: Seq<u8>,
    pub phys: u64,
    pub memsz: u64,
}

impl View for Segment {
    type V = SegmentView;

    open spec fn view(&self) -> SegmentView {
        SegmentView { kind: self.kind, data: self.data@, phys: self.phys, memsz: self.memsz }
    }
}

/// The views of a list of segments.
pub open spec fn segment_views(v: Seq<Segment>) -> Seq<SegmentView> {
    Seq::new(v.len(), |i: int| v[i]@)
}

/// The view of a segment, if there is one.
pub open spec fn segment_option(segment: Option<Segment>) -> Option<SegmentView> {
    match segment {
        Some(segment) => Some(segment@),
        None => None,
    }
}

/// What is to be loaded, and the address to enter at.
#[derive(Debug)]
pub struct LoadPlan {
    pub entry: u64,
    pub segments: Vec<Segment>,
}

/// Where a part with `size` bytes in memory goes: its first address and the range that it
/// occupies from `skip` bytes before it on.
pub open spec fn place(
    usable: Seq<PhysRange>,
    occupied: Seq<PhysRange>,
    size: int,
    align: u64,
    min: u64,
    max: u64,
    kind: SegmentKind,
) -> Result<(u64, Seq<PhysRange>), LoadError> {
    match region(usable, occupied, size, align as int, min as int, max as int) {
        None => Err(LoadError::NoHole(kind)),
        Some(base) => if base + size > u64::MAX {
            Err(LoadError::AddressOverflow)
        } else {
            Ok((base, occupied.push(PhysRange { start: base, end: (base + size) as u64 })))
        },
    }
}

/// Finds where a part goes, and marks the place as occupied.
fn place_segment(
    usable: &[PhysRange],
    occupied: &mut Vec<PhysRange>,
    size: u64,
    align: u64,
    min: u64,
    max: u64,
    kind: SegmentKind,
) -> (r: Result<u64, LoadError>)
    ensures
        place(usable@, old(occupied)@, size as int, align, min, max, kind) == (match r {
            Ok(base) => Ok((base, final(occupied)@)),
            Err(e) => Err(e),
        }),
        r matches Ok(base) ==> base + size <= u64::MAX,
{
    match find_region(usable, occupied.as_slice(), size, align, min, max) {
        None => Err(LoadError::NoHole(kind)),
        Some(base) => {
            if size > u64::MAX - base {
                return Err(LoadError::AddressOverflow);
            }
            occupied.push(PhysRange { start: base, end: base + size });
            Ok(base)
        },
    }
}

/// Where the kernel goes.
pub struct KernelPlace {
    pub entry: u64,
    pub memsz: u64,
    pub occupied: Seq<PhysRange>,
}

/// Where the kernel goes: behind its text offset in the first free region of two mebibytes'
/// alignment that holds both.
pub open spec fn kernel_place(kernel: Seq<u8>, header: ImageHeader, usable: Seq<PhysRange>) -> Result<
    KernelPlace,
    LoadError,
> {
    let size = if header.image_size >= kernel.len() as u64 {
        header.image_size
    } else {
        kernel.len() as u64
    };
    match paged(size as int) {
        None => Err(LoadError::SizeOverflow),
        Some(memsz) => if header.text_offset + memsz > u64::MAX {
            Err(LoadError::AddressOverflow)
        } else {
            match place(
                usable,
                Seq::empty(),
                header.text_offset + memsz,
                SZ_2M,
                0,
                u64::MAX,
                SegmentKind::Kernel,
            ) {
                Err(e) => Err(e),
                Ok((base, occupied)) => Ok(
                    KernelPlace { entry: (base + header.text_offset) as u64, memsz, occupied },
                ),
            }
        },
    }
}

/// The highest address for the ramdisk: thirty-two gibibytes above the gibibyte of the kernel.
pub open spec fn ramdisk_limit(entry: u64) -> int {
    entry as int / SZ_1G as int * SZ_1G as int + SZ_32G
}

/// Where the ramdisk goes, if there is one: behind the kernel, and not too far from it.
pub open spec fn ramdisk_place(
    initrd: Option<Seq<u8>>,
    kernel: KernelPlace,
    usable: Seq<PhysRange>,
) -> Result<(Option<SegmentView>, Seq<PhysRange>), LoadError> {
    match initrd {
        None => Ok((None, kernel.occupied)),
        Some(data) => if data.len() == 0 {
            Ok((None, kernel.occupied))
        } else {
            match paged(data.len() as int) {
                None => Err(LoadError::SizeOverflow),
                Some(memsz) => if kernel.entry + kernel.memsz > u64::MAX || ramdisk_limit(
                    kernel.entry,
                ) > u64::MAX {
                    Err(LoadError::AddressOverflow)
                } else {
                    match place(
                        usable,
                        kernel.occupied,
                        memsz as int,
                        PAGE_SIZE,
                        (kernel.entry + kernel.memsz) as u64,
                        ramdisk_limit(kernel.entry) as u64,
                        SegmentKind::Initrd,
                    ) {
                        Err(e) => Err(e),
                        Ok((phys, occupied)) => Ok(
                            (
                                Some(SegmentView { kind: SegmentKind::Initrd, data, phys, memsz }),
                                occupied,
                            ),
                        ),
                    }
                },
            }
        },
    }
}

/// Where a part goes that follows the kernel.
pub open spec fn behind_kernel(
    data: Seq<u8>,
    kind: SegmentKind,
    align: u64,
    kernel: KernelPlace,
    occupied: Seq<PhysRange>,
    usable: Seq<PhysRange>,
) -> Result<(SegmentView, Seq<PhysRange>), LoadError> {
    match paged(data.len() as int) {
        None => Err(LoadError::SizeOverflow),
        Some(memsz) => if kernel.entry + kernel.memsz > u64::MAX {
            Err(LoadError::AddressOverflow)
        } else {
            match place(
                usable,
                occupied,
                memsz as int,
                align,
                (kernel.entry + kernel.memsz) as u64,
                u64::MAX,
                kind,
            ) {
                Err(e) => Err(e),
                Ok((phys, occupied)) => Ok((SegmentView { kind, data, phys, memsz }, occupied)),
            }
        },
    }
}

/// The bounds of the ramdisk, for the device tree.
pub open spec fn ramdisk_bounds(ramdisk: Option<SegmentView>) -> Option<(u64, u64)> {
    match ramdisk {
        Some(segment) => Some((segment.phys, (segment.phys + segment.data.len()) as u64)),
        None => None,
    }
}

/// What is to be loaded for a kernel whose place, and that of its ramdisk, is known.
pub open spec fn plan_tail(
    kernel: SegmentView,
    placed: KernelPlace,
    ramdisk: Option<SegmentView>,
    occupied: Seq<PhysRange>,
    dtb: Seq<u8>,
    cmdline: Seq<char>,
    usable: Seq<PhysRange>,
    code: Seq<u8>,
    kernel_slot: int,
    dtb_slot: int,
) -> Result<(u64, Seq<SegmentView>), LoadError> {
    match chosen_patched(dtb, cmdline, ramdisk_bounds(ramdisk)) {
        Err(e) => Err(LoadError::Fdt(e)),
        Ok(patched) => if patched.len() > MAX_DTB_SIZE {
            Err(LoadError::DtbTooLarge(patched.len() as usize))
        } else {
            match behind_kernel(patched, SegmentKind::Dtb, SZ_2M, placed, occupied, usable) {
                Err(e) => Err(e),
                Ok((tree, occupied)) => match filled_trampoline(
                    code,
                    kernel_slot,
                    dtb_slot,
                    placed.entry,
                    tree.phys,
                ) {
                    Err(e) => Err(e),
                    Ok(filled) => match behind_kernel(
                        filled,
                        SegmentKind::Trampoline,
                        PAGE_SIZE,
                        placed,
                        occupied,
                        usable,
                    ) {
                        Err(e) => Err(e),
                        Ok((trampoline, _)) => Ok(
                            (
                                trampoline.phys,
                                match ramdisk {
                                    Some(segment) => seq![kernel, segment, tree, trampoline],
                                    None => seq![kernel, tree, trampoline],
                                },
                            ),
                        ),
                    },
                },
            }
        },
    }
}

/// What is to be loaded for a kernel: itself, the ramdisk, the device tree that tells of it, and
/// the code that enters it.
pub open spec fn plan(
    kernel: Seq<u8>,
    initrd: Option<Seq<u8>>,
    dtb: Seq<u8>,
    cmdline: Seq<char>,
    usable: Seq<PhysRange>,
    code: Seq<u8>,
    kernel_slot: int,
    dtb_slot: int,
) -> Result<(u64, Seq<SegmentView>), LoadError> {
    if kernel.len() == 0 {
        Err(LoadError::EmptyKernel)
    } else if dtb.len() == 0 {
        Err(LoadError::EmptyDtb)
    } else {
        match image_header(kernel) {
            Err(e) => Err(e),
            Ok(header) => if header.text_offset % PAGE_SIZE != 0 {
                Err(LoadError::TextOffset(header.text_offset))
            } else if usable.len() == 0 {
                Err(LoadError::NoUsableMemory)
            } else {
                match kernel_place(kernel, header, usable) {
                    Err(e) => Err(e),
                    Ok(placed) => match ramdisk_place(initrd, placed, usable) {
                        Err(e) => Err(e),
                        Ok((ramdisk, occupied)) => plan_tail(
                            SegmentView {
                                kind: SegmentKind::Kernel,
                                data: kernel,
                                phys: placed.entry,
                                memsz: placed.memsz,
                            },
                            placed,
                            ramdisk,
                            occupied,
                            dtb,
                            cmdline,
                            usable,
                            code,
                            kernel_slot,
                            dtb_slot,
                        ),
                    },
                }
            },
        }
    }
}

/// A copy of `data`.
fn copied(data: &[u8]) -> (v: Vec<u8>)
    ensures
        v@ == data@,
{
    let mut v: Vec<u8> = Vec::new();
    push_bytes(&mut v, data);
    assert(v@ =~= data@);
    v
}

/// Finds where a part goes that follows the kernel.
fn place_behind_kernel(
    data: Vec<u8>,
    kind: SegmentKind,
    align: u64,
    entry: u64,
    kernel_memsz: u64,
    occupied: &mut Vec<PhysRange>,
    usable: &[PhysRange],
) -> (r: Result<Segment, LoadError>)
    ensures
        behind_kernel(
            data@,
            kind,
            align,
            KernelPlace { entry, memsz: kernel_memsz, occupied: Seq::empty() },
            old(occupied)@,
            usable@,
        ) == (match r {
            Ok(segment) => Ok((segment@, final(occupied)@)),
            Err(e) => Err(e),
        }),
{
    let memsz = match page_align(data.len() as u64) {
        Some(memsz) => memsz,
        None => return Err(LoadError::SizeOverflow),
    };
    if kernel_memsz > u64::MAX - entry {
        return Err(LoadError::AddressOverflow);
    }
    let phys = place_segment(
        usable,
        occupied,
        memsz,
        align,
        entry + kernel_memsz,
        u64::MAX,
        kind,
    )?;
    Ok(Segment { kind, data, phys, memsz })
}

/// Finds where the kernel goes: its entry and its length in memory.
fn place_kernel(
    kernel: &[u8],
    header: ImageHeader,
    usable: &[PhysRange],
    occupied: &mut Vec<PhysRange>,
) -> (r: Result<(u64, u64), LoadError>)
    requires
        old(occupied)@.len() == 0,
    ensures
        kernel_place(kernel@, header, usable@) == (match r {
            Ok((entry, memsz)) => Ok(KernelPlace { entry, memsz, occupied: final(occupied)@ }),
            Err(e) => Err(e),
        }),
{
    assert(occupied@ =~= Seq::<PhysRange>::empty());
    let len = kernel.len() as u64;
    let size = if header.image_size >= len {
        header.image_size
    } else {
        len
    };
    let memsz = match page_align(size) {
        Some(memsz) => memsz,
        None => return Err(LoadError::SizeOverflow),
    };
    if memsz > u64::MAX - header.text_offset {
        return Err(LoadError::AddressOverflow);
    }
    let base = place_segment(
        usable,
        occupied,
        header.text_offset + memsz,
        SZ_2M,
        0,
        u64::MAX,
        SegmentKind::Kernel,
    )?;
    Ok((base + header.text_offset, memsz))
}

/// Finds where the ramdisk goes, if there is one.
fn place_ramdisk(
    initrd: Option<&[u8]>,
    entry: u64,
    kernel_memsz: u64,
    usable: &[PhysRange],
    occupied: &mut Vec<PhysRange>,
) -> (r: Result<Option<Segment>, LoadError>)
    ensures
        ramdisk_place(
            match initrd {
                Some(data) => Some(data@),
                None => None,
            },
            KernelPlace { entry, memsz: kernel_memsz, occupied: old(occupied)@ },
            usable@,
        ) == (match r {
            Ok(segment) => Ok((segment_option(segment), final(occupied)@)),
            Err(e) => Err(e),
        }),
        r matches Ok(Some(segment)) ==> segment.phys + segment.data@.len() <= u64::MAX,
{
    let data = match initrd {
        Some(data) => data,
        None => return Ok(None),
    };
    if data.len() == 0 {
        return Ok(None);
    }
    let memsz = match page_align(data.len() as u64) {
        Some(memsz) => memsz,
        None => return Err(LoadError::SizeOverflow),
    };
    let low = align_down(entry, SZ_1G);
    if kernel_memsz > u64::MAX - entry || SZ_32G > u64::MAX - low {
        return Err(LoadError::AddressOverflow);
    }
    let phys = place_segment(
        usable,
        occupied,
        memsz,
        PAGE_SIZE,
        entry + kernel_memsz,
        low + SZ_32G,
        SegmentKind::Initrd,
    )?;
    proof {
        lemma_round_up(data@.len() as int, PAGE_SIZE as int);
    }
    Ok(Some(Segment { kind: SegmentKind::Initrd, data: copied(data), phys, memsz }))
}

/// What is to be loaded for a kernel whose place, and that of its ramdisk, is known.
fn plan_rest(
    kernel: Segment,
    ramdisk: Option<Segment>,
    occupied: &mut Vec<PhysRange>,
    dtb: &[u8],
    cmdline: &str,
    usable: &[PhysRange],
    trampoline: &Trampoline<'_>,
) -> (r: Result<LoadPlan, LoadError>)
    requires
        ramdisk matches Some(segment) ==> segment.phys + segment.data@.len() <= u64::MAX,
    ensures
        plan_tail(
            kernel@,
            KernelPlace { entry: kernel.phys, memsz: kernel.memsz, occupied: Seq::empty() },
            segment_option(ramdisk),
            old(occupied)@,
            dtb@,
            cmdline@,
            usable@,
            trampoline.code@,
            trampoline.kernel_slot as int,
            trampoline.dtb_slot as int,
        ) == (match r {
            Ok(plan) => Ok((plan.entry, segment_views(plan.segments@))),
            Err(e) => Err(e),
        }),
{
    let ghost views = (kernel@, segment_option(ramdisk));
    let bounds = match &ramdisk {
        Some(segment) => Some((segment.phys, segment.phys + segment.data.len() as u64)),
        None => None,
    };
    assert(bounds == ramdisk_bounds(views.1));
    let patched = match patch_chosen(dtb, cmdline, bounds) {
        Ok(patched) => patched,
        Err(e) => return Err(LoadError::Fdt(e)),
    };
    if patched.len() > MAX_DTB_SIZE {
        return Err(LoadError::DtbTooLarge(patched.len()));
    }
    let tree = place_behind_kernel(
        patched,
        SegmentKind::Dtb,
        SZ_2M,
        kernel.phys,
        kernel.memsz,
        occupied,
        usable,
    )?;
    let filled = build_trampoline(trampoline, kernel.phys, tree.phys)?;
    let code = place_behind_kernel(
        filled,
        SegmentKind::Trampoline,
        PAGE_SIZE,
        kernel.phys,
        kernel.memsz,
        occupied,
        usable,
    )?;
    let entry = code.phys;
    let ghost tail = (tree@, code@);
    let mut segments: Vec<Segment> = Vec::new();
    segments.push(kernel);
    if let Some(segment) = ramdisk {
        segments.push(segment);
    }
    segments.push(tree);
    segments.push(code);
    assert(segment_views(segments@) =~= match views.1 {
        Some(segment) => seq![views.0, segment, tail.0, tail.1],
        None => seq![views.0, tail.0, tail.1],
    });
    Ok(LoadPlan { entry, segments })
}

/// What is to be loaded for a kernel: itself, the ramdisk, the device tree that tells of it, and
/// the code that enters it.
pub fn load(
    kernel: &[u8],
    initrd: Option<&[u8]>,
    dtb: &[u8],
    cmdline: &str,
    usable: &[PhysRange],
    trampoline: &Trampoline<'_>,
) -> (r: Result<LoadPlan, LoadError>)
    ensures
        plan(
            kernel@,
            match initrd {
                Some(data) => Some(data@),
                None => None,
            },
            dtb@,
            cmdline@,
            usable@,
            trampoline.code@,
            trampoline.kernel_slot as int,
            trampoline.dtb_slot as int,
        ) == (match r {
            Ok(plan) => Ok((plan.entry, segment_views(plan.segments@))),
            Err(e) => Err(e),
        }),
{
    if kernel.len() == 0 {
        return Err(LoadError::EmptyKernel);
    }
    if dtb.len() == 0 {
        return Err(LoadError::EmptyDtb);
    }
    let header = ImageHeader::parse(kernel)?;
    if header.text_offset % PAGE_SIZE != 0 {
        return Err(LoadError::TextOffset(header.text_offset));
    }
    if usable.len() == 0 {
        return Err(LoadError::NoUsableMemory);
    }
    let mut occupied: Vec<PhysRange> = Vec::new();
    let (entry, memsz) = place_kernel(kernel, header, usable, &mut occupied)?;
    let ramdisk = place_ramdisk(initrd, entry, memsz, usable, &mut occupied)?;
    let main = Segment { kind: SegmentKind::Kernel, data: copied(kernel), phys: entry, memsz };
    plan_rest(main, ramdisk, &mut occupied, dtb, cmdline, usable, trampoline)
}

/// Whether the `size` bytes at `at` lie in one usable range.
pub open spec fn is_usable(usable: Seq<PhysRange>, at: int, size: int) -> bool {
    exists|i: int|
        0 <= i < usable.len() && (#[trigger] usable[i]).start <= at && at + size <= usable[i].end
}

/// Whether two segments share an address.
pub open spec fn segments_meet(a: SegmentView, b: SegmentView) -> bool {
    a.phys < b.phys + b.memsz && b.phys < a.phys + a.memsz
}

proof fn lemma_place(
    usable: Seq<PhysRange>,
    occupied: Seq<PhysRange>,
    size: u64,
    align: u64,
    min: u64,
    max: u64,
    kind: SegmentKind,
)
    ensures
        place(usable, occupied, size as int, align, min, max, kind) matches Ok((base, after)) ==> {
            &&& is_clear(occupied, base as int, size as int)
            &&& is_usable(usable, base as int, size as int)
            &&& base % align == 0
            &&& base + size <= u64::MAX
            &&& after == occupied.push(PhysRange { start: base, end: (base + size) as u64 })
        },
{
    law_region_is_free(usable, occupied, size, align, min, max);
}

proof fn lemma_kernel_place(kernel: Seq<u8>, header: ImageHeader, usable: Seq<PhysRange>)
    ensures
        kernel_place(kernel, header, usable) matches Ok(placed) ==> {
            &&& placed.occupied.len() == 1
            &&& placed.occupied[0].start <= placed.entry
            &&& placed.entry + placed.memsz == placed.occupied[0].end
            &&& is_usable(usable, placed.entry as int, placed.memsz as int)
        },
{
    if let Ok(placed) = kernel_place(kernel, header, usable) {
        let whole = (header.text_offset + placed.memsz) as u64;
        lemma_place(usable, Seq::empty(), whole, SZ_2M, 0, u64::MAX, SegmentKind::Kernel);
        let base = place(
            usable,
            Seq::empty(),
            whole as int,
            SZ_2M,
            0,
            u64::MAX,
            SegmentKind::Kernel,
        )->Ok_0.0;
        let i = choose|i: int|
            0 <= i < usable.len() && (#[trigger] usable[i]).start <= base && base + whole
                <= usable[i].end;
        assert(usable[i].start <= placed.entry && placed.entry + placed.memsz <= usable[i].end);
    }
}

/// Whether `segment` was placed clear of `before`, and is the last range of `after`.
spec fn placed_after(
    segment: SegmentView,
    before: Seq<PhysRange>,
    after: Seq<PhysRange>,
    usable: Seq<PhysRange>,
) -> bool {
    &&& is_clear(before, segment.phys as int, segment.memsz as int)
    &&& is_usable(usable, segment.phys as int, segment.memsz as int)
    &&& segment.phys + segment.memsz <= u64::MAX
    &&& after == before.push(
        PhysRange { start: segment.phys, end: (segment.phys + segment.memsz) as u64 },
    )
}

proof fn lemma_ramdisk_place(
    initrd: Option<Seq<u8>>,
    kernel: KernelPlace,
    usable: Seq<PhysRange>,
)
    ensures
        ramdisk_place(initrd, kernel, usable) matches Ok((ramdisk, after)) ==> match ramdisk {
            Some(segment) => placed_after(segment, kernel.occupied, after, usable),
            None => after == kernel.occupied,
        },
{
    if let Ok((Some(segment), _)) = ramdisk_place(initrd, kernel, usable) {
        lemma_place(
            usable,
            kernel.occupied,
            segment.memsz,
            PAGE_SIZE,
            (kernel.entry + kernel.memsz) as u64,
            ramdisk_limit(kernel.entry) as u64,
            SegmentKind::Initrd,
        );
    }
}

proof fn lemma_behind_kernel(
    data: Seq<u8>,
    kind: SegmentKind,
    align: u64,
    kernel: KernelPlace,
    occupied: Seq<PhysRange>,
    usable: Seq<PhysRange>,
)
    ensures
        behind_kernel(data, kind, align, kernel, occupied, usable) matches Ok((segment, after))
            ==> placed_after(segment, occupied, after, usable) && segment.kind == kind,
{
    if let Ok((segment, _)) = behind_kernel(data, kind, align, kernel, occupied, usable) {
        lemma_place(
            usable,
            occupied,
            segment.memsz,
            align,
            (kernel.entry + kernel.memsz) as u64,
            u64::MAX,
            kind,
        );
    }
}

/// Whether the segments are usable and no two share an address.
pub open spec fn sound_segments(usable: Seq<PhysRange>, segments: Seq<SegmentView>) -> bool {
    &&& forall|i: int|
        0 <= i < segments.len() ==> is_usable(
            usable,
            (#[trigger] segments[i]).phys as int,
            segments[i].memsz as int,
        )
    &&& forall|i: int, j: int|
        0 <= i < j < segments.len() ==> !segments_meet(
            #[trigger] segments[i],
            #[trigger] segments[j],
        )
}

proof fn lemma_sound_segments(
    kernel: SegmentView,
    ramdisk: Option<SegmentView>,
    tree: SegmentView,
    last: SegmentView,
    first: Seq<PhysRange>,
    second: Seq<PhysRange>,
    third: Seq<PhysRange>,
    fourth: Seq<PhysRange>,
    usable: Seq<PhysRange>,
)
    requires
        first.len() == 1,
        first[0].start <= kernel.phys,
        kernel.phys + kernel.memsz == first[0].end,
        is_usable(usable, kernel.phys as int, kernel.memsz as int),
        match ramdisk {
            Some(segment) => placed_after(segment, first, second, usable),
            None => second == first,
        },
        placed_after(tree, second, third, usable),
        placed_after(last, third, fourth, usable),
    ensures
        sound_segments(
            usable,
            match ramdisk {
                Some(segment) => seq![kernel, segment, tree, last],
                None => seq![kernel, tree, last],
            },
        ),
{
    assert(third[0] == first[0]);
    assert(second[0] == first[0]);
    match ramdisk {
        Some(segment) => {
            assert(second[1].start == segment.phys);
            assert(third[1] == second[1]);
            assert(third[2].start == tree.phys);
        },
        None => {
            assert(third[1].start == tree.phys);
        },
    }
}

/// A plan is sound: every part lies in usable memory, no two parts share an address, the kernel
/// comes first, and the entry is that of the last part, the code that enters the kernel.
#[verifier::spinoff_prover]
#[verifier::rlimit(60)]
pub proof fn law_plan_is_sound(
    kernel: Seq<u8>,
    initrd: Option<Seq<u8>>,
    dtb: Seq<u8>,
    cmdline: Seq<char>,
    usable: Seq<PhysRange>,
    code: Seq<u8>,
    kernel_slot: int,
    dtb_slot: int,
)
    ensures
        plan(
            kernel,
            initrd,
            dtb,
            cmdline,
            usable,
            code,
            kernel_slot,
            dtb_slot,
        ) matches Ok((entry, segments)) ==> {
            &&& sound_segments(usable, segments)
            &&& segments.len() >= 3
            &&& segments.last().kind == SegmentKind::Trampoline
            &&& segments.last().phys == entry
            &&& segments[0].kind == SegmentKind::Kernel
            &&& segments[0].data == kernel
        },
{
    if let Ok((entry, segments)) = plan(
        kernel,
        initrd,
        dtb,
        cmdline,
        usable,
        code,
        kernel_slot,
        dtb_slot,
    ) {
        let header = image_header(kernel)->Ok_0;
        let placed = kernel_place(kernel, header, usable)->Ok_0;
        lemma_kernel_place(kernel, header, usable);
        let (ramdisk, occupied) = ramdisk_place(initrd, placed, usable)->Ok_0;
        lemma_ramdisk_place(initrd, placed, usable);
        let patched = chosen_patched(dtb, cmdline, ramdisk_bounds(ramdisk))->Ok_0;
        let (tree, with_tree) = behind_kernel(
            patched,
            SegmentKind::Dtb,
            SZ_2M,
            placed,
            occupied,
            usable,
        )->Ok_0;
        lemma_behind_kernel(patched, SegmentKind::Dtb, SZ_2M, placed, occupied, usable);
        let filled = filled_trampoline(code, kernel_slot, dtb_slot, placed.entry, tree.phys)->Ok_0;
        let (last, with_last) = behind_kernel(
            filled,
            SegmentKind::Trampoline,
            PAGE_SIZE,
            placed,
            with_tree,
            usable,
        )->Ok_0;
        lemma_behind_kernel(
            filled,
            SegmentKind::Trampoline,
            PAGE_SIZE,
            placed,
            with_tree,
            usable,
        );
        lemma_sound_segments(
            segments[0],
            ramdisk,
            tree,
            last,
            placed.occupied,
            occupied,
            with_tree,
            with_last,
            usable,
        );
    }
}

/// Whether the kinds of the parts are these, in this order.
pub open spec fn kinds_are(segments: Seq<SegmentView>, kinds: Seq<SegmentKind>) -> bool {
    &&& segments.len() == kinds.len()
    &&& forall|i: int| 0 <= i < kinds.len() ==> (#[trigger] segments[i]).kind == kinds[i]
}

proof fn lemma_paged(value: int)
    requires
        0 <= value,
    ensures
        paged(value) matches Some(size) ==> value <= size < value + 4096 && size % 4096 == 0,
{
    lemma_round_up(value, PAGE_SIZE as int);
}

/// The parts of a plan, as they were placed: the kernel, the ramdisk where there is one, the tree and
/// the code.
spec fn parts_of(
    segments: Seq<SegmentView>,
    initrd: Option<Seq<u8>>,
) -> (SegmentView, Option<SegmentView>, SegmentView, SegmentView) {
    if initrd is Some && initrd->0.len() > 0 {
        (segments[0], Some(segments[1]), segments[2], segments[3])
    } else {
        (segments[0], None, segments[1], segments[2])
    }
}

#[verifier::spinoff_prover]
#[verifier::rlimit(80)]
proof fn lemma_plan_parts(
    kernel: Seq<u8>,
    initrd: Option<Seq<u8>>,
    dtb: Seq<u8>,
    cmdline: Seq<char>,
    usable: Seq<PhysRange>,
    code: Seq<u8>,
    kernel_slot: int,
    dtb_slot: int,
)
    ensures
        plan(
            kernel,
            initrd,
            dtb,
            cmdline,
            usable,
            code,
            kernel_slot,
            dtb_slot,
        ) matches Ok((entry, segments)) ==> {
            let (main, ramdisk, tree, last) = parts_of(segments, initrd);
            let header = image_header(kernel)->Ok_0;
            let placed = kernel_place(kernel, header, usable)->Ok_0;
            &&& image_header(kernel) is Ok
            &&& kernel_place(kernel, header, usable) is Ok
            &&& main.kind == SegmentKind::Kernel
            &&& main.data == kernel
            &&& main.phys == placed.entry
            &&& main.memsz == placed.memsz
            &&& segments.len() == (if ramdisk is Some {
                4int
            } else {
                3
            })
            &&& ramdisk matches Some(segment) ==> {
                &&& segment.kind == SegmentKind::Initrd
                &&& segment.data == initrd->0
                &&& paged(segment.data.len() as int) == Some(segment.memsz)
                &&& ramdisk_place(initrd, placed, usable) matches Ok((found, _)) && found
                    == ramdisk
            }
            &&& tree.kind == SegmentKind::Dtb
            &&& chosen_patched(
                dtb,
                cmdline,
                match ramdisk {
                    Some(segment) => Some(
                        (segment.phys, (segment.phys + segment.data.len()) as u64),
                    ),
                    None => None,
                },
            ) == Ok::<Seq<u8>, FdtError>(tree.data)
            &&& paged(tree.data.len() as int) == Some(tree.memsz)
            &&& filled_trampoline(code, kernel_slot, dtb_slot, main.phys, tree.phys) == Ok::<
                Seq<u8>,
                LoadError,
            >(last.data)
            &&& last.kind == SegmentKind::Trampoline
            &&& paged(last.data.len() as int) == Some(last.memsz)
            &&& last.phys == entry
        },
{
    if let Ok((entry, segments)) = plan(
        kernel,
        initrd,
        dtb,
        cmdline,
        usable,
        code,
        kernel_slot,
        dtb_slot,
    ) {
        let header = image_header(kernel)->Ok_0;
        let placed = kernel_place(kernel, header, usable)->Ok_0;
        let (ramdisk, occupied) = ramdisk_place(initrd, placed, usable)->Ok_0;
        lemma_ramdisk_segment(initrd, placed, usable);
        lemma_tail_parts(
            SegmentView {
                kind: SegmentKind::Kernel,
                data: kernel,
                phys: placed.entry,
                memsz: placed.memsz,
            },
            placed,
            ramdisk,
            occupied,
            dtb,
            cmdline,
            usable,
            code,
            kernel_slot,
            dtb_slot,
        );
    }
}

proof fn lemma_ramdisk_segment(
    initrd: Option<Seq<u8>>,
    kernel: KernelPlace,
    usable: Seq<PhysRange>,
)
    ensures
        ramdisk_place(initrd, kernel, usable) matches Ok((ramdisk, _)) ==> {
            &&& ramdisk is Some <==> initrd is Some && initrd->0.len() > 0
            &&& ramdisk matches Some(segment) ==> segment.kind == SegmentKind::Initrd
                && segment.data == initrd->0 && paged(segment.data.len() as int) == Some(
                segment.memsz,
            )
        },
{
}

proof fn lemma_tail_parts(
    kernel: SegmentView,
    placed: KernelPlace,
    ramdisk: Option<SegmentView>,
    occupied: Seq<PhysRange>,
    dtb: Seq<u8>,
    cmdline: Seq<char>,
    usable: Seq<PhysRange>,
    code: Seq<u8>,
    kernel_slot: int,
    dtb_slot: int,
)
    ensures
        plan_tail(
            kernel,
            placed,
            ramdisk,
            occupied,
            dtb,
            cmdline,
            usable,
            code,
            kernel_slot,
            dtb_slot,
        ) matches Ok((entry, segments)) ==> {
            let tree = segments[segments.len() - 2];
            let last = segments[segments.len() - 1];
            &&& segments[0] == kernel
            &&& segments.len() == (if ramdisk is Some {
                4int
            } else {
                3
            })
            &&& ramdisk is Some ==> segments[1] == ramdisk->0
            &&& tree.kind == SegmentKind::Dtb
            &&& chosen_patched(
                dtb,
                cmdline,
                match ramdisk {
                    Some(segment) => Some(
                        (segment.phys, (segment.phys + segment.data.len()) as u64),
                    ),
                    None => None,
                },
            ) == Ok::<Seq<u8>, FdtError>(tree.data)
            &&& paged(tree.data.len() as int) == Some(tree.memsz)
            &&& filled_trampoline(code, kernel_slot, dtb_slot, placed.entry, tree.phys) == Ok::<
                Seq<u8>,
                LoadError,
            >(last.data)
            &&& last.kind == SegmentKind::Trampoline
            &&& paged(last.data.len() as int) == Some(last.memsz)
            &&& last.phys == entry
        },
{
    if let Ok((entry, segments)) = plan_tail(
        kernel,
        placed,
        ramdisk,
        occupied,
        dtb,
        cmdline,
        usable,
        code,
        kernel_slot,
        dtb_slot,
    ) {
        let patched = chosen_patched(dtb, cmdline, ramdisk_bounds(ramdisk))->Ok_0;
        let (tree, after) = behind_kernel(
            patched,
            SegmentKind::Dtb,
            SZ_2M,
            placed,
            occupied,
            usable,
        )->Ok_0;
        assert(segments[segments.len() - 2] == tree);
        assert(tree.data == patched);
    }
}

proof fn lemma_filled_trampoline(
    code: Seq<u8>,
    kernel_slot: int,
    dtb_slot: int,
    kernel_entry: u64,
    dtb_addr: u64,
)
    requires
        0 <= kernel_slot,
        0 <= dtb_slot,
        kernel_slot + 8 <= dtb_slot || dtb_slot + 8 <= kernel_slot,
    ensures
        filled_trampoline(code, kernel_slot, dtb_slot, kernel_entry, dtb_addr) matches Ok(filled)
            ==> {
            &&& filled.len() == code.len()
            &&& le64(filled, kernel_slot) == kernel_entry
            &&& le64(filled, dtb_slot) == dtb_addr
            &&& forall|i: int|
                0 <= i < code.len() && !(kernel_slot <= i < kernel_slot + 8) && !(dtb_slot <= i
                    < dtb_slot + 8) ==> #[trigger] filled[i] == code[i]
        },
{
    if let Ok(filled) = filled_trampoline(code, kernel_slot, dtb_slot, kernel_entry, dtb_addr) {
        let first = with_u64(code, kernel_slot, kernel_entry);
        law_double_word_bytes_round_trip(kernel_entry);
        law_double_word_bytes_round_trip(dtb_addr);
        let a = le64_bytes(kernel_entry);
        let b = le64_bytes(dtb_addr);
        assert forall|k: int| 0 <= k < 8 implies #[trigger] filled[kernel_slot + k] == a[k] by {
            assert(first[kernel_slot + k] == a[k]);
            assert(filled[kernel_slot + k] == first[kernel_slot + k]);
        }
        assert forall|k: int| 0 <= k < 8 implies #[trigger] filled[dtb_slot + k] == b[k] by {}
        lemma_le64_at(filled, kernel_slot, a);
        lemma_le64_at(filled, dtb_slot, b);
    }
}

proof fn lemma_le64_at(s: Seq<u8>, at: int, word: Seq<u8>)
    requires
        0 <= at,
        at + 8 <= s.len(),
        word.len() == 8,
        forall|k: int| 0 <= k < 8 ==> #[trigger] s[at + k] == word[k],
    ensures
        le64(s, at) == le64(word, 0),
{
    assert(s[at + 0] == word[0]);
    assert(s[at + 1] == word[1]);
    assert(s[at + 2] == word[2]);
    assert(s[at + 3] == word[3]);
    assert(s[at + 4] == word[4]);
    assert(s[at + 5] == word[5]);
    assert(s[at + 6] == word[6]);
    assert(s[at + 7] == word[7]);
}

/// A plan holds each part once: the kernel, the ramdisk where one is given and holds a byte, the
/// device tree, and the code that enters the kernel, which is where the machine is entered. The
/// kernel and the ramdisk are the given ones. Each part has room for its data, in whole pages.
#[verifier::spinoff_prover]
#[verifier::rlimit(80)]
pub proof fn law_plans_hold_each_part_once(
    kernel: Seq<u8>,
    initrd: Option<Seq<u8>>,
    dtb: Seq<u8>,
    cmdline: Seq<char>,
    usable: Seq<PhysRange>,
    code: Seq<u8>,
    kernel_slot: int,
    dtb_slot: int,
)
    requires
        kernel.len() <= u64::MAX,
    ensures
        plan(
            kernel,
            initrd,
            dtb,
            cmdline,
            usable,
            code,
            kernel_slot,
            dtb_slot,
        ) matches Ok((entry, segments)) ==> {
            let given = initrd is Some && initrd->0.len() > 0;
            &&& given ==> kinds_are(
                segments,
                seq![
                    SegmentKind::Kernel,
                    SegmentKind::Initrd,
                    SegmentKind::Dtb,
                    SegmentKind::Trampoline,
                ],
            )
            &&& given ==> segments[1].data == initrd->0
            &&& !given ==> kinds_are(
                segments,
                seq![SegmentKind::Kernel, SegmentKind::Dtb, SegmentKind::Trampoline],
            )
            &&& segments[0].data == kernel
            &&& entry == segments.last().phys
            &&& forall|i: int|
                0 <= i < segments.len() ==> (#[trigger] segments[i]).data.len()
                    <= segments[i].memsz && segments[i].memsz % 4096 == 0
        },
{
    lemma_plan_parts(kernel, initrd, dtb, cmdline, usable, code, kernel_slot, dtb_slot);
    if let Ok((entry, segments)) = plan(
        kernel,
        initrd,
        dtb,
        cmdline,
        usable,
        code,
        kernel_slot,
        dtb_slot,
    ) {
        let (main, ramdisk, tree, last) = parts_of(segments, initrd);
        let header = image_header(kernel)->Ok_0;
        lemma_kernel_room(kernel, header, usable);
        lemma_paged(tree.data.len() as int);
        lemma_paged(last.data.len() as int);
        if let Some(segment) = ramdisk {
            lemma_paged(segment.data.len() as int);
        }
    }
}

proof fn lemma_kernel_room(kernel: Seq<u8>, header: ImageHeader, usable: Seq<PhysRange>)
    requires
        kernel.len() <= u64::MAX,
    ensures
        kernel_place(kernel, header, usable) matches Ok(placed) ==> {
            &&& kernel.len() <= placed.memsz
            &&& header.image_size <= placed.memsz
            &&& placed.memsz % 4096 == 0
        },
{
    let size = if header.image_size >= kernel.len() as u64 {
        header.image_size
    } else {
        kernel.len() as u64
    };
    lemma_paged(size as int);
}

/// The next kernel is handed what it was given: its device tree tells in `/chosen` the command line,
/// closed by a zero byte, and where the ramdisk of the plan begins and ends, and neither of them
/// where there is none; and the code that enters it has the address of the kernel in the one slot
/// and that of the tree in the other, and is otherwise the given code.
#[verifier::spinoff_prover]
#[verifier::rlimit(80)]
pub proof fn law_next_kernel_is_handed_its_parts(
    kernel: Seq<u8>,
    initrd: Option<Seq<u8>>,
    dtb: Seq<u8>,
    cmdline: Seq<char>,
    usable: Seq<PhysRange>,
    code: Seq<u8>,
    kernel_slot: int,
    dtb_slot: int,
)
    requires
        kernel.len() <= u64::MAX,
        dtb.len() + 3 <= usize::MAX,
        tree_items(dtb) is Some,
        0 <= kernel_slot,
        0 <= dtb_slot,
        kernel_slot + 8 <= dtb_slot || dtb_slot + 8 <= kernel_slot,
    ensures
        plan(
            kernel,
            initrd,
            dtb,
            cmdline,
            usable,
            code,
            kernel_slot,
            dtb_slot,
        ) matches Ok((entry, segments)) ==> {
            let tree = segments[segments.len() - 2];
            let last = segments.last();
            &&& tree.kind == SegmentKind::Dtb
            &&& chosen_property(tree.data, "bootargs"@) == (if utf8(cmdline).len() == 0 {
                None
            } else {
                Some(utf8(cmdline) + seq![0u8])
            })
            &&& if initrd is Some && initrd->0.len() > 0 {
                let ramdisk = segments[1];
                &&& ramdisk.kind == SegmentKind::Initrd
                &&& ramdisk.data == initrd->0
                &&& ramdisk.phys + ramdisk.data.len() <= u64::MAX
                &&& chosen_property(tree.data, "linux,initrd-start"@) matches Some(value)
                    && value.len() == 8 && be64(value, 0) == ramdisk.phys
                &&& chosen_property(tree.data, "linux,initrd-end"@) matches Some(value)
                    && value.len() == 8 && be64(value, 0) == ramdisk.phys + ramdisk.data.len()
            } else {
                &&& chosen_property(tree.data, "linux,initrd-start"@) is None
                &&& chosen_property(tree.data, "linux,initrd-end"@) is None
            }
            &&& last.kind == SegmentKind::Trampoline
            &&& last.data.len() == code.len()
            &&& le64(last.data, kernel_slot) == segments[0].phys
            &&& le64(last.data, dtb_slot) == tree.phys
            &&& forall|i: int|
                0 <= i < code.len() && !(kernel_slot <= i < kernel_slot + 8) && !(dtb_slot <= i
                    < dtb_slot + 8) ==> #[trigger] last.data[i] == code[i]
        },
{
    lemma_plan_parts(kernel, initrd, dtb, cmdline, usable, code, kernel_slot, dtb_slot);
    if let Ok((entry, segments)) = plan(
        kernel,
        initrd,
        dtb,
        cmdline,
        usable,
        code,
        kernel_slot,
        dtb_slot,
    ) {
        let (main, ramdisk, tree, last) = parts_of(segments, initrd);
        let placed = kernel_place(kernel, image_header(kernel)->Ok_0, usable)->Ok_0;
        lemma_ramdisk_place(initrd, placed, usable);
        let bounds = match ramdisk {
            Some(segment) => Some((segment.phys, (segment.phys + segment.data.len()) as u64)),
            None => None,
        };
        if let Some((start, end)) = bounds {
            let segment = ramdisk->0;
            lemma_paged(segment.data.len() as int);
            law_double_word_bytes_round_trip(start);
            law_double_word_bytes_round_trip(end);
        }
        law_next_kernel_reads_chosen(dtb, cmdline, bounds);
        lemma_filled_trampoline(code, kernel_slot, dtb_slot, main.phys, tree.phys);
    }
}

/// The text offset that an image asks for, by the two words of its header.
pub open spec fn wanted_offset(kernel: Seq<u8>) -> int {
    if le64(kernel, 16) == 0 {
        0x80000
    } else {
        le64(kernel, 8) as int
    }
}

proof fn lemma_kernel_spot(kernel: Seq<u8>, header: ImageHeader, usable: Seq<PhysRange>)
    ensures
        kernel_place(kernel, header, usable) matches Ok(placed) ==> {
            &&& header.text_offset <= placed.entry
            &&& (placed.entry - header.text_offset) % 0x20_0000 == 0
        },
{
    if let Ok(placed) = kernel_place(kernel, header, usable) {
        let whole = (header.text_offset + placed.memsz) as u64;
        law_region_is_free(usable, Seq::empty(), whole, SZ_2M, 0, u64::MAX);
    }
}

/// Whether a part stands behind the kernel, at a multiple of `align`.
pub open spec fn stands_behind(part: SegmentView, kernel_end: int, align: int) -> bool {
    kernel_end <= part.phys && part.phys as int % align == 0
}

proof fn lemma_ramdisk_spot(initrd: Option<Seq<u8>>, placed: KernelPlace, usable: Seq<PhysRange>)
    ensures
        ramdisk_place(initrd, placed, usable) matches Ok((Some(segment), _)) ==> {
            &&& stands_behind(segment, placed.entry + placed.memsz, 4096)
            &&& segment.phys + segment.memsz <= ramdisk_limit(placed.entry)
        },
{
    if let Ok((Some(segment), _)) = ramdisk_place(initrd, placed, usable) {
        law_region_is_free(
            usable,
            placed.occupied,
            segment.memsz,
            PAGE_SIZE,
            (placed.entry + placed.memsz) as u64,
            ramdisk_limit(placed.entry) as u64,
        );
    }
}

proof fn lemma_behind_spot(
    data: Seq<u8>,
    kind: SegmentKind,
    align: u64,
    placed: KernelPlace,
    occupied: Seq<PhysRange>,
    usable: Seq<PhysRange>,
)
    ensures
        behind_kernel(data, kind, align, placed, occupied, usable) matches Ok((segment, _)) ==> {
            &&& stands_behind(segment, placed.entry + placed.memsz, align as int)
            &&& segment.data == data
        },
{
    if let Ok((segment, _)) = behind_kernel(data, kind, align, placed, occupied, usable) {
        law_region_is_free(
            usable,
            occupied,
            segment.memsz,
            align,
            (placed.entry + placed.memsz) as u64,
            u64::MAX,
        );
    }
}

proof fn lemma_tail_places(
    kernel: SegmentView,
    placed: KernelPlace,
    ramdisk: Option<SegmentView>,
    occupied: Seq<PhysRange>,
    dtb: Seq<u8>,
    cmdline: Seq<char>,
    usable: Seq<PhysRange>,
    code: Seq<u8>,
    kernel_slot: int,
    dtb_slot: int,
)
    ensures
        plan_tail(
            kernel,
            placed,
            ramdisk,
            occupied,
            dtb,
            cmdline,
            usable,
            code,
            kernel_slot,
            dtb_slot,
        ) matches Ok((entry, segments)) ==> {
            let end = placed.entry + placed.memsz;
            let tree = segments[segments.len() - 2];
            &&& stands_behind(tree, end, 0x20_0000)
            &&& tree.data.len() <= 0x20_0000
            &&& stands_behind(segments[segments.len() - 1], end, 4096)
        },
{
    if let Ok((entry, segments)) = plan_tail(
        kernel,
        placed,
        ramdisk,
        occupied,
        dtb,
        cmdline,
        usable,
        code,
        kernel_slot,
        dtb_slot,
    ) {
        let patched = chosen_patched(dtb, cmdline, ramdisk_bounds(ramdisk))->Ok_0;
        let (tree, with_tree) = behind_kernel(
            patched,
            SegmentKind::Dtb,
            SZ_2M,
            placed,
            occupied,
            usable,
        )->Ok_0;
        lemma_behind_spot(patched, SegmentKind::Dtb, SZ_2M, placed, occupied, usable);
        let filled = filled_trampoline(code, kernel_slot, dtb_slot, placed.entry, tree.phys)->Ok_0;
        let (last, _) = behind_kernel(
            filled,
            SegmentKind::Trampoline,
            PAGE_SIZE,
            placed,
            with_tree,
            usable,
        )->Ok_0;
        lemma_behind_spot(
            filled,
            SegmentKind::Trampoline,
            PAGE_SIZE,
            placed,
            with_tree,
            usable,
        );
        assert(segments[segments.len() - 2] == tree);
        assert(segments[segments.len() - 1] == last);
    }
}

#[verifier::spinoff_prover]
#[verifier::rlimit(80)]
proof fn lemma_plan_places(
    kernel: Seq<u8>,
    initrd: Option<Seq<u8>>,
    dtb: Seq<u8>,
    cmdline: Seq<char>,
    usable: Seq<PhysRange>,
    code: Seq<u8>,
    kernel_slot: int,
    dtb_slot: int,
)
    ensures
        plan(
            kernel,
            initrd,
            dtb,
            cmdline,
            usable,
            code,
            kernel_slot,
            dtb_slot,
        ) matches Ok((entry, segments)) ==> {
            let header = image_header(kernel)->Ok_0;
            let placed = kernel_place(kernel, header, usable)->Ok_0;
            let end = placed.entry + placed.memsz;
            &&& header.text_offset % 4096 == 0
            &&& stands_behind(segments[segments.len() - 2], end, 0x20_0000)
            &&& segments[segments.len() - 2].data.len() <= 0x20_0000
            &&& stands_behind(segments[segments.len() - 1], end, 4096)
        },
{
    if let Ok((entry, segments)) = plan(
        kernel,
        initrd,
        dtb,
        cmdline,
        usable,
        code,
        kernel_slot,
        dtb_slot,
    ) {
        let header = image_header(kernel)->Ok_0;
        let placed = kernel_place(kernel, header, usable)->Ok_0;
        let (ramdisk, occupied) = ramdisk_place(initrd, placed, usable)->Ok_0;
        lemma_tail_places(
            SegmentView {
                kind: SegmentKind::Kernel,
                data: kernel,
                phys: placed.entry,
                memsz: placed.memsz,
            },
            placed,
            ramdisk,
            occupied,
            dtb,
            cmdline,
            usable,
            code,
            kernel_slot,
            dtb_slot,
        );
    }
}

/// The parts stand where the next kernel looks for them: the kernel behind its text offset from a
/// multiple of two mebibytes on, with room for the size that its header tells; the device tree at a
/// multiple of two mebibytes; the ramdisk in whole pages, not further than thirty-two gibibytes from
/// the gibibyte of the kernel; and all of them behind the kernel.
#[verifier::spinoff_prover]
#[verifier::rlimit(80)]
pub proof fn law_parts_stand_where_the_kernel_looks(
    kernel: Seq<u8>,
    initrd: Option<Seq<u8>>,
    dtb: Seq<u8>,
    cmdline: Seq<char>,
    usable: Seq<PhysRange>,
    code: Seq<u8>,
    kernel_slot: int,
    dtb_slot: int,
)
    requires
        kernel.len() <= u64::MAX,
    ensures
        plan(
            kernel,
            initrd,
            dtb,
            cmdline,
            usable,
            code,
            kernel_slot,
            dtb_slot,
        ) matches Ok((entry, segments)) ==> {
            let main = segments[0];
            let end = main.phys + main.memsz;
            let tree = segments[segments.len() - 2];
            &&& wanted_offset(kernel) % 4096 == 0
            &&& wanted_offset(kernel) <= main.phys
            &&& (main.phys - wanted_offset(kernel)) % 0x20_0000 == 0
            &&& le64(kernel, 16) <= main.memsz
            &&& le64(kernel, 16) == 0 ==> 0x100_0000 <= main.memsz
            &&& stands_behind(tree, end, 0x20_0000)
            &&& tree.data.len() <= 0x20_0000
            &&& stands_behind(segments.last(), end, 4096)
            &&& initrd is Some && initrd->0.len() > 0 ==> stands_behind(segments[1], end, 4096)
                && segments[1].phys + segments[1].memsz <= main.phys as int / 0x4000_0000
                * 0x4000_0000 + 0x8_0000_0000
        },
{
    lemma_plan_parts(kernel, initrd, dtb, cmdline, usable, code, kernel_slot, dtb_slot);
    lemma_plan_places(kernel, initrd, dtb, cmdline, usable, code, kernel_slot, dtb_slot);
    if let Ok((entry, segments)) = plan(
        kernel,
        initrd,
        dtb,
        cmdline,
        usable,
        code,
        kernel_slot,
        dtb_slot,
    ) {
        let header = image_header(kernel)->Ok_0;
        let placed = kernel_place(kernel, header, usable)->Ok_0;
        lemma_kernel_room(kernel, header, usable);
        lemma_kernel_spot(kernel, header, usable);
        lemma_ramdisk_spot(initrd, placed, usable);
        assert(wanted_offset(kernel) == header.text_offset);
    }
}

/// A line of the memory map, as the kernel writes it: white space, the first and the last address in
/// hexadecimal with a hyphen between them, and the name behind a colon.
pub open spec fn map_line(indent: Seq<char>, start: u64, last: u64, name: Seq<char>) -> Seq<char> {
    indent + (hex(start as int) + seq!['-'] + hex(last as int) + seq![' ', ':', ' '] + name)
}

/// A line of the memory map tells its range, the last address included, and its name.
pub proof fn law_map_lines_are_read(indent: Seq<char>, start: u64, last: u64, name: Seq<char>)
    requires
        forall|i: int| 0 <= i < indent.len() ==> is_space(#[trigger] indent[i]),
        start <= last,
        last < u64::MAX,
        name.len() > 0 ==> !is_space(name[0]) && !is_space(name.last()),
    ensures
        iomem_entry(map_line(indent, start, last, name)) == Some(
            (PhysRange { start, end: (last + 1) as u64 }, name),
        ),
{
    let none = Seq::<char>::empty();
    let first = hex(start as int);
    let second = hex(last as int);
    law_hex_digits_are_plain(start as nat);
    law_hex_digits_are_plain(last as nat);
    law_written_numbers_are_read_back(start as nat, u64::MAX as nat);
    law_written_numbers_are_read_back(last as nat, u64::MAX as nat);
    let range = first + seq!['-'] + second;
    let whole = range + seq![' ', ':', ' '] + name;
    assert(first + seq!['-'] + second + seq![' ', ':', ' '] + name =~= whole);
    lemma_trimmed_start(indent, whole);
    assert(map_line(indent, start, last, name) =~= indent + whole);
    let before = range + seq![' '];
    assert forall|i: int| 0 <= i < before.len() implies before[i] != ':' by {
        if i < first.len() {
            assert(before[i] == first[i]);
        } else if i > first.len() && i < range.len() {
            assert(before[i] == second[i - first.len() - 1]);
        }
    }
    law_texts_are_cut_in_two(before, ':', seq![' '] + name);
    assert(before.push(':') + (seq![' '] + name) =~= whole);
    assert(range[0] == first[0]);
    assert(range.last() == second[second.len() - 1]);
    law_trimming_takes_white_space(none, range, seq![' ']);
    assert(none + range + seq![' '] =~= before);
    assert forall|i: int| 0 <= i < first.len() implies first[i] != '-' by {}
    law_texts_are_cut_in_two(first, '-', second);
    assert(first.push('-') + second =~= range);
    law_trimming_takes_white_space(seq![' '], name, none);
    assert(seq![' '] + name + none =~= seq![' '] + name);
}

proof fn lemma_trimmed_start(indent: Seq<char>, s: Seq<char>)
    requires
        forall|i: int| 0 <= i < indent.len() ==> is_space(#[trigger] indent[i]),
        s.len() > 0,
        !is_space(s[0]),
    ensures
        trim_start(indent + s) == s,
    decreases indent.len(),
{
    if indent.len() == 0 {
        assert(indent + s =~= s);
    } else {
        let less = indent.skip(1);
        assert((indent + s)[0] == indent[0]);
        assert((indent + s).skip(1) =~= less + s);
        assert forall|i: int| 0 <= i < less.len() implies is_space(#[trigger] less[i]) by {
            assert(less[i] == indent[i + 1]);
        }
        lemma_trimmed_start(less, s);
    }
}

/// Whether a line of the memory map gives the address as memory.
pub open spec fn gives(line: Seq<char>, x: int) -> bool {
    iomem_entry(line) matches Some((range, name)) && name == "System RAM"@ && range.start <= x
        < range.end
}

/// Whether a line of the memory map takes the address away: it is for something else than memory,
/// and not for a part of the running kernel.
pub open spec fn takes(line: Seq<char>, x: int) -> bool {
    iomem_entry(line) matches Some((range, name)) && name != "System RAM"@ && name
        != "Kernel code"@ && name != "Kernel data"@ && name != "Kernel bss"@ && range.start <= x
        < range.end
}

/// An address is usable where a line of the memory map gives it as memory and no line behind that
/// takes it away.
pub proof fn law_usable_memory_is_what_the_map_gives(map: Seq<Seq<char>>, n: int, x: int)
    requires
        0 <= n <= map.len(),
    ensures
        usable_after(map, n, x) <==> exists|k: int|
            0 <= k < n && gives(#[trigger] map[k], x) && forall|j: int|
                k < j < n ==> !takes(#[trigger] map[j], x),
    decreases n,
{
    if n > 0 {
        law_usable_memory_is_what_the_map_gives(map, n - 1, x);
        let line = map[n - 1];
        if usable_after(map, n, x) {
            if gives(line, x) {
                assert(gives(map[n - 1], x));
            } else {
                let k = choose|k: int|
                    0 <= k < n - 1 && gives(#[trigger] map[k], x) && forall|j: int|
                        k < j < n - 1 ==> !takes(#[trigger] map[j], x);
                assert(!takes(line, x));
                assert(gives(map[k], x));
                assert forall|j: int| k < j < n implies !takes(#[trigger] map[j], x) by {
                    if j == n - 1 {
                        assert(map[j] == line);
                    }
                }
            }
        }
        if exists|k: int|
            0 <= k < n && gives(#[trigger] map[k], x) && forall|j: int|
                k < j < n ==> !takes(#[trigger] map[j], x) {
            let k = choose|k: int|
                0 <= k < n && gives(#[trigger] map[k], x) && forall|j: int|
                    k < j < n ==> !takes(#[trigger] map[j], x);
            if k < n - 1 {
                assert(!takes(map[n - 1], x));
                assert(gives(map[k], x));
            }
        }
    }
}

/// Whether all occupied ranges end at `top` or before.
spec fn end_by(occupied: Seq<PhysRange>, top: int) -> bool {
    forall|k: int| 0 <= k < occupied.len() ==> (#[trigger] occupied[k]).start <= top
        && occupied[k].end <= top
}

proof fn lemma_place_behind(
    range: PhysRange,
    occupied: Seq<PhysRange>,
    size: u64,
    align: u64,
    min: u64,
    max: u64,
    kind: SegmentKind,
    top: int,
)
    requires
        0 < size <= 0x100_0000_0000,
        align == SZ_2M || align == PAGE_SIZE,
        end_by(occupied, top),
        range.start <= top,
        min <= top,
        range.end <= 0x100_0000_0000,
        top + align + size <= range.end,
        top + align + size <= max,
    ensures
        place(seq![range], occupied, size as int, align, min, max, kind) matches Ok((at, after)) && {
            &&& at <= top + align
            &&& at % align == 0
            &&& range.start <= at
            &&& end_by(after, top + align + size)
            &&& after == occupied.push(PhysRange { start: at, end: (at + size) as u64 })
        },
{
    reveal_with_fuel(power_of_two, 23);
    assert(power_of_two(align as int));
    let limit = 0x100_0000_0000int;
    let usable = seq![range];
    lemma_round_up(top, align as int);
    let b = round_up(top, align as int);
    assert(is_clear(occupied, b, size as int));
    assert(is_free(range, occupied, size as int, align as int, min as int, max as int, b));
    assert(usable[0] == range);
    assert(are_low(usable, limit));
    assert(are_low(occupied, limit));
    let n = lemma_region_finds(usable, 0, occupied, size, align, min, max, limit);
    let found = region(usable, occupied, size as int, align as int, min as int, max as int);
    assert(found is Some);
    let at = found->0;
    assert(n == 0);
    assert(is_free(usable[0], occupied, size as int, align as int, min as int, max as int, at as int));
    if b < at {
        assert(!is_free(
            usable[0],
            occupied,
            size as int,
            align as int,
            min as int,
            max as int,
            b,
        ));
    }
}

proof fn lemma_behind_fits(
    data: Seq<u8>,
    kind: SegmentKind,
    align: u64,
    placed: KernelPlace,
    occupied: Seq<PhysRange>,
    range: PhysRange,
    top: int,
)
    requires
        0 < data.len(),
        align == SZ_2M || align == PAGE_SIZE,
        end_by(occupied, top),
        range.start <= top,
        placed.entry + placed.memsz <= top,
        range.end <= 0x100_0000_0000,
        top + align + data.len() + 4096 <= range.end,
    ensures
        behind_kernel(data, kind, align, placed, occupied, seq![range]) matches Ok((part, after))
            && part.data == data && end_by(after, top + align + data.len() + 4096),
{
    lemma_paged(data.len() as int);
    let size = paged(data.len() as int)->0;
    lemma_place_behind(
        range,
        occupied,
        size,
        align,
        (placed.entry + placed.memsz) as u64,
        u64::MAX,
        kind,
        top,
    );
}

proof fn lemma_kernel_fits(kernel: Seq<u8>, header: ImageHeader, range: PhysRange)
    requires
        0 < header.image_size,
        kernel.len() <= header.image_size,
        range.end <= 0x100_0000_0000,
        range.start + header.text_offset + header.image_size + 0x40_0000 <= range.end,
    ensures
        kernel_place(kernel, header, seq![range]) matches Ok(placed) && {
            let top = placed.entry + placed.memsz;
            &&& end_by(placed.occupied, top)
            &&& range.start <= placed.entry
            &&& top <= range.start + header.text_offset + header.image_size + 0x30_0000
        },
{
    lemma_paged(header.image_size as int);
    let memsz = paged(header.image_size as int)->0;
    lemma_place_behind(
        range,
        Seq::empty(),
        (header.text_offset + memsz) as u64,
        SZ_2M,
        0,
        u64::MAX,
        SegmentKind::Kernel,
        range.start as int,
    );
}

proof fn lemma_ramdisk_fits(data: Seq<u8>, placed: KernelPlace, range: PhysRange)
    requires
        0 < data.len(),
        end_by(placed.occupied, placed.entry + placed.memsz),
        range.start <= placed.entry,
        range.end <= 0x100_0000_0000,
        range.end <= range.start + 0x4_0000_0000,
        placed.entry + placed.memsz + data.len() + 8192 <= range.end,
    ensures
        ramdisk_place(Some(data), placed, seq![range]) matches Ok((part, after)) && part is Some
            && end_by(after, placed.entry + placed.memsz + data.len() + 8192),
{
    lemma_paged(data.len() as int);
    let size = paged(data.len() as int)->0;
    let top = placed.entry + placed.memsz;
    let limit = ramdisk_limit(placed.entry);
    assert(placed.entry < placed.entry as int / SZ_1G as int * SZ_1G as int + SZ_1G);
    lemma_place_behind(
        range,
        placed.occupied,
        size,
        PAGE_SIZE,
        top as u64,
        limit as u64,
        SegmentKind::Initrd,
        top,
    );
}

proof fn lemma_tree_and_code_fit(
    patched: Seq<u8>,
    placed: KernelPlace,
    occupied: Seq<PhysRange>,
    range: PhysRange,
    code: Seq<u8>,
    kernel_slot: int,
    dtb_slot: int,
    top: int,
)
    requires
        0 < patched.len() <= 0x20_0000,
        0 <= kernel_slot <= code.len() - 8,
        0 <= dtb_slot <= code.len() - 8,
        end_by(occupied, top),
        range.start <= top,
        placed.entry + placed.memsz <= top,
        range.end <= 0x100_0000_0000,
        top + code.len() + 0x80_0000 <= range.end,
    ensures
        behind_kernel(
            patched,
            SegmentKind::Dtb,
            SZ_2M,
            placed,
            occupied,
            seq![range],
        ) matches Ok((tree, behind)) && filled_trampoline(
            code,
            kernel_slot,
            dtb_slot,
            placed.entry,
            tree.phys,
        ) matches Ok(filled) && behind_kernel(
            filled,
            SegmentKind::Trampoline,
            PAGE_SIZE,
            placed,
            behind,
            seq![range],
        ) is Ok,
{
    lemma_behind_fits(patched, SegmentKind::Dtb, SZ_2M, placed, occupied, range, top);
    let (tree, behind) = behind_kernel(
        patched,
        SegmentKind::Dtb,
        SZ_2M,
        placed,
        occupied,
        seq![range],
    )->Ok_0;
    let filled = with_u64(with_u64(code, kernel_slot, placed.entry), dtb_slot, tree.phys);
    law_double_word_bytes_round_trip(placed.entry);
    law_double_word_bytes_round_trip(tree.phys);
    assert(filled.len() == code.len());
    lemma_behind_fits(
        filled,
        SegmentKind::Trampoline,
        PAGE_SIZE,
        placed,
        behind,
        range,
        top + SZ_2M + patched.len() + 4096,
    );
}

proof fn lemma_parts_fit(
    kernel: Seq<u8>,
    initrd: Option<Seq<u8>>,
    header: ImageHeader,
    range: PhysRange,
    room: int,
)
    requires
        0 < header.image_size,
        kernel.len() <= header.image_size,
        range.end <= 0x100_0000_0000,
        range.end <= range.start + 0x4_0000_0000,
        room == (if initrd is Some {
            initrd->0.len() as int
        } else {
            0
        }),
        range.start + header.text_offset + header.image_size + room + 0x80_0000 <= range.end,
    ensures
        kernel_place(kernel, header, seq![range]) matches Ok(placed) && ramdisk_place(
            initrd,
            placed,
            seq![range],
        ) matches Ok((ramdisk, occupied)) && {
            let top = placed.entry + placed.memsz + room + 8192;
            &&& end_by(occupied, top)
            &&& range.start <= placed.entry
            &&& top <= range.start + header.text_offset + header.image_size + room + 0x40_0000
        },
{
    lemma_kernel_fits(kernel, header, range);
    let placed = kernel_place(kernel, header, seq![range])->Ok_0;
    if initrd is Some && initrd->0.len() > 0 {
        lemma_ramdisk_fits(initrd->0, placed, range);
    }
}

/// A kernel is loaded where there is room for it: with a usable range that holds the kernel behind
/// its text offset, the ramdisk, and sixteen mebibytes and the code besides, a kernel whose header
/// is sound is loaded, with a ramdisk or without, as long as the device tree can tell of them.
#[verifier::spinoff_prover]
#[verifier::rlimit(100)]
pub proof fn law_kernels_with_room_are_loaded(
    kernel: Seq<u8>,
    initrd: Option<Seq<u8>>,
    dtb: Seq<u8>,
    cmdline: Seq<char>,
    range: PhysRange,
    code: Seq<u8>,
    kernel_slot: int,
    dtb_slot: int,
)
    requires
        64 <= kernel.len() <= le64(kernel, 16),
        le32(kernel, 56) == 0x644d_5241,
        le64(kernel, 8) % 4096 == 0,
        dtb.len() > 0,
        forall|bounds: Option<(u64, u64)>|
            (#[trigger] chosen_patched(dtb, cmdline, bounds)) matches Ok(tree) && 0 < tree.len()
                <= 0x20_0000,
        0 <= kernel_slot <= code.len() - 8,
        0 <= dtb_slot <= code.len() - 8,
        range.end <= 0x100_0000_0000,
        range.end <= range.start + 0x4_0000_0000,
        range.start + le64(kernel, 8) + le64(kernel, 16) + (if initrd is Some {
            initrd->0.len()
        } else {
            0
        }) + code.len() + 0x100_0000 <= range.end,
    ensures
        plan(
            kernel,
            initrd,
            dtb,
            cmdline,
            seq![range],
            code,
            kernel_slot,
            dtb_slot,
        ) is Ok,
{
    let usable = seq![range];
    let header = ImageHeader { text_offset: le64(kernel, 8), image_size: le64(kernel, 16) };
    assert(image_header(kernel) == Ok::<ImageHeader, LoadError>(header));
    let room = if initrd is Some {
        initrd->0.len() as int
    } else {
        0
    };
    lemma_parts_fit(kernel, initrd, header, range, room);
    let placed = kernel_place(kernel, header, usable)->Ok_0;
    let (ramdisk, occupied) = ramdisk_place(initrd, placed, usable)->Ok_0;
    lemma_tree_and_code_fit(
        chosen_patched(dtb, cmdline, ramdisk_bounds(ramdisk))->Ok_0,
        placed,
        occupied,
        range,
        code,
        kernel_slot,
        dtb_slot,
        placed.entry + placed.memsz + room + 8192,
    );
}

/// Only raw images are loaded, whose text offset is in whole pages, and only with a device tree and
/// usable memory.
#[verifier::spinoff_prover]
#[verifier::rlimit(60)]
pub proof fn law_only_raw_images_are_loaded(
    kernel: Seq<u8>,
    initrd: Option<Seq<u8>>,
    dtb: Seq<u8>,
    cmdline: Seq<char>,
    usable: Seq<PhysRange>,
    code: Seq<u8>,
    kernel_slot: int,
    dtb_slot: int,
)
    ensures
        plan(
            kernel,
            initrd,
            dtb,
            cmdline,
            usable,
            code,
            kernel_slot,
            dtb_slot,
        ) is Ok ==> {
            &&& kernel.len() >= 64
            &&& le32(kernel, 56) == 0x644d_5241
            &&& le64(kernel, 16) != 0 ==> le64(kernel, 8) % 4096 == 0
            &&& dtb.len() > 0
            &&& usable.len() > 0
        },
{
    assert(image_header(kernel) is Err ==> plan(
        kernel,
        initrd,
        dtb,
        cmdline,
        usable,
        code,
        kernel_slot,
        dtb_slot,
    ) is Err);
}

} // verus!
