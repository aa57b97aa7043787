//! Fixed-width integers inside byte sequences.
use vstd::prelude::*;

verus! {

/// The UTF-8 bytes of a piece of text.
pub open spec fn utf8(text: Seq<char>) -> Seq<u8> {
    vstd::utf8::encode_utf8(text)
}

/// Whether `size` bytes starting at `offset` lie inside `data`.
pub open spec fn in_bounds(data: Seq<u8>, offset: int, size: int) -> bool {
    0 <= offset && 0 <= size && offset + size <= data.len()
}

/// The little-endian 16-bit integer at `at`.
pub open spec fn le16(s: Seq<u8>, at: int) -> u16 {
    (s[at] + 0x100 * s[at + 1]) as u16
}

/// The little-endian 32-bit integer at `at`.
pub open spec fn le32(s: Seq<u8>, at: int) -> u32 {
    (s[at] + 0x100 * s[at + 1] + 0x1_0000 * s[at + 2] + 0x100_0000 * s[at + 3]) as u32
}

/// The little-endian 64-bit integer at `at`.
pub open spec fn le64(s: Seq<u8>, at: int) -> u64 {
    (le32(s, at) + 0x1_0000_0000 * le32(s, at + 4)) as u64
}

/// The big-endian 32-bit integer at `at`.
pub open spec fn be32(s: Seq<u8>, at: int) -> u32 {
    (0x100_0000 * s[at] + 0x1_0000 * s[at + 1] + 0x100 * s[at + 2] + s[at + 3]) as u32
}

/// The big-endian 64-bit integer at `at`.
pub open spec fn be64(s: Seq<u8>, at: int) -> u64 {
    (0x1_0000_0000 * be32(s, at) + be32(s, at + 4)) as u64
}

/// The four bytes of `v`, least significant first.
#[verifier::opaque]
pub open spec fn le32_bytes(v: u32) -> Seq<u8> {
    seq![
        (v % 0x100) as u8,
        (v / 0x100 % 0x100) as u8,
        (v / 0x1_0000 % 0x100) as u8,
        (v / 0x100_0000) as u8,
    ]
}

/// The eight bytes of `v`, least significant first.
#[verifier::opaque]
pub open spec fn le64_bytes(v: u64) -> Seq<u8> {
    le32_bytes((v % 0x1_0000_0000) as u32) + le32_bytes((v / 0x1_0000_0000) as u32)
}

/// The four bytes of `v`, most significant first.
#[verifier::opaque]
pub open spec fn be32_bytes(v: u32) -> Seq<u8> {
    seq![
        (v / 0x100_0000) as u8,
        (v / 0x1_0000 % 0x100) as u8,
        (v / 0x100 % 0x100) as u8,
        (v % 0x100) as u8,
    ]
}

/// The eight bytes of `v`, most significant first.
#[verifier::opaque]
pub open spec fn be64_bytes(v: u64) -> Seq<u8> {
    be32_bytes((v / 0x1_0000_0000) as u32) + be32_bytes((v % 0x1_0000_0000) as u32)
}

/// Reading back the four bytes of an integer gives the integer, in both byte orders.
pub proof fn law_word_bytes_round_trip(v: u32)
    ensures
        le32_bytes(v).len() == 4,
        be32_bytes(v).len() == 4,
        le32(le32_bytes(v), 0) == v,
        be32(be32_bytes(v), 0) == v,
{
    reveal(le32_bytes);
    reveal(be32_bytes);
}

/// Reading back the eight bytes of an integer gives the integer, in both byte orders.
pub proof fn law_double_word_bytes_round_trip(v: u64)
    ensures
        le64_bytes(v).len() == 8,
        be64_bytes(v).len() == 8,
        le64(le64_bytes(v), 0) == v,
        be64(be64_bytes(v), 0) == v,
{
    reveal(le64_bytes);
    reveal(be64_bytes);
    let lo = (v % 0x1_0000_0000) as u32;
    let hi = (v / 0x1_0000_0000) as u32;
    law_word_bytes_round_trip(lo);
    law_word_bytes_round_trip(hi);
    lemma_le32_in(le32_bytes(lo), le32_bytes(hi), Seq::empty());
    lemma_be32_in(be32_bytes(hi), be32_bytes(lo), Seq::empty());
    lemma_le32_in(Seq::empty(), le32_bytes(lo), le32_bytes(hi));
    lemma_be32_in(Seq::empty(), be32_bytes(hi), be32_bytes(lo));
    assert(Seq::<u8>::empty() + le32_bytes(lo) + le32_bytes(hi) =~= le64_bytes(v));
    assert(le32_bytes(lo) + le32_bytes(hi) + Seq::<u8>::empty() =~= le64_bytes(v));
    assert(Seq::<u8>::empty() + be32_bytes(hi) + be32_bytes(lo) =~= be64_bytes(v));
    assert(be32_bytes(hi) + be32_bytes(lo) + Seq::<u8>::empty() =~= be64_bytes(v));
}

/// An integer keeps its value when its bytes stand inside a longer sequence.
pub proof fn lemma_le32_in(before: Seq<u8>, word: Seq<u8>, after: Seq<u8>)
    requires
        word.len() == 4,
    ensures
        le32(before + word + after, before.len() as int) == le32(word, 0),
{
    let whole = before + word + after;
    let n = before.len() as int;
    assert(whole[n] == word[0]);
    assert(whole[n + 1] == word[1]);
    assert(whole[n + 2] == word[2]);
    assert(whole[n + 3] == word[3]);
}

/// An integer keeps its value when its bytes stand inside a longer sequence.
pub proof fn lemma_be32_in(before: Seq<u8>, word: Seq<u8>, after: Seq<u8>)
    requires
        word.len() == 4,
    ensures
        be32(before + word + after, before.len() as int) == be32(word, 0),
{
    let whole = before + word + after;
    let n = before.len() as int;
    assert(whole[n] == word[0]);
    assert(whole[n + 1] == word[1]);
    assert(whole[n + 2] == word[2]);
    assert(whole[n + 3] == word[3]);
}

/// The little-endian 16-bit integer at `at`.
pub fn le_u16(data: &[u8], at: usize) -> (v: u16)
    requires
        at + 2 <= data.len(),
    ensures
        v == le16(data@, at as int),
{
    data[at] as u16 + 0x100 * (data[at + 1] as u16)
}

/// The little-endian 32-bit integer at `at`.
pub fn le_u32(data: &[u8], at: usize) -> (v: u32)
    requires
        at + 4 <= data.len(),
    ensures
        v == le32(data@, at as int),
{
    data[at] as u32 + 0x100 * (data[at + 1] as u32) + 0x1_0000 * (data[at + 2] as u32)
        + 0x100_0000 * (data[at + 3] as u32)
}

/// The little-endian 64-bit integer at `at`.
pub fn le_u64(data: &[u8], at: usize) -> (v: u64)
    requires
        at + 8 <= data.len(),
    ensures
        v == le64(data@, at as int),
{
    le_u32(data, at) as u64 + 0x1_0000_0000 * (le_u32(data, at + 4) as u64)
}

/// The big-endian 32-bit integer at `at`.
pub fn be_u32(data: &[u8], at: usize) -> (v: u32)
    requires
        at + 4 <= data.len(),
    ensures
        v == be32(data@, at as int),
{
    0x100_0000 * (data[at] as u32) + 0x1_0000 * (data[at + 1] as u32) + 0x100 * (data[at
        + 2] as u32) + data[at + 3] as u32
}

/// The big-endian 64-bit integer at `at`.
pub fn be_u64(data: &[u8], at: usize) -> (v: u64)
    requires
        at + 8 <= data.len(),
    ensures
        v == be64(data@, at as int),
{
    0x1_0000_0000 * (be_u32(data, at) as u64) + be_u32(data, at + 4) as u64
}

/// Appends `data` to `out`.
pub fn push_bytes(out: &mut Vec<u8>, data: &[u8])
    ensures
        final(out)@ == old(out)@ + data@,
{
    out.extend_from_slice(data);
    assert(out@ =~= old(out)@ + data@);
}

/// Appends the four bytes of `v`, least significant first.
pub fn push_le_u32(out: &mut Vec<u8>, v: u32)
    ensures
        final(out)@ == old(out)@ + le32_bytes(v),
        final(out)@.len() == old(out)@.len() + 4,
{
    reveal(le32_bytes);
    out.push((v % 0x100) as u8);
    out.push((v / 0x100 % 0x100) as u8);
    out.push((v / 0x1_0000 % 0x100) as u8);
    out.push((v / 0x100_0000) as u8);
    assert(out@ =~= old(out)@ + le32_bytes(v));
}

/// Appends the eight bytes of `v`, least significant first.
pub fn push_le_u64(out: &mut Vec<u8>, v: u64)
    ensures
        final(out)@ == old(out)@ + le64_bytes(v),
        final(out)@.len() == old(out)@.len() + 8,
{
    reveal(le64_bytes);
    push_le_u32(out, (v % 0x1_0000_0000) as u32);
    push_le_u32(out, (v / 0x1_0000_0000) as u32);
    assert(out@ =~= old(out)@ + le64_bytes(v));
}

/// Appends the four bytes of `v`, most significant first.
pub fn push_be_u32(out: &mut Vec<u8>, v: u32)
    ensures
        final(out)@ == old(out)@ + be32_bytes(v),
        final(out)@.len() == old(out)@.len() + 4,
{
    reveal(be32_bytes);
    out.push((v / 0x100_0000) as u8);
    out.push((v / 0x1_0000 % 0x100) as u8);
    out.push((v / 0x100 % 0x100) as u8);
    out.push((v % 0x100) as u8);
    assert(out@ =~= old(out)@ + be32_bytes(v));
}

/// Appends the eight bytes of `v`, most significant first.
pub fn push_be_u64(out: &mut Vec<u8>, v: u64)
    ensures
        final(out)@ == old(out)@ + be64_bytes(v),
        final(out)@.len() == old(out)@.len() + 8,
{
    reveal(be64_bytes);
    push_be_u32(out, (v / 0x1_0000_0000) as u32);
    push_be_u32(out, (v % 0x1_0000_0000) as u32);
    assert(out@ =~= old(out)@ + be64_bytes(v));
}

/// Whether two byte strings are equal.
pub fn same_bytes(a: &[u8], b: &[u8]) -> (same: bool)
    ensures
        same == (a@ == b@),
{
    if a.len() != b.len() {
        return false;
    }
    let mut i: usize = 0;
    while i < a.len()
        invariant
            i <= a@.len(),
            a@.len() == b@.len(),
            forall|k: int| 0 <= k < i ==> a@[k] == b@[k],
        decreases a@.len() - i,
    {
        if a[i] != b[i] {
            return false;
        }
        i += 1;
    }
    assert(a@ =~= b@);
    true
}

/// Whether `data` begins with `prefix`.
pub fn has_prefix(data: &[u8], prefix: &[u8]) -> (found: bool)
    ensures
        found == prefix@.is_prefix_of(data@),
{
    if data.len() < prefix.len() {
        return false;
    }
    same_bytes(&data[0..prefix.len()], prefix)
}

/// Whether `pattern` stands in `data` at `offset`.
pub open spec fn bytes_at(data: Seq<u8>, offset: int, pattern: Seq<u8>) -> bool {
    in_bounds(data, offset, pattern.len() as int) && data.subrange(
        offset,
        offset + pattern.len(),
    ) == pattern
}

/// Whether `pattern` stands in `data` at `offset`.
pub fn matches_at(data: &[u8], offset: usize, pattern: &[u8]) -> (found: bool)
    ensures
        found == bytes_at(data@, offset as int, pattern@),
{
    if offset > data.len() || data.len() - offset < pattern.len() {
        return false;
    }
    same_bytes(&data[offset..offset + pattern.len()], pattern)
}

/// The place of the first `wanted` in `s` at or after `from`, or the length of `s`.
pub open spec fn next_byte(s: Seq<u8>, from: int, wanted: u8) -> int
    decreases s.len() - from,
{
    if from < 0 || from >= s.len() {
        s.len() as int
    } else if s[from] == wanted {
        from
    } else {
        next_byte(s, from + 1, wanted)
    }
}

/// `next_byte` is the first match, and no match comes before it.
pub proof fn lemma_next_byte(s: Seq<u8>, from: int, wanted: u8)
    requires
        0 <= from <= s.len(),
    ensures
        from <= next_byte(s, from, wanted) <= s.len(),
        forall|k: int| from <= k < next_byte(s, from, wanted) ==> s[k] != wanted,
        next_byte(s, from, wanted) < s.len() ==> s[next_byte(s, from, wanted)] == wanted,
    decreases s.len() - from,
{
    if from < s.len() && s[from] != wanted {
        lemma_next_byte(s, from + 1, wanted);
    }
}

/// The place of the first `wanted` in `data` at or after `from`, or the length of `data`.
pub fn find_byte(data: &[u8], from: usize, wanted: u8) -> (at: usize)
    requires
        from <= data.len(),
    ensures
        at == next_byte(data@, from as int, wanted),
        from <= at <= data.len(),
        at < data@.len() ==> data@[at as int] == wanted,
        forall|k: int| from <= k < at ==> data@[k] != wanted,
{
    let mut at: usize = from;
    while at < data.len() && data[at] != wanted
        invariant
            from <= at <= data.len(),
            next_byte(data@, from as int, wanted) == next_byte(data@, at as int, wanted),
            forall|k: int| from <= k < at ==> data@[k] != wanted,
        decreases data@.len() - at,
    {
        at += 1;
    }
    at
}

/// `value` rounded up to a multiple of `align`.
pub open spec fn round_up(value: int, align: int) -> int {
    (value + align - 1) / align * align
}

/// The views of a list of byte strings.
pub open spec fn parts(v: Seq<Vec<u8>>) -> Seq<Seq<u8>> {
    Seq::new(v.len(), |i: int| v[i]@)
}

/// Appends all byte strings of a list, one behind the other.
pub fn push_parts(out: &mut Vec<u8>, list: &[Vec<u8>])
    ensures
        final(out)@ == old(out)@ + parts(list@).flatten(),
{
    let ghost start = out@;
    let ghost all = parts(list@);
    let mut i: usize = 0;
    proof {
        assert(all.take(0) =~= Seq::empty());
        assert(all.take(0).flatten() =~= Seq::empty());
        assert(start + Seq::<u8>::empty() =~= start);
    }
    while i < list.len()
        invariant
            i <= list@.len(),
            all == parts(list@),
            out@ == start + all.take(i as int).flatten(),
        decreases list@.len() - i,
    {
        proof {
            assert(all.take(i + 1) =~= all.take(i as int).push(all[i as int]));
            all.take(i as int).lemma_flatten_push(all[i as int]);
        }
        push_bytes(out, list[i].as_slice());
        i += 1;
        assert(out@ =~= start + all.take(i as int).flatten());
    }
    assert(all.take(i as int) =~= all);
}

/// `data` cut into pieces of `size` bytes; the last one may be shorter.
pub open spec fn chunks(data: Seq<u8>, size: int) -> Seq<Seq<u8>>
    decreases data.len(),
{
    if size <= 0 || data.len() == 0 {
        Seq::empty()
    } else if data.len() <= size {
        seq![data]
    } else {
        seq![data.take(size)] + chunks(data.skip(size), size)
    }
}

/// The pieces one behind the other.
pub open spec fn concat(list: Seq<Seq<u8>>) -> Seq<u8>
    decreases list.len(),
{
    if list.len() == 0 {
        Seq::empty()
    } else {
        list[0] + concat(list.skip(1))
    }
}

/// The pieces of bytes give the bytes back, and none is empty or longer than `size`.
pub proof fn law_chunks_join(data: Seq<u8>, size: int)
    requires
        size > 0,
    ensures
        concat(chunks(data, size)) == data,
        forall|i: int|
            0 <= i < chunks(data, size).len() ==> 0 < (#[trigger] chunks(data, size)[i]).len()
                <= size,
    decreases data.len(),
{
    let list = chunks(data, size);
    if data.len() == 0 {
        assert(concat(list) =~= data);
    } else if data.len() <= size {
        assert(list.skip(1) =~= Seq::<Seq<u8>>::empty());
        assert(concat(list.skip(1)) =~= Seq::<u8>::empty());
        assert(concat(list) =~= data);
    } else {
        let rest = chunks(data.skip(size), size);
        law_chunks_join(data.skip(size), size);
        assert(list.skip(1) =~= rest);
        assert(concat(list) =~= data);
        assert forall|i: int| 0 <= i < list.len() implies 0 < (#[trigger] list[i]).len()
            <= size by {
            if i > 0 {
                assert(list[i] == rest[i - 1]);
            }
        }
    }
}

/// The place of the first zero byte, or the length of `data`.
pub open spec fn c_length(data: Seq<u8>) -> int {
    next_byte(data, 0, 0u8)
}

/// What stands before the first zero byte.
pub open spec fn c_bytes(data: Seq<u8>) -> Seq<u8> {
    data.take(c_length(data))
}

/// What stands before the first zero byte.
pub fn until_zero(data: &[u8]) -> (r: &[u8])
    ensures
        r@ == c_bytes(data@),
{
    let end = find_byte(data, 0, 0);
    let r = &data[0..end];
    assert(r@ =~= c_bytes(data@));
    r
}

/// Whether a byte is a space in ASCII.
pub open spec fn is_space_byte(b: u8) -> bool {
    b == 0x20 || b == 0x09 || b == 0x0a || b == 0x0c || b == 0x0d
}

/// Whether a byte is a space in ASCII.
pub fn space_byte(b: u8) -> (r: bool)
    ensures
        r == is_space_byte(b),
{
    b == 0x20 || b == 0x09 || b == 0x0a || b == 0x0c || b == 0x0d
}

/// Bytes from the first that is no space on.
pub open spec fn without_front(s: Seq<u8>) -> Seq<u8>
    decreases s.len(),
{
    if s.len() > 0 && is_space_byte(s[0]) {
        without_front(s.skip(1))
    } else {
        s
    }
}

/// Bytes to the last that is no space.
pub open spec fn without_back(s: Seq<u8>) -> Seq<u8>
    decreases s.len(),
{
    if s.len() > 0 && is_space_byte(s.last()) {
        without_back(s.drop_last())
    } else {
        s
    }
}

/// Bytes without the spaces around them.
pub fn trim_ascii_bytes(bytes: &[u8]) -> (r: &[u8])
    ensures
        r@ == without_back(without_front(bytes@)),
{
    let mut start: usize = 0;
    assert(bytes@.skip(0) =~= bytes@);
    while start < bytes.len() && space_byte(bytes[start])
        invariant
            start <= bytes@.len(),
            without_front(bytes@.skip(start as int)) == without_front(bytes@),
        decreases bytes@.len() - start,
    {
        assert(bytes@.skip(start as int).skip(1) =~= bytes@.skip(start + 1));
        start += 1;
    }
    let ghost front = bytes@.skip(start as int);
    let mut end: usize = bytes.len();
    assert(bytes@.subrange(start as int, end as int) =~= front);
    while end > start && space_byte(bytes[end - 1])
        invariant
            start <= end <= bytes@.len(),
            without_back(bytes@.subrange(start as int, end as int)) == without_back(front),
        decreases end - start,
    {
        assert(bytes@.subrange(start as int, end as int).drop_last() =~= bytes@.subrange(
            start as int,
            end - 1,
        ));
        end -= 1;
    }
    &bytes[start..end]
}

} // verus!
