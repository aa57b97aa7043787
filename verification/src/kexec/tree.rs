//! What a device tree says to the one that reads it, and what patching it changes of that.
use vstd::prelude::*;
use vstd::string::*;

use crate::bytes::{
    be32, be32_bytes, be64, be64_bytes, law_word_bytes_round_trip, lemma_be32_in, lemma_next_byte,
    next_byte, round_up, utf8,
};
use crate::kexec::fdt::{
    after_token, begin_at, begin_node_bytes, built, chosen_patched, chosen_props, chosen_strings,
    header_bytes, header_fields, header_of, lemma_token_at, padded4, patch_start, patch_step,
    patched_from, prop_bytes, prop_name, property_at, replaces, reservations, string_of,
    string_offset, strings_block, struct_block, token_at, with_string, ChosenOffsets, FdtError,
    Header, PatchState, Token, FDT_BEGIN_NODE, FDT_END, FDT_END_NODE, FDT_MAGIC, FDT_PROP,
};

verus! {

/// A thing that a tree says: that a node of a name begins, that the open node has a property of a
/// name and a value, or that the open node ends.
pub enum Item {
    Open(Seq<u8>),
    Value { name: Seq<u8>, value: Seq<u8> },
    Close,
}

/// What the token at the start of a block says, where its name is to be had.
pub open spec fn said(block: Seq<u8>, strings: Seq<u8>, token: Token) -> Option<Seq<Item>> {
    match token {
        Token::Begin { name_end, .. } => Some(seq![Item::Open(block.subrange(4, name_end as int))]),
        Token::End => Some(seq![Item::Close]),
        Token::Prop { nameoff, value_start, value_end, .. } => match string_of(
            strings,
            nameoff as int,
        ) {
            None => None,
            Some(name) => Some(
                seq![
                    Item::Value {
                        name,
                        value: block.subrange(value_start as int, value_end as int),
                    },
                ],
            ),
        },
        _ => Some(Seq::empty()),
    }
}

#[via_fn]
proof fn items_of_decreases(block: Seq<u8>, strings: Seq<u8>) {
    lemma_token_at(block, 0);
}

/// All that a structure block says, with the names of its properties among the strings.
pub open spec fn items_of(block: Seq<u8>, strings: Seq<u8>) -> Option<Seq<Item>>
    decreases block.len(),
    via items_of_decreases
{
    match token_at(block, 0) {
        Err(_) => None,
        Ok(token) => match said(block, strings, token) {
            None => None,
            Some(front) => {
                let next = after_token(0, token);
                if token is Finish {
                    Some(front)
                } else if next > block.len() {
                    None
                } else {
                    match items_of(block.skip(next), strings) {
                        None => None,
                        Some(rest) => Some(front + rest),
                    }
                }
            },
        },
    }
}

/// All that a tree says.
pub open spec fn tree_items(dtb: Seq<u8>) -> Option<Seq<Item>> {
    match header_of(dtb) {
        Err(_) => None,
        Ok(h) => items_of(struct_block(dtb, h), strings_block(dtb, h)),
    }
}

/// A token that stands further on by `by` bytes.
pub open spec fn moved(token: Token, by: int) -> Token {
    match token {
        Token::Begin { name_end, next } => Token::Begin {
            name_end: (name_end + by) as usize,
            next: (next + by) as usize,
        },
        Token::Prop { len, nameoff, value_start, value_end, next } => Token::Prop {
            len,
            nameoff,
            value_start: (value_start + by) as usize,
            value_end: (value_end + by) as usize,
            next: (next + by) as usize,
        },
        _ => token,
    }
}

proof fn lemma_round_up(value: int, by: int)
    requires
        by % 4 == 0,
    ensures
        round_up(value + by, 4) == round_up(value, 4) + by,
        round_up(value, 4) % 4 == 0,
        value <= round_up(value, 4) <= value + 3,
{
}

/// Whether the `size` bytes of `a` from `i` on are those of `b` from `j` on.
pub open spec fn same_piece(a: Seq<u8>, i: int, b: Seq<u8>, j: int, size: int) -> bool {
    &&& 0 <= i && i + size <= a.len()
    &&& 0 <= j && j + size <= b.len()
    &&& forall|k: int| i <= k < i + size ==> #[trigger] a[k] == b[k - i + j]
}

proof fn lemma_begin_moves(block: Seq<u8>, start: int, other: Seq<u8>, at: int, size: int)
    requires
        begin_at(block, start) matches Ok(Token::Begin { name_end, next }) && name_end < start
            + size,
        same_piece(other, at, block, start, size),
        (at - start) % 4 == 0,
        other.len() + 3 <= usize::MAX,
    ensures
        begin_at(other, at) == Ok::<Token, FdtError>(moved(begin_at(block, start)->Ok_0, at - start)),
{
    let name_end = begin_at(block, start)->Ok_0->name_end;
    let d = at - start;
    lemma_next_byte(block, start, 0);
    lemma_next_byte(other, at, 0);
    let m = next_byte(other, at, 0);
    assert(other[name_end + d] == block[name_end as int]);
    if m < name_end + d {
        assert(other[m] == block[m - d]);
        assert(false);
    }
    assert(m == name_end + d);
    lemma_round_up(name_end + 1, d);
    lemma_round_up(name_end + 1 + d, 0);
}

proof fn lemma_prop_moves(block: Seq<u8>, start: int, other: Seq<u8>, at: int, size: int)
    requires
        property_at(block, start) matches Ok(Token::Prop { next, .. }) && next == start + size,
        size >= 8,
        same_piece(other, at, block, start, size),
        (at - start) % 4 == 0,
        other.len() + 3 <= usize::MAX,
    ensures
        property_at(other, at) == Ok::<Token, FdtError>(
            moved(property_at(block, start)->Ok_0, at - start),
        ),
{
    let d = at - start;
    assert(other[at] == block[start]);
    assert(other[at + 1] == block[start + 1]);
    assert(other[at + 2] == block[start + 2]);
    assert(other[at + 3] == block[start + 3]);
    assert(other[at + 4] == block[start + 4]);
    assert(other[at + 5] == block[start + 5]);
    assert(other[at + 6] == block[start + 6]);
    assert(other[at + 7] == block[start + 7]);
    assert(be32(other, at) == be32(block, start));
    assert(be32(other, at + 4) == be32(block, start + 4));
    let end = start + 8 + be32(block, start);
    lemma_round_up(end, d);
    lemma_round_up(end + d, 0);
}

/// A token says the same wherever its bytes stand.
pub proof fn lemma_token_moves(block: Seq<u8>, cursor: int, other: Seq<u8>, at: int, size: int)
    requires
        0 <= cursor,
        token_at(block, cursor) matches Ok(token) && after_token(cursor, token) == cursor + size,
        same_piece(other, at, block, cursor, size),
        (at - cursor) % 4 == 0,
        other.len() + 3 <= usize::MAX,
    ensures
        token_at(other, at) == Ok::<Token, FdtError>(
            moved(token_at(block, cursor)->Ok_0, at - cursor),
        ),
{
    lemma_token_at(block, cursor);
    reveal(token_at);
    assert(other[at] == block[cursor]);
    assert(other[at + 1] == block[cursor + 1]);
    assert(other[at + 2] == block[cursor + 2]);
    assert(other[at + 3] == block[cursor + 3]);
    assert(be32(other, at) == be32(block, cursor));
    match token_at(block, cursor)->Ok_0 {
        Token::Begin { name_end, next } => {
            lemma_begin_moves(block, cursor + 4, other, at + 4, size - 4);
        },
        Token::Prop { .. } => {
            lemma_prop_moves(block, cursor + 4, other, at + 4, size - 4);
        },
        _ => {},
    }
}

/// What stands in front of a block says its own, and the block then says what it says alone.
pub proof fn lemma_items_front(piece: Seq<u8>, tail: Seq<u8>, strings: Seq<u8>)
    requires
        token_at(piece, 0) matches Ok(token) && !(token is Finish) && after_token(0, token)
            == piece.len(),
        piece.len() + tail.len() + 3 <= usize::MAX,
    ensures
        items_of(piece + tail, strings) == (match (
            said(piece, strings, token_at(piece, 0)->Ok_0),
            items_of(tail, strings),
        ) {
            (Some(front), Some(rest)) => Some(front + rest),
            _ => None,
        }),
{
    let token = token_at(piece, 0)->Ok_0;
    let whole = piece + tail;
    lemma_token_at(piece, 0);
    lemma_token_moves(piece, 0, whole, 0, piece.len() as int);
    assert(moved(token, 0) == token);
    assert(whole.skip(piece.len() as int) =~= tail);
    match token {
        Token::Begin { name_end, .. } => {
            assert(whole.subrange(4, name_end as int) =~= piece.subrange(4, name_end as int));
        },
        Token::Prop { value_start, value_end, .. } => {
            assert(whole.subrange(value_start as int, value_end as int) =~= piece.subrange(
                value_start as int,
                value_end as int,
            ));
        },
        _ => {},
    }
}

/// The bytes that open a node are read as such.
proof fn lemma_begin_bytes(name: Seq<u8>)
    requires
        forall|i: int| 0 <= i < name.len() ==> #[trigger] name[i] != 0,
        name.len() + 16 <= usize::MAX,
    ensures
        ({
            let bytes = begin_node_bytes(name);
            &&& bytes.len() % 4 == 0
            &&& name.len() + 5 <= bytes.len() <= name.len() + 8
            &&& token_at(bytes, 0) == Ok::<Token, FdtError>(
                Token::Begin { name_end: (4 + name.len()) as usize, next: bytes.len() as usize },
            )
            &&& bytes.subrange(4, 4int + name.len()) == name
        }),
{
    reveal(begin_node_bytes);
    reveal(token_at);
    law_word_bytes_round_trip(FDT_BEGIN_NODE);
    let bytes = begin_node_bytes(name);
    let word = be32_bytes(FDT_BEGIN_NODE);
    let body = word + name + seq![0u8];
    assert(bytes == padded4(body));
    assert(bytes[0] == word[0] && bytes[1] == word[1] && bytes[2] == word[2] && bytes[3]
        == word[3]);
    assert(be32(bytes, 0) == FDT_BEGIN_NODE);
    assert(bytes.subrange(4, 4int + name.len()) =~= name);
    let end = 4int + name.len();
    assert(bytes[end] == 0);
    lemma_next_byte(bytes, 4, 0);
    let m = next_byte(bytes, 4, 0);
    if m < end {
        assert(bytes[m] == name[m - 4]);
        assert(false);
    }
    assert(m == end);
    lemma_round_up(end + 1, 0);
}

/// The length of a sequence filled up to whole words.
proof fn lemma_padded_length(s: Seq<u8>)
    ensures
        padded4(s).len() == round_up(s.len() as int, 4),
        padded4(s).len() >= s.len(),
        padded4(s).len() % 4 == 0,
        forall|i: int| 0 <= i < s.len() ==> #[trigger] padded4(s)[i] == s[i],
{
}

/// Three words in front of a value keep their values when all of it is filled up to whole words.
proof fn lemma_three_words(a: Seq<u8>, b: Seq<u8>, c: Seq<u8>, value: Seq<u8>)
    requires
        a.len() == 4,
        b.len() == 4,
        c.len() == 4,
    ensures
        ({
            let bytes = padded4(a + b + c + value);
            &&& bytes.len() == round_up(12int + value.len(), 4)
            &&& bytes.len() >= value.len() + 12
            &&& bytes.len() % 4 == 0
            &&& be32(bytes, 0) == be32(a, 0)
            &&& be32(bytes, 4) == be32(b, 0)
            &&& be32(bytes, 8) == be32(c, 0)
            &&& bytes.subrange(12, 12int + value.len()) == value
        }),
{
    let body = a + b + c + value;
    let bytes = padded4(body);
    lemma_padded_length(body);
    assert(body[0] == a[0] && body[1] == a[1] && body[2] == a[2] && body[3] == a[3]);
    assert(body[4] == b[0] && body[5] == b[1] && body[6] == b[2] && body[7] == b[3]);
    assert(body[8] == c[0] && body[9] == c[1] && body[10] == c[2] && body[11] == c[3]);
    assert forall|i: int| 0 <= i < value.len() implies #[trigger] bytes[12 + i] == value[i] by {
        assert(body[12 + i] == value[i]);
    }
    assert(bytes.subrange(12, 12int + value.len()) =~= value);
}

proof fn lemma_prop_words(nameoff: u32, value: Seq<u8>)
    requires
        value.len() <= u32::MAX,
    ensures
        ({
            let bytes = prop_bytes(nameoff, value);
            &&& bytes.len() == round_up(12int + value.len(), 4)
            &&& be32(bytes, 0) == FDT_PROP
            &&& be32(bytes, 4) == value.len()
            &&& be32(bytes, 8) == nameoff
            &&& bytes.subrange(12, 12int + value.len()) == value
        }),
{
    reveal(prop_bytes);
    let len = value.len() as u32;
    law_word_bytes_round_trip(FDT_PROP);
    law_word_bytes_round_trip(len);
    law_word_bytes_round_trip(nameoff);
    lemma_three_words(be32_bytes(FDT_PROP), be32_bytes(len), be32_bytes(nameoff), value);
}

/// The bytes of a property are read as such.
proof fn lemma_prop_bytes(nameoff: u32, value: Seq<u8>)
    requires
        value.len() <= u32::MAX,
        value.len() + 16 <= usize::MAX,
    ensures
        ({
            let bytes = prop_bytes(nameoff, value);
            &&& bytes.len() % 4 == 0
            &&& value.len() + 12 <= bytes.len() <= value.len() + 15
            &&& token_at(bytes, 0) == Ok::<Token, FdtError>(
                Token::Prop {
                    len: value.len() as u32,
                    nameoff,
                    value_start: 12,
                    value_end: (12 + value.len()) as usize,
                    next: bytes.len() as usize,
                },
            )
            &&& bytes.subrange(12, 12int + value.len()) == value
        }),
{
    reveal(token_at);
    lemma_prop_words(nameoff, value);
    lemma_round_up(12int + value.len(), 0);
}

/// The bytes that close a node are read as such.
proof fn lemma_end_bytes()
    ensures
        be32_bytes(FDT_END_NODE).len() == 4,
        token_at(be32_bytes(FDT_END_NODE), 0) == Ok::<Token, FdtError>(Token::End),
{
    reveal(token_at);
    law_word_bytes_round_trip(FDT_END_NODE);
}

/// The bytes that end a block are read as such.
proof fn lemma_finish_bytes()
    ensures
        be32_bytes(FDT_END).len() == 4,
        token_at(be32_bytes(FDT_END), 0) == Ok::<Token, FdtError>(Token::Finish),
{
    reveal(token_at);
    law_word_bytes_round_trip(FDT_END);
}

proof fn lemma_prop_length(nameoff: u32, value: Seq<u8>)
    ensures
        prop_bytes(nameoff, value).len() >= value.len() + 12,
        prop_bytes(nameoff, value).len() % 4 == 0,
{
    reveal(prop_bytes);
    let len = value.len() as u32;
    law_word_bytes_round_trip(FDT_PROP);
    law_word_bytes_round_trip(len);
    law_word_bytes_round_trip(nameoff);
    lemma_three_words(be32_bytes(FDT_PROP), be32_bytes(len), be32_bytes(nameoff), value);
}

proof fn lemma_begin_length(name: Seq<u8>)
    ensures
        begin_node_bytes(name).len() >= name.len() + 5,
        begin_node_bytes(name).len() % 4 == 0,
{
    reveal(begin_node_bytes);
    law_word_bytes_round_trip(FDT_BEGIN_NODE);
}

/// A property in front of a block is read with its name and value.
pub proof fn lemma_prop_front(
    nameoff: u32,
    name: Seq<u8>,
    value: Seq<u8>,
    tail: Seq<u8>,
    strings: Seq<u8>,
)
    requires
        prop_bytes(nameoff, value).len() + tail.len() + 16 <= u32::MAX,
        string_of(strings, nameoff as int) == Some(name),
        items_of(tail, strings) is Some,
    ensures
        items_of(prop_bytes(nameoff, value) + tail, strings) == Some(
            seq![Item::Value { name, value }] + items_of(tail, strings)->0,
        ),
{
    lemma_prop_length(nameoff, value);
    lemma_prop_bytes(nameoff, value);
    lemma_items_front(prop_bytes(nameoff, value), tail, strings);
}

/// A node that opens in front of a block is read with its name.
proof fn lemma_begin_front(name: Seq<u8>, tail: Seq<u8>, strings: Seq<u8>)
    requires
        forall|i: int| 0 <= i < name.len() ==> #[trigger] name[i] != 0,
        begin_node_bytes(name).len() + tail.len() + 16 <= u32::MAX,
        items_of(tail, strings) is Some,
    ensures
        items_of(begin_node_bytes(name) + tail, strings) == Some(
            seq![Item::Open(name)] + items_of(tail, strings)->0,
        ),
{
    lemma_begin_length(name);
    lemma_begin_bytes(name);
    lemma_items_front(begin_node_bytes(name), tail, strings);
}

/// A node that closes in front of a block is read as such.
proof fn lemma_end_front(tail: Seq<u8>, strings: Seq<u8>)
    requires
        tail.len() + 16 <= u32::MAX,
        items_of(tail, strings) is Some,
    ensures
        items_of(be32_bytes(FDT_END_NODE) + tail, strings) == Some(
            seq![Item::Close] + items_of(tail, strings)->0,
        ),
{
    lemma_end_bytes();
    lemma_items_front(be32_bytes(FDT_END_NODE), tail, strings);
}

/// What the next kernel reads in `/chosen`: the command line unless it is empty, the bounds of the
/// initial ramdisk if there is one, and the mark of this way of booting.
pub open spec fn chosen_items(cmdline: Seq<u8>, initrd: Option<(u64, u64)>) -> Seq<Item> {
    let bootargs = if cmdline.len() == 0 {
        Seq::empty()
    } else {
        seq![Item::Value { name: utf8("bootargs"@), value: cmdline + seq![0u8] }]
    };
    let ramdisk = match initrd {
        Some((start, end)) => seq![
            Item::Value { name: utf8("linux,initrd-start"@), value: be64_bytes(start) },
            Item::Value { name: utf8("linux,initrd-end"@), value: be64_bytes(end) },
        ],
        None => Seq::empty(),
    };
    bootargs + ramdisk + seq![
        Item::Value { name: utf8("linux,booted-from-kexec"@), value: Seq::empty() },
    ]
}

/// Whether the strings have the property names of `/chosen` at the offsets.
pub open spec fn names_at(strings: Seq<u8>, offsets: ChosenOffsets) -> bool {
    &&& string_of(strings, offsets.bootargs as int) == Some(utf8("bootargs"@))
    &&& string_of(strings, offsets.initrd_start as int) == Some(utf8("linux,initrd-start"@))
    &&& string_of(strings, offsets.initrd_end as int) == Some(utf8("linux,initrd-end"@))
    &&& string_of(strings, offsets.booted_from_kexec as int) == Some(
        utf8("linux,booted-from-kexec"@),
    )
}

/// The properties of `/chosen` in front of a block are read as such.
proof fn lemma_chosen_front(
    offsets: ChosenOffsets,
    cmdline: Seq<u8>,
    initrd: Option<(u64, u64)>,
    tail: Seq<u8>,
    strings: Seq<u8>,
)
    requires
        names_at(strings, offsets),
        chosen_props(offsets, cmdline, initrd).len() + tail.len() + 16 <= u32::MAX,
        items_of(tail, strings) is Some,
    ensures
        items_of(chosen_props(offsets, cmdline, initrd) + tail, strings) == Some(
            chosen_items(cmdline, initrd) + items_of(tail, strings)->0,
        ),
{
    let mark = prop_bytes(offsets.booted_from_kexec, Seq::empty());
    let marked = mark + tail;
    let mark_item = Item::Value { name: utf8("linux,booted-from-kexec"@), value: Seq::empty() };
    let last = items_of(tail, strings)->0;
    lemma_prop_front(
        offsets.booted_from_kexec,
        utf8("linux,booted-from-kexec"@),
        Seq::empty(),
        tail,
        strings,
    );
    let (ramdisk, ramdisk_items) = match initrd {
        Some((start, end)) => {
            let first = prop_bytes(offsets.initrd_start, be64_bytes(start));
            let second = prop_bytes(offsets.initrd_end, be64_bytes(end));
            lemma_prop_front(
                offsets.initrd_end,
                utf8("linux,initrd-end"@),
                be64_bytes(end),
                marked,
                strings,
            );
            lemma_prop_front(
                offsets.initrd_start,
                utf8("linux,initrd-start"@),
                be64_bytes(start),
                second + marked,
                strings,
            );
            let items = seq![
                Item::Value { name: utf8("linux,initrd-start"@), value: be64_bytes(start) },
                Item::Value { name: utf8("linux,initrd-end"@), value: be64_bytes(end) },
            ];
            assert(first + (second + marked) =~= (first + second) + marked);
            assert(items_of((first + second) + marked, strings)->0 =~= items + (seq![mark_item]
                + last));
            (first + second, items)
        },
        None => {
            assert(Seq::<u8>::empty() + marked =~= marked);
            assert(Seq::<Item>::empty() + (seq![mark_item] + last) =~= seq![mark_item] + last);
            (Seq::<u8>::empty(), Seq::<Item>::empty())
        },
    };
    let middle = ramdisk + marked;
    assert(items_of(middle, strings) == Some(ramdisk_items + (seq![mark_item] + last)));
    let whole = chosen_props(offsets, cmdline, initrd) + tail;
    if cmdline.len() == 0 {
        assert(whole =~= middle);
        assert(chosen_items(cmdline, initrd) + last =~= ramdisk_items + (seq![mark_item] + last));
    } else {
        let value = cmdline + seq![0u8];
        let bootargs = prop_bytes(offsets.bootargs, value);
        assert(whole =~= bootargs + middle);
        lemma_prop_front(offsets.bootargs, utf8("bootargs"@), value, middle, strings);
        assert(chosen_items(cmdline, initrd) + last =~= seq![
            Item::Value { name: utf8("bootargs"@), value },
        ] + (ramdisk_items + (seq![mark_item] + last)));
    }
}

/// What a tree says once `/chosen` was patched, from some items on with `depth` nodes open: the
/// node gets the properties `props` first and loses its own of the same names, and a tree without
/// such a node gets one at the end of its root. All else stays as it is.
pub open spec fn with_chosen(
    items: Seq<Item>,
    depth: int,
    in_chosen: bool,
    saw_chosen: bool,
    props: Seq<Item>,
) -> Seq<Item>
    decreases items.len(),
{
    if items.len() == 0 {
        Seq::empty()
    } else {
        let rest = items.drop_first();
        match items[0] {
            Item::Open(name) => {
                let opens = depth == 1 && name == utf8("chosen"@);
                let inside = if depth == 1 {
                    opens
                } else {
                    in_chosen
                };
                seq![items[0]] + (if opens {
                    props
                } else {
                    Seq::empty()
                }) + with_chosen(rest, depth + 1, inside, saw_chosen || opens, props)
            },
            Item::Value { name, value } => if depth == 2 && in_chosen && replaces(name) {
                with_chosen(rest, depth, in_chosen, saw_chosen, props)
            } else {
                seq![items[0]] + with_chosen(rest, depth, in_chosen, saw_chosen, props)
            },
            Item::Close => if depth == 1 && !saw_chosen {
                seq![Item::Open(utf8("chosen"@))] + props + seq![Item::Close, Item::Close]
                    + with_chosen(rest, 0, in_chosen, true, props)
            } else {
                seq![items[0]] + with_chosen(rest, depth - 1, in_chosen, saw_chosen, props)
            },
        }
    }
}

/// What a block says from a token on: what the token says, then what follows it.
pub proof fn lemma_items_skip(block: Seq<u8>, cursor: int, strings: Seq<u8>)
    requires
        0 <= cursor,
        cursor % 4 == 0,
        block.len() + 3 <= usize::MAX,
        token_at(block, cursor) matches Ok(token) && after_token(cursor, token) <= block.len(),
        items_of(block.skip(cursor), strings) is Some,
    ensures
        ({
            let token = token_at(block, cursor)->Ok_0;
            let next = after_token(cursor, token);
            let here = block.skip(cursor);
            let front = said(here, strings, moved(token, -cursor));
            &&& next % 4 == 0
            &&& cursor + 4 <= next
            &&& front is Some
            &&& token_at(here, 0) == Ok::<Token, FdtError>(moved(token, -cursor))
            &&& !(token is Finish) ==> items_of(block.skip(next), strings) is Some && items_of(
                here,
                strings,
            )->0 == front->0 + items_of(block.skip(next), strings)->0
            &&& token is Finish ==> items_of(here, strings)->0 == Seq::<Item>::empty()
        }),
{
    let token = token_at(block, cursor)->Ok_0;
    let next = after_token(cursor, token);
    let here = block.skip(cursor);
    lemma_token_at(block, cursor);
    lemma_token_moves(block, cursor, here, 0, next - cursor);
    assert(here.skip(next - cursor) =~= block.skip(next));
}

/// A piece that is copied from a block says what it says there.
pub proof fn lemma_copied_front(block: Seq<u8>, cursor: int, tail: Seq<u8>, strings: Seq<u8>)
    requires
        0 <= cursor,
        cursor % 4 == 0,
        block.len() + 3 <= usize::MAX,
        token_at(block, cursor) matches Ok(token) && !(token is Finish) && after_token(
            cursor,
            token,
        ) <= block.len(),
        block.len() + tail.len() + 3 <= usize::MAX || (after_token(
            cursor,
            token_at(block, cursor)->Ok_0,
        ) - cursor) + tail.len() + 3 <= usize::MAX,
        items_of(block.skip(cursor), strings) is Some,
        items_of(tail, strings) is Some,
    ensures
        ({
            let token = token_at(block, cursor)->Ok_0;
            let next = after_token(cursor, token);
            items_of(block.subrange(cursor, next) + tail, strings) == Some(
                said(block.skip(cursor), strings, moved(token, -cursor))->0 + items_of(
                    tail,
                    strings,
                )->0,
            )
        }),
{
    let token = token_at(block, cursor)->Ok_0;
    let next = after_token(cursor, token);
    let piece = block.subrange(cursor, next);
    let here = block.skip(cursor);
    lemma_token_at(block, cursor);
    lemma_items_skip(block, cursor, strings);
    lemma_token_moves(block, cursor, piece, 0, next - cursor);
    let here_token = moved(token, -cursor);
    match here_token {
        Token::Begin { name_end, .. } => {
            assert(piece.subrange(4, name_end as int) =~= here.subrange(4, name_end as int));
        },
        Token::Prop { value_start, value_end, .. } => {
            assert(piece.subrange(value_start as int, value_end as int) =~= here.subrange(
                value_start as int,
                value_end as int,
            ));
        },
        _ => {},
    }
    lemma_items_front(piece, tail, strings);
}

/// The patched block says what patching the items gives.
proof fn lemma_patched_items(
    block: Seq<u8>,
    strings: Seq<u8>,
    offsets: ChosenOffsets,
    cmdline: Seq<u8>,
    initrd: Option<(u64, u64)>,
    cursor: int,
    st: PatchState,
)
    requires
        0 <= cursor <= block.len(),
        cursor % 4 == 0,
        block.len() + 3 <= usize::MAX,
        st.depth <= cursor,
        names_at(strings, offsets),
        items_of(block.skip(cursor), strings) is Some,
        patched_from(
            block,
            strings,
            chosen_props(offsets, cmdline, initrd),
            cursor,
            st,
        ) matches Ok(out) && out.len() + 16 <= u32::MAX,
    ensures
        items_of(
            patched_from(block, strings, chosen_props(offsets, cmdline, initrd), cursor, st)->Ok_0,
            strings,
        ) == Some(
            with_chosen(
                items_of(block.skip(cursor), strings)->0,
                st.depth as int,
                st.in_chosen,
                st.saw_chosen,
                chosen_items(cmdline, initrd),
            ),
        ),
    decreases block.len() - cursor,
{
    let props = chosen_props(offsets, cmdline, initrd);
    let added = chosen_items(cmdline, initrd);
    let out = patched_from(block, strings, props, cursor, st)->Ok_0;
    let token = token_at(block, cursor)->Ok_0;
    let next = after_token(cursor, token);
    let (emitted, after) = patch_step(block, strings, props, cursor, token, st)->Ok_0;
    let here = block.skip(cursor);
    let items = items_of(here, strings)->0;
    lemma_token_at(block, cursor);
    if token is Finish {
        lemma_items_skip(block, cursor, strings);
        lemma_finish_bytes();
        assert(items_of(out, strings) == Some(Seq::<Item>::empty()));
    } else {
    let tail = patched_from(block, strings, props, next, after)->Ok_0;
    assert(out == emitted + tail);
    lemma_token_at(block, next);
    assert(next + 4 <= block.len());
    lemma_items_skip(block, cursor, strings);
    lemma_patched_items(block, strings, offsets, cmdline, initrd, next, after);
    let rest = items_of(block.skip(next), strings)->0;
    let front = said(here, strings, moved(token, -cursor))->0;
    let done = items_of(tail, strings)->0;
    assert(items == front + rest);
    match token {
        Token::Begin { name_end, .. } => {
            let name = block.subrange(cursor + 4, name_end as int);
            assert(here.subrange(4, name_end - cursor) =~= name);
            assert(items[0] == Item::Open(name));
            assert(items.drop_first() =~= rest);
            lemma_name_has_no_zero(block, cursor);
            let opens = st.depth == 1 && name == utf8("chosen"@);
            let open = begin_node_bytes(name);
            if opens {
                assert(out =~= open + (props + tail));
                lemma_chosen_front(offsets, cmdline, initrd, tail, strings);
                lemma_begin_front(name, props + tail, strings);
                assert(seq![items[0]] + (added + done) =~= seq![items[0]] + added + done);
            } else {
                lemma_begin_front(name, tail, strings);
                assert(seq![items[0]] + Seq::<Item>::empty() + done =~= seq![items[0]] + done);
            }
        },
        Token::End => {
            assert(items[0] == Item::Close);
            assert(items.drop_first() =~= rest);
            let close = be32_bytes(FDT_END_NODE);
            if st.depth == 1 && !st.saw_chosen {
                let name = utf8("chosen"@);
                let open = begin_node_bytes(name);
                lemma_chosen_name();
                lemma_end_bytes();
                assert(out =~= open + (props + (close + (close + tail))));
                lemma_end_front(tail, strings);
                lemma_end_front(close + tail, strings);
                lemma_chosen_front(offsets, cmdline, initrd, close + (close + tail), strings);
                lemma_begin_front(name, props + (close + (close + tail)), strings);
                assert(seq![Item::Open(name)] + (added + (seq![Item::Close] + (seq![Item::Close]
                    + done))) =~= seq![Item::Open(name)] + added + seq![Item::Close, Item::Close]
                    + done);
            } else {
                lemma_end_front(tail, strings);
            }
        },
        Token::Prop { nameoff, value_start, value_end, .. } => {
            assert(items[0] == front[0]);
            assert(items.drop_first() =~= rest);
            let name = string_of(strings, nameoff as int)->0;
            assert(prop_name(strings, nameoff) == name);
            if st.depth == 2 && st.in_chosen && replaces(name) {
                assert(out =~= tail);
            } else {
                lemma_copied_front(block, cursor, tail, strings);
                assert(front =~= seq![items[0]]);
            }
        },
        Token::Nop => {
            assert(items =~= rest);
            lemma_copied_front(block, cursor, tail, strings);
            assert(Seq::<Item>::empty() + done =~= done);
        },
        Token::Finish => {},
    }
    }
}

/// The name of a node has no zero byte.
proof fn lemma_name_has_no_zero(block: Seq<u8>, cursor: int)
    requires
        0 <= cursor,
        token_at(block, cursor) matches Ok(Token::Begin { name_end, .. }),
    ensures
        ({
            let name = block.subrange(
                cursor + 4,
                token_at(block, cursor)->Ok_0->name_end as int,
            );
            forall|i: int| 0 <= i < name.len() ==> #[trigger] name[i] != 0
        }),
{
    lemma_token_at(block, cursor);
    reveal(token_at);
    lemma_next_byte(block, cursor + 4, 0);
}

proof fn lemma_chosen_name()
    ensures
        forall|i: int| 0 <= i < utf8("chosen"@).len() ==> #[trigger] utf8("chosen"@)[i] != 0,
{
    reveal_strlit("chosen");
    vstd::utf8::is_ascii_chars_encode_utf8("chosen"@);
    assert forall|i: int| 0 <= i < utf8("chosen"@).len() implies #[trigger] utf8("chosen"@)[i]
        != 0 by {
        assert("chosen"@[i] as u8 != 0);
    }
}

/// A string stays where it is when strings are added behind it.
pub proof fn lemma_strings_grow(strings: Seq<u8>, more: Seq<u8>, offset: int)
    requires
        0 <= offset,
        strings.is_prefix_of(more),
        string_of(strings, offset) is Some,
    ensures
        string_of(more, offset) == string_of(strings, offset),
{
    lemma_next_byte(strings, offset, 0);
    lemma_next_byte(more, offset, 0);
    let end = next_byte(strings, offset, 0);
    let m = next_byte(more, offset, 0);
    assert(forall|i: int| 0 <= i < strings.len() ==> #[trigger] more[i] == strings[i]);
    assert(more[end] == 0);
    if m < end {
        assert(strings[m] == 0);
        assert(false);
    }
    assert(more.subrange(offset, end) =~= strings.subrange(offset, end));
}

/// A block says the same when strings are added behind those that it names.
pub proof fn lemma_items_grow(block: Seq<u8>, strings: Seq<u8>, more: Seq<u8>)
    requires
        strings.is_prefix_of(more),
        items_of(block, strings) is Some,
    ensures
        items_of(block, more) == items_of(block, strings),
    decreases block.len(),
{
    lemma_token_at(block, 0);
    let token = token_at(block, 0)->Ok_0;
    let next = after_token(0, token);
    if let Token::Prop { nameoff, .. } = token {
        lemma_strings_grow(strings, more, nameoff as int);
    }
    if !(token is Finish) {
        lemma_items_grow(block.skip(next), strings, more);
    }
}

pub proof fn lemma_string_offset(strings: Seq<u8>, cursor: int, name: Seq<u8>)
    ensures
        string_offset(strings, cursor, name) matches Some(offset) ==> 0 <= offset < strings.len()
            && string_of(strings, offset) == Some(name),
    decreases strings.len() - cursor,
{
    let end = next_byte(strings, cursor, 0);
    if cursor < 0 || cursor >= strings.len() || end < cursor || end >= strings.len() {
    } else if strings.subrange(cursor, end) == name {
    } else {
        lemma_string_offset(strings, end + 1, name);
    }
}

/// A string that is added behind others is found there.
pub proof fn lemma_appended(strings: Seq<u8>, name: Seq<u8>)
    requires
        forall|i: int| 0 <= i < name.len() ==> #[trigger] name[i] != 0,
    ensures
        ({
            let more = strings + name + seq![0u8];
            strings.is_prefix_of(more) && string_of(more, strings.len() as int) == Some(name)
        }),
{
    let more = strings + name + seq![0u8];
    let start = strings.len() as int;
    let end = start + name.len();
    lemma_next_byte(more, start, 0);
    let m = next_byte(more, start, 0);
    assert(more[end] == 0);
    if m < end {
        assert(more[m] == name[m - start]);
        assert(false);
    }
    assert(more.subrange(start, end) =~= name);
}

/// A string that is looked for, and added where it is missing, is found where it is said to be.
pub proof fn lemma_with_string(strings: Seq<u8>, name: Seq<u8>)
    requires
        forall|i: int| 0 <= i < name.len() ==> #[trigger] name[i] != 0,
        with_string(strings, name) is Ok,
    ensures
        ({
            let (more, offset) = with_string(strings, name)->Ok_0;
            strings.is_prefix_of(more) && string_of(more, offset as int) == Some(name)
        }),
{
    let (more, offset) = with_string(strings, name)->Ok_0;
    lemma_string_offset(strings, 0, name);
    if string_offset(strings, 0, name) is None {
        lemma_appended(strings, name);
    }
}

/// No byte of an ASCII text without the character zero is zero.
pub proof fn lemma_no_zero(text: Seq<char>)
    requires
        vstd::utf8::is_ascii_chars(text),
        forall|i: int| 0 <= i < text.len() ==> #[trigger] text[i] != '\0',
    ensures
        forall|i: int| 0 <= i < utf8(text).len() ==> #[trigger] utf8(text)[i] != 0,
{
    vstd::utf8::is_ascii_chars_encode_utf8(text);
    assert forall|i: int| 0 <= i < utf8(text).len() implies #[trigger] utf8(text)[i] != 0 by {
        assert(text[i] as u8 == utf8(text)[i]);
        assert('\0' < text[i] && text[i] <= '\u{7f}');
    }
}

/// The property names of `/chosen` are found where they are said to be.
proof fn lemma_chosen_strings(strings: Seq<u8>)
    requires
        chosen_strings(strings) is Ok,
    ensures
        ({
            let (more, offsets) = chosen_strings(strings)->Ok_0;
            strings.is_prefix_of(more) && names_at(more, offsets)
        }),
{
    reveal_strlit("bootargs");
    reveal_strlit("linux,initrd-start");
    reveal_strlit("linux,initrd-end");
    reveal_strlit("linux,booted-from-kexec");
    lemma_no_zero("bootargs"@);
    lemma_no_zero("linux,initrd-start"@);
    lemma_no_zero("linux,initrd-end"@);
    lemma_no_zero("linux,booted-from-kexec"@);
    lemma_with_string(strings, utf8("bootargs"@));
    let (s1, o1) = with_string(strings, utf8("bootargs"@))->Ok_0;
    lemma_with_string(s1, utf8("linux,initrd-start"@));
    let (s2, o2) = with_string(s1, utf8("linux,initrd-start"@))->Ok_0;
    lemma_with_string(s2, utf8("linux,initrd-end"@));
    let (s3, o3) = with_string(s2, utf8("linux,initrd-end"@))->Ok_0;
    lemma_with_string(s3, utf8("linux,booted-from-kexec"@));
    let (s4, o4) = with_string(s3, utf8("linux,booted-from-kexec"@))->Ok_0;
    lemma_strings_grow(s3, s4, o3 as int);
    lemma_strings_grow(s2, s3, o2 as int);
    lemma_strings_grow(s3, s4, o2 as int);
    lemma_strings_grow(s1, s2, o1 as int);
    lemma_strings_grow(s2, s3, o1 as int);
    lemma_strings_grow(s3, s4, o1 as int);
}

proof fn lemma_header_words(old: Header, off_struct: u32, size_struct: u32, size_strings: u32)
    requires
        off_struct + size_struct + size_strings <= u32::MAX,
    ensures
        ({
            let bytes = header_bytes(
                old,
                off_struct as int,
                size_struct as int,
                size_strings as int,
            );
            &&& bytes.len() == 40
            &&& be32(bytes, 0) == FDT_MAGIC
            &&& be32(bytes, 4) == off_struct + size_struct + size_strings
            &&& be32(bytes, 8) == off_struct
            &&& be32(bytes, 12) == off_struct + size_struct
            &&& be32(bytes, 16) == 40
            &&& be32(bytes, 20) == old.version
            &&& be32(bytes, 24) == old.last_comp_version
            &&& be32(bytes, 28) == old.boot_cpuid_phys
            &&& be32(bytes, 32) == size_strings
            &&& be32(bytes, 36) == size_struct
        }),
{
    let total = (off_struct + size_struct + size_strings) as u32;
    let off_strings = (off_struct + size_struct) as u32;
    let words = seq![
        FDT_MAGIC,
        total,
        off_struct,
        off_strings,
        40u32,
        old.version,
        old.last_comp_version,
        old.boot_cpuid_phys,
        size_strings,
        size_struct,
    ];
    let bytes = header_bytes(old, off_struct as int, size_struct as int, size_strings as int);
    assert forall|k: int| 0 <= k <= 10 implies #[trigger] words_bytes(words, k).len() == 4 * k by {
        lemma_words_length(words, k);
    }
    reveal_with_fuel(words_bytes, 11);
    assert(words_bytes(words, 0) =~= Seq::<u8>::empty());
    assert(Seq::<u8>::empty() + be32_bytes(FDT_MAGIC) =~= be32_bytes(FDT_MAGIC));
    assert(bytes =~= words_bytes(words, 10));
    lemma_words(words, 10, 0);
    lemma_words(words, 10, 1);
    lemma_words(words, 10, 2);
    lemma_words(words, 10, 3);
    lemma_words(words, 10, 4);
    lemma_words(words, 10, 5);
    lemma_words(words, 10, 6);
    lemma_words(words, 10, 7);
    lemma_words(words, 10, 8);
    lemma_words(words, 10, 9);
}

/// The bytes of the first `n` words.
spec fn words_bytes(words: Seq<u32>, n: int) -> Seq<u8>
    decreases n,
{
    if n <= 0 {
        Seq::empty()
    } else {
        words_bytes(words, n - 1) + be32_bytes(words[n - 1])
    }
}

proof fn lemma_words_length(words: Seq<u32>, n: int)
    requires
        0 <= n,
    ensures
        words_bytes(words, n).len() == 4 * n,
    decreases n,
{
    if n > 0 {
        lemma_words_length(words, n - 1);
        law_word_bytes_round_trip(words[n - 1]);
    }
}

proof fn lemma_words(words: Seq<u32>, n: int, i: int)
    requires
        0 <= i < n,
    ensures
        be32(words_bytes(words, n), 4 * i) == words[i],
    decreases n,
{
    lemma_words_length(words, n - 1);
    law_word_bytes_round_trip(words[n - 1]);
    let front = words_bytes(words, n - 1);
    let last = be32_bytes(words[n - 1]);
    let whole = words_bytes(words, n);
    if i < n - 1 {
        lemma_words(words, n - 1, i);
        assert(whole[4 * i] == front[4 * i]);
        assert(whole[4 * i + 1] == front[4 * i + 1]);
        assert(whole[4 * i + 2] == front[4 * i + 2]);
        assert(whole[4 * i + 3] == front[4 * i + 3]);
    } else {
        lemma_be32_in(front, last, Seq::empty());
        assert(front + last + Seq::<u8>::empty() =~= whole);
    }
}

/// A tree that is built of its parts is read back as those parts: its header is accepted, and the
/// blocks, the reservations and the other fields stand where it says.
pub proof fn law_built_trees_are_read_back(
    old: Header,
    reserve: Seq<u8>,
    structure: Seq<u8>,
    strings: Seq<u8>,
)
    requires
        reserve.len() > 0,
        built(old, reserve, structure, strings) is Ok,
    ensures
        ({
            let dtb = built(old, reserve, structure, strings)->Ok_0;
            &&& header_of(dtb) matches Ok(h) && h.totalsize == dtb.len() && h.off_mem_rsvmap == 40
                && h.version == old.version && h.last_comp_version == old.last_comp_version
                && h.boot_cpuid_phys == old.boot_cpuid_phys && struct_block(dtb, h) == structure
                && strings_block(dtb, h) == strings
            &&& 40 + reserve.len() + structure.len() + strings.len() <= dtb.len() <= u32::MAX
            &&& dtb.subrange(40, 40int + reserve.len()) == reserve
        }),
{
    let dtb = built(old, reserve, structure, strings)->Ok_0;
    let map = padded4(reserve);
    let off_struct = 40 + map.len();
    lemma_header_words(
        old,
        off_struct as u32,
        structure.len() as u32,
        strings.len() as u32,
    );
    let front = header_bytes(
        old,
        off_struct as int,
        structure.len() as int,
        strings.len() as int,
    );
    assert(dtb == front + map + structure + strings);
    assert forall|i: int| 0 <= i < 40 implies #[trigger] dtb[i] == front[i] by {}
    let h = header_fields(dtb);
    assert(be32(dtb, 0) == FDT_MAGIC);
    assert(h.totalsize == dtb.len());
    assert(h.off_dt_struct == off_struct);
    assert(h.off_dt_strings == off_struct + structure.len());
    assert(h.off_mem_rsvmap == 40);
    assert(h.size_dt_strings == strings.len());
    assert(h.size_dt_struct == structure.len());
    assert(struct_block(dtb, h) =~= structure);
    assert(strings_block(dtb, h) =~= strings);
    assert(dtb.subrange(40, 40int + reserve.len()) =~= reserve);
}

/// Reservations that were read are a piece of the tree, in whole entries.
pub proof fn lemma_reservations(dtb: Seq<u8>, totalsize: int, cursor: int)
    requires
        0 <= cursor,
        totalsize <= dtb.len(),
        reservations(dtb, totalsize, cursor) is Ok,
    ensures
        ({
            let map = reservations(dtb, totalsize, cursor)->Ok_0;
            &&& map.len() >= 16
            &&& cursor + map.len() <= totalsize
            &&& map == dtb.subrange(cursor, cursor + map.len())
        }),
    decreases totalsize - cursor,
{
    let entry = dtb.subrange(cursor, cursor + 16);
    if be64(dtb, cursor) == 0 && be64(dtb, cursor + 8) == 0 {
    } else {
        lemma_reservations(dtb, totalsize, cursor + 16);
        let rest = reservations(dtb, totalsize, cursor + 16)->Ok_0;
        let map = reservations(dtb, totalsize, cursor)->Ok_0;
        assert(map == entry + rest);
        assert(map =~= dtb.subrange(cursor, cursor + map.len()));
    }
}

/// Reservations are read as the same wherever they stand.
proof fn lemma_reservations_move(
    dtb: Seq<u8>,
    totalsize: int,
    cursor: int,
    other: Seq<u8>,
    size: int,
    at: int,
)
    requires
        0 <= cursor,
        totalsize <= dtb.len(),
        reservations(dtb, totalsize, cursor) matches Ok(map) && same_piece(
            other,
            at,
            dtb,
            cursor,
            map.len() as int,
        ) && at + map.len() <= size,
        size <= other.len(),
    ensures
        reservations(other, size, at) == reservations(dtb, totalsize, cursor),
    decreases totalsize - cursor,
{
    lemma_reservations(dtb, totalsize, cursor);
    let map = reservations(dtb, totalsize, cursor)->Ok_0;
    let entry = dtb.subrange(cursor, cursor + 16);
    assert forall|k: int| at <= k < at + 16 implies #[trigger] other[k] == dtb[k - at
        + cursor] by {}
    assert(other.subrange(at, at + 16) =~= entry);
    lemma_entry(other, at, dtb, cursor);
    if be64(dtb, cursor) == 0 && be64(dtb, cursor + 8) == 0 {
    } else {
        lemma_reservations(dtb, totalsize, cursor + 16);
        lemma_reservations_move(dtb, totalsize, cursor + 16, other, size, at + 16);
    }
}

proof fn lemma_entry(a: Seq<u8>, i: int, b: Seq<u8>, j: int)
    requires
        same_piece(a, i, b, j, 16),
    ensures
        be64(a, i) == be64(b, j),
        be64(a, i + 8) == be64(b, j + 8),
{
    lemma_word(a, i, b, j, 0);
    lemma_word(a, i, b, j, 4);
    lemma_word(a, i, b, j, 8);
    lemma_word(a, i, b, j, 12);
}

proof fn lemma_word(a: Seq<u8>, i: int, b: Seq<u8>, j: int, k: int)
    requires
        same_piece(a, i, b, j, 16),
        0 <= k <= 12,
    ensures
        be32(a, i + k) == be32(b, j + k),
{
    assert(a[i + k] == b[j + k]);
    assert(a[i + k + 1] == b[j + k + 1]);
    assert(a[i + k + 2] == b[j + k + 2]);
    assert(a[i + k + 3] == b[j + k + 3]);
}

/// The memory reservations of a tree.
pub open spec fn tree_reservations(dtb: Seq<u8>) -> Result<Seq<u8>, FdtError> {
    match header_of(dtb) {
        Err(e) => Err(e),
        Ok(h) => reservations(dtb, h.totalsize as int, h.off_mem_rsvmap as int),
    }
}

proof fn lemma_piece(a: Seq<u8>, i: int, b: Seq<u8>, j: int, piece: Seq<u8>)
    requires
        0 <= i && i + piece.len() <= a.len(),
        0 <= j && j + piece.len() <= b.len(),
        a.subrange(i, i + piece.len()) == piece,
        b.subrange(j, j + piece.len()) == piece,
    ensures
        same_piece(a, i, b, j, piece.len() as int),
{
    assert forall|k: int| i <= k < i + piece.len() implies #[trigger] a[k] == b[k - i + j] by {
        assert(a.subrange(i, i + piece.len())[k - i] == piece[k - i]);
        assert(b.subrange(j, j + piece.len())[k - i] == piece[k - i]);
    }
}

/// A tree that holds the reservations of another one, and says so, has the same reservations.
pub proof fn lemma_reservations_stay(dtb: Seq<u8>, h: Header, after: Seq<u8>, map: Seq<u8>)
    requires
        h.totalsize <= dtb.len(),
        reservations(dtb, h.totalsize as int, h.off_mem_rsvmap as int) == Ok::<Seq<u8>, FdtError>(
            map,
        ),
        40 + map.len() <= after.len(),
        after.subrange(40, 40int + map.len()) == map,
    ensures
        reservations(after, after.len() as int, 40) == Ok::<Seq<u8>, FdtError>(map),
{
    let from = h.off_mem_rsvmap as int;
    lemma_reservations(dtb, h.totalsize as int, from);
    lemma_piece(after, 40, dtb, from, map);
    lemma_reservations_move(dtb, h.totalsize as int, from, after, after.len() as int, 40);
}

/// What a patched block and its strings say, once they are parts of a tree.
proof fn lemma_patched_parts(
    block: Seq<u8>,
    strings: Seq<u8>,
    cmdline: Seq<u8>,
    initrd: Option<(u64, u64)>,
)
    requires
        block.len() + 3 <= usize::MAX,
        items_of(block, strings) is Some,
        chosen_strings(strings) matches Ok((more, offsets)) && (patched_from(
            block,
            more,
            chosen_props(offsets, cmdline, initrd),
            0,
            patch_start(),
        ) matches Ok(structure) && structure.len() + 16 <= u32::MAX),
    ensures
        ({
            let (more, offsets) = chosen_strings(strings)->Ok_0;
            let props = chosen_props(offsets, cmdline, initrd);
            let structure = patched_from(block, more, props, 0, patch_start())->Ok_0;
            items_of(structure, more) == Some(
                with_chosen(
                    items_of(block, strings)->0,
                    0,
                    false,
                    false,
                    chosen_items(cmdline, initrd),
                ),
            )
        }),
{
    let (more, offsets) = chosen_strings(strings)->Ok_0;
    lemma_chosen_strings(strings);
    lemma_items_grow(block, strings, more);
    assert(block.skip(0) =~= block);
    lemma_patched_items(block, more, offsets, cmdline, initrd, 0, patch_start());
}

/// The tree for the next kernel is read back as the tree that was patched, but for `/chosen`: that
/// node has the command line, the initial ramdisk and the mark of this way of booting, in place of
/// its own properties of those names. It is added where there is none, and nothing else changes,
/// the memory reservations included.
#[verifier::spinoff_prover]
#[verifier::rlimit(50)]
pub proof fn law_only_chosen_is_changed(
    dtb: Seq<u8>,
    cmdline: Seq<char>,
    initrd: Option<(u64, u64)>,
)
    requires
        dtb.len() + 3 <= usize::MAX,
        tree_items(dtb) is Some,
        chosen_patched(dtb, cmdline, initrd) is Ok,
    ensures
        ({
            let patched = chosen_patched(dtb, cmdline, initrd)->Ok_0;
            &&& tree_items(patched) == Some(
                with_chosen(
                    tree_items(dtb)->0,
                    0,
                    false,
                    false,
                    chosen_items(utf8(cmdline), initrd),
                ),
            )
            &&& tree_reservations(patched) == tree_reservations(dtb)
        }),
{
    reveal(chosen_patched);
    let h = header_of(dtb)->Ok_0;
    let reserve = reservations(dtb, h.totalsize as int, h.off_mem_rsvmap as int)->Ok_0;
    let strings = strings_block(dtb, h);
    let block = struct_block(dtb, h);
    let (more, offsets) = chosen_strings(strings)->Ok_0;
    let props = chosen_props(offsets, utf8(cmdline), initrd);
    let structure = patched_from(block, more, props, 0, patch_start())->Ok_0;
    let patched = built(h, reserve, structure, more)->Ok_0;
    assert(chosen_patched(dtb, cmdline, initrd) == Ok::<Seq<u8>, FdtError>(patched));
    lemma_reservations(dtb, h.totalsize as int, h.off_mem_rsvmap as int);
    law_built_trees_are_read_back(h, reserve, structure, more);
    lemma_patched_parts(block, strings, utf8(cmdline), initrd);
    lemma_reservations_stay(dtb, h, patched, reserve);
}

/// The value of the first property of a name that stands directly in a node `/chosen`, from some
/// items on with `depth` nodes open.
pub open spec fn chosen_value(
    items: Seq<Item>,
    depth: int,
    in_chosen: bool,
    name: Seq<u8>,
) -> Option<Seq<u8>>
    decreases items.len(),
{
    if items.len() == 0 {
        None
    } else {
        let rest = items.drop_first();
        match items[0] {
            Item::Open(opened) => chosen_value(
                rest,
                depth + 1,
                if depth == 1 {
                    opened == utf8("chosen"@)
                } else {
                    in_chosen
                },
                name,
            ),
            Item::Value { name: found, value } => if depth == 2 && in_chosen && found == name {
                Some(value)
            } else {
                chosen_value(rest, depth, in_chosen, name)
            },
            Item::Close => chosen_value(rest, depth - 1, in_chosen, name),
        }
    }
}

/// The value of the first property of a name among properties.
pub open spec fn first_value(props: Seq<Item>, name: Seq<u8>) -> Option<Seq<u8>>
    decreases props.len(),
{
    if props.len() == 0 {
        None
    } else {
        match props[0] {
            Item::Value { name: found, value } => if found == name {
                Some(value)
            } else {
                first_value(props.drop_first(), name)
            },
            _ => first_value(props.drop_first(), name),
        }
    }
}

/// Whether every node that opens among the items closes there, with `depth` nodes open before them.
pub open spec fn nested(items: Seq<Item>, depth: int) -> bool
    decreases items.len(),
{
    if items.len() == 0 {
        depth == 0
    } else {
        match items[0] {
            Item::Open(_) => nested(items.drop_first(), depth + 1),
            Item::Value { .. } => nested(items.drop_first(), depth),
            Item::Close => depth > 0 && nested(items.drop_first(), depth - 1),
        }
    }
}

/// Whether a node opens among the items.
pub open spec fn has_node(items: Seq<Item>) -> bool {
    exists|i: int| 0 <= i < items.len() && #[trigger] items[i] is Open
}

/// Properties in front of some items are looked through first.
proof fn lemma_props_first(props: Seq<Item>, rest: Seq<Item>, name: Seq<u8>)
    requires
        forall|i: int| 0 <= i < props.len() ==> #[trigger] props[i] is Value,
    ensures
        chosen_value(props + rest, 2, true, name) == (match first_value(props, name) {
            Some(value) => Some(value),
            None => chosen_value(rest, 2, true, name),
        }),
    decreases props.len(),
{
    let all = props + rest;
    if props.len() == 0 {
        assert(all =~= rest);
    } else {
        assert(all[0] == props[0]);
        assert(all.drop_first() =~= props.drop_first() + rest);
        assert(props[0] is Value);
        lemma_props_first(props.drop_first(), rest, name);
    }
}

/// A name that is not among the properties that `/chosen` gets is not found there, where it is one
/// of those that the node loses.
proof fn lemma_absent(
    items: Seq<Item>,
    depth: int,
    in_chosen: bool,
    saw_chosen: bool,
    props: Seq<Item>,
    name: Seq<u8>,
)
    requires
        forall|i: int| 0 <= i < props.len() ==> #[trigger] props[i] is Value,
        replaces(name),
        first_value(props, name) is None,
    ensures
        chosen_value(
            with_chosen(items, depth, in_chosen, saw_chosen, props),
            depth,
            in_chosen,
            name,
        ) is None,
    decreases items.len(), 0int,
{
    if items.len() > 0 {
        let out = with_chosen(items, depth, in_chosen, saw_chosen, props);
        let rest = items.drop_first();
        match items[0] {
            Item::Open(opened) => {
                let opens = depth == 1 && opened == utf8("chosen"@);
                let inside = if depth == 1 {
                    opens
                } else {
                    in_chosen
                };
                let more = with_chosen(rest, depth + 1, inside, saw_chosen || opens, props);
                lemma_absent(rest, depth + 1, inside, saw_chosen || opens, props, name);
                if opens {
                    assert(out.drop_first() =~= props + more);
                    lemma_props_first(props, more, name);
                } else {
                    assert(out.drop_first() =~= more);
                }
                assert(out[0] == items[0]);
            },
            Item::Value { name: found, value } => {
                let more = with_chosen(rest, depth, in_chosen, saw_chosen, props);
                lemma_absent(rest, depth, in_chosen, saw_chosen, props, name);
                if depth == 2 && in_chosen && replaces(found) {
                } else {
                    assert(out[0] == items[0]);
                    assert(out.drop_first() =~= more);
                }
            },
            Item::Close => if depth == 1 && !saw_chosen {
                let more = with_chosen(rest, 0, in_chosen, true, props);
                let ends = seq![Item::Close, Item::Close] + more;
                lemma_absent_after(rest, 0, in_chosen, true, props, name);
                assert(out[0] == Item::Open(utf8("chosen"@)));
                assert(out.drop_first() =~= props + ends);
                lemma_props_first(props, ends, name);
                assert(ends[0] == Item::Close);
                assert(ends.drop_first() =~= seq![Item::Close] + more);
                assert((seq![Item::Close] + more)[0] == Item::Close);
                assert((seq![Item::Close] + more).drop_first() =~= more);
                assert(chosen_value(more, 0, true, name) is None);
                assert(chosen_value(seq![Item::Close] + more, 1, true, name) is None);
                assert(chosen_value(ends, 2, true, name) is None);
                assert(chosen_value(out.drop_first(), 2, true, name) is None);
            } else {
                let more = with_chosen(rest, depth - 1, in_chosen, saw_chosen, props);
                lemma_absent(rest, depth - 1, in_chosen, saw_chosen, props, name);
                assert(out[0] == items[0]);
                assert(out.drop_first() =~= more);
            },
        }
    }
}

/// The same behind a node `/chosen` that was added at the end of the root.
proof fn lemma_absent_after(
    items: Seq<Item>,
    depth: int,
    in_chosen: bool,
    saw_chosen: bool,
    props: Seq<Item>,
    name: Seq<u8>,
)
    requires
        forall|i: int| 0 <= i < props.len() ==> #[trigger] props[i] is Value,
        replaces(name),
        first_value(props, name) is None,
        saw_chosen,
        depth <= 1,
    ensures
        chosen_value(
            with_chosen(items, depth, in_chosen, saw_chosen, props),
            depth,
            true,
            name,
        ) is None,
    decreases items.len(), 1int,
{
    if items.len() > 0 {
        let out = with_chosen(items, depth, in_chosen, saw_chosen, props);
        let rest = items.drop_first();
        match items[0] {
            Item::Open(opened) => {
                let opens = depth == 1 && opened == utf8("chosen"@);
                assert(out[0] == items[0]);
                if depth == 1 {
                    lemma_absent(items, depth, in_chosen, saw_chosen, props, name);
                } else {
                    let more = with_chosen(rest, depth + 1, in_chosen, saw_chosen, props);
                    assert(out.drop_first() =~= more);
                    lemma_absent_after(rest, depth + 1, in_chosen, saw_chosen, props, name);
                }
            },
            Item::Value { .. } => {
                assert(out[0] == items[0]);
                assert(out.drop_first() =~= with_chosen(
                    rest,
                    depth,
                    in_chosen,
                    saw_chosen,
                    props,
                ));
                lemma_absent_after(rest, depth, in_chosen, saw_chosen, props, name);
            },
            Item::Close => {
                assert(out[0] == items[0]);
                assert(out.drop_first() =~= with_chosen(
                    rest,
                    depth - 1,
                    in_chosen,
                    saw_chosen,
                    props,
                ));
                lemma_absent_after(rest, depth - 1, in_chosen, saw_chosen, props, name);
            },
        }
    }
}

/// A name that is among the properties that `/chosen` gets is found there first.
proof fn lemma_present(
    items: Seq<Item>,
    depth: int,
    in_chosen: bool,
    props: Seq<Item>,
    name: Seq<u8>,
)
    requires
        forall|i: int| 0 <= i < props.len() ==> #[trigger] props[i] is Value,
        first_value(props, name) is Some,
        !in_chosen || depth <= 1,
        0 <= depth,
        nested(items, depth),
        depth >= 1 || has_node(items),
    ensures
        chosen_value(with_chosen(items, depth, in_chosen, false, props), depth, in_chosen, name)
            == first_value(props, name),
    decreases items.len(),
{
    let out = with_chosen(items, depth, in_chosen, false, props);
    if items.len() == 0 {
        assert(has_node(items));
        assert(false);
    } else {
        let rest = items.drop_first();
        assert(depth == 0 && !(items[0] is Open) ==> has_node(rest)) by {
            if depth == 0 && !(items[0] is Open) {
                let i = choose|i: int| 0 <= i < items.len() && #[trigger] items[i] is Open;
                assert(rest[i - 1] is Open);
            }
        }
        match items[0] {
            Item::Open(opened) => {
                let opens = depth == 1 && opened == utf8("chosen"@);
                assert(out[0] == items[0]);
                if opens {
                    let more = with_chosen(rest, 2, true, true, props);
                    assert(out.drop_first() =~= props + more);
                    lemma_props_first(props, more, name);
                } else {
                    let inside = if depth == 1 {
                        false
                    } else {
                        in_chosen
                    };
                    assert(out.drop_first() =~= with_chosen(
                        rest,
                        depth + 1,
                        inside,
                        false,
                        props,
                    ));
                    if depth == 0 {
                        lemma_present(rest, 1, inside, props, name);
                    } else {
                        lemma_present(rest, depth + 1, inside, props, name);
                    }
                }
            },
            Item::Value { .. } => {
                assert(out[0] == items[0]);
                assert(out.drop_first() =~= with_chosen(rest, depth, in_chosen, false, props));
                lemma_present(rest, depth, in_chosen, props, name);
            },
            Item::Close => if depth == 1 {
                let ends = seq![Item::Close, Item::Close] + with_chosen(
                    rest,
                    0,
                    in_chosen,
                    true,
                    props,
                );
                assert(out[0] == Item::Open(utf8("chosen"@)));
                assert(out.drop_first() =~= props + ends);
                lemma_props_first(props, ends, name);
            } else {
                assert(out[0] == items[0]);
                assert(out.drop_first() =~= with_chosen(
                    rest,
                    depth - 1,
                    in_chosen,
                    false,
                    props,
                ));
                lemma_present(rest, depth - 1, in_chosen, props, name);
            },
        }
    }
}

/// A block that can be patched has a root, and every node of it closes.
proof fn lemma_patched_is_nested(
    block: Seq<u8>,
    strings: Seq<u8>,
    props: Seq<u8>,
    cursor: int,
    st: PatchState,
)
    requires
        0 <= cursor <= block.len(),
        cursor % 4 == 0,
        block.len() + 3 <= usize::MAX,
        st.depth <= cursor,
        items_of(block.skip(cursor), strings) is Some,
        patched_from(block, strings, props, cursor, st) is Ok,
    ensures
        nested(items_of(block.skip(cursor), strings)->0, st.depth as int),
        st.saw_root || has_node(items_of(block.skip(cursor), strings)->0),
    decreases block.len() - cursor,
{
    let token = token_at(block, cursor)->Ok_0;
    let next = after_token(cursor, token);
    let after = patch_step(block, strings, props, cursor, token, st)->Ok_0.1;
    let items = items_of(block.skip(cursor), strings)->0;
    lemma_token_at(block, cursor);
    if token is Finish {
        lemma_items_skip(block, cursor, strings);
    } else {
        assert(patched_from(block, strings, props, next, after) is Ok);
        lemma_token_at(block, next);
        assert(next + 4 <= block.len());
        lemma_items_skip(block, cursor, strings);
        lemma_patched_is_nested(block, strings, props, next, after);
        let front = said(block.skip(cursor), strings, moved(token, -cursor))->0;
        let rest = items_of(block.skip(next), strings)->0;
        assert(items == front + rest);
        if token is Nop {
            assert(items =~= rest);
        } else {
            assert(items[0] == front[0]);
            assert(items.drop_first() =~= rest);
            if token is Begin {
                assert(items[0] is Open);
            } else if !st.saw_root {
                let i = choose|i: int| 0 <= i < rest.len() && #[trigger] rest[i] is Open;
                assert(items[i + 1] is Open);
            }
        }
    }
}

/// The value of a property of `/chosen`.
pub open spec fn chosen_property(dtb: Seq<u8>, name: Seq<char>) -> Option<Seq<u8>> {
    match tree_items(dtb) {
        None => None,
        Some(items) => chosen_value(items, 0, false, utf8(name)),
    }
}

/// The names of the properties of `/chosen` are of different lengths.
proof fn lemma_names_differ()
    ensures
        utf8("bootargs"@).len() == 8,
        utf8("linux,initrd-start"@).len() == 18,
        utf8("linux,initrd-end"@).len() == 16,
        utf8("linux,booted-from-kexec"@).len() == 23,
{
    reveal_strlit("bootargs");
    reveal_strlit("linux,initrd-start");
    reveal_strlit("linux,initrd-end");
    reveal_strlit("linux,booted-from-kexec");
    vstd::utf8::is_ascii_chars_encode_utf8("bootargs"@);
    vstd::utf8::is_ascii_chars_encode_utf8("linux,initrd-start"@);
    vstd::utf8::is_ascii_chars_encode_utf8("linux,initrd-end"@);
    vstd::utf8::is_ascii_chars_encode_utf8("linux,booted-from-kexec"@);
}

/// What the properties that `/chosen` gets say under each name.
proof fn lemma_first_values(cmdline: Seq<u8>, initrd: Option<(u64, u64)>)
    ensures
        ({
            let props = chosen_items(cmdline, initrd);
            &&& forall|i: int| 0 <= i < props.len() ==> #[trigger] props[i] is Value
            &&& first_value(props, utf8("bootargs"@)) == (if cmdline.len() == 0 {
                None
            } else {
                Some(cmdline + seq![0u8])
            })
            &&& first_value(props, utf8("linux,initrd-start"@)) == (match initrd {
                Some((start, end)) => Some(be64_bytes(start)),
                None => None,
            })
            &&& first_value(props, utf8("linux,initrd-end"@)) == (match initrd {
                Some((start, end)) => Some(be64_bytes(end)),
                None => None,
            })
            &&& first_value(props, utf8("linux,booted-from-kexec"@)) == Some(Seq::<u8>::empty())
        }),
{
    lemma_names_differ();
    reveal_with_fuel(first_value, 6);
    let props = chosen_items(cmdline, initrd);
    let a = props.drop_first();
    let b = a.drop_first();
    let c = b.drop_first();
    let mark = Item::Value { name: utf8("linux,booted-from-kexec"@), value: Seq::empty() };
    match initrd {
        Some((start, end)) => {
            let first = Item::Value {
                name: utf8("linux,initrd-start"@),
                value: be64_bytes(start),
            };
            let second = Item::Value { name: utf8("linux,initrd-end"@), value: be64_bytes(end) };
            if cmdline.len() == 0 {
                assert(props =~= seq![first, second, mark]);
                assert(a =~= seq![second, mark]);
                assert(b =~= seq![mark]);
                assert(c =~= Seq::<Item>::empty());
            } else {
                let line = Item::Value { name: utf8("bootargs"@), value: cmdline + seq![0u8] };
                assert(props =~= seq![line, first, second, mark]);
                assert(a =~= seq![first, second, mark]);
                assert(b =~= seq![second, mark]);
                assert(c =~= seq![mark]);
                assert(c.drop_first() =~= Seq::<Item>::empty());
            }
        },
        None => {
            if cmdline.len() == 0 {
                assert(props =~= seq![mark]);
                assert(a =~= Seq::<Item>::empty());
            } else {
                let line = Item::Value { name: utf8("bootargs"@), value: cmdline + seq![0u8] };
                assert(props =~= seq![line, mark]);
                assert(a =~= seq![mark]);
                assert(b =~= Seq::<Item>::empty());
            }
        },
    }
}

proof fn lemma_chosen_lookup(items: Seq<Item>, props: Seq<Item>, name: Seq<u8>)
    requires
        forall|i: int| 0 <= i < props.len() ==> #[trigger] props[i] is Value,
        replaces(name),
        nested(items, 0),
        has_node(items),
    ensures
        chosen_value(with_chosen(items, 0, false, false, props), 0, false, name) == first_value(
            props,
            name,
        ),
{
    if first_value(props, name) is Some {
        lemma_present(items, 0, false, props, name);
    } else {
        lemma_absent(items, 0, false, false, props, name);
    }
}

/// The next kernel reads in `/chosen` exactly the command line that it is given, closed by a zero
/// byte, and none where it is empty; the bounds of the initial ramdisk, and none where there is
/// none; and the mark of this way of booting. Whatever the node said before under these names is
/// gone.
pub proof fn law_next_kernel_reads_chosen(
    dtb: Seq<u8>,
    cmdline: Seq<char>,
    initrd: Option<(u64, u64)>,
)
    requires
        dtb.len() + 3 <= usize::MAX,
        tree_items(dtb) is Some,
        chosen_patched(dtb, cmdline, initrd) is Ok,
    ensures
        ({
            let patched = chosen_patched(dtb, cmdline, initrd)->Ok_0;
            &&& chosen_property(patched, "bootargs"@) == (if utf8(cmdline).len() == 0 {
                None
            } else {
                Some(utf8(cmdline) + seq![0u8])
            })
            &&& chosen_property(patched, "linux,initrd-start"@) == (match initrd {
                Some((start, end)) => Some(be64_bytes(start)),
                None => None,
            })
            &&& chosen_property(patched, "linux,initrd-end"@) == (match initrd {
                Some((start, end)) => Some(be64_bytes(end)),
                None => None,
            })
            &&& chosen_property(patched, "linux,booted-from-kexec"@) == Some(Seq::<u8>::empty())
        }),
{
    law_only_chosen_is_changed(dtb, cmdline, initrd);
    lemma_can_be_patched(dtb, cmdline, initrd);
    let items = tree_items(dtb)->0;
    let props = chosen_items(utf8(cmdline), initrd);
    lemma_first_values(utf8(cmdline), initrd);
    lemma_chosen_lookup(items, props, utf8("bootargs"@));
    lemma_chosen_lookup(items, props, utf8("linux,initrd-start"@));
    lemma_chosen_lookup(items, props, utf8("linux,initrd-end"@));
    lemma_chosen_lookup(items, props, utf8("linux,booted-from-kexec"@));
}

/// A tree that can be patched has a root, and every node of it closes.
proof fn lemma_can_be_patched(dtb: Seq<u8>, cmdline: Seq<char>, initrd: Option<(u64, u64)>)
    requires
        dtb.len() + 3 <= usize::MAX,
        tree_items(dtb) is Some,
        chosen_patched(dtb, cmdline, initrd) is Ok,
    ensures
        nested(tree_items(dtb)->0, 0),
        has_node(tree_items(dtb)->0),
{
    reveal(chosen_patched);
    let h = header_of(dtb)->Ok_0;
    let strings = strings_block(dtb, h);
    let block = struct_block(dtb, h);
    let (more, offsets) = chosen_strings(strings)->Ok_0;
    let props = chosen_props(offsets, utf8(cmdline), initrd);
    lemma_chosen_strings(strings);
    lemma_items_grow(block, strings, more);
    assert(block.skip(0) =~= block);
    lemma_patched_is_nested(block, more, props, 0, patch_start());
}

} // verus!
