//! What taking over the memory nodes of another tree changes of what a tree says.
use vstd::prelude::*;
use vstd::string::*;

use crate::bytes::lemma_next_byte;
use crate::kexec::fdt::{
    after_token, built, copied_from, graft_start, graft_step, grafted_from, header_of,
    lemma_copied_from, lemma_token_at, memory_from, memory_grafted, names_memory, prop_bytes,
    reservations, string_of, strings_block, struct_block, subtree_end, token_at, with_string,
    FdtError, GraftState, Token,
};
use crate::kexec::tree::{
    items_of, law_built_trees_are_read_back, lemma_copied_front, lemma_items_front,
    lemma_items_grow, lemma_items_skip, lemma_prop_front, lemma_reservations,
    lemma_reservations_stay, lemma_strings_grow, lemma_token_moves, lemma_with_string, moved,
    has_node, nested, said, tree_items, tree_reservations, Item,
};

verus! {

/// What a tree says of its memory, from some items on with `depth` nodes open: all that stands in
/// nodes under the root whose names are those of memory. `inside` tells that such a node is open.
pub open spec fn memory_part(items: Seq<Item>, depth: int, inside: bool) -> Seq<Item>
    decreases items.len(),
{
    if items.len() == 0 {
        Seq::empty()
    } else {
        let rest = items.drop_first();
        let kept = Seq::<Item>::empty().push(items[0]);
        match items[0] {
            Item::Open(name) => if inside || (depth == 1 && names_memory(name)) {
                kept + memory_part(rest, depth + 1, true)
            } else {
                memory_part(rest, depth + 1, false)
            },
            Item::Value { .. } => if inside {
                kept + memory_part(rest, depth, true)
            } else {
                memory_part(rest, depth, false)
            },
            Item::Close => if inside {
                kept + memory_part(rest, depth - 1, depth != 2)
            } else {
                memory_part(rest, depth - 1, false)
            },
        }
    }
}

/// What a tree says once it has the memory nodes `memory` in place of its own, from some items on
/// with `depth` nodes open: they stand before the first other node under the root, or at the end of
/// the root, and all else stays as it is.
pub open spec fn with_memory(
    items: Seq<Item>,
    depth: int,
    inside: bool,
    inserted: bool,
    memory: Seq<Item>,
) -> Seq<Item>
    decreases items.len(),
{
    if items.len() == 0 {
        Seq::empty()
    } else {
        let rest = items.drop_first();
        let kept = (if depth == 1 && !inserted && !(items[0] is Value) {
            memory
        } else {
            Seq::empty()
        }).push(items[0]);
        match items[0] {
            Item::Open(name) => if inside || (depth == 1 && names_memory(name)) {
                with_memory(rest, depth + 1, true, inserted, memory)
            } else {
                kept + with_memory(rest, depth + 1, false, inserted || depth == 1, memory)
            },
            Item::Value { .. } => if inside {
                with_memory(rest, depth, true, inserted, memory)
            } else {
                kept + with_memory(rest, depth, false, inserted, memory)
            },
            Item::Close => if inside {
                with_memory(rest, depth - 1, depth != 2, inserted, memory)
            } else {
                kept + with_memory(rest, depth - 1, false, inserted || depth == 1, memory)
            },
        }
    }
}

/// Whether bytes in front of any block are read as the items.
#[verifier::opaque]
pub open spec fn reads_as(bytes: Seq<u8>, items: Seq<Item>, strings: Seq<u8>) -> bool {
    forall|tail: Seq<u8>|
        bytes.len() + tail.len() + 16 <= u32::MAX && (#[trigger] items_of(tail, strings)) is Some
            ==> items_of(bytes + tail, strings) == Some(items + items_of(tail, strings)->0)
}

/// What a block says from its token at `cursor` on.
spec fn at(block: Seq<u8>, strings: Seq<u8>, cursor: int) -> Seq<Item> {
    items_of(block.skip(cursor), strings)->0
}

/// A subtree that is skipped leaves nothing behind.
proof fn lemma_skipped(
    block: Seq<u8>,
    strings: Seq<u8>,
    cursor: int,
    depth: int,
    inserted: bool,
    memory: Seq<Item>,
)
    requires
        0 <= cursor,
        cursor % 4 == 0,
        block.len() + 3 <= usize::MAX,
        depth >= 1,
        items_of(block.skip(cursor), strings) is Some,
        subtree_end(block, cursor, depth) is Ok,
    ensures
        ({
            let next = subtree_end(block, cursor, depth)->Ok_0;
            &&& cursor < next <= block.len()
            &&& next % 4 == 0
            &&& items_of(block.skip(next), strings) is Some
            &&& with_memory(at(block, strings, cursor), depth + 1, true, inserted, memory)
                == with_memory(at(block, strings, next), 1, false, inserted, memory)
        }),
    decreases (if cursor < block.len() { block.len() - cursor } else { 0 }),
{
    lemma_token_at(block, cursor);
    let token = token_at(block, cursor)->Ok_0;
    let after = after_token(cursor, token);
    let items = at(block, strings, cursor);
    if token is Begin && after > block.len() {
        lemma_token_at(block, after);
        reveal(token_at);
    }
    lemma_items_skip(block, cursor, strings);
    let front = said(block.skip(cursor), strings, moved(token, -cursor))->0;
    let rest = at(block, strings, after);
    assert(items == front + rest);
    if token is Nop {
        assert(items =~= rest);
    } else {
        assert(items[0] == front[0]);
        assert(items.drop_first() =~= rest);
    }
    match token {
        Token::Begin { .. } => {
            lemma_skipped(block, strings, after, depth + 1, inserted, memory);
        },
        Token::End => {
            if depth > 1 {
                lemma_skipped(block, strings, after, depth - 1, inserted, memory);
            }
        },
        _ => {
            lemma_skipped(block, strings, after, depth, inserted, memory);
        },
    }
}

/// A token that names no string says the same in front of any block.
proof fn lemma_plain_front(
    block: Seq<u8>,
    strings: Seq<u8>,
    cursor: int,
    tail: Seq<u8>,
    all: Seq<u8>,
)
    requires
        0 <= cursor,
        cursor % 4 == 0,
        block.len() + 3 <= usize::MAX,
        token_at(block, cursor) matches Ok(token) && !(token is Finish) && !(token is Prop)
            && after_token(cursor, token) <= block.len(),
        (after_token(cursor, token_at(block, cursor)->Ok_0) - cursor) + tail.len() + 3
            <= usize::MAX,
        items_of(block.skip(cursor), strings) is Some,
        items_of(tail, all) is Some,
    ensures
        ({
            let token = token_at(block, cursor)->Ok_0;
            let next = after_token(cursor, token);
            items_of(block.subrange(cursor, next) + tail, all) == Some(
                said(block.skip(cursor), strings, moved(token, -cursor))->0 + items_of(
                    tail,
                    all,
                )->0,
            )
        }),
{
    let token = token_at(block, cursor)->Ok_0;
    let next = after_token(cursor, token);
    let piece = block.subrange(cursor, next);
    let here = block.skip(cursor);
    lemma_token_at(block, cursor);
    lemma_items_skip(block, cursor, strings);
    lemma_token_moves(block, cursor, piece, 0, next - cursor);
    if let Token::Begin { name_end, .. } = moved(token, -cursor) {
        assert(piece.subrange(4, name_end as int) =~= here.subrange(4, name_end as int));
    }
    lemma_items_front(piece, tail, all);
}

proof fn lemma_string_no_zero(strings: Seq<u8>, offset: int)
    requires
        0 <= offset,
        string_of(strings, offset) is Some,
    ensures
        forall|i: int|
            0 <= i < string_of(strings, offset)->0.len() ==> #[trigger] string_of(
                strings,
                offset,
            )->0[i] != 0,
{
    lemma_next_byte(strings, offset, 0);
}

/// The first items of a block, up to those from `next` on.
spec fn before(block: Seq<u8>, strings: Seq<u8>, cursor: int, next: int) -> Seq<Item> {
    at(block, strings, cursor).take(
        at(block, strings, cursor).len() - at(block, strings, next).len(),
    )
}

/// Whether `data`, with the names of its properties among `all`, says what the block says from
/// `cursor` up to `next`, and that is all memory.
spec fn is_copy(
    block: Seq<u8>,
    strings: Seq<u8>,
    cursor: int,
    depth: int,
    inside: bool,
    data: Seq<u8>,
    next: int,
    all: Seq<u8>,
) -> bool {
    let part = before(block, strings, cursor, next);
    &&& cursor < next <= block.len()
    &&& next % 4 == 0
    &&& items_of(block.skip(next), strings) is Some
    &&& at(block, strings, cursor) == part + at(block, strings, next)
    &&& memory_part(at(block, strings, cursor), depth, inside) == part + memory_part(
        at(block, strings, next),
        1,
        false,
    )
    &&& reads_as(data, part, all)
}

proof fn lemma_reads_on(
    piece: Seq<u8>,
    front: Seq<Item>,
    data: Seq<u8>,
    part: Seq<Item>,
    all: Seq<u8>,
)
    requires
        reads_as(piece, front, all),
        reads_as(data, part, all),
    ensures
        reads_as(piece + data, front + part, all),
{
    reveal(reads_as);
    assert forall|tail: Seq<u8>|
        (piece + data).len() + tail.len() + 16 <= u32::MAX && (#[trigger] items_of(tail, all))
            is Some implies items_of((piece + data) + tail, all) == Some(
        (front + part) + items_of(tail, all)->0,
    ) by {
        let last = items_of(tail, all)->0;
        assert(items_of(data + tail, all) == Some(part + last));
        assert(items_of(piece + (data + tail), all) == Some(front + (part + last)));
        assert(piece + (data + tail) =~= (piece + data) + tail);
        assert(front + (part + last) =~= (front + part) + last);
    }
}

proof fn lemma_plain_reads(block: Seq<u8>, strings: Seq<u8>, cursor: int, all: Seq<u8>)
    requires
        0 <= cursor,
        cursor % 4 == 0,
        block.len() + 3 <= usize::MAX,
        token_at(block, cursor) matches Ok(token) && !(token is Finish) && !(token is Prop)
            && after_token(cursor, token) <= block.len(),
        items_of(block.skip(cursor), strings) is Some,
    ensures
        ({
            let token = token_at(block, cursor)->Ok_0;
            let next = after_token(cursor, token);
            reads_as(
                block.subrange(cursor, next),
                said(block.skip(cursor), strings, moved(token, -cursor))->0,
                all,
            )
        }),
{
    reveal(reads_as);
    let token = token_at(block, cursor)->Ok_0;
    let next = after_token(cursor, token);
    let piece = block.subrange(cursor, next);
    let front = said(block.skip(cursor), strings, moved(token, -cursor))->0;
    lemma_token_at(block, cursor);
    assert forall|tail: Seq<u8>|
        piece.len() + tail.len() + 16 <= u32::MAX && (#[trigger] items_of(tail, all))
            is Some implies items_of(piece + tail, all) == Some(front + items_of(tail, all)->0) by {
        lemma_plain_front(block, strings, cursor, tail, all);
    }
}

proof fn lemma_prop_reads(nameoff: u32, name: Seq<u8>, value: Seq<u8>, all: Seq<u8>)
    requires
        string_of(all, nameoff as int) == Some(name),
    ensures
        reads_as(prop_bytes(nameoff, value), seq![Item::Value { name, value }], all),
{
    reveal(reads_as);
    let piece = prop_bytes(nameoff, value);
    let front = seq![Item::Value { name, value }];
    assert forall|tail: Seq<u8>|
        piece.len() + tail.len() + 16 <= u32::MAX && (#[trigger] items_of(tail, all))
            is Some implies items_of(piece + tail, all) == Some(front + items_of(tail, all)->0) by {
        lemma_prop_front(nameoff, name, value, tail, all);
    }
}

proof fn lemma_prefixes(a: Seq<u8>, b: Seq<u8>, c: Seq<u8>)
    requires
        a.is_prefix_of(b),
        b.is_prefix_of(c),
    ensures
        a.is_prefix_of(c),
{
    assert forall|i: int| 0 <= i < a.len() implies a[i] == #[trigger] c[i] by {
        assert(a[i] == b.subrange(0, a.len() as int)[i]);
        assert(b[i] == c.subrange(0, b.len() as int)[i]);
    }
    assert(a =~= c.subrange(0, a.len() as int));
}

/// The strings only grow while a subtree is copied.
proof fn lemma_copied_grows(
    block: Seq<u8>,
    strings: Seq<u8>,
    cursor: int,
    depth: int,
    to: Seq<u8>,
)
    requires
        0 <= cursor,
        copied_from(block, strings, cursor, depth, to) is Ok,
    ensures
        to.is_prefix_of(copied_from(block, strings, cursor, depth, to)->Ok_0.2),
    decreases (if cursor < block.len() { block.len() - cursor } else { 0 }),
{
    lemma_token_at(block, cursor);
    match token_at(block, cursor)->Ok_0 {
        Token::Begin { next, .. } => {
            lemma_copied_grows(block, strings, next as int, depth + 1, to);
        },
        Token::End => {
            if depth == 1 {
                assert(to =~= to.subrange(0, to.len() as int));
            } else {
                lemma_copied_grows(block, strings, cursor + 4, depth - 1, to);
            }
        },
        Token::Prop { nameoff, next, .. } => {
            let name = string_of(strings, nameoff as int)->0;
            let (more, offset) = with_string(to, name)->Ok_0;
            lemma_string_no_zero(strings, nameoff as int);
            lemma_with_string(to, name);
            lemma_copied_grows(block, strings, next as int, depth, more);
            lemma_prefixes(
                to,
                more,
                copied_from(block, strings, next as int, depth, more)->Ok_0.2,
            );
        },
        _ => {
            lemma_copied_grows(block, strings, cursor + 4, depth, to);
        },
    }
}

/// The rest of a subtree, with `depth` of its nodes open, is copied as it is.
proof fn lemma_copied(
    block: Seq<u8>,
    strings: Seq<u8>,
    cursor: int,
    depth: int,
    to: Seq<u8>,
    all: Seq<u8>,
)
    requires
        0 <= cursor,
        cursor % 4 == 0,
        block.len() + 3 <= usize::MAX,
        depth >= 1,
        items_of(block.skip(cursor), strings) is Some,
        copied_from(block, strings, cursor, depth, to) matches Ok((_, _, more))
            && more.is_prefix_of(all),
    ensures
        ({
            let (data, next, more) = copied_from(block, strings, cursor, depth, to)->Ok_0;
            is_copy(block, strings, cursor, depth + 1, true, data, next, all)
        }),
    decreases (if cursor < block.len() { block.len() - cursor } else { 0 }),
{
    lemma_token_at(block, cursor);
    lemma_copied_from(block, strings, cursor, depth, to);
    let token = token_at(block, cursor)->Ok_0;
    let after = after_token(cursor, token);
    let (data, next, more) = copied_from(block, strings, cursor, depth, to)->Ok_0;
    lemma_items_skip(block, cursor, strings);
    let items = at(block, strings, cursor);
    let front = said(block.skip(cursor), strings, moved(token, -cursor))->0;
    let rest = at(block, strings, after);
    assert(items == front + rest);
    if token is Nop {
        assert(items =~= rest);
    } else {
        assert(items[0] == front[0]);
        assert(items.drop_first() =~= rest);
        assert(Seq::<Item>::empty().push(items[0]) =~= front);
    }
    if token is End && depth == 1 {
        assert(before(block, strings, cursor, next) =~= front);
        lemma_plain_reads(block, strings, cursor, all);
    } else {
        let deeper = match token {
            Token::Begin { .. } => depth + 1,
            Token::End => depth - 1,
            _ => depth,
        };
        let (piece, to1) = match token {
            Token::Prop { nameoff, value_start, value_end, .. } => {
                let name = string_of(strings, nameoff as int)->0;
                let value = block.subrange(value_start as int, value_end as int);
                let (to1, offset) = with_string(to, name)->Ok_0;
                lemma_string_no_zero(strings, nameoff as int);
                lemma_with_string(to, name);
                lemma_copied_grows(block, strings, after, depth, to1);
                lemma_strings_grow(to1, all, offset as int);
                lemma_prop_reads(offset, name, value, all);
                let here = block.skip(cursor);
                assert(here.subrange(value_start - cursor, value_end - cursor) =~= value);
                assert(front =~= seq![Item::Value { name, value }]);
                (prop_bytes(offset, value), to1)
            },
            _ => {
                lemma_plain_reads(block, strings, cursor, all);
                (block.subrange(cursor, after), to)
            },
        };
        assert(reads_as(piece, front, all));
        lemma_copied(block, strings, after, deeper, to1, all);
        let tail = copied_from(block, strings, after, deeper, to1)->Ok_0.0;
        let part = before(block, strings, after, next);
        assert(data == piece + tail);
        lemma_reads_on(piece, front, tail, part, all);
        assert(before(block, strings, cursor, next) =~= front + part);
        assert(items =~= (front + part) + at(block, strings, next));
        let kept = memory_part(at(block, strings, next), 1, false);
        assert(front + (part + kept) =~= (front + part) + kept);
        assert(Seq::<Item>::empty() + (part + kept) =~= part + kept);
    }
}

/// A memory node under the root is copied as it is.
proof fn lemma_node_copied(
    block: Seq<u8>,
    strings: Seq<u8>,
    cursor: int,
    to: Seq<u8>,
    all: Seq<u8>,
)
    requires
        0 <= cursor,
        cursor % 4 == 0,
        block.len() + 3 <= usize::MAX,
        token_at(block, cursor) matches Ok(Token::Begin { name_end, .. }) && names_memory(
            block.subrange(cursor + 4, name_end as int),
        ),
        items_of(block.skip(cursor), strings) is Some,
        copied_from(block, strings, cursor, 0, to) matches Ok((_, _, more)) && more.is_prefix_of(
            all,
        ),
    ensures
        ({
            let (data, next, more) = copied_from(block, strings, cursor, 0, to)->Ok_0;
            is_copy(block, strings, cursor, 1, false, data, next, all)
        }),
{
    lemma_token_at(block, cursor);
    lemma_copied_from(block, strings, cursor, 0, to);
    let token = token_at(block, cursor)->Ok_0;
    let after = after_token(cursor, token);
    let (data, next, more) = copied_from(block, strings, cursor, 0, to)->Ok_0;
    lemma_items_skip(block, cursor, strings);
    let items = at(block, strings, cursor);
    let front = said(block.skip(cursor), strings, moved(token, -cursor))->0;
    let rest = at(block, strings, after);
    assert(items[0] == front[0]);
    assert(items.drop_first() =~= rest);
    assert(Seq::<Item>::empty().push(items[0]) =~= front);
    let name_end = token->name_end;
    assert(block.skip(cursor).subrange(4, name_end - cursor) =~= block.subrange(
        cursor + 4,
        name_end as int,
    ));
    let piece = block.subrange(cursor, after);
    lemma_plain_reads(block, strings, cursor, all);
    lemma_copied(block, strings, after, 1, to, all);
    let tail = copied_from(block, strings, after, 1, to)->Ok_0.0;
    let part = before(block, strings, after, next);
    lemma_reads_on(piece, front, tail, part, all);
    assert(before(block, strings, cursor, next) =~= front + part);
    assert(items =~= (front + part) + at(block, strings, next));
    let kept = memory_part(at(block, strings, next), 1, false);
    assert(front + (part + kept) =~= (front + part) + kept);
}

/// The strings only grow while memory nodes are copied, and nodes are only added.
proof fn lemma_memory_grows(
    block: Seq<u8>,
    strings: Seq<u8>,
    cursor: int,
    depth: int,
    saw_root: bool,
    found: Seq<Seq<u8>>,
    to: Seq<u8>,
)
    requires
        0 <= cursor,
        memory_from(block, strings, cursor, depth, saw_root, found, to) is Ok,
    ensures
        ({
            let (memory, more) = memory_from(
                block,
                strings,
                cursor,
                depth,
                saw_root,
                found,
                to,
            )->Ok_0;
            to.is_prefix_of(more) && found.is_prefix_of(memory)
        }),
    decreases (if cursor < block.len() { block.len() - cursor } else { 0 }),
{
    lemma_token_at(block, cursor);
    let token = token_at(block, cursor)->Ok_0;
    match token {
        Token::Begin { name_end, next } => {
            let name = block.subrange(cursor + 4, name_end as int);
            if depth == 0 {
                lemma_memory_grows(block, strings, next as int, 1, true, found, to);
            } else if depth == 1 && names_memory(name) {
                lemma_copied_from(block, strings, cursor, 0, to);
                lemma_copied_grows(block, strings, cursor, 0, to);
                let (data, next, to1) = copied_from(block, strings, cursor, 0, to)->Ok_0;
                let longer = found.push(data);
                lemma_memory_grows(block, strings, next, depth, saw_root, longer, to1);
                let (memory, more) = memory_from(
                    block,
                    strings,
                    next,
                    depth,
                    saw_root,
                    longer,
                    to1,
                )->Ok_0;
                lemma_prefixes(to, to1, more);
                assert forall|i: int| 0 <= i < found.len() implies found[i]
                    == #[trigger] memory[i] by {
                    assert(longer[i] == memory.subrange(0, longer.len() as int)[i]);
                }
                assert(found =~= memory.subrange(0, found.len() as int));
            } else {
                lemma_memory_grows(block, strings, next as int, depth + 1, saw_root, found, to);
            }
        },
        Token::End => {
            lemma_memory_grows(block, strings, cursor + 4, depth - 1, saw_root, found, to);
        },
        Token::Prop { next, .. } => {
            lemma_memory_grows(block, strings, next as int, depth, saw_root, found, to);
        },
        Token::Nop => {
            lemma_memory_grows(block, strings, cursor + 4, depth, saw_root, found, to);
        },
        Token::Finish => {
            assert(to =~= to.subrange(0, to.len() as int));
            assert(found =~= found.subrange(0, found.len() as int));
        },
    }
}

/// The memory nodes that are copied say what the tree says of its memory.
proof fn lemma_memory_items(
    block: Seq<u8>,
    strings: Seq<u8>,
    cursor: int,
    depth: int,
    saw_root: bool,
    found: Seq<Seq<u8>>,
    to: Seq<u8>,
    all: Seq<u8>,
)
    requires
        0 <= cursor,
        cursor % 4 == 0,
        block.len() + 3 <= usize::MAX,
        depth >= 0,
        items_of(block.skip(cursor), strings) is Some,
        memory_from(block, strings, cursor, depth, saw_root, found, to) matches Ok((_, more))
            && more.is_prefix_of(all),
    ensures
        ({
            let (memory, more) = memory_from(
                block,
                strings,
                cursor,
                depth,
                saw_root,
                found,
                to,
            )->Ok_0;
            reads_as(
                memory.skip(found.len() as int).flatten(),
                memory_part(at(block, strings, cursor), depth, false),
                all,
            )
        }),
    decreases (if cursor < block.len() { block.len() - cursor } else { 0 }),
{
    lemma_token_at(block, cursor);
    lemma_memory_grows(block, strings, cursor, depth, saw_root, found, to);
    let token = token_at(block, cursor)->Ok_0;
    let after = after_token(cursor, token);
    let (memory, more) = memory_from(
        block,
        strings,
        cursor,
        depth,
        saw_root,
        found,
        to,
    )->Ok_0;
    if token is Begin && after > block.len() {
        lemma_copied_from(block, strings, cursor, 0, to);
        lemma_token_at(block, after);
        reveal(token_at);
    }
    lemma_items_skip(block, cursor, strings);
    let items = at(block, strings, cursor);
    let front = said(block.skip(cursor), strings, moved(token, -cursor))->0;
    let rest = at(block, strings, after);
    if !(token is Finish) {
        assert(items == front + rest);
        if token is Nop {
            assert(items =~= rest);
        } else {
            assert(items[0] == front[0]);
            assert(items.drop_first() =~= rest);
        }
    }
    match token {
        Token::Begin { name_end, next } => {
            let name = block.subrange(cursor + 4, name_end as int);
            assert(block.skip(cursor).subrange(4, name_end - cursor) =~= name);
            if depth == 0 {
                lemma_memory_items(block, strings, next as int, 1, true, found, to, all);
            } else if depth == 1 && names_memory(name) {
                lemma_copied_from(block, strings, cursor, 0, to);
                let (data, next, to1) = copied_from(block, strings, cursor, 0, to)->Ok_0;
                let longer = found.push(data);
                lemma_memory_grows(block, strings, next, depth, saw_root, longer, to1);
                lemma_prefixes(to1, more, all);
                lemma_node_copied(block, strings, cursor, to, all);
                lemma_memory_items(block, strings, next, depth, saw_root, longer, to1, all);
                let part = before(block, strings, cursor, next);
                let others = memory.skip(longer.len() as int);
                let these = memory.skip(found.len() as int);
                assert(memory[found.len() as int] == data) by {
                    assert(longer[found.len() as int] == memory.subrange(
                        0,
                        longer.len() as int,
                    )[found.len() as int]);
                }
                assert(these.first() == data);
                assert(these.drop_first() =~= others);
                assert(these.flatten() == data + others.flatten());
                lemma_reads_on(
                    data,
                    part,
                    others.flatten(),
                    memory_part(at(block, strings, next), 1, false),
                    all,
                );
            } else {
                lemma_memory_items(
                    block,
                    strings,
                    next as int,
                    depth + 1,
                    saw_root,
                    found,
                    to,
                    all,
                );
            }
        },
        Token::End => {
            lemma_memory_items(block, strings, cursor + 4, depth - 1, saw_root, found, to, all);
        },
        Token::Prop { next, .. } => {
            lemma_memory_items(block, strings, next as int, depth, saw_root, found, to, all);
        },
        Token::Nop => {
            lemma_memory_items(block, strings, cursor + 4, depth, saw_root, found, to, all);
        },
        Token::Finish => {
            let none = memory.skip(found.len() as int);
            assert(none =~= Seq::<Seq<u8>>::empty());
            assert(none.flatten() =~= Seq::<u8>::empty());
            reveal(reads_as);
            assert forall|tail: Seq<u8>|
                none.flatten().len() + tail.len() + 16 <= u32::MAX && (#[trigger] items_of(
                    tail,
                    all,
                )) is Some implies items_of(none.flatten() + tail, all) == Some(
                Seq::<Item>::empty() + items_of(tail, all)->0,
            ) by {
                assert(none.flatten() + tail =~= tail);
                assert(Seq::<Item>::empty() + items_of(tail, all)->0 =~= items_of(tail, all)->0);
            }
        },
    }
}

/// A piece that is copied behind memory nodes, or behind nothing, is read behind them.
proof fn lemma_kept(
    block: Seq<u8>,
    strings: Seq<u8>,
    memory: Seq<u8>,
    part: Seq<Item>,
    cursor: int,
    tail: Seq<u8>,
    first: bool,
)
    requires
        0 <= cursor,
        cursor % 4 == 0,
        block.len() + 3 <= usize::MAX,
        token_at(block, cursor) matches Ok(token) && !(token is Finish) && after_token(
            cursor,
            token,
        ) <= block.len(),
        reads_as(memory, part, strings),
        items_of(block.skip(cursor), strings) is Some,
        items_of(tail, strings) is Some,
        (if first {
            memory.len()
        } else {
            0
        }) + (after_token(cursor, token_at(block, cursor)->Ok_0) - cursor) + tail.len() + 16
            <= u32::MAX,
    ensures
        ({
            let token = token_at(block, cursor)->Ok_0;
            let piece = block.subrange(cursor, after_token(cursor, token));
            let front = said(block.skip(cursor), strings, moved(token, -cursor))->0;
            let last = items_of(tail, strings)->0;
            if first {
                items_of((memory + piece) + tail, strings) == Some(part + front + last)
            } else {
                items_of((Seq::<u8>::empty() + piece) + tail, strings) == Some(front + last)
            }
        }),
{
    reveal(reads_as);
    let token = token_at(block, cursor)->Ok_0;
    let piece = block.subrange(cursor, after_token(cursor, token));
    let front = said(block.skip(cursor), strings, moved(token, -cursor))->0;
    let last = items_of(tail, strings)->0;
    lemma_token_at(block, cursor);
    lemma_copied_front(block, cursor, tail, strings);
    assert(items_of(piece + tail, strings) == Some(front + last));
    if first {
        assert((memory + piece) + tail =~= memory + (piece + tail));
        assert(part + front + last =~= part + (front + last));
    } else {
        assert((Seq::<u8>::empty() + piece) + tail =~= piece + tail);
    }
}

/// The grafted block says what grafting the items gives.
proof fn lemma_grafted_items(
    block: Seq<u8>,
    strings: Seq<u8>,
    memory: Seq<u8>,
    part: Seq<Item>,
    cursor: int,
    st: GraftState,
)
    requires
        0 <= cursor <= block.len(),
        cursor % 4 == 0,
        block.len() + 3 <= usize::MAX,
        st.depth <= cursor,
        reads_as(memory, part, strings),
        items_of(block.skip(cursor), strings) is Some,
        grafted_from(block, memory, cursor, st) matches Ok(out) && out.len() + 16 <= u32::MAX,
    ensures
        items_of(grafted_from(block, memory, cursor, st)->Ok_0, strings) == Some(
            with_memory(at(block, strings, cursor), st.depth as int, false, st.inserted, part),
        ),
    decreases block.len() - cursor,
{
    lemma_token_at(block, cursor);
    let token = token_at(block, cursor)->Ok_0;
    let after = after_token(cursor, token);
    let (emitted, next, then) = graft_step(block, memory, cursor, token, st)->Ok_0;
    let out = grafted_from(block, memory, cursor, st)->Ok_0;
    let items = at(block, strings, cursor);
    let none = Seq::<Item>::empty();
    if token is Finish {
        lemma_items_skip(block, cursor, strings);
        lemma_token_moves(block, cursor, emitted, 0, 4);
        assert(items_of(out, strings) == Some(none));
    } else {
        if token is Begin && after > block.len() {
            lemma_token_at(block, after);
            reveal(token_at);
        }
        lemma_items_skip(block, cursor, strings);
        let front = said(block.skip(cursor), strings, moved(token, -cursor))->0;
        let rest = at(block, strings, after);
        assert(items == front + rest);
        if token is Nop {
            assert(items =~= rest);
        } else {
            assert(items[0] == front[0]);
            assert(items.drop_first() =~= rest);
            assert(front =~= none.push(items[0]));
        }
        let first = st.depth == 1 && !st.inserted && (token is Begin || token is End);
        let drops = if let Token::Begin { name_end, .. } = token {
            let name = block.subrange(cursor + 4, name_end as int);
            assert(block.skip(cursor).subrange(4, name_end - cursor) =~= name);
            assert(items[0] == Item::Open(name));
            st.depth == 1 && names_memory(name)
        } else {
            false
        };
        if drops {
            assert(subtree_end(block, cursor, 0) == subtree_end(block, after, 1));
            lemma_skipped(block, strings, after, 1, st.inserted, part);
            lemma_grafted_items(block, strings, memory, part, next, then);
            let tail = grafted_from(block, memory, next, then)->Ok_0;
            assert(out == Seq::<u8>::empty() + tail);
            assert(out =~= tail);
        } else {
            assert(next == after);
            let tail = grafted_from(block, memory, next, then)->Ok_0;
            assert(out == emitted + tail);
            lemma_grafted_items(block, strings, memory, part, next, then);
            let last = items_of(tail, strings)->0;
            let piece = block.subrange(cursor, after);
            if token is Begin || token is End {
                assert(emitted == (if first {
                    memory
                } else {
                    Seq::empty()
                }) + piece);
            } else {
                assert(emitted =~= Seq::<u8>::empty() + piece);
            }
            lemma_kept(block, strings, memory, part, cursor, tail, first);
            assert(part + front =~= part.push(items[0]) || token is Nop);
            assert(none + last =~= last);
        }
    }
}

/// A tree with the memory nodes of another one says what the first one said, but for its memory:
/// of that it says what the other one says. The memory reservations stay as they are.
#[verifier::spinoff_prover]
#[verifier::rlimit(50)]
pub proof fn law_only_memory_is_changed(dtb: Seq<u8>, live: Seq<u8>)
    requires
        dtb.len() + 3 <= usize::MAX,
        live.len() + 3 <= usize::MAX,
        tree_items(dtb) is Some,
        tree_items(live) is Some,
        memory_grafted(dtb, live) is Ok,
    ensures
        ({
            let grafted = memory_grafted(dtb, live)->Ok_0;
            &&& tree_items(grafted) == Some(
                with_memory(
                    tree_items(dtb)->0,
                    0,
                    false,
                    false,
                    memory_part(tree_items(live)->0, 0, false),
                ),
            )
            &&& tree_reservations(grafted) == tree_reservations(dtb)
        }),
{
    let h = header_of(dtb)->Ok_0;
    let reserve = reservations(dtb, h.totalsize as int, h.off_mem_rsvmap as int)->Ok_0;
    let live_h = header_of(live)->Ok_0;
    let strings = strings_block(dtb, h);
    let block = struct_block(dtb, h);
    let live_block = struct_block(live, live_h);
    let live_strings = strings_block(live, live_h);
    let (memory, more) = memory_from(
        live_block,
        live_strings,
        0,
        0,
        false,
        Seq::empty(),
        strings,
    )->Ok_0;
    let structure = grafted_from(block, memory.flatten(), 0, graft_start())->Ok_0;
    let grafted = built(h, reserve, structure, more)->Ok_0;
    lemma_reservations(dtb, h.totalsize as int, h.off_mem_rsvmap as int);
    law_built_trees_are_read_back(h, reserve, structure, more);
    lemma_parts(block, strings, live_block, live_strings);
    lemma_reservations_stay(dtb, h, grafted, reserve);
}

/// What a grafted block and its strings say, once they are parts of a tree.
proof fn lemma_parts(
    block: Seq<u8>,
    strings: Seq<u8>,
    live_block: Seq<u8>,
    live_strings: Seq<u8>,
)
    requires
        block.len() + 3 <= usize::MAX,
        live_block.len() + 3 <= usize::MAX,
        items_of(block, strings) is Some,
        items_of(live_block, live_strings) is Some,
        memory_from(live_block, live_strings, 0, 0, false, Seq::empty(), strings) matches Ok(
            (memory, more),
        ) && (grafted_from(block, memory.flatten(), 0, graft_start()) matches Ok(structure)
            && structure.len() + 16 <= u32::MAX),
    ensures
        ({
            let (memory, more) = memory_from(
                live_block,
                live_strings,
                0,
                0,
                false,
                Seq::empty(),
                strings,
            )->Ok_0;
            let structure = grafted_from(block, memory.flatten(), 0, graft_start())->Ok_0;
            items_of(structure, more) == Some(
                with_memory(
                    items_of(block, strings)->0,
                    0,
                    false,
                    false,
                    memory_part(items_of(live_block, live_strings)->0, 0, false),
                ),
            )
        }),
{
    let none = Seq::<Seq<u8>>::empty();
    let (memory, more) = memory_from(
        live_block,
        live_strings,
        0,
        0,
        false,
        none,
        strings,
    )->Ok_0;
    assert(block.skip(0) =~= block);
    assert(live_block.skip(0) =~= live_block);
    assert(memory.skip(0) =~= memory);
    assert(more =~= more.subrange(0, more.len() as int));
    lemma_memory_grows(live_block, live_strings, 0, 0, false, none, strings);
    lemma_items_grow(block, strings, more);
    lemma_memory_items(live_block, live_strings, 0, 0, false, none, strings, more);
    lemma_grafted_items(
        block,
        more,
        memory.flatten(),
        memory_part(items_of(live_block, live_strings)->0, 0, false),
        0,
        graft_start(),
    );
}

/// What a tree says besides its memory, from some items on with `depth` nodes open.
pub open spec fn other_part(items: Seq<Item>, depth: int, inside: bool) -> Seq<Item>
    decreases items.len(),
{
    if items.len() == 0 {
        Seq::empty()
    } else {
        let rest = items.drop_first();
        let kept = Seq::<Item>::empty().push(items[0]);
        match items[0] {
            Item::Open(name) => if inside || (depth == 1 && names_memory(name)) {
                other_part(rest, depth + 1, true)
            } else {
                kept + other_part(rest, depth + 1, false)
            },
            Item::Value { .. } => if inside {
                other_part(rest, depth, true)
            } else {
                kept + other_part(rest, depth, false)
            },
            Item::Close => if inside {
                other_part(rest, depth - 1, depth != 2)
            } else {
                kept + other_part(rest, depth - 1, false)
            },
        }
    }
}

/// What a tree says of its memory is whole nodes: under a root, it is all memory.
proof fn lemma_memory_is_whole(items: Seq<Item>, depth: int, inside: bool, rest: Seq<Item>)
    requires
        nested(items, depth),
        inside ==> depth >= 2,
    ensures
        ({
            let part = memory_part(items, depth, inside);
            let there = if inside {
                depth
            } else {
                1
            };
            &&& memory_part(part + rest, there, inside) == part + memory_part(rest, 1, false)
            &&& other_part(part + rest, there, inside) == other_part(rest, 1, false)
        }),
    decreases items.len(),
{
    let part = memory_part(items, depth, inside);
    if items.len() == 0 {
        assert(part + rest =~= rest);
        assert(part + memory_part(rest, 1, false) =~= memory_part(rest, 1, false));
    } else {
        let more = items.drop_first();
        let (then, stays, keeps) = match items[0] {
            Item::Open(name) => {
                let enters = inside || (depth == 1 && names_memory(name));
                (depth + 1, enters, enters)
            },
            Item::Value { .. } => (depth, inside, inside),
            Item::Close => (depth - 1, inside && depth != 2, inside),
        };
        lemma_memory_is_whole(more, then, stays, rest);
        if keeps {
            let tail = memory_part(more, then, stays);
            assert(part == Seq::<Item>::empty().push(items[0]) + tail);
            assert((part + rest)[0] == items[0]);
            assert((part + rest).drop_first() =~= tail + rest);
            assert(Seq::<Item>::empty().push(items[0]) + (tail + memory_part(rest, 1, false))
                =~= part + memory_part(rest, 1, false));
        }
    }
}

/// What is kept of a tree that gets memory nodes says nothing of memory, and the memory nodes are
/// there once.
proof fn lemma_memory_is_taken_over(
    items: Seq<Item>,
    depth: int,
    inside: bool,
    inserted: bool,
    live: Seq<Item>,
)
    requires
        nested(items, depth),
        nested(live, 0),
        depth >= 0,
        inside ==> depth >= 2,
        inserted || depth >= 1 || has_node(items),
    ensures
        ({
            let part = memory_part(live, 0, false);
            let out = with_memory(items, depth, inside, inserted, part);
            let there = if inside {
                1
            } else {
                depth
            };
            &&& memory_part(out, there, false) == (if inserted {
                Seq::empty()
            } else {
                part
            })
            &&& other_part(out, there, false) == other_part(items, depth, inside)
        }),
    decreases items.len(),
{
    let part = memory_part(live, 0, false);
    let out = with_memory(items, depth, inside, inserted, part);
    let none = Seq::<Item>::empty();
    if items.len() > 0 {
        let rest = items.drop_first();
        assert(depth == 0 && !(items[0] is Open) && has_node(items) ==> has_node(rest)) by {
            if depth == 0 && !(items[0] is Open) && has_node(items) {
                let i = choose|i: int| 0 <= i < items.len() && #[trigger] items[i] is Open;
                assert(rest[i - 1] is Open);
            }
        }
        let (then, stays, drops) = match items[0] {
            Item::Open(name) => {
                let enters = inside || (depth == 1 && names_memory(name));
                (depth + 1, enters, enters)
            },
            Item::Value { .. } => (depth, inside, inside),
            Item::Close => (depth - 1, inside && depth != 2, inside),
        };
        let puts = !drops && depth == 1 && !inserted && !(items[0] is Value);
        let done = inserted || (!drops && depth == 1 && !(items[0] is Value));
        lemma_memory_is_taken_over(rest, then, stays, done, live);
        let tail = with_memory(rest, then, stays, done, part);
        if drops {
            assert(out == tail);
        } else {
            let kept = none.push(items[0]) + tail;
            assert(kept[0] == items[0]);
            assert(kept.drop_first() =~= tail);
            if puts {
                assert(out =~= part + kept);
                lemma_memory_is_whole(live, 0, false, kept);
                assert(part + none =~= part);
            } else {
                assert(out =~= kept);
            }
        }
    }
}

/// Nodes that open in a subtree that is skipped close there.
proof fn lemma_skipped_is_nested(block: Seq<u8>, strings: Seq<u8>, cursor: int, depth: int)
    requires
        0 <= cursor,
        cursor % 4 == 0,
        block.len() + 3 <= usize::MAX,
        depth >= 1,
        items_of(block.skip(cursor), strings) is Some,
        subtree_end(block, cursor, depth) is Ok,
    ensures
        nested(at(block, strings, cursor), depth + 1) == nested(
            at(block, strings, subtree_end(block, cursor, depth)->Ok_0),
            1,
        ),
    decreases (if cursor < block.len() { block.len() - cursor } else { 0 }),
{
    lemma_token_at(block, cursor);
    let token = token_at(block, cursor)->Ok_0;
    let after = after_token(cursor, token);
    let items = at(block, strings, cursor);
    if token is Begin && after > block.len() {
        lemma_token_at(block, after);
        reveal(token_at);
    }
    lemma_items_skip(block, cursor, strings);
    let front = said(block.skip(cursor), strings, moved(token, -cursor))->0;
    let rest = at(block, strings, after);
    assert(items == front + rest);
    if token is Nop {
        assert(items =~= rest);
    } else {
        assert(items[0] == front[0]);
        assert(items.drop_first() =~= rest);
    }
    match token {
        Token::Begin { .. } => {
            lemma_skipped_is_nested(block, strings, after, depth + 1);
        },
        Token::End => {
            if depth > 1 {
                lemma_skipped_is_nested(block, strings, after, depth - 1);
            }
        },
        _ => {
            lemma_skipped_is_nested(block, strings, after, depth);
        },
    }
}

/// A subtree that is copied ends where it would end if it were skipped.
proof fn lemma_same_end(block: Seq<u8>, strings: Seq<u8>, cursor: int, depth: int, to: Seq<u8>)
    requires
        0 <= cursor,
        depth >= 0,
        copied_from(block, strings, cursor, depth, to) is Ok,
    ensures
        subtree_end(block, cursor, depth) == Ok::<int, FdtError>(
            copied_from(block, strings, cursor, depth, to)->Ok_0.1,
        ),
    decreases (if cursor < block.len() { block.len() - cursor } else { 0 }),
{
    lemma_token_at(block, cursor);
    match token_at(block, cursor)->Ok_0 {
        Token::Begin { next, .. } => {
            lemma_same_end(block, strings, next as int, depth + 1, to);
        },
        Token::End => {
            if depth > 1 {
                lemma_same_end(block, strings, cursor + 4, depth - 1, to);
            }
        },
        Token::Prop { nameoff, next, .. } => {
            let name = string_of(strings, nameoff as int)->0;
            let (more, offset) = with_string(to, name)->Ok_0;
            lemma_same_end(block, strings, next as int, depth, more);
        },
        _ => {
            lemma_same_end(block, strings, cursor + 4, depth, to);
        },
    }
}

/// A block whose memory nodes can be copied has all its nodes closed.
proof fn lemma_live_is_nested(
    block: Seq<u8>,
    strings: Seq<u8>,
    cursor: int,
    depth: int,
    saw_root: bool,
    found: Seq<Seq<u8>>,
    to: Seq<u8>,
)
    requires
        0 <= cursor,
        cursor % 4 == 0,
        block.len() + 3 <= usize::MAX,
        depth >= 0,
        items_of(block.skip(cursor), strings) is Some,
        memory_from(block, strings, cursor, depth, saw_root, found, to) is Ok,
    ensures
        nested(at(block, strings, cursor), depth),
    decreases (if cursor < block.len() { block.len() - cursor } else { 0 }),
{
    lemma_token_at(block, cursor);
    let token = token_at(block, cursor)->Ok_0;
    let after = after_token(cursor, token);
    if token is Begin && after > block.len() {
        lemma_copied_from(block, strings, cursor, 0, to);
        lemma_token_at(block, after);
        reveal(token_at);
    }
    lemma_items_skip(block, cursor, strings);
    let items = at(block, strings, cursor);
    let front = said(block.skip(cursor), strings, moved(token, -cursor))->0;
    let rest = at(block, strings, after);
    if !(token is Finish) {
        assert(items == front + rest);
        if token is Nop {
            assert(items =~= rest);
        } else {
            assert(items[0] == front[0]);
            assert(items.drop_first() =~= rest);
        }
    }
    match token {
        Token::Begin { name_end, next } => {
            let name = block.subrange(cursor + 4, name_end as int);
            if depth == 0 {
                lemma_live_is_nested(block, strings, next as int, 1, true, found, to);
            } else if depth == 1 && names_memory(name) {
                lemma_copied_from(block, strings, cursor, 0, to);
                lemma_same_end(block, strings, cursor, 0, to);
                let (data, end, to1) = copied_from(block, strings, cursor, 0, to)->Ok_0;
                lemma_skipped(block, strings, after, 1, false, Seq::empty());
                lemma_skipped_is_nested(block, strings, after, 1);
                lemma_live_is_nested(
                    block,
                    strings,
                    end,
                    depth,
                    saw_root,
                    found.push(data),
                    to1,
                );
            } else {
                lemma_live_is_nested(
                    block,
                    strings,
                    next as int,
                    depth + 1,
                    saw_root,
                    found,
                    to,
                );
            }
        },
        Token::End => {
            lemma_live_is_nested(block, strings, cursor + 4, depth - 1, saw_root, found, to);
        },
        Token::Prop { next, .. } => {
            lemma_live_is_nested(block, strings, next as int, depth, saw_root, found, to);
        },
        Token::Nop => {
            lemma_live_is_nested(block, strings, cursor + 4, depth, saw_root, found, to);
        },
        Token::Finish => {},
    }
}

/// A block that can be grafted has a root, and every node of it closes.
proof fn lemma_grafted_is_nested(
    block: Seq<u8>,
    strings: Seq<u8>,
    memory: Seq<u8>,
    cursor: int,
    st: GraftState,
)
    requires
        0 <= cursor <= block.len(),
        cursor % 4 == 0,
        block.len() + 3 <= usize::MAX,
        st.depth <= cursor,
        st.depth > 0 ==> st.saw_root,
        items_of(block.skip(cursor), strings) is Some,
        grafted_from(block, memory, cursor, st) is Ok,
    ensures
        nested(at(block, strings, cursor), st.depth as int),
        st.saw_root || has_node(at(block, strings, cursor)),
    decreases block.len() - cursor,
{
    lemma_token_at(block, cursor);
    let token = token_at(block, cursor)->Ok_0;
    let after = after_token(cursor, token);
    let (emitted, next, then) = graft_step(block, memory, cursor, token, st)->Ok_0;
    let items = at(block, strings, cursor);
    if token is Finish {
        lemma_items_skip(block, cursor, strings);
    } else {
        if token is Begin && after > block.len() {
            lemma_token_at(block, after);
            reveal(token_at);
        }
        lemma_items_skip(block, cursor, strings);
        let front = said(block.skip(cursor), strings, moved(token, -cursor))->0;
        let rest = at(block, strings, after);
        assert(items == front + rest);
        if token is Nop {
            assert(items =~= rest);
        } else {
            assert(items[0] == front[0]);
            assert(items.drop_first() =~= rest);
        }
        let drops = if let Token::Begin { name_end, .. } = token {
            assert(items[0] is Open);
            st.depth == 1 && names_memory(block.subrange(cursor + 4, name_end as int))
        } else {
            false
        };
        if drops {
            assert(subtree_end(block, cursor, 0) == subtree_end(block, after, 1));
            lemma_skipped(block, strings, after, 1, false, Seq::empty());
            lemma_skipped_is_nested(block, strings, after, 1);
            assert(grafted_from(block, memory, next, then) is Ok);
            lemma_grafted_is_nested(block, strings, memory, next, then);
        } else {
            assert(next == after);
            assert(grafted_from(block, memory, next, then) is Ok);
            lemma_grafted_is_nested(block, strings, memory, next, then);
            if !st.saw_root && !(token is Begin) {
                let i = choose|i: int| 0 <= i < rest.len() && #[trigger] rest[i] is Open;
                if token is Nop {
                    assert(items[i] is Open);
                } else {
                    assert(items[i + 1] is Open);
                }
            }
        }
    }
}

/// The memory that the next kernel reads of is the memory that the running kernel reads of, and
/// what else the tree says is what it said before.
pub proof fn law_next_kernel_reads_live_memory(dtb: Seq<u8>, live: Seq<u8>)
    requires
        dtb.len() + 3 <= usize::MAX,
        live.len() + 3 <= usize::MAX,
        tree_items(dtb) is Some,
        tree_items(live) is Some,
        memory_grafted(dtb, live) is Ok,
    ensures
        ({
            let grafted = memory_grafted(dtb, live)->Ok_0;
            &&& tree_items(grafted) is Some
            &&& memory_part(tree_items(grafted)->0, 0, false) == memory_part(
                tree_items(live)->0,
                0,
                false,
            )
            &&& other_part(tree_items(grafted)->0, 0, false) == other_part(
                tree_items(dtb)->0,
                0,
                false,
            )
        }),
{
    law_only_memory_is_changed(dtb, live);
    lemma_trees_are_nested(dtb, live);
    lemma_memory_is_taken_over(tree_items(dtb)->0, 0, false, false, tree_items(live)->0);
}

proof fn lemma_trees_are_nested(dtb: Seq<u8>, live: Seq<u8>)
    requires
        dtb.len() + 3 <= usize::MAX,
        live.len() + 3 <= usize::MAX,
        tree_items(dtb) is Some,
        tree_items(live) is Some,
        memory_grafted(dtb, live) is Ok,
    ensures
        nested(tree_items(dtb)->0, 0),
        has_node(tree_items(dtb)->0),
        nested(tree_items(live)->0, 0),
{
    let h = header_of(dtb)->Ok_0;
    let live_h = header_of(live)->Ok_0;
    let strings = strings_block(dtb, h);
    let block = struct_block(dtb, h);
    let live_block = struct_block(live, live_h);
    let live_strings = strings_block(live, live_h);
    let none = Seq::<Seq<u8>>::empty();
    let (memory, more) = memory_from(
        live_block,
        live_strings,
        0,
        0,
        false,
        none,
        strings,
    )->Ok_0;
    assert(block.skip(0) =~= block);
    assert(live_block.skip(0) =~= live_block);
    lemma_live_is_nested(live_block, live_strings, 0, 0, false, none, strings);
    lemma_grafted_is_nested(block, strings, memory.flatten(), 0, graft_start());
}

} // verus!
