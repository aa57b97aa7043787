//! Properties of a device tree.
use vstd::prelude::*;
use vstd::string::*;
use vstd::utf8::*;

use crate::text::{decode, ended, law_ended_pieces_are_cut_again, pieces, split_state, texts};
use crate::bytes::{be32, be_u32};

verus! {

/// Those of the byte strings that are text and not empty.
pub open spec fn readable_texts(list: Seq<Seq<u8>>) -> Seq<Seq<char>>
    decreases list.len(),
{
    if list.len() == 0 {
        Seq::empty()
    } else {
        let front = readable_texts(list.drop_last());
        if list.last().len() > 0 && valid_utf8(list.last()) {
            front.push(decode_utf8(list.last()))
        } else {
            front
        }
    }
}

/// The strings of a property: what stands between its zero bytes, as far as it is text and not
/// empty.
pub open spec fn property_texts(bytes: Seq<u8>) -> Seq<Seq<char>> {
    readable_texts(pieces(bytes, 0u8))
}

fn push_readable(out: &mut Vec<String>, piece: &[u8])
    ensures
        texts(final(out)@) == (if piece@.len() > 0 && valid_utf8(piece@) {
            texts(old(out)@).push(decode_utf8(piece@))
        } else {
            texts(old(out)@)
        }),
{
    if piece.len() > 0 {
        if let Some(text) = decode(piece) {
            let ghost before = out@;
            out.push(text);
            assert(texts(out@) =~= texts(before).push(text@));
        }
    }
}

/// The strings of a property.
pub fn parse_fdt_strings(bytes: &[u8]) -> (r: Vec<String>)
    ensures
        texts(r@) == property_texts(bytes@),
{
    let mut out: Vec<String> = Vec::new();
    let mut start: usize = 0;
    let mut i: usize = 0;
    let ghost mut done: Seq<Seq<u8>> = Seq::empty();
    assert(bytes@.subrange(0, 0) =~= Seq::<u8>::empty());
    assert(texts(out@) =~= Seq::<Seq<char>>::empty());
    while i < bytes.len()
        invariant
            start <= i <= bytes@.len(),
            texts(out@) == readable_texts(done),
            split_state(bytes@.take(i as int), 0u8) == (done, bytes@.subrange(
                start as int,
                i as int,
            )),
        decreases bytes@.len() - i,
    {
        proof {
            assert(bytes@.take(i + 1).drop_last() =~= bytes@.take(i as int));
            assert(bytes@.take(i + 1).last() == bytes@[i as int]);
        }
        if bytes[i] == 0 {
            push_readable(&mut out, &bytes[start..i]);
            proof {
                let piece = bytes@.subrange(start as int, i as int);
                assert(done.push(piece).drop_last() =~= done);
                done = done.push(piece);
            }
            start = i + 1;
            assert(bytes@.subrange(start as int, i + 1) =~= Seq::<u8>::empty());
        } else {
            assert(bytes@.subrange(start as int, i + 1) =~= bytes@.subrange(
                start as int,
                i as int,
            ).push(bytes@[i as int]));
        }
        i += 1;
    }
    assert(bytes@.take(i as int) =~= bytes@);
    push_readable(&mut out, &bytes[start..bytes.len()]);
    proof {
        let piece = bytes@.subrange(start as int, i as int);
        assert(done.push(piece).drop_last() =~= done);
    }
    out
}

/// The first cell of a property.
pub open spec fn first_cell(bytes: Seq<u8>) -> Option<u32> {
    if bytes.len() < 4 {
        None
    } else {
        Some(be32(bytes, 0))
    }
}

/// The first cell of a property.
pub fn first_fdt_u32(bytes: &[u8]) -> (r: Option<u32>)
    ensures
        r == first_cell(bytes@),
{
    if bytes.len() < 4 {
        None
    } else {
        Some(be_u32(bytes, 0))
    }
}

proof fn lemma_readable(parts: Seq<Seq<u8>>)
    requires
        forall|i: int| 0 <= i < parts.len() ==> (#[trigger] parts[i]).len() > 0 && valid_utf8(parts[i]),
    ensures
        readable_texts(parts) == Seq::new(parts.len(), |i: int| decode_utf8(parts[i])),
    decreases parts.len(),
{
    if parts.len() > 0 {
        let fewer = parts.drop_last();
        assert forall|i: int| 0 <= i < fewer.len() implies (#[trigger] fewer[i]).len() > 0
            && valid_utf8(fewer[i]) by {
            assert(fewer[i] == parts[i]);
        }
        lemma_readable(fewer);
        assert(parts[parts.len() - 1].len() > 0);
    }
    assert(readable_texts(parts) =~= Seq::new(parts.len(), |i: int| decode_utf8(parts[i])));
}

/// The texts of a property, each ended by a zero byte, are read in their order, and a number is read
/// with its highest byte first.
pub proof fn law_properties_are_read(parts: Seq<Seq<u8>>, cell: Seq<u8>)
    requires
        forall|i: int|
            0 <= i < parts.len() ==> (#[trigger] parts[i]).len() > 0 && valid_utf8(parts[i])
                && !parts[i].contains(0u8),
    ensures
        property_texts(ended(parts, 0u8)) == Seq::new(parts.len(), |i: int| decode_utf8(parts[i])),
        cell.len() >= 4 ==> first_cell(cell) == Some(
            (cell[0] * 0x100_0000 + cell[1] * 0x1_0000 + cell[2] * 0x100 + cell[3]) as u32,
        ),
        cell.len() < 4 ==> first_cell(cell) is None,
{
    law_ended_pieces_are_cut_again(parts, 0u8);
    lemma_readable(parts);
    assert(parts.push(Seq::empty()).drop_last() =~= parts);
}

} // verus!
