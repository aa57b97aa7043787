//! The identity of a device in the mesh: the same at every start, told by a hash and never by the
//! serial number.
use vstd::prelude::*;
use vstd::string::*;
use vstd::utf8::*;

use crate::bytes::{parts, push_bytes, trim_ascii_bytes, utf8, without_back, without_front};
use crate::digest::{sha256, sha256_digest};
use crate::mesh::address::{ula_address, ula_octets, Ipv6Addr};
use crate::text::{
    decode, digit, digit_char, ended, join_texts, joined, law_ended_pieces_are_cut_again, pieces,
    split_bytes, texts,
};

verus! {

/// The identity of a device in the mesh.
#[derive(Debug, PartialEq, Eq)]
pub struct MeshIdentity {
    /// The name of the device.
    pub node_id_hex: String,
    /// The address of the device.
    pub ula_addr: Ipv6Addr,
    /// The address of the USB network on the side of the device.
    pub usb_dev_mac: [u8; 6],
    /// The address of the USB network on the side of the host.
    pub usb_host_mac: [u8; 6],
    /// The low half of the addresses of links.
    pub interface_id_low64: [u8; 8],
}

/// The digits of bytes.
pub open spec fn hex_bytes(bytes: Seq<u8>) -> Seq<char>
    decreases bytes.len(),
{
    if bytes.len() == 0 {
        Seq::empty()
    } else {
        hex_bytes(bytes.drop_last()).push(digit((bytes.last() / 16) as int)).push(
            digit((bytes.last() % 16) as int),
        )
    }
}

/// The digits of bytes.
pub fn hex_encode(bytes: &[u8]) -> (s: String)
    ensures
        s@ == hex_bytes(bytes@),
{
    let mut out = String::new();
    let mut i: usize = 0;
    assert(bytes@.take(0) =~= Seq::<u8>::empty());
    while i < bytes.len()
        invariant
            i <= bytes@.len(),
            out@ == hex_bytes(bytes@.take(i as int)),
        decreases bytes@.len() - i,
    {
        assert(bytes@.take(i + 1).drop_last() =~= bytes@.take(i as int));
        out.push(digit_char((bytes[i] / 16) as u64));
        out.push(digit_char((bytes[i] % 16) as u64));
        i += 1;
    }
    assert(bytes@.take(i as int) =~= bytes@);
    out
}

/// The first byte of an address that is local and means one device.
pub open spec fn local_octet(b: u8) -> u8 {
    (b | 2) & 0xfe
}

/// An address that is local and means one device: six bytes with the first one changed.
pub open spec fn local_mac(bytes: Seq<u8>) -> Seq<u8> {
    bytes.update(0, local_octet(bytes[0]))
}

/// An address that is local and means one device.
pub fn locally_administered_mac(bytes: &[u8]) -> (r: [u8; 6])
    requires
        bytes@.len() == 6,
    ensures
        r@ == local_mac(bytes@),
{
    let r = [(bytes[0] | 2) & 0xfe, bytes[1], bytes[2], bytes[3], bytes[4], bytes[5]];
    assert(r@ =~= local_mac(bytes@));
    r
}

/// What the identity is the hash of: a fixed text, the serial number, the model and the kinds of
/// the device, each with a zero byte behind it.
pub open spec fn identity_input(serialno: Seq<char>, model: Seq<char>, compatibles: Seq<Seq<char>>) -> Seq<
    u8,
> {
    utf8("pocketboot mesh identity v1"@).push(0) + utf8(serialno).push(0) + utf8(model).push(0)
        + utf8(joined(compatibles, ","@)).push(0)
}

/// Whether an identity is the one of a hash.
pub open spec fn identity_of(seed: Seq<u8>, id: MeshIdentity) -> bool {
    &&& id.node_id_hex@ == hex_bytes(seed.take(16))
    &&& id.ula_addr.octets@ == ula_octets(seed)
    &&& id.usb_dev_mac@ == local_mac(seed.subrange(8, 14))
    &&& id.usb_host_mac@ == local_mac(seed.subrange(18, 24))
    &&& id.interface_id_low64@ == seed.subrange(24, 32)
}

/// The identity of a hash. Its address is one of the local range.
pub fn identity_from_seed(seed: &[u8]) -> (r: MeshIdentity)
    requires
        seed@.len() == 32,
    ensures
        identity_of(seed@, r),
        r.ula_addr.octets@[0] == 0xfd,
{
    let node_id_hex = hex_encode(&seed[0..16]);
    assert(seed@.subrange(0, 16) =~= seed@.take(16));
    let low = [seed[24], seed[25], seed[26], seed[27], seed[28], seed[29], seed[30], seed[31]];
    assert(low@ =~= seed@.subrange(24, 32));
    MeshIdentity {
        node_id_hex,
        ula_addr: ula_address(seed),
        usb_dev_mac: locally_administered_mac(&seed[8..14]),
        usb_host_mac: locally_administered_mac(&seed[18..24]),
        interface_id_low64: low,
    }
}

/// The identity of a device, by its serial number, its model and its kinds. Its address is one of
/// the local range.
pub fn derive_from_inputs(serialno: &str, model: &str, compatibles: &[String]) -> (r: MeshIdentity)
    ensures
        r.ula_addr.octets@[0] == 0xfd,
        identity_of(sha256(identity_input(serialno@, model@, texts(compatibles@))), r),
{
    let mut input: Vec<u8> = Vec::new();
    push_bytes(&mut input, "pocketboot mesh identity v1".as_bytes());
    input.push(0);
    push_bytes(&mut input, serialno.as_bytes());
    input.push(0);
    push_bytes(&mut input, model.as_bytes());
    input.push(0);
    let kinds = join_texts(compatibles, ",");
    push_bytes(&mut input, kinds.as_str().as_bytes());
    input.push(0);
    assert(input@ =~= identity_input(serialno@, model@, texts(compatibles@)));
    let seed = sha256_digest(&input);
    identity_from_seed(&seed)
}

proof fn lemma_local_bits(b: u8)
    by (bit_vector)
    ensures
        ((b | 2) & 0xfe) & 1 == 0,
        ((b | 2) & 0xfe) & 2 == 2,
{
}

/// The addresses of the USB network are local ones, and each means one device.
pub proof fn law_macs_are_local(seed: Seq<u8>, id: MeshIdentity)
    requires
        seed.len() == 32,
        identity_of(seed, id),
    ensures
        id.usb_dev_mac@[0] & 1 == 0,
        id.usb_dev_mac@[0] & 2 == 2,
        id.usb_host_mac@[0] & 1 == 0,
        id.usb_host_mac@[0] & 2 == 2,
{
    lemma_local_bits(seed[8]);
    lemma_local_bits(seed[18]);
}

proof fn lemma_hex_length(bytes: Seq<u8>)
    ensures
        hex_bytes(bytes).len() == 2 * bytes.len(),
    decreases bytes.len(),
{
    if bytes.len() > 0 {
        lemma_hex_length(bytes.drop_last());
    }
}

/// The name of a device is always 32 digits, whatever its serial number is.
pub proof fn law_names_are_digits(seed: Seq<u8>, id: MeshIdentity)
    requires
        seed.len() == 32,
        identity_of(seed, id),
    ensures
        id.node_id_hex@.len() == 32,
{
    lemma_hex_length(seed.take(16));
}

/// The first piece of a property that is not empty, from the piece at `i` on.
pub open spec fn first_piece(list: Seq<Seq<u8>>, i: int) -> Option<Seq<u8>>
    decreases list.len() - i,
{
    if i >= list.len() {
        None
    } else if list[i].len() > 0 {
        Some(list[i])
    } else {
        first_piece(list, i + 1)
    }
}

/// The model that goes into the identity: the first piece of the property that is not empty,
/// without the spaces around it.
pub open spec fn model_text(bytes: Seq<u8>) -> Option<Seq<char>> {
    match first_piece(pieces(bytes, 0u8), 0) {
        None => None,
        Some(piece) => {
            let inner = without_back(without_front(piece));
            if valid_utf8(inner) {
                Some(decode_utf8(inner))
            } else {
                None
            }
        },
    }
}

/// The model that goes into the identity, from the property of the device tree.
pub fn read_fdt_string(bytes: &[u8]) -> (r: Option<String>)
    ensures
        model_text(bytes@) == (match r {
            Some(text) => Some(text@),
            None => None,
        }),
{
    let list = split_bytes(bytes, 0);
    let ghost views = pieces(bytes@, 0u8);
    let mut i: usize = 0;
    while i < list.len()
        invariant
            i <= list@.len(),
            parts(list@) == views,
            views == pieces(bytes@, 0u8),
            first_piece(views, i as int) == first_piece(views, 0),
        decreases list@.len() - i,
    {
        assert(views[i as int] == list@[i as int]@);
        if list[i].len() > 0 {
            return decode(trim_ascii_bytes(&list[i]));
        }
        i += 1;
    }
    None
}

/// What an identity is made of tells devices apart: two devices for which it is the same have the
/// same serial number and the same model.
pub proof fn law_identities_rest_on_serial_and_model(
    serial: Seq<char>,
    model: Seq<char>,
    kinds: Seq<Seq<char>>,
    other_serial: Seq<char>,
    other_model: Seq<char>,
    other_kinds: Seq<Seq<char>>,
)
    requires
        has_no_zero(serial) && has_no_zero(model) && has_no_zero(joined(kinds, ","@)),
        has_no_zero(other_serial) && has_no_zero(other_model) && has_no_zero(
            joined(other_kinds, ","@),
        ),
        identity_input(serial, model, kinds) == identity_input(
            other_serial,
            other_model,
            other_kinds,
        ),
    ensures
        serial == other_serial,
        model == other_model,
        joined(kinds, ","@) == joined(other_kinds, ","@),
{
    let a = lemma_identity_pieces(serial, model, kinds);
    let b = lemma_identity_pieces(other_serial, other_model, other_kinds);
    assert(a.push(Seq::empty())[1] == b.push(Seq::empty())[1]);
    assert(a.push(Seq::empty())[2] == b.push(Seq::empty())[2]);
    assert(a.push(Seq::empty())[3] == b.push(Seq::empty())[3]);
    encode_utf8_decode_utf8(serial);
    encode_utf8_decode_utf8(other_serial);
    encode_utf8_decode_utf8(model);
    encode_utf8_decode_utf8(other_model);
    encode_utf8_decode_utf8(joined(kinds, ","@));
    encode_utf8_decode_utf8(joined(other_kinds, ","@));
}

/// Whether no byte of a text is zero.
pub open spec fn has_no_zero(text: Seq<char>) -> bool {
    !utf8(text).contains(0u8)
}

proof fn lemma_identity_pieces(serial: Seq<char>, model: Seq<char>, kinds: Seq<Seq<char>>) -> (list:
    Seq<Seq<u8>>)
    requires
        has_no_zero(serial) && has_no_zero(model) && has_no_zero(joined(kinds, ","@)),
    ensures
        list.len() == 4,
        list[1] == utf8(serial),
        list[2] == utf8(model),
        list[3] == utf8(joined(kinds, ","@)),
        pieces(identity_input(serial, model, kinds), 0u8) == list.push(Seq::empty()),
{
    reveal_strlit("pocketboot mesh identity v1");
    let tag = "pocketboot mesh identity v1"@;
    is_ascii_chars_encode_utf8(tag);
    let list = seq![utf8(tag), utf8(serial), utf8(model), utf8(joined(kinds, ","@))];
    assert forall|i: int| 0 <= i < list.len() implies !(#[trigger] list[i]).contains(0u8) by {
        if i == 0 {
            assert forall|k: int| 0 <= k < utf8(tag).len() implies utf8(tag)[k] != 0u8 by {
                assert(utf8(tag)[k] == tag[k] as u8);
            }
        }
    }
    law_ended_pieces_are_cut_again(list, 0u8);
    reveal_with_fuel(ended, 5);
    assert(list.drop_last() =~= seq![utf8(tag), utf8(serial), utf8(model)]);
    assert(list.drop_last().drop_last() =~= seq![utf8(tag), utf8(serial)]);
    assert(list.drop_last().drop_last().drop_last() =~= seq![utf8(tag)]);
    assert(list.drop_last().drop_last().drop_last().drop_last() =~= Seq::<Seq<u8>>::empty());
    assert(ended(list, 0u8) =~= identity_input(serial, model, kinds));
    list
}

} // verus!
