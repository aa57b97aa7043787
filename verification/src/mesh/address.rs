//! The addresses of a device in the mesh.
use vstd::prelude::*;
use vstd::string::*;

use crate::bytes::utf8;
use crate::digest::{sha256, sha256_digest};
use crate::mesh::command::ip_args;
use crate::mesh::identity::MeshIdentity;
use crate::text::{
    cat, hex, joined, law_hex_digits_are_plain, law_joined_texts_are_cut_again, lemma_joined_more,
    owned, pieces, push_hex, texts,
};

verus! {

/// An IPv6 address.
#[derive(Clone, Copy, Debug, PartialEq, Eq)]
pub struct Ipv6Addr {
    pub octets: [u8; 16],
}

/// The front of the addresses of the mesh: a local one that a fixed text chooses.
pub open spec fn prefix_octets() -> Seq<u8> {
    sha256(utf8("pocketboot mesh ula prefix v1"@)).take(6).update(0, 0xfd)
}

/// The address of a device, by the hash of its identity: the front of the mesh, then the last bytes
/// of the hash.
pub open spec fn ula_octets(seed: Seq<u8>) -> Seq<u8> {
    prefix_octets() + seed.subrange(22, 32)
}

/// An address from its two parts.
pub open spec fn octets_of(digest: Seq<u8>, seed: Seq<u8>) -> Seq<u8> {
    digest.take(6).update(0, 0xfd) + seed.subrange(22, 32)
}

/// The address of a device, by the hash of its identity and the hash that gives the front.
pub fn address_from(digest: &[u8], seed: &[u8]) -> (r: Ipv6Addr)
    requires
        digest@.len() == 32,
        seed@.len() == 32,
    ensures
        r.octets@ == octets_of(digest@, seed@),
{
    let octets = [
        0xfd,
        digest[1],
        digest[2],
        digest[3],
        digest[4],
        digest[5],
        seed[22],
        seed[23],
        seed[24],
        seed[25],
        seed[26],
        seed[27],
        seed[28],
        seed[29],
        seed[30],
        seed[31],
    ];
    assert(octets@ =~= octets_of(digest@, seed@));
    Ipv6Addr { octets }
}

/// The address of a device, by the hash of its identity.
pub fn ula_address(seed: &[u8]) -> (r: Ipv6Addr)
    requires
        seed@.len() == 32,
    ensures
        r.octets@ == ula_octets(seed@),
        r.octets@[0] == 0xfd,
{
    let digest = sha256_digest("pocketboot mesh ula prefix v1".as_bytes());
    address_from(&digest, seed)
}

/// The eight groups of an address.
pub open spec fn segments(octets: Seq<u8>) -> Seq<int> {
    Seq::new(8, |i: int| octets[2 * i] * 256 + octets[2 * i + 1])
}

/// Groups in hexadecimal, with colons between them.
pub open spec fn groups(list: Seq<int>) -> Seq<char>
    decreases list.len(),
{
    if list.len() == 0 {
        Seq::empty()
    } else if list.len() == 1 {
        hex(list[0])
    } else {
        groups(list.drop_last()) + ":"@ + hex(list.last())
    }
}

/// How many zero groups end at a place.
pub open spec fn zeros_before(list: Seq<int>, n: int) -> int
    decreases n,
{
    if n <= 0 || list[n - 1] != 0 {
        0
    } else {
        1 + zeros_before(list, n - 1)
    }
}

/// Where the longest run of zero groups among the first `n` starts, and how long it is: the first
/// one of those that are equally long.
pub open spec fn longest_zeros(list: Seq<int>, n: int) -> (int, int)
    decreases n,
{
    if n <= 0 {
        (0, 0)
    } else {
        let best = longest_zeros(list, n - 1);
        let run = zeros_before(list, n);
        if run > best.1 {
            (n - run, run)
        } else {
            best
        }
    }
}

/// An address in words: the longest run of two or more zero groups is left out.
pub open spec fn address_text(octets: Seq<u8>) -> Seq<char> {
    let list = segments(octets);
    let (start, len) = longest_zeros(list, 8);
    if len > 1 {
        groups(list.take(start)) + "::"@ + groups(list.skip(start + len))
    } else {
        groups(list)
    }
}

proof fn lemma_zeros(list: Seq<int>, n: int)
    requires
        0 <= n <= list.len(),
    ensures
        0 <= zeros_before(list, n) <= n,
    decreases n,
{
    if n > 0 && list[n - 1] == 0 {
        lemma_zeros(list, n - 1);
    }
}

proof fn lemma_longest(list: Seq<int>, n: int)
    requires
        0 <= n <= list.len(),
    ensures
        0 <= longest_zeros(list, n).0,
        0 <= longest_zeros(list, n).1,
        longest_zeros(list, n).0 + longest_zeros(list, n).1 <= n,
    decreases n,
{
    if n > 0 {
        lemma_longest(list, n - 1);
        lemma_zeros(list, n);
    }
}

fn push_groups(out: &mut String, list: &[u64], from: usize, to: usize)
    requires
        from <= to <= list@.len(),
    ensures
        final(out)@ == old(out)@ + groups(
            list@.subrange(from as int, to as int).map_values(|v: u64| v as int),
        ),
{
    let ghost start = out@;
    let mut i: usize = from;
    let ghost all = list@.map_values(|v: u64| v as int);
    assert(list@.subrange(from as int, to as int).map_values(|v: u64| v as int) =~= all.subrange(
        from as int,
        to as int,
    ));
    assert(all.subrange(from as int, from as int) =~= Seq::<int>::empty());
    assert(out@ =~= start + groups(Seq::<int>::empty()));
    while i < to
        invariant
            from <= i <= to <= list@.len(),
            all == list@.map_values(|v: u64| v as int),
            out@ == start + groups(all.subrange(from as int, i as int)),
        decreases to - i,
    {
        let ghost next = all.subrange(from as int, i + 1);
        assert(next.drop_last() =~= all.subrange(from as int, i as int));
        assert(next.last() == list@[i as int]);
        let ghost before = out@;
        if i > from {
            out.push(':');
            proof {
                reveal_strlit(":");
            }
            assert(out@ =~= before + ":"@);
        }
        let ghost middle = out@;
        push_hex(out, list[i]);
        i += 1;
        assert(out@ =~= start + groups(next));
    }
}

impl Ipv6Addr {
    /// The bytes of the address.
    pub fn octets(&self) -> (r: [u8; 16])
        ensures
            r@ == self.octets@,
    {
        self.octets
    }

    /// The address in words. An address whose first group is zero has words of its own for some
    /// ranges.
    pub fn to_text(&self) -> (s: String)
        requires
            self.octets@[0] != 0,
        ensures
            s@ == address_text(self.octets@),
    {
        let mut list: Vec<u64> = Vec::new();
        let ghost spec_list = segments(self.octets@);
        let mut i: usize = 0;
        while i < 8
            invariant
                i <= 8,
                list@.len() == i,
                spec_list == segments(self.octets@),
                forall|k: int| 0 <= k < i ==> #[trigger] list@[k] == spec_list[k],
            decreases 8 - i,
        {
            list.push(self.octets[2 * i] as u64 * 256 + self.octets[2 * i + 1] as u64);
            i += 1;
        }
        let mut best_start: usize = 0;
        let mut best: usize = 0;
        let mut run: usize = 0;
        let mut n: usize = 0;
        while n < 8
            invariant
                n <= 8,
                run <= n,
                list@.len() == 8,
                spec_list.len() == 8,
                forall|k: int| 0 <= k < 8 ==> #[trigger] list@[k] == spec_list[k],
                run == zeros_before(spec_list, n as int),
                longest_zeros(spec_list, n as int) == (best_start as int, best as int),
            decreases 8 - n,
        {
            if list[n] == 0 {
                run += 1;
            } else {
                run = 0;
            }
            n += 1;
            if run > best {
                best_start = n - run;
                best = run;
            }
        }
        proof {
            lemma_longest(spec_list, 8);
        }
        let ghost all = list@.map_values(|v: u64| v as int);
        assert(all =~= spec_list);
        let mut out = String::new();
        if best > 1 {
            push_groups(&mut out, &list, 0, best_start);
            assert(list@.subrange(0, best_start as int).map_values(|v: u64| v as int)
                =~= spec_list.take(best_start as int));
            out.append("::");
            push_groups(&mut out, &list, best_start + best, 8);
            assert(list@.subrange(best_start + best, 8).map_values(|v: u64| v as int)
                =~= spec_list.skip(best_start + best));
        } else {
            push_groups(&mut out, &list, 0, 8);
            assert(list@.subrange(0, 8).map_values(|v: u64| v as int) =~= spec_list);
        }
        assert(out@ =~= address_text(self.octets@));
        out
    }
}

/// The address of a device with the length of its network.
pub fn ula_cidr(addr: Ipv6Addr) -> (s: String)
    requires
        addr.octets@[0] != 0,
    ensures
        s@ == address_text(addr.octets@) + "/128"@,
{
    cat(addr.to_text().as_str(), "/128")
}

/// A group of two bytes.
pub open spec fn group_at(low: Seq<u8>, i: int) -> int {
    low[i] * 256 + low[i + 1]
}

/// The address of a device on a link, with the length of its network; no group is left out.
pub open spec fn link_local_text(low: Seq<u8>) -> Seq<char> {
    "fe80::"@ + hex(group_at(low, 0)) + ":"@ + hex(group_at(low, 2)) + ":"@ + hex(
        group_at(low, 4),
    ) + ":"@ + hex(group_at(low, 6)) + "/64"@
}

/// The address of a device on a link, with the length of its network.
pub fn link_local_cidr(identity: &MeshIdentity) -> (s: String)
    ensures
        s@ == link_local_text(identity.interface_id_low64@),
{
    let low = identity.interface_id_low64;
    let mut out = owned("fe80::");
    push_hex(&mut out, low[0] as u64 * 256 + low[1] as u64);
    out.append(":");
    push_hex(&mut out, low[2] as u64 * 256 + low[3] as u64);
    out.append(":");
    push_hex(&mut out, low[4] as u64 * 256 + low[5] as u64);
    out.append(":");
    push_hex(&mut out, low[6] as u64 * 256 + low[7] as u64);
    out.append("/64");
    assert(out@ =~= link_local_text(identity.interface_id_low64@));
    out
}

/// The command that gives a device its address.
pub fn assign_loopback_ula(identity: &MeshIdentity) -> (r: Vec<String>)
    requires
        identity.ula_addr.octets@[0] != 0,
    ensures
        texts(r@) == seq![
            "ip"@,
            "-6"@,
            "addr"@,
            "add"@,
            address_text(identity.ula_addr.octets@) + "/128"@,
            "dev"@,
            "lo"@,
        ],
{
    let cidr = ula_cidr(identity.ula_addr);
    let r = ip_args(&["-6", "addr", "add", cidr.as_str(), "dev", "lo"]);
    assert(texts(r@) =~= seq![
        "ip"@,
        "-6"@,
        "addr"@,
        "add"@,
        address_text(identity.ula_addr.octets@) + "/128"@,
        "dev"@,
        "lo"@,
    ]);
    r
}

/// All addresses of the mesh begin with the same six bytes, of which the first is `fd`, and end in
/// bytes of their own device.
pub proof fn law_addresses_share_a_prefix(digest: Seq<u8>, a: Seq<u8>, b: Seq<u8>)
    requires
        digest.len() == 32,
        a.len() == 32,
        b.len() == 32,
    ensures
        octets_of(digest, a).len() == 16,
        octets_of(digest, a)[0] == 0xfd,
        octets_of(digest, a).take(6) == octets_of(digest, b).take(6),
        octets_of(digest, a).subrange(1, 6) == digest.subrange(1, 6),
        octets_of(digest, a).skip(6) == a.skip(22),
{
    assert(octets_of(digest, a).take(6) =~= octets_of(digest, b).take(6));
    assert(octets_of(digest, a).subrange(1, 6) =~= digest.subrange(1, 6));
    assert(octets_of(digest, a).skip(6) =~= a.skip(22));
}

proof fn lemma_groups(list: Seq<int>)
    requires
        list.len() > 0,
    ensures
        groups(list) == joined(Seq::new(list.len(), |i: int| hex(list[i])), seq![':']),
    decreases list.len(),
{
    reveal_strlit(":");
    assert(":"@ =~= seq![':']);
    let all = Seq::new(list.len(), |i: int| hex(list[i]));
    let fewer = list.drop_last();
    if fewer.len() > 0 {
        lemma_groups(fewer);
        let front = Seq::new(fewer.len(), |i: int| hex(fewer[i]));
        assert(all =~= front.push(hex(list.last())));
        lemma_joined_more(front, hex(list.last()), seq![':']);
    } else {
        assert(all =~= seq![hex(list[0])]);
        reveal_with_fuel(crate::text::joined_upto, 2);
    }
}

/// Numbers between colons are read one by one.
pub proof fn law_groups_are_read_back(list: Seq<int>)
    requires
        list.len() > 0,
        forall|i: int| 0 <= i < list.len() ==> 0 <= #[trigger] list[i] < 0x1_0000,
    ensures
        pieces(groups(list), ':') == Seq::new(list.len(), |i: int| hex(list[i])),
{
    lemma_groups(list);
    let all = Seq::new(list.len(), |i: int| hex(list[i]));
    assert forall|i: int| 0 <= i < all.len() implies !(#[trigger] all[i]).contains(':') by {
        law_hex_digits_are_plain(list[i] as nat);
    }
    law_joined_texts_are_cut_again(all, ':');
}

proof fn lemma_zeros_before(list: Seq<int>, n: int)
    requires
        0 <= n <= list.len(),
    ensures
        0 <= zeros_before(list, n) <= n,
        forall|i: int| n - zeros_before(list, n) <= i < n ==> #[trigger] list[i] == 0,
        zeros_before(list, n) < n ==> list[n - zeros_before(list, n) - 1] != 0,
    decreases n,
{
    if n > 0 && list[n - 1] == 0 {
        lemma_zeros_before(list, n - 1);
    }
}

proof fn lemma_longest_zeros(list: Seq<int>, n: int)
    requires
        0 <= n <= list.len(),
    ensures
        ({
            let (start, len) = longest_zeros(list, n);
            &&& 0 <= start
            &&& 0 <= len
            &&& start + len <= n
            &&& forall|i: int| start <= i < start + len ==> #[trigger] list[i] == 0
            &&& forall|m: int| 0 <= m <= n ==> #[trigger] zeros_before(list, m) <= len
        }),
    decreases n,
{
    if n > 0 {
        lemma_longest_zeros(list, n - 1);
        lemma_zeros_before(list, n);
    }
}

/// An address is written as the numbers of its eight groups between colons, and a double colon
/// stands for a longest run of zeros where there are two or more: what stands before it, the zeros,
/// and what stands behind it are the groups of the address.
pub proof fn law_addresses_are_written_by_groups(octets: Seq<u8>)
    requires
        octets.len() == 16,
    ensures
        ({
            let list = Seq::new(8, |i: int| octets[2 * i] * 256 + octets[2 * i + 1]);
            let (start, len) = longest_zeros(list, 8);
            let front = list.take(start);
            let back = list.skip(start + len);
            &&& address_text(octets) == (if len > 1 {
                groups(front) + "::"@ + groups(back)
            } else {
                groups(list)
            })
            &&& list == front + Seq::new(len as nat, |i: int| 0int) + back
            &&& len <= 1 ==> forall|i: int|
                0 <= i < 7 ==> !(#[trigger] list[i] == 0 && list[i + 1] == 0)
        }),
{
    let list = Seq::new(8, |i: int| octets[2 * i] * 256 + octets[2 * i + 1]);
    assert(segments(octets) =~= list);
    lemma_longest_zeros(list, 8);
    let (start, len) = longest_zeros(list, 8);
    assert(list =~= list.take(start) + Seq::new(len as nat, |i: int| 0int) + list.skip(start + len));
    if len <= 1 {
        assert forall|i: int| 0 <= i < 7 implies !(#[trigger] list[i] == 0 && list[i + 1] == 0) by {
            if list[i] == 0 && list[i + 1] == 0 {
                reveal_with_fuel(zeros_before, 3);
                lemma_zeros_before(list, i);
                assert(zeros_before(list, i + 2) >= 2);
            }
        }
    }
}

} // verus!
