//! The mesh of devices: who a device is in it, and over which links it reaches the others.
use vstd::prelude::*;
use vstd::string::*;

use crate::cmdline::{value_of, KernelCommandLine};
use crate::mesh::identity::MeshIdentity;
use crate::text::{
    chars, is_space, joined, law_joined_texts_are_cut_again, law_trimming_takes_white_space,
    pieces, split_chars, texts, trim, trimmed,
};

pub mod address;
pub mod babel;
pub mod command;
pub mod identity;
pub mod link;
pub mod status;
pub mod usb;

verus! {

/// How the mesh is set up.
#[derive(Debug)]
pub struct Config {
    pub identity: MeshIdentity,
    /// The links that were asked for.
    pub manual_ifaces: Vec<String>,
    /// Whether there is a network over USB.
    pub usb_net_enabled: bool,
}

/// The pieces of a list that name something, without the spaces around them.
pub open spec fn list_names(parts: Seq<Seq<char>>, n: int) -> Seq<Seq<char>>
    decreases n,
{
    if n <= 0 {
        Seq::empty()
    } else if trim(parts[n - 1]).len() == 0 {
        list_names(parts, n - 1)
    } else {
        list_names(parts, n - 1).push(trim(parts[n - 1]))
    }
}

/// The links that a command line asks for.
pub open spec fn asked_links(args: Seq<Seq<char>>) -> Seq<Seq<char>> {
    match value_of(args, "pocketboot.mesh.ifaces"@) {
        Some(value) => {
            let parts = pieces(value, ',');
            list_names(parts, parts.len() as int)
        },
        None => Seq::empty(),
    }
}

fn split_names(value: &str) -> (r: Vec<String>)
    ensures
        texts(r@) == list_names(pieces(value@, ','), pieces(value@, ',').len() as int),
{
    let v = chars(value);
    let parts = split_chars(&v, ',');
    let ghost views = pieces(value@, ',');
    let mut out: Vec<String> = Vec::new();
    let mut i: usize = 0;
    assert(texts(out@) =~= Seq::<Seq<char>>::empty());
    while i < parts.len()
        invariant
            i <= parts@.len(),
            texts(parts@) == views,
            texts(out@) == list_names(views, i as int),
        decreases parts@.len() - i,
    {
        assert(views[i as int] == parts@[i as int]@);
        let name = trimmed(parts[i].as_str());
        if name.as_str().unicode_len() > 0 {
            let ghost before = out@;
            let ghost added = name@;
            out.push(name);
            assert(texts(out@) =~= texts(before).push(added));
        }
        i += 1;
    }
    out
}

impl Config {
    /// How the mesh of a device is set up, by its identity, the command line, and whether the
    /// network over USB was built in.
    pub fn from_boot(identity: MeshIdentity, cmdline: &KernelCommandLine, usb_built_in: bool) -> (r:
        Config)
        ensures
            r.identity == identity,
            texts(r.manual_ifaces@) == asked_links(cmdline@),
            r.usb_net_enabled == (usb_built_in && !cmdline@.contains("pocketboot.mesh.usb=0"@)),
    {
        let manual_ifaces = match cmdline.value("pocketboot.mesh.ifaces") {
            Some(value) => split_names(value.as_str()),
            None => {
                let none: Vec<String> = Vec::new();
                assert(texts(none@) =~= Seq::<Seq<char>>::empty());
                none
            },
        };
        let usb_net_enabled = usb_built_in && !cmdline.is_set("pocketboot.mesh.usb=0");
        Config { identity, manual_ifaces, usb_net_enabled }
    }
}

proof fn lemma_list_names(parts: Seq<Seq<char>>, n: int)
    requires
        0 <= n <= parts.len(),
        forall|i: int|
            0 <= i < parts.len() ==> (#[trigger] parts[i]).len() > 0 && !is_space(parts[i][0])
                && !is_space(parts[i].last()),
    ensures
        list_names(parts, n) == parts.take(n),
    decreases n,
{
    if n > 0 {
        lemma_list_names(parts, n - 1);
        let part = parts[n - 1];
        let none = Seq::<char>::empty();
        law_trimming_takes_white_space(none, part, none);
        assert(none + part + none =~= part);
        assert(parts.take(n) =~= parts.take(n - 1).push(part));
    } else {
        assert(parts.take(0) =~= Seq::empty());
    }
}

/// The links that are asked for are those that the argument lists between commas, in their order.
pub proof fn law_links_are_asked_for_by_name(args: Seq<Seq<char>>, names: Seq<Seq<char>>)
    requires
        names.len() > 0,
        forall|i: int|
            0 <= i < names.len() ==> (#[trigger] names[i]).len() > 0 && !is_space(names[i][0])
                && !is_space(names[i].last()) && !names[i].contains(','),
        value_of(args, "pocketboot.mesh.ifaces"@) == Some(joined(names, seq![','])),
    ensures
        asked_links(args) == names,
{
    law_joined_texts_are_cut_again(names, ',');
    lemma_list_names(names, names.len() as int);
    assert(names.take(names.len() as int) =~= names);
}

} // verus!
