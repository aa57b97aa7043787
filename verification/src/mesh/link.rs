//! The links of the mesh.
use vstd::prelude::*;
use vstd::string::*;

use crate::mesh::address::{link_local_cidr, link_local_text};
use crate::mesh::command::ip_args;
use crate::mesh::identity::MeshIdentity;
use crate::text::{owned, texts};

verus! {

/// The cost of a link by wire.
pub const DEFAULT_WIRED_METRIC: u16 = 96;

/// What a link is made of.
#[derive(Clone, Copy, Debug, PartialEq, Eq, Structural)]
pub enum MeshLinkKind {
    UsbGadget,
    WifiP2p,
    BluetoothPan,
    Manual,
}

/// A link of the mesh.
#[derive(Debug, PartialEq, Eq)]
pub struct MeshLink {
    pub name: String,
    pub kind: MeshLinkKind,
    pub metric_hint: u16,
    pub wired: bool,
}

/// The model of a link.
pub struct LinkView {
    pub name: Seq<char>,
    pub kind: MeshLinkKind,
    pub metric_hint: u16,
    pub wired: bool,
}

impl View for MeshLink {
    type V = LinkView;

    open spec fn view(&self) -> LinkView {
        LinkView {
            name: self.name@,
            kind: self.kind,
            metric_hint: self.metric_hint,
            wired: self.wired,
        }
    }
}

/// The models of links.
pub open spec fn link_views(list: Seq<MeshLink>) -> Seq<LinkView> {
    Seq::new(list.len(), |i: int| list[i]@)
}

impl MeshLinkKind {
    /// The kind of a link for the routing daemon.
    pub open spec fn routing_type(self) -> Seq<char> {
        match self {
            MeshLinkKind::UsbGadget | MeshLinkKind::Manual => "wired"@,
            MeshLinkKind::WifiP2p => "wireless"@,
            MeshLinkKind::BluetoothPan => "tunnel"@,
        }
    }

    /// The name of a kind of links.
    pub open spec fn words(self) -> Seq<char> {
        match self {
            MeshLinkKind::UsbGadget => "usb-gadget"@,
            MeshLinkKind::WifiP2p => "wifi-p2p"@,
            MeshLinkKind::BluetoothPan => "bluetooth-pan"@,
            MeshLinkKind::Manual => "manual"@,
        }
    }

    /// The kind of a link for the routing daemon.
    pub fn babel_type(&self) -> (s: &'static str)
        ensures
            s@ == self.routing_type(),
    {
        match self {
            MeshLinkKind::UsbGadget | MeshLinkKind::Manual => "wired",
            MeshLinkKind::WifiP2p => "wireless",
            MeshLinkKind::BluetoothPan => "tunnel",
        }
    }

    /// The name of a kind of links.
    pub fn label(&self) -> (s: &'static str)
        ensures
            s@ == self.words(),
    {
        match self {
            MeshLinkKind::UsbGadget => "usb-gadget",
            MeshLinkKind::WifiP2p => "wifi-p2p",
            MeshLinkKind::BluetoothPan => "bluetooth-pan",
            MeshLinkKind::Manual => "manual",
        }
    }
}

/// The two commands that bring a link up: it is switched on, and is given an address; the second
/// is made only where the first succeeded.
pub fn bring_up(link: &MeshLink, identity: &MeshIdentity) -> (r: (Vec<String>, Vec<String>))
    ensures
        texts(r.0@) == seq!["ip"@, "link"@, "set"@, "dev"@, link.name@, "up"@],
        texts(r.1@) == seq![
            "ip"@,
            "-6"@,
            "addr"@,
            "add"@,
            link_local_text(identity.interface_id_low64@),
            "dev"@,
            link.name@,
        ],
{
    let first = ip_args(&["link", "set", "dev", link.name.as_str(), "up"]);
    assert(texts(first@) =~= seq!["ip"@, "link"@, "set"@, "dev"@, link.name@, "up"@]);
    let local = link_local_cidr(identity);
    let second = ip_args(&["-6", "addr", "add", local.as_str(), "dev", link.name.as_str()]);
    assert(texts(second@) =~= seq![
        "ip"@,
        "-6"@,
        "addr"@,
        "add"@,
        link_local_text(identity.interface_id_low64@),
        "dev"@,
        link.name@,
    ]);
    (first, second)
}

/// A link by wire.
pub open spec fn wired_link(name: Seq<char>, kind: MeshLinkKind) -> LinkView {
    LinkView { name, kind, metric_hint: DEFAULT_WIRED_METRIC, wired: true }
}

/// The links of the mesh: the USB network, where it was found, then those that were asked for.
pub open spec fn all_links(usb: Option<Seq<char>>, manual: Seq<Seq<char>>) -> Seq<LinkView> {
    (match usb {
        Some(name) => seq![wired_link(name, MeshLinkKind::UsbGadget)],
        None => Seq::empty(),
    }) + Seq::new(manual.len(), |i: int| wired_link(manual[i], MeshLinkKind::Manual))
}

/// The links of the mesh.
pub fn collect_links(usb: Option<&str>, manual: &[String]) -> (r: Vec<MeshLink>)
    ensures
        link_views(r@) == all_links(
            match usb {
                Some(name) => Some(name@),
                None => None,
            },
            texts(manual@),
        ),
{
    let mut out: Vec<MeshLink> = Vec::new();
    let ghost found = match usb {
        Some(name) => Some(name@),
        None => None,
    };
    let ghost all = all_links(found, texts(manual@));
    let ghost offset: int = if usb is Some {
        1
    } else {
        0
    };
    if let Some(name) = usb {
        out.push(
            MeshLink {
                name: owned(name),
                kind: MeshLinkKind::UsbGadget,
                metric_hint: DEFAULT_WIRED_METRIC,
                wired: true,
            },
        );
    }
    let mut i: usize = 0;
    assert(link_views(out@) =~= all.take(offset));
    while i < manual.len()
        invariant
            i <= manual@.len(),
            0 <= offset <= 1,
            all == all_links(found, texts(manual@)),
            offset == (if found is Some {
                1int
            } else {
                0
            }),
            link_views(out@) == all.take(offset + i),
        decreases manual@.len() - i,
    {
        let ghost before = out@;
        out.push(
            MeshLink {
                name: owned(manual[i].as_str()),
                kind: MeshLinkKind::Manual,
                metric_hint: DEFAULT_WIRED_METRIC,
                wired: true,
            },
        );
        assert(link_views(out@) =~= link_views(before).push(all[offset + i]));
        i += 1;
        assert(link_views(out@) =~= all.take(offset + i));
    }
    assert(all.take(offset + i) =~= all);
    out
}

/// The links over Wi-Fi: none yet.
pub fn discover_links() -> (r: Vec<MeshLink>)
    ensures
        r@.len() == 0,
{
    Vec::new()
}

/// The links of a device are its network over USB, where there is one, and behind it those that were
/// asked for, by name and in their order, all of them wired.
pub proof fn law_links_are_those_asked_for(usb: Option<Seq<char>>, manual: Seq<Seq<char>>, i: int)
    requires
        0 <= i < manual.len(),
    ensures
        ({
            let links = all_links(usb, manual);
            let first = if usb is Some {
                1int
            } else {
                0
            };
            &&& links.len() == first + manual.len()
            &&& usb matches Some(name) ==> links[0].name == name && links[0].kind
                == MeshLinkKind::UsbGadget && links[0].wired
            &&& links[first + i].name == manual[i]
            &&& links[first + i].kind == MeshLinkKind::Manual
            &&& links[first + i].wired
        }),
{
}

} // verus!
