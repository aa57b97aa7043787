//! The network over USB.
use vstd::prelude::*;
use vstd::string::*;

use crate::errors::ErrorKind;
use crate::text::{
    digit, hex, hex_padded, law_two_digits_are_read_back, lower_text, lowered, owned, padded,
    same_text, texts, trim, trimmed,
};

verus! {

/// How the network over USB is set up.
#[derive(Debug)]
pub struct UsbNetConfig {
    pub ifname: String,
    pub dev_addr: [u8; 6],
    pub host_addr: [u8; 6],
    pub prefer_ncm: bool,
}

/// An address of a network card in words, up to its byte `n`.
pub open spec fn mac_upto(mac: Seq<u8>, n: int) -> Seq<char>
    decreases n,
{
    if n <= 0 {
        Seq::empty()
    } else {
        mac_upto(mac, n - 1) + (if n > 1 {
            ":"@
        } else {
            ""@
        }) + padded(hex(mac[n - 1] as int), 2, '0')
    }
}

/// An address of a network card in words.
pub open spec fn mac_text(mac: Seq<u8>) -> Seq<char> {
    mac_upto(mac, 6)
}

/// An address of a network card in words.
pub fn mac_string(mac: &[u8; 6]) -> (s: String)
    ensures
        s@ == mac_text(mac@),
{
    let mut out = String::new();
    let mut i: usize = 0;
    assert(out@ =~= mac_upto(mac@, 0));
    while i < 6
        invariant
            i <= 6,
            out@ == mac_upto(mac@, i as int),
        decreases 6 - i,
    {
        let ghost before = out@;
        if i > 0 {
            out.append(":");
        } else {
            out.append("");
        }
        out.append(hex_padded(mac[i] as u64, 2).as_str());
        i += 1;
        assert(out@ =~= mac_upto(mac@, i as int));
    }
    out
}

impl UsbNetConfig {
    /// The network of a device, by its addresses.
    pub fn from_identity(dev_mac: [u8; 6], host_mac: [u8; 6]) -> (r: UsbNetConfig)
        ensures
            r.ifname@ == "pbmesh0"@,
            r.dev_addr == dev_mac,
            r.host_addr == host_mac,
            r.prefer_ncm,
    {
        UsbNetConfig {
            ifname: owned("pbmesh0"),
            dev_addr: dev_mac,
            host_addr: host_mac,
            prefer_ncm: true,
        }
    }

    /// The address on the side of the device, in words.
    pub fn dev_addr_string(&self) -> (s: String)
        ensures
            s@ == mac_text(self.dev_addr@),
    {
        mac_string(&self.dev_addr)
    }

    /// The address on the side of the host, in words.
    pub fn host_addr_string(&self) -> (s: String)
        ensures
            s@ == mac_text(self.host_addr@),
    {
        mac_string(&self.host_addr)
    }
}

/// The functions that are tried, in order.
pub open spec fn tried(prefer_ncm: bool) -> Seq<Seq<char>> {
    if prefer_ncm {
        seq!["ncm.pocketmesh"@, "ecm.pocketmesh"@]
    } else {
        seq!["ecm.pocketmesh"@, "ncm.pocketmesh"@]
    }
}

/// What came of a function that was tried.
#[derive(Clone, Copy, Debug, PartialEq, Eq, Structural)]
pub enum TryOutcome {
    /// It was there before.
    Present,
    Created,
    Failed,
}

/// What setting up the network takes next, or how it ended.
#[derive(Clone, Copy, Debug, PartialEq, Eq, Structural)]
pub enum UsbNetStart {
    /// The function at a place of the list is tried.
    Try(usize),
    Started,
    AlreadyPresent,
    Unsupported,
}

/// The functions that are tried, in order.
pub fn candidates(prefer_ncm: bool) -> (r: Vec<String>)
    ensures
        texts(r@) == tried(prefer_ncm),
{
    let mut out: Vec<String> = Vec::new();
    if prefer_ncm {
        out.push(owned("ncm.pocketmesh"));
        out.push(owned("ecm.pocketmesh"));
    } else {
        out.push(owned("ecm.pocketmesh"));
        out.push(owned("ncm.pocketmesh"));
    }
    assert(texts(out@) =~= tried(prefer_ncm));
    out
}

/// What setting up the network takes next, by what came of the function that was tried last: one
/// that fails is followed by the next.
pub fn create_function(last: Option<(usize, TryOutcome)>) -> (r: UsbNetStart)
    ensures
        r == (match last {
            None => UsbNetStart::Try(0),
            Some((i, outcome)) => match outcome {
                TryOutcome::Present => UsbNetStart::AlreadyPresent,
                TryOutcome::Created => UsbNetStart::Started,
                TryOutcome::Failed => if i == 0 {
                    UsbNetStart::Try(1)
                } else {
                    UsbNetStart::Unsupported
                },
            },
        }),
{
    match last {
        None => UsbNetStart::Try(0),
        Some((i, outcome)) => match outcome {
            TryOutcome::Present => UsbNetStart::AlreadyPresent,
            TryOutcome::Created => UsbNetStart::Started,
            TryOutcome::Failed => {
                if i == 0 {
                    UsbNetStart::Try(1)
                } else {
                    UsbNetStart::Unsupported
                }
            },
        },
    }
}

/// A value of a function: the name of its file, and what is written there.
#[derive(Debug)]
pub struct Attribute {
    pub name: &'static str,
    pub value: String,
}

/// The values of a function, in the order in which they are written.
pub fn function_attributes(config: &UsbNetConfig) -> (r: Vec<Attribute>)
    ensures
        r@.len() == 4,
        r@[0].name@ == "ifname"@ && r@[0].value@ == config.ifname@,
        r@[1].name@ == "dev_addr"@ && r@[1].value@ == mac_text(config.dev_addr@),
        r@[2].name@ == "host_addr"@ && r@[2].value@ == mac_text(config.host_addr@),
        r@[3].name@ == "qmult"@ && r@[3].value@ == "5"@,
{
    let mut out: Vec<Attribute> = Vec::new();
    out.push(Attribute { name: "ifname", value: owned(config.ifname.as_str()) });
    out.push(Attribute { name: "dev_addr", value: config.dev_addr_string() });
    out.push(Attribute { name: "host_addr", value: config.host_addr_string() });
    out.push(Attribute { name: "qmult", value: owned("5") });
    out
}

/// Whether a value counts as written: one that the kernel does not have is none.
pub fn write_optional(failure: Option<ErrorKind>) -> (r: bool)
    ensures
        r == (failure is None || failure == Some(ErrorKind::NotFound)),
{
    match failure {
        None => true,
        Some(kind) => kind == ErrorKind::NotFound,
    }
}

/// A network card that the system tells of, with its address where it could be read.
#[derive(Debug)]
pub struct NetDevice {
    pub name: String,
    pub address: Option<String>,
}

/// Whether a network card has an address, in whatever case its letters are.
pub open spec fn has_address(device: NetDevice, target: Seq<char>) -> bool {
    device.address matches Some(address) && lowered(trim(address@)) == lowered(target)
}

/// The first network card with an address.
pub fn find_netdev_by_mac(devices: &[NetDevice], target_mac: &str) -> (r: Option<usize>)
    ensures
        match r {
            Some(i) => {
                &&& i < devices@.len()
                &&& has_address(devices@[i as int], target_mac@)
                &&& forall|k: int| 0 <= k < i ==> !has_address(#[trigger] devices@[k], target_mac@)
            },
            None => forall|k: int|
                0 <= k < devices@.len() ==> !has_address(#[trigger] devices@[k], target_mac@),
        },
{
    let target = lower_text(target_mac);
    let mut i: usize = 0;
    while i < devices.len()
        invariant
            i <= devices@.len(),
            target@ == lowered(target_mac@),
            forall|k: int| 0 <= k < i ==> !has_address(#[trigger] devices@[k], target_mac@),
        decreases devices@.len() - i,
    {
        if let Some(address) = &devices[i].address {
            let own = lower_text(trimmed(address.as_str()).as_str());
            if same_text(own.as_str(), target.as_str()) {
                return Some(i);
            }
        }
        i += 1;
    }
    None
}

/// What waiting for a network card takes next.
#[derive(Clone, Copy, Debug, PartialEq, Eq, Structural)]
pub enum NetdevWait {
    Found(usize),
    /// The wait is over.
    Missing,
    /// The cards are looked at again after a while.
    Later,
}

/// What waiting for a network card takes next, by what was found and whether the time is over.
pub fn wait_for_netdev(found: Option<usize>, is_late: bool) -> (r: NetdevWait)
    ensures
        r == (match found {
            Some(i) => NetdevWait::Found(i),
            None => if is_late {
                NetdevWait::Missing
            } else {
                NetdevWait::Later
            },
        }),
{
    match found {
        Some(i) => NetdevWait::Found(i),
        None => {
            if is_late {
                NetdevWait::Missing
            } else {
                NetdevWait::Later
            }
        },
    }
}

/// A hardware address is written as its six bytes, each with two digits, and colons between them.
pub proof fn law_macs_are_written_in_digits(mac: Seq<u8>, i: int)
    requires
        mac.len() == 6,
        0 <= i < 6,
    ensures
        mac_text(mac).len() == 17,
        mac_text(mac)[3 * i] == digit(mac[i] as int / 16),
        mac_text(mac)[3 * i + 1] == digit(mac[i] as int % 16),
        i < 5 ==> mac_text(mac)[3 * i + 2] == ':',
{
    lemma_mac_upto(mac, 6, i);
}

proof fn lemma_mac_upto(mac: Seq<u8>, n: int, i: int)
    requires
        mac.len() == 6,
        0 <= i < n <= 6,
    ensures
        mac_upto(mac, n).len() == 3 * n - 1,
        mac_upto(mac, n)[3 * i] == digit(mac[i] as int / 16),
        mac_upto(mac, n)[3 * i + 1] == digit(mac[i] as int % 16),
        i < n - 1 ==> mac_upto(mac, n)[3 * i + 2] == ':',
    decreases n,
{
    reveal_strlit(":");
    reveal_strlit("");
    reveal_with_fuel(mac_upto, 2);
    law_two_digits_are_read_back(mac[n - 1]);
    let front = mac_upto(mac, n - 1);
    if n > 1 {
        lemma_mac_upto(
            mac,
            n - 1,
            if i < n - 1 {
                i
            } else {
                0
            },
        );
        assert(mac_upto(mac, n) =~= front + seq![':'] + padded(hex(mac[n - 1] as int), 2, '0'));
    } else {
        assert(mac_upto(mac, n) =~= padded(hex(mac[n - 1] as int), 2, '0'));
    }
}

} // verus!
