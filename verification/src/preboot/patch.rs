//! Rewriting the tree so that the kernel finds the resident processors.
use vstd::prelude::*;
use vstd::string::*;

use crate::bytes::{
    be32, be64_bytes, be_u32, find_byte, next_byte, push_be_u64, push_bytes, same_bytes, utf8,
};
use crate::kexec::fdt::{
    build_dtb, built, find_string, lemma_token_at, prop_bytes, string_at, string_of, string_offset,
    write_prop, Header, Token,
};
use crate::preboot::fdt;
use crate::preboot::fdt::{
    base_name, basename_eq, child_from, content_start, lemma_child_from, lists, phandle_of,
    reserve_list, root_of, stringlist_contains, tok, token, Node, Reader, Tree, MAX_DEPTH,
};
use crate::preboot::msm8916::{Error, SpinTable};

verus! {

/// The greatest number of providers of power domains.
pub const MAX_PROVIDERS: usize = 64;

/// Whether a node is the firmware's power service.
pub open spec fn is_psci(t: Tree, node: int) -> bool {
    match t.prop(node, "compatible"@) {
        Ok(compatible) => lists(compatible, utf8("arm,psci"@)) || lists(
            compatible,
            utf8("arm,psci-0.2"@),
        ) || lists(compatible, utf8("arm,psci-1.0"@)),
        Err(_) => false,
    }
}

/// Whether a node is the firmware's power service.
pub fn is_psci_node(reader: &Reader<'_>, node: Node) -> (r: bool)
    ensures
        r == is_psci(reader.tree(), node.offset as int),
{
    match reader.prop(node, "compatible".as_bytes()) {
        Ok(compatible) => stringlist_contains(compatible, "arm,psci".as_bytes())
            || stringlist_contains(compatible, "arm,psci-0.2".as_bytes()) || stringlist_contains(
            compatible,
            "arm,psci-1.0".as_bytes(),
        ),
        Err(_) => false,
    }
}

/// A provider of power domains: the number by which nodes refer to it, the number of cells of a
/// domain behind that, and whether it belongs to the firmware's power service.
#[derive(Clone, Copy, Debug, PartialEq, Eq, Structural)]
pub struct PowerProvider {
    pub phandle: u32,
    pub cells: u32,
    pub psci: bool,
}

/// Whether one of the providers has this number.
pub open spec fn has_provider(list: Seq<PowerProvider>, phandle: u32) -> bool {
    exists|i: int| 0 <= i < list.len() && (#[trigger] list[i]).phandle == phandle
}

/// The providers with the one that a node is, where it is one. A node that is one in an unsound
/// way is refused.
pub open spec fn with_provider(t: Tree, node: int, psci: bool, list: Seq<PowerProvider>) -> Option<
    Seq<PowerProvider>,
> {
    match t.prop(node, "#power-domain-cells"@) {
        Err(_) => Some(list),
        Ok(cells) => if cells.len() != 4 {
            None
        } else {
            match phandle_of(t.structure, t.strings, node) {
                Err(_) => Some(list),
                Ok(phandle) => if phandle == 0 || phandle == u32::MAX || list.len()
                    == MAX_PROVIDERS || has_provider(list, phandle) {
                    None
                } else {
                    Some(list.push(PowerProvider { phandle, cells: be32(cells, 0), psci }))
                },
            }
        },
    }
}

/// The providers in a node and below it, behind those of `list`.
pub open spec fn node_providers(
    t: Tree,
    node: int,
    parent_psci: bool,
    depth: int,
    list: Seq<PowerProvider>,
) -> Option<Seq<PowerProvider>>
    decreases MAX_DEPTH - depth, t.structure.len() + 1,
{
    let psci = parent_psci || is_psci(t, node);
    if depth >= MAX_DEPTH {
        None
    } else {
        match with_provider(t, node, psci, list) {
            None => None,
            Some(list) => match content_start(t.structure, node) {
                Err(_) => None,
                Ok(start) => child_providers(t, start, psci, depth, list),
            },
        }
    }
}

#[via_fn]
proof fn child_providers_decreases(
    t: Tree,
    cursor: int,
    psci: bool,
    depth: int,
    list: Seq<PowerProvider>,
) {
    lemma_child_from(t.structure, cursor);
}

/// The providers in the children at or behind `cursor` and below them, behind those of `list`.
pub open spec fn child_providers(
    t: Tree,
    cursor: int,
    psci: bool,
    depth: int,
    list: Seq<PowerProvider>,
) -> Option<Seq<PowerProvider>>
    decreases
            MAX_DEPTH - depth,
            (if cursor < t.structure.len() { t.structure.len() - cursor } else { 0 }),
    when 0 <= cursor && depth < MAX_DEPTH
    via child_providers_decreases
{
    match child_from(t.structure, cursor) {
        Err(_) => None,
        Ok(None) => Some(list),
        Ok(Some((child, next))) => match node_providers(t, child, psci, depth + 1, list) {
            None => None,
            Some(list) => child_providers(t, next, psci, depth, list),
        },
    }
}

fn any_provider(list: &[PowerProvider], phandle: u32) -> (r: bool)
    ensures
        r == has_provider(list@, phandle),
{
    let mut i: usize = 0;
    while i < list.len()
        invariant
            i <= list@.len(),
            forall|k: int| 0 <= k < i ==> (#[trigger] list@[k]).phandle != phandle,
        decreases list@.len() - i,
    {
        if list[i].phandle == phandle {
            assert(list@[i as int].phandle == phandle);
            return true;
        }
        i += 1;
    }
    false
}

fn add_provider(reader: &Reader<'_>, node: Node, psci: bool, list: &mut Vec<PowerProvider>) -> (r:
    bool)
    requires
        old(list)@.len() <= MAX_PROVIDERS,
    ensures
        match with_provider(reader.tree(), node.offset as int, psci, old(list)@) {
            Some(all) => r && final(list)@ == all,
            None => !r,
        },
        final(list)@.len() <= MAX_PROVIDERS,
{
    let cells = match reader.prop(node, "#power-domain-cells".as_bytes()) {
        Err(_) => {
            return true;
        },
        Ok(cells) => cells,
    };
    if cells.len() != 4 {
        return false;
    }
    let phandle = match reader.node_phandle(node) {
        Err(_) => {
            return true;
        },
        Ok(phandle) => phandle,
    };
    if phandle == 0 || phandle == u32::MAX || list.len() == MAX_PROVIDERS || any_provider(
        list,
        phandle,
    ) {
        return false;
    }
    list.push(PowerProvider { phandle, cells: be_u32(cells, 0), psci });
    true
}

fn visit_node(
    reader: &Reader<'_>,
    node: Node,
    parent_psci: bool,
    depth: usize,
    list: &mut Vec<PowerProvider>,
) -> (r: bool)
    requires
        old(list)@.len() <= MAX_PROVIDERS,
        depth <= MAX_DEPTH,
    ensures
        match node_providers(
            reader.tree(),
            node.offset as int,
            parent_psci,
            depth as int,
            old(list)@,
        ) {
            Some(all) => r && final(list)@ == all,
            None => !r,
        },
        final(list)@.len() <= MAX_PROVIDERS,
    decreases MAX_DEPTH - depth,
{
    if depth >= MAX_DEPTH {
        return false;
    }
    let psci = parent_psci || is_psci_node(reader, node);
    let ghost t = reader.tree();
    let ghost wanted = node_providers(t, node.offset as int, parent_psci, depth as int, list@);
    if !add_provider(reader, node, psci, list) {
        return false;
    }
    let mut cursor = match reader.node_content_start(node) {
        Err(_) => {
            return false;
        },
        Ok(start) => start,
    };
    loop
        invariant
            depth < MAX_DEPTH,
            t == reader.tree(),
            list@.len() <= MAX_PROVIDERS,
            wanted == node_providers(
                t,
                node.offset as int,
                parent_psci,
                depth as int,
                old(list)@,
            ),
            wanted == child_providers(t, cursor as int, psci, depth as int, list@),
        decreases
                (if cursor < reader.structure@.len() { reader.structure@.len() - cursor } else { 0 }),
    {
        match reader.next_child(cursor) {
            Err(_) => {
                return false;
            },
            Ok(None) => {
                return true;
            },
            Ok(Some((child, next))) => {
                if !visit_node(reader, child, psci, depth + 1, list) {
                    return false;
                }
                cursor = next;
            },
        }
    }
}

/// The providers of power domains in a tree.
pub open spec fn providers_told(t: Tree) -> Option<Seq<PowerProvider>> {
    match root_of(t.structure) {
        Err(_) => None,
        Ok(root) => node_providers(t, root, false, 0, Seq::empty()),
    }
}

/// The providers of power domains in a tree.
pub fn power_domain_providers(reader: &Reader<'_>) -> (r: Option<Vec<PowerProvider>>)
    ensures
        providers_told(reader.tree()) == (match r {
            Some(list) => Some(list@),
            None => None,
        }),
{
    let root = match reader.root() {
        Err(_) => {
            return None;
        },
        Ok(root) => root,
    };
    let mut list: Vec<PowerProvider> = Vec::new();
    if visit_node(reader, root, false, 0, &mut list) {
        Some(list)
    } else {
        None
    }
}

/// The first provider with this number from number `i` on.
pub open spec fn provider_from(list: Seq<PowerProvider>, phandle: u32, i: int) -> Option<
    PowerProvider,
>
    decreases list.len() - i,
{
    if i < 0 || i >= list.len() {
        None
    } else if list[i].phandle == phandle {
        Some(list[i])
    } else {
        provider_from(list, phandle, i + 1)
    }
}

fn find_provider(list: &[PowerProvider], phandle: u32) -> (r: Option<PowerProvider>)
    ensures
        r == provider_from(list@, phandle, 0),
{
    let mut i: usize = 0;
    while i < list.len()
        invariant
            i <= list@.len(),
            provider_from(list@, phandle, 0) == provider_from(list@, phandle, i as int),
        decreases list@.len() - i,
    {
        if list[i].phandle == phandle {
            return Some(list[i]);
        }
        i += 1;
    }
    None
}

/// Where the name ends that starts at `offset` of the names of the domains, its zero included; 0
/// where there are no names.
pub open spec fn name_end(names: Option<Seq<u8>>, offset: int) -> Option<int> {
    match names {
        None => Some(0),
        Some(list) => {
            let end = next_byte(list, offset, 0);
            if offset > list.len() || end >= list.len() {
                None
            } else {
                Some(end + 1)
            }
        },
    }
}

/// The domains from `offset` on, and their names, that do not belong to the firmware's power
/// service, behind those kept so far. At most 256 bytes of domains and 512 bytes of names are
/// kept.
pub open spec fn kept_from(
    domains: Seq<u8>,
    names: Option<Seq<u8>>,
    providers: Seq<PowerProvider>,
    offset: int,
    name_offset: int,
    kept: Seq<u8>,
    kept_names: Seq<u8>,
) -> Option<(Seq<u8>, Seq<u8>)>
    decreases domains.len() - offset,
{
    if offset < 0 || offset >= domains.len() {
        if names is Some && name_offset != names->0.len() {
            None
        } else {
            Some((kept, kept_names))
        }
    } else if offset + 4 > domains.len() {
        None
    } else {
        match provider_from(providers, be32(domains, offset), 0) {
            None => None,
            Some(provider) => {
                let end = offset + (provider.cells + 1) * 4;
                match name_end(names, name_offset) {
                    None => None,
                    Some(next_name) => if end > domains.len() {
                        None
                    } else if provider.psci {
                        kept_from(domains, names, providers, end, next_name, kept, kept_names)
                    } else {
                        let more = kept + domains.subrange(offset, end);
                        let more_names = match names {
                            Some(list) => kept_names + list.subrange(name_offset, next_name),
                            None => kept_names,
                        };
                        if more.len() > 256 || more_names.len() > 512 {
                            None
                        } else {
                            kept_from(domains, names, providers, end, next_name, more, more_names)
                        }
                    },
                }
            },
        }
    }
}

/// The power domains of a node, and their names, that do not belong to the firmware's power
/// service.
#[verifier::opaque]
pub open spec fn domains_kept(t: Tree, node: int, providers: Seq<PowerProvider>) -> Option<
    (Seq<u8>, Seq<u8>),
> {
    let names = match t.prop(node, "power-domain-names"@) {
        Ok(names) => Some(names),
        Err(_) => None,
    };
    match t.prop(node, "power-domains"@) {
        Err(_) => if names is Some {
            None
        } else {
            Some((Seq::empty(), Seq::empty()))
        },
        Ok(domains) => if domains.len() % 4 != 0 {
            None
        } else {
            kept_from(domains, names, providers, 0, 0, Seq::empty(), Seq::empty())
        },
    }
}

/// Bytes that may be missing, as a plain value.
pub open spec fn slice_view(s: Option<&[u8]>) -> Option<Seq<u8>> {
    match s {
        Some(s) => Some(s@),
        None => None,
    }
}

fn find_name_end(names: Option<&[u8]>, offset: usize) -> (r: Option<usize>)
    ensures
        name_end(slice_view(names), offset as int) == (match r {
            Some(end) => Some(end as int),
            None => None,
        }),
        r matches Some(end) ==> (names matches Some(list) ==> offset < end <= list@.len()),
{
    match names {
        None => Some(0),
        Some(list) => {
            if offset > list.len() {
                return None;
            }
            let end = find_byte(list, offset, 0);
            if end >= list.len() {
                return None;
            }
            Some(end + 1)
        },
    }
}

/// The power domains of a node, and their names, that do not belong to the firmware's power
/// service.
pub fn filtered_power_domains(
    reader: &Reader<'_>,
    node: Node,
    providers: &[PowerProvider],
) -> (r: Option<(Vec<u8>, Vec<u8>)>)
    ensures
        domains_kept(reader.tree(), node.offset as int, providers@) == (match r {
            Some((domains, names)) => Some((domains@, names@)),
            None => None,
        }),
{
    proof {
        reveal(domains_kept);
    }
    let names: Option<&[u8]> = match reader.prop(node, "power-domain-names".as_bytes()) {
        Ok(names) => Some(names),
        Err(_) => None,
    };
    let mut kept: Vec<u8> = Vec::new();
    let mut kept_names: Vec<u8> = Vec::new();
    let domains = match reader.prop(node, "power-domains".as_bytes()) {
        Err(_) => {
            return if names.is_some() {
                None
            } else {
                Some((kept, kept_names))
            };
        },
        Ok(domains) => domains,
    };
    if domains.len() % 4 != 0 {
        return None;
    }
    let size = domains.len();
    let mut offset: usize = 0;
    let mut name_offset: usize = 0;
    let ghost told = slice_view(names);
    let ghost wanted = domains_kept(reader.tree(), node.offset as int, providers@);
    while offset < size
        invariant
            offset <= size,
            size == domains@.len(),
            told == slice_view(names),
            wanted == domains_kept(reader.tree(), node.offset as int, providers@),
            names matches Some(list) ==> name_offset <= list@.len(),
            kept@.len() <= 256,
            kept_names@.len() <= 512,
            wanted == kept_from(
                domains@,
                told,
                providers@,
                offset as int,
                name_offset as int,
                kept@,
                kept_names@,
            ),
        decreases size - offset,
    {
        if size - offset < 4 {
            return None;
        }
        let provider = match find_provider(providers, be_u32(domains, offset)) {
            None => {
                return None;
            },
            Some(provider) => provider,
        };
        let bytes: u64 = (provider.cells as u64 + 1) * 4;
        let next_name = match find_name_end(names, name_offset) {
            None => {
                return None;
            },
            Some(next_name) => next_name,
        };
        if bytes > (size - offset) as u64 {
            return None;
        }
        let end = offset + bytes as usize;
        if !provider.psci {
            push_bytes(&mut kept, &domains[offset..end]);
            if let Some(list) = names {
                push_bytes(&mut kept_names, &list[name_offset..next_name]);
            }
            if kept.len() > 256 || kept_names.len() > 512 {
                return None;
            }
        }
        offset = end;
        name_offset = next_name;
    }
    if let Some(list) = names {
        if name_offset != list.len() {
            return None;
        }
    }
    Some((kept, kept_names))
}

/// Where the names of the properties that are written stand among the strings.
#[derive(Clone, Copy, Debug, PartialEq, Eq, Structural)]
pub struct PatchNames {
    pub enable_method: u32,
    pub cpu_release_addr: u32,
    pub status: u32,
    pub power_domains: u32,
    pub power_domain_names: u32,
}

/// Where a name stands among the old strings, or else behind the new ones, which get it then.
pub open spec fn with_name(old: Seq<u8>, new: Seq<u8>, name: Seq<char>) -> Option<
    (u32, Seq<u8>),
> {
    match string_offset(old, 0, utf8(name)) {
        Some(offset) => if offset <= u32::MAX {
            Some((offset as u32, new))
        } else {
            None
        },
        None => if new.len() > u32::MAX {
            None
        } else {
            Some((new.len() as u32, new + utf8(name) + seq![0u8]))
        },
    }
}

/// The strings with the names of the properties that are written, and where those stand.
pub open spec fn patch_names(old: Seq<u8>) -> Option<(PatchNames, Seq<u8>)> {
    match with_name(old, old, "enable-method"@) {
        None => None,
        Some((enable_method, s1)) => match with_name(old, s1, "cpu-release-addr"@) {
            None => None,
            Some((cpu_release_addr, s2)) => match with_name(old, s2, "status"@) {
                None => None,
                Some((status, s3)) => match with_name(old, s3, "power-domains"@) {
                    None => None,
                    Some((power_domains, s4)) => match with_name(old, s4, "power-domain-names"@) {
                        None => None,
                        Some((power_domain_names, s5)) => Some(
                            (
                                PatchNames {
                                    enable_method,
                                    cpu_release_addr,
                                    status,
                                    power_domains,
                                    power_domain_names,
                                },
                                s5,
                            ),
                        ),
                    },
                },
            },
        },
    }
}

fn place_name(old_strings: &[u8], new: &mut Vec<u8>, name: &str) -> (r: Option<u32>)
    ensures
        with_name(old_strings@, old(new)@, name@) == (match r {
            Some(offset) => Some((offset, final(new)@)),
            None => None,
        }),
{
    match find_string(old_strings, name.as_bytes()) {
        Some(offset) => if offset as u64 <= u32::MAX as u64 {
            Some(offset as u32)
        } else {
            None
        },
        None => {
            let size = new.len();
            if size as u64 > u32::MAX as u64 {
                return None;
            }
            push_bytes(new, name.as_bytes());
            new.push(0);
            assert(new@ =~= old(new)@ + utf8(name@) + seq![0u8]);
            Some(size as u32)
        },
    }
}

/// The strings with the names of the properties that are written, and where those stand.
pub fn place_names(strings: &[u8]) -> (r: Option<(PatchNames, Vec<u8>)>)
    ensures
        patch_names(strings@) == (match r {
            Some((names, all)) => Some((names, all@)),
            None => None,
        }),
{
    let mut new: Vec<u8> = Vec::new();
    push_bytes(&mut new, strings);
    assert(new@ =~= strings@);
    let enable_method = place_name(strings, &mut new, "enable-method")?;
    let cpu_release_addr = place_name(strings, &mut new, "cpu-release-addr")?;
    let status = place_name(strings, &mut new, "status")?;
    let power_domains = place_name(strings, &mut new, "power-domains")?;
    let power_domain_names = place_name(strings, &mut new, "power-domain-names")?;
    Some(
        (
            PatchNames {
                enable_method,
                cpu_release_addr,
                status,
                power_domains,
                power_domain_names,
            },
            new,
        ),
    )
}

/// What a node is, as far as it matters here.
#[derive(Clone, Copy, Debug, PartialEq, Eq, Structural)]
pub enum NodeKind {
    Root,
    Cpus,
    Cpu,
    IdleStates,
    IdleState,
    Other,
}

/// A node that is open: what it is, and whether it is switched off.
#[derive(Clone, Copy, Debug, PartialEq, Eq, Structural)]
pub struct PatchContext {
    pub kind: NodeKind,
    pub disable: bool,
}

/// What a node of this name is below a node.
pub open spec fn kind_below(depth: int, parent: NodeKind, name: Seq<u8>) -> NodeKind {
    if depth == 0 {
        if name.len() == 0 {
            NodeKind::Root
        } else {
            NodeKind::Other
        }
    } else if parent == NodeKind::Root && name == utf8("cpus"@) {
        NodeKind::Cpus
    } else if parent == NodeKind::Cpus && base_name(name) == utf8("cpu"@) {
        NodeKind::Cpu
    } else if parent == NodeKind::Cpus && name == utf8("idle-states"@) {
        NodeKind::IdleStates
    } else if parent == NodeKind::IdleStates {
        NodeKind::IdleState
    } else {
        NodeKind::Other
    }
}

/// What a node of this name is below a node.
pub fn node_kind(depth: usize, parent: NodeKind, name: &[u8]) -> (r: NodeKind)
    ensures
        r == kind_below(depth as int, parent, name@),
{
    if depth == 0 {
        return if name.len() == 0 {
            NodeKind::Root
        } else {
            NodeKind::Other
        };
    }
    match parent {
        NodeKind::Root => if same_bytes(name, "cpus".as_bytes()) {
            NodeKind::Cpus
        } else {
            NodeKind::Other
        },
        NodeKind::Cpus => if basename_eq(name, "cpu".as_bytes()) {
            NodeKind::Cpu
        } else if same_bytes(name, "idle-states".as_bytes()) {
            NodeKind::IdleStates
        } else {
            NodeKind::Other
        },
        NodeKind::IdleStates => NodeKind::IdleState,
        _ => NodeKind::Other,
    }
}

/// Whether a property of a node is left out.
pub open spec fn left_out(context: PatchContext, name: Seq<u8>) -> bool {
    ||| context.disable && name == utf8("status"@)
    ||| context.kind == NodeKind::Cpu && (name == utf8("enable-method"@) || name == utf8(
        "cpu-release-addr"@,
    ) || name == utf8("power-domains"@) || name == utf8("power-domain-names"@) || name == utf8(
        "cpu-idle-states"@,
    ))
    ||| context.kind == NodeKind::IdleStates && name == utf8("entry-method"@)
}

/// Whether a property of a node is left out.
pub fn should_skip_prop(context: PatchContext, name: &[u8]) -> (r: bool)
    ensures
        r == left_out(context, name@),
{
    if context.disable && same_bytes(name, "status".as_bytes()) {
        return true;
    }
    match context.kind {
        NodeKind::Cpu => same_bytes(name, "enable-method".as_bytes()) || same_bytes(
            name,
            "cpu-release-addr".as_bytes(),
        ) || same_bytes(name, "power-domains".as_bytes()) || same_bytes(
            name,
            "power-domain-names".as_bytes(),
        ) || same_bytes(name, "cpu-idle-states".as_bytes()),
        NodeKind::IdleStates => same_bytes(name, "entry-method".as_bytes()),
        _ => false,
    }
}

/// The properties that a processor gets.
#[verifier::opaque]
pub open spec fn cpu_props(
    t: Tree,
    node: int,
    names: PatchNames,
    providers: Seq<PowerProvider>,
    table: SpinTable,
) -> Option<Seq<u8>> {
    match domains_kept(t, node, providers) {
        None => None,
        Some((domains, domain_names)) => match t.cell(node, "reg"@) {
            Err(_) => None,
            Ok(reg) => {
                let kept = if domains.len() == 0 {
                    Seq::empty()
                } else if domain_names.len() == 0 {
                    prop_bytes(names.power_domains, domains)
                } else {
                    prop_bytes(names.power_domains, domains) + prop_bytes(
                        names.power_domain_names,
                        domain_names,
                    )
                };
                Some(
                    kept + prop_bytes(names.enable_method, utf8("spin-table\0"@)) + prop_bytes(
                        names.cpu_release_addr,
                        be64_bytes(table.slot(reg as int) as u64),
                    ),
                )
            },
        },
    }
}

fn write_cpu_props(
    reader: &Reader<'_>,
    node: Node,
    names: &PatchNames,
    providers: &[PowerProvider],
    table: SpinTable,
    output: &mut Vec<u8>,
) -> (r: bool)
    requires
        old(output)@.len() % 4 == 0,
        table.low(),
    ensures
        match cpu_props(reader.tree(), node.offset as int, *names, providers@, table) {
            Some(props) => r && final(output)@ == old(output)@ + props,
            None => !r,
        },
        final(output)@.len() % 4 == 0,
{
    proof {
        reveal(cpu_props);
    }
    let (domains, domain_names) = match filtered_power_domains(reader, node, providers) {
        None => {
            return false;
        },
        Some(kept) => kept,
    };
    let reg = match reader.prop_u32(node, "reg".as_bytes()) {
        Err(_) => {
            return false;
        },
        Ok(reg) => reg,
    };
    let ghost start = output@;
    let ghost mut kept: Seq<u8> = Seq::empty();
    if domains.len() != 0 {
        write_prop(output, names.power_domains, &domains);
        proof {
            kept = prop_bytes(names.power_domains, domains@);
        }
        if domain_names.len() != 0 {
            write_prop(output, names.power_domain_names, &domain_names);
            proof {
                kept = prop_bytes(names.power_domains, domains@) + prop_bytes(
                    names.power_domain_names,
                    domain_names@,
                );
            }
        }
    }
    assert(output@ =~= start + kept);
    let ghost method = prop_bytes(names.enable_method, utf8("spin-table\0"@));
    write_prop(output, names.enable_method, "spin-table\0".as_bytes());
    let mut release: Vec<u8> = Vec::new();
    push_be_u64(&mut release, table.release_addr(reg));
    assert(release@ =~= be64_bytes(table.slot(reg as int) as u64));
    let ghost place = prop_bytes(names.cpu_release_addr, release@);
    write_prop(output, names.cpu_release_addr, &release);
    assert(output@ =~= start + (kept + method + place));
    true
}

/// What is written for a token, where the next token starts, the nodes that are open then, and
/// whether the token was the last.
pub struct PatchStep {
    pub bytes: Seq<u8>,
    pub next: int,
    pub stack: Seq<PatchContext>,
    pub last: bool,
}

/// What is written for the token at `cursor`.
pub open spec fn patch_step(
    t: Tree,
    names: PatchNames,
    providers: Seq<PowerProvider>,
    table: SpinTable,
    cursor: int,
    stack: Seq<PatchContext>,
) -> Option<PatchStep> {
    let s = t.structure;
    let context = if stack.len() == 0 {
        PatchContext { kind: NodeKind::Other, disable: false }
    } else {
        stack.last()
    };
    match tok(s, cursor) {
        Err(_) => None,
        Ok(Token::Begin { name_end, next }) => {
            let name = s.subrange(cursor + 4, name_end as int);
            let kind = kind_below(stack.len() as int, context.kind, name);
            let disable = context.disable || is_psci(t, cursor) || kind == NodeKind::IdleState;
            let props = if kind == NodeKind::Cpu {
                cpu_props(t, cursor, names, providers, table)
            } else {
                Some(Seq::empty())
            };
            if next > s.len() || stack.len() >= MAX_DEPTH || props is None {
                None
            } else {
                Some(
                    PatchStep {
                        bytes: s.subrange(cursor, next as int) + props->0 + (if disable {
                            prop_bytes(names.status, utf8("disabled\0"@))
                        } else {
                            Seq::empty()
                        }),
                        next: next as int,
                        stack: stack.push(PatchContext { kind, disable }),
                        last: false,
                    },
                )
            }
        },
        Ok(Token::End) => if stack.len() == 0 {
            None
        } else {
            Some(
                PatchStep {
                    bytes: s.subrange(cursor, cursor + 4),
                    next: cursor + 4,
                    stack: stack.drop_last(),
                    last: false,
                },
            )
        },
        Ok(Token::Prop { nameoff, next, .. }) => match string_of(t.strings, nameoff as int) {
            None => None,
            Some(name) => Some(
                PatchStep {
                    bytes: if left_out(context, name) {
                        Seq::empty()
                    } else {
                        s.subrange(cursor, next as int)
                    },
                    next: next as int,
                    stack,
                    last: false,
                },
            ),
        },
        Ok(Token::Nop) => Some(
            PatchStep { bytes: s.subrange(cursor, cursor + 4), next: cursor + 4, stack, last: false },
        ),
        Ok(Token::Finish) => if stack.len() != 0 {
            None
        } else {
            Some(
                PatchStep {
                    bytes: s.subrange(cursor, cursor + 4),
                    next: cursor + 4,
                    stack,
                    last: true,
                },
            )
        },
    }
}

#[via_fn]
proof fn patched_from_decreases(
    t: Tree,
    names: PatchNames,
    providers: Seq<PowerProvider>,
    table: SpinTable,
    cursor: int,
    stack: Seq<PatchContext>,
) {
    lemma_token_at(t.structure, cursor);
}

/// What is written for the tokens at and behind `cursor`.
pub open spec fn patched_from(
    t: Tree,
    names: PatchNames,
    providers: Seq<PowerProvider>,
    table: SpinTable,
    cursor: int,
    stack: Seq<PatchContext>,
) -> Option<Seq<u8>>
    decreases (if cursor < t.structure.len() { t.structure.len() - cursor } else { 0 }),
    when 0 <= cursor
    via patched_from_decreases
{
    match patch_step(t, names, providers, table, cursor, stack) {
        None => None,
        Some(step) => if step.last {
            Some(step.bytes)
        } else {
            match patched_from(t, names, providers, table, step.next, step.stack) {
                None => None,
                Some(rest) => Some(step.bytes + rest),
            }
        },
    }
}

/// Where the next token starts, and whether the token was the last.
struct Passed {
    next: usize,
    last: bool,
}

#[verifier::rlimit(40)]
fn patch_begin(
    reader: &Reader<'_>,
    names: &PatchNames,
    providers: &[PowerProvider],
    table: SpinTable,
    cursor: usize,
    name_end: usize,
    next: usize,
    stack: &mut Vec<PatchContext>,
    output: &mut Vec<u8>,
) -> (r: bool)
    requires
        table.low(),
        cursor % 4 == 0,
        old(output)@.len() % 4 == 0,
        tok(reader.structure@, cursor as int) == Ok::<Token, fdt::Error>(
            Token::Begin { name_end, next },
        ),
    ensures
        match patch_step(
            reader.tree(),
            *names,
            providers@,
            table,
            cursor as int,
            old(stack)@,
        ) {
            Some(step) => r && step.next == next && !step.last && final(stack)@ == step.stack
                && final(output)@ == old(output)@ + step.bytes && next % 4 == 0,
            None => !r,
        },
        final(output)@.len() % 4 == 0,
{
    let structure = reader.structure;
    proof {
        lemma_token_at(structure@, cursor as int);
    }
    if next > structure.len() {
        return false;
    }
    let depth = stack.len();
    if depth >= MAX_DEPTH {
        return false;
    }
    let context = if depth == 0 {
        PatchContext { kind: NodeKind::Other, disable: false }
    } else {
        stack[depth - 1]
    };
    let node = Node { offset: cursor };
    let kind = node_kind(depth, context.kind, &structure[cursor + 4..name_end]);
    let disable = context.disable || is_psci_node(reader, node) || kind == NodeKind::IdleState;
    let ghost start = output@;
    let ghost own = structure@.subrange(cursor as int, next as int);
    let ghost mut props: Seq<u8> = Seq::empty();
    push_bytes(output, &structure[cursor..next]);
    assert(output@ =~= start + own);
    if kind == NodeKind::Cpu {
        if !write_cpu_props(reader, node, names, providers, table, output) {
            return false;
        }
        proof {
            props = cpu_props(reader.tree(), cursor as int, *names, providers@, table)->0;
        }
    }
    assert(output@ =~= start + own + props);
    let ghost mut end: Seq<u8> = Seq::empty();
    if disable {
        write_prop(output, names.status, "disabled\0".as_bytes());
        proof {
            end = prop_bytes(names.status, utf8("disabled\0"@));
        }
    }
    assert(output@ =~= start + (own + props + end));
    stack.push(PatchContext { kind, disable });
    true
}

fn patch_token(
    reader: &Reader<'_>,
    names: &PatchNames,
    providers: &[PowerProvider],
    table: SpinTable,
    cursor: usize,
    stack: &mut Vec<PatchContext>,
    output: &mut Vec<u8>,
) -> (r: Option<Passed>)
    requires
        table.low(),
        cursor % 4 == 0,
        old(output)@.len() % 4 == 0,
    ensures
        match patch_step(
            reader.tree(),
            *names,
            providers@,
            table,
            cursor as int,
            old(stack)@,
        ) {
            Some(step) => {
                &&& r matches Some(passed) && step.next == passed.next && step.last == passed.last
                &&& final(stack)@ == step.stack
                &&& final(output)@ == old(output)@ + step.bytes
                &&& step.next % 4 == 0
                &&& cursor < step.next
                &&& cursor < reader.structure@.len()
            },
            None => r is None,
        },
        final(output)@.len() % 4 == 0,
{
    let structure = reader.structure;
    proof {
        lemma_token_at(structure@, cursor as int);
    }
    let depth = stack.len();
    let found = match token(structure, cursor) {
        Err(_) => {
            return None;
        },
        Ok(found) => found,
    };
    let ghost start = output@;
    match found {
        Token::Begin { name_end, next } => {
            if !patch_begin(
                reader,
                names,
                providers,
                table,
                cursor,
                name_end,
                next,
                stack,
                output,
            ) {
                return None;
            }
            Some(Passed { next, last: false })
        },
        Token::End => {
            if depth == 0 {
                return None;
            }
            push_bytes(output, &structure[cursor..cursor + 4]);
            stack.pop();
            Some(Passed { next: cursor + 4, last: false })
        },
        Token::Prop { nameoff, next, .. } => {
            let name = match string_at(reader.strings, nameoff) {
                None => {
                    return None;
                },
                Some(name) => name,
            };
            let context = if depth == 0 {
                PatchContext { kind: NodeKind::Other, disable: false }
            } else {
                stack[depth - 1]
            };
            if !should_skip_prop(context, name) {
                push_bytes(output, &structure[cursor..next]);
            } else {
                assert(output@ =~= start + Seq::<u8>::empty());
            }
            Some(Passed { next, last: false })
        },
        Token::Nop => {
            push_bytes(output, &structure[cursor..cursor + 4]);
            Some(Passed { next: cursor + 4, last: false })
        },
        Token::Finish => {
            if depth != 0 {
                return None;
            }
            push_bytes(output, &structure[cursor..cursor + 4]);
            Some(Passed { next: cursor + 4, last: true })
        },
    }
}

proof fn lemma_join(a: Seq<u8>, b: Seq<u8>, c: Seq<u8>)
    ensures
        a + (b + c) == (a + b) + c,
{
    assert(a + (b + c) =~= (a + b) + c);
}

/// The structure of the tree in which the kernel finds the resident processors.
pub fn patch_structure(
    reader: &Reader<'_>,
    names: &PatchNames,
    providers: &[PowerProvider],
    table: SpinTable,
) -> (r: Option<Vec<u8>>)
    requires
        table.low(),
    ensures
        patched_from(reader.tree(), *names, providers@, table, 0, Seq::empty()) == (match r {
            Some(structure) => Some(structure@),
            None => None,
        }),
{
    let mut output: Vec<u8> = Vec::new();
    let mut stack: Vec<PatchContext> = Vec::new();
    let mut cursor: usize = 0;
    let ghost t = reader.tree();
    let ghost whole = patched_from(t, *names, providers@, table, 0, Seq::empty());
    proof {
        if whole is Some {
            assert(Seq::<u8>::empty() + whole->0 =~= whole->0);
        }
    }
    loop
        invariant
            table.low(),
            cursor % 4 == 0,
            output@.len() % 4 == 0,
            t == reader.tree(),
            whole == patched_from(t, *names, providers@, table, 0, Seq::empty()),
            match patched_from(t, *names, providers@, table, cursor as int, stack@) {
                Some(rest) => whole == Some(output@ + rest),
                None => whole is None,
            },
        decreases
                (if cursor < reader.structure@.len() { reader.structure@.len() - cursor } else { 0 }),
    {
        let ghost before = output@;
        let ghost step = patch_step(t, *names, providers@, table, cursor as int, stack@);
        match patch_token(reader, names, providers, table, cursor, &mut stack, &mut output) {
            None => {
                return None;
            },
            Some(passed) => {
                if passed.last {
                    return Some(output);
                }
                proof {
                    let rest = patched_from(
                        t,
                        *names,
                        providers@,
                        table,
                        passed.next as int,
                        stack@,
                    );
                    if rest is Some {
                        lemma_join(before, step->0.bytes, rest->0);
                    }
                }
                cursor = passed.next;
            },
        }
    }
}

/// The tree in which the kernel finds the resident processors, if it fits in `limit` bytes.
pub open spec fn patched(
    t: Tree,
    header: Header,
    reserve: Result<Seq<u8>, fdt::Error>,
    table: SpinTable,
    limit: int,
) -> Option<Seq<u8>> {
    match (reserve, patch_names(t.strings), providers_told(t)) {
        (Ok(reserve), Some((names, strings)), Some(providers)) => match patched_from(
            t,
            names,
            providers,
            table,
            0,
            Seq::empty(),
        ) {
            None => None,
            Some(structure) => match built(header, reserve, structure, strings) {
                Ok(tree) => if tree.len() <= limit {
                    Some(tree)
                } else {
                    None
                },
                Err(_) => None,
            },
        },
        _ => None,
    }
}

/// The tree in which the kernel finds the resident processors, if it fits in `limit` bytes.
pub fn patch_fdt(reader: &Reader<'_>, limit: usize, table: SpinTable) -> (r: Result<Vec<u8>, Error>)
    requires
        table.low(),
    ensures
        match patched(
            reader.tree(),
            reader.header,
            reserve_list(reader.data@, reader.header.off_mem_rsvmap as int),
            table,
            limit as int,
        ) {
            Some(tree) => r matches Ok(out) && out@ == tree,
            None => r matches Err(e) && e == Error::Fdt,
        },
{
    let reserve = match reader.reserve_map() {
        Err(_) => {
            return Err(Error::Fdt);
        },
        Ok(reserve) => reserve,
    };
    let (names, strings) = match place_names(reader.strings) {
        None => {
            return Err(Error::Fdt);
        },
        Some(placed) => placed,
    };
    let providers = match power_domain_providers(reader) {
        None => {
            return Err(Error::Fdt);
        },
        Some(providers) => providers,
    };
    let structure = match patch_structure(reader, &names, &providers, table) {
        None => {
            return Err(Error::Fdt);
        },
        Some(structure) => structure,
    };
    match build_dtb(&reader.header, reserve, &structure, &strings) {
        Err(_) => Err(Error::Fdt),
        Ok(tree) => if tree.len() <= limit {
            Ok(tree)
        } else {
            Err(Error::Fdt)
        },
    }
}

/// The bytes of the names that the rewriting goes by.
proof fn lemma_names()
    ensures
        utf8("cpus"@) == seq![0x63u8, 0x70u8, 0x75u8, 0x73u8],
        utf8("cpu"@) == seq![0x63u8, 0x70u8, 0x75u8],
        utf8("reg"@) == seq![0x72u8, 0x65u8, 0x67u8],
        utf8("status"@).len() == 6,
        utf8("enable-method"@).len() == 13,
        utf8("cpu-release-addr"@).len() == 16,
        utf8("power-domains"@).len() == 13,
        utf8("power-domain-names"@).len() == 18,
        utf8("cpu-idle-states"@).len() == 15,
        utf8("entry-method"@).len() == 12,
        utf8("idle-states"@).len() == 11,
{
    reveal_strlit("cpus");
    reveal_strlit("cpu");
    reveal_strlit("reg");
    reveal_strlit("status");
    reveal_strlit("enable-method");
    reveal_strlit("cpu-release-addr");
    reveal_strlit("power-domains");
    reveal_strlit("power-domain-names");
    reveal_strlit("cpu-idle-states");
    reveal_strlit("entry-method");
    reveal_strlit("idle-states");
    vstd::utf8::is_ascii_chars_encode_utf8("cpus"@);
    vstd::utf8::is_ascii_chars_encode_utf8("cpu"@);
    vstd::utf8::is_ascii_chars_encode_utf8("reg"@);
    vstd::utf8::is_ascii_chars_encode_utf8("status"@);
    vstd::utf8::is_ascii_chars_encode_utf8("enable-method"@);
    vstd::utf8::is_ascii_chars_encode_utf8("cpu-release-addr"@);
    vstd::utf8::is_ascii_chars_encode_utf8("power-domains"@);
    vstd::utf8::is_ascii_chars_encode_utf8("power-domain-names"@);
    vstd::utf8::is_ascii_chars_encode_utf8("cpu-idle-states"@);
    vstd::utf8::is_ascii_chars_encode_utf8("entry-method"@);
    vstd::utf8::is_ascii_chars_encode_utf8("idle-states"@);
    assert(utf8("cpus"@) =~= seq![0x63u8, 0x70u8, 0x75u8, 0x73u8]);
    assert(utf8("cpu"@) =~= seq![0x63u8, 0x70u8, 0x75u8]);
    assert(utf8("reg"@) =~= seq![0x72u8, 0x65u8, 0x67u8]);
}

/// The nodes of the processors are those named `cpu`, with an address or without, below the node
/// `cpus` of the root, and no others.
pub proof fn law_processors_are_told_by_their_place(
    depth: int,
    parent: NodeKind,
    name: Seq<u8>,
    address: Seq<u8>,
)
    requires
        depth > 0,
    ensures
        kind_below(0, parent, Seq::empty()) == NodeKind::Root,
        kind_below(depth, NodeKind::Root, seq![0x63u8, 0x70u8, 0x75u8, 0x73u8]) == NodeKind::Cpus,
        kind_below(depth, NodeKind::Cpus, seq![0x63u8, 0x70u8, 0x75u8]) == NodeKind::Cpu,
        kind_below(depth, NodeKind::Cpus, seq![0x63u8, 0x70u8, 0x75u8, 0x40u8] + address)
            == NodeKind::Cpu,
        kind_below(depth, parent, name) == NodeKind::Cpu ==> parent == NodeKind::Cpus,
        kind_below(depth, parent, name) == NodeKind::Cpus ==> parent == NodeKind::Root,
{
    lemma_names();
    let bare = seq![0x63u8, 0x70u8, 0x75u8];
    let full = seq![0x63u8, 0x70u8, 0x75u8, 0x40u8] + address;
    reveal_with_fuel(next_byte, 5);
    assert(bare.take(3) =~= bare);
    assert(full.take(3) =~= bare);
    assert(seq![0x63u8, 0x70u8, 0x75u8, 0x73u8].len() == 4);
}

/// What tells a kernel how a processor is woken up, and whether a node is in use, is left out where
/// it is told anew, and nothing else: the number of a processor stays, and so do all properties of
/// nodes that are neither a processor, nor the idle states, nor out of use.
pub proof fn law_other_properties_stay(context: PatchContext, name: Seq<u8>)
    ensures
        left_out(context, name) ==> context.disable || context.kind == NodeKind::Cpu || context.kind
            == NodeKind::IdleStates,
        name == seq![0x72u8, 0x65u8, 0x67u8] ==> !left_out(context, name),
        left_out(context, name) && !context.disable ==> name != utf8("status"@),
        context.kind == NodeKind::Cpu && (name == utf8("enable-method"@) || name == utf8(
            "cpu-release-addr"@,
        ) || name == utf8("power-domains"@)) ==> left_out(context, name),
        context.disable && name == utf8("status"@) ==> left_out(context, name),
{
    lemma_names();
}

/// Whether bytes are one power domain: the number of a known provider, and its cells.
pub open spec fn is_domain(entry: Seq<u8>, providers: Seq<PowerProvider>) -> bool {
    match provider_from(providers, be32(entry, 0), 0) {
        Some(provider) => entry.len() == (provider.cells + 1) * 4,
        None => false,
    }
}

/// The domains among `entries` whose provider is not the firmware's power service, in their order.
pub open spec fn domains_of_others(entries: Seq<Seq<u8>>, providers: Seq<PowerProvider>) -> Seq<u8>
    decreases entries.len(),
{
    if entries.len() == 0 {
        Seq::empty()
    } else {
        let rest = domains_of_others(entries.skip(1), providers);
        match provider_from(providers, be32(entries[0], 0), 0) {
            Some(provider) => if provider.psci {
                rest
            } else {
                entries[0] + rest
            },
            None => rest,
        }
    }
}

proof fn lemma_domains_kept(
    front: Seq<u8>,
    entries: Seq<Seq<u8>>,
    providers: Seq<PowerProvider>,
    kept: Seq<u8>,
)
    requires
        forall|i: int| 0 <= i < entries.len() ==> is_domain(#[trigger] entries[i], providers),
        (kept + domains_of_others(entries, providers)).len() <= 256,
    ensures
        kept_from(
            front + entries.flatten(),
            None,
            providers,
            front.len() as int,
            0,
            kept,
            Seq::empty(),
        ) == Some((kept + domains_of_others(entries, providers), Seq::<u8>::empty())),
    decreases entries.len(),
{
    let all = front + entries.flatten();
    let at = front.len() as int;
    if entries.len() == 0 {
        assert(entries.flatten() =~= Seq::<u8>::empty());
        assert(kept + domains_of_others(entries, providers) =~= kept);
    } else {
        let first = entries[0];
        let rest = entries.skip(1);
        assert(entries.drop_first() =~= rest);
        assert(entries.flatten() =~= first + rest.flatten());
        assert(all =~= (front + first) + rest.flatten());
        assert(be32(all, at) == be32(first, 0));
        let provider = provider_from(providers, be32(first, 0), 0)->0;
        let end = at + (provider.cells + 1) * 4;
        assert(end == (front + first).len());
        assert(all.subrange(at, end) =~= first);
        assert forall|i: int| 0 <= i < rest.len() implies is_domain(
            #[trigger] rest[i],
            providers,
        ) by {
            assert(rest[i] == entries[i + 1]);
        }
        let more = if provider.psci {
            kept
        } else {
            kept + first
        };
        assert(more + domains_of_others(rest, providers) =~= kept + domains_of_others(
            entries,
            providers,
        ));
        lemma_domains_kept(front + first, rest, providers, more);
    }
}

/// A processor keeps its power domains, but for those of the firmware's power service: each of the
/// others stays as it is, in its place among them.
pub proof fn law_other_power_domains_stay(entries: Seq<Seq<u8>>, providers: Seq<PowerProvider>)
    requires
        forall|i: int| 0 <= i < entries.len() ==> is_domain(#[trigger] entries[i], providers),
        domains_of_others(entries, providers).len() <= 256,
    ensures
        kept_from(entries.flatten(), None, providers, 0, 0, Seq::empty(), Seq::empty()) == Some(
            (domains_of_others(entries, providers), Seq::<u8>::empty()),
        ),
{
    let none = Seq::<u8>::empty();
    assert(none + entries.flatten() =~= entries.flatten());
    assert(none + domains_of_others(entries, providers) =~= domains_of_others(entries, providers));
    lemma_domains_kept(none, entries, providers, none);
}

} // verus!
