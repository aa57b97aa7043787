//! What a kernel reads of a tree that was patched for resident processors.
use vstd::prelude::*;
use vstd::string::*;

use crate::bytes::{be64_bytes, utf8};
use crate::kexec::fdt::{
    after_token, lemma_token_at, prop_bytes, string_of, string_offset, token_at, Header, Token,
};
use crate::kexec::tree::{
    items_of, law_built_trees_are_read_back, lemma_appended, lemma_copied_front, lemma_items_grow,
    lemma_items_skip, lemma_no_zero, lemma_prop_front, lemma_string_offset, lemma_strings_grow,
    lemma_token_moves, tree_items, Item,
};
use crate::preboot::fdt::{tok, Tree};
use crate::preboot::msm8916::SpinTable;
use crate::preboot::patch::{
    cpu_props, domains_kept, is_psci, kind_below, left_out, patch_names, patch_step, patched,
    patched_from, providers_told, with_name, NodeKind, PatchContext, PatchNames, PowerProvider,
};

verus! {

/// A property.
pub open spec fn property(name: Seq<char>, value: Seq<u8>) -> Item {
    Item::Value { name: utf8(name), value }
}

/// What the kernel reads first in the node of a processor: the power domains that stay, that the
/// processor waits at an address, and which one that is.
#[verifier::opaque]
pub open spec fn cpu_items(
    t: Tree,
    node: int,
    providers: Seq<PowerProvider>,
    table: SpinTable,
) -> Seq<Item> {
    let (domains, domain_names) = domains_kept(t, node, providers)->0;
    let reg = t.cell(node, "reg"@)->Ok_0;
    let kept = if domains.len() == 0 {
        Seq::empty()
    } else if domain_names.len() == 0 {
        seq![property("power-domains"@, domains)]
    } else {
        seq![property("power-domains"@, domains), property("power-domain-names"@, domain_names)]
    };
    kept + seq![
        property("enable-method"@, utf8("spin-table\0"@)),
        property("cpu-release-addr"@, be64_bytes(table.slot(reg as int) as u64)),
    ]
}

#[via_fn]
proof fn resident_from_decreases(
    t: Tree,
    providers: Seq<PowerProvider>,
    table: SpinTable,
    cursor: int,
    stack: Seq<PatchContext>,
) {
    lemma_token_at(t.structure, cursor);
}

/// What the kernel reads of a patched tree, from the token of the old tree at `cursor` on, with the
/// nodes of `stack` open: all that the old tree says, but for the properties that are left out; the
/// nodes of processors say first how the processors are released, and the nodes of the firmware's
/// power service, all below them, and the idle states say that they are not to be used.
pub open spec fn resident_from(
    t: Tree,
    providers: Seq<PowerProvider>,
    table: SpinTable,
    cursor: int,
    stack: Seq<PatchContext>,
) -> Seq<Item>
    decreases (if cursor < t.structure.len() { t.structure.len() - cursor } else { 0 }),
    when 0 <= cursor
    via resident_from_decreases
{
    let s = t.structure;
    let context = if stack.len() == 0 {
        PatchContext { kind: NodeKind::Other, disable: false }
    } else {
        stack.last()
    };
    match tok(s, cursor) {
        Err(_) => Seq::empty(),
        Ok(Token::Begin { name_end, next }) => {
            let name = s.subrange(cursor + 4, name_end as int);
            let kind = kind_below(stack.len() as int, context.kind, name);
            let disable = context.disable || is_psci(t, cursor) || kind == NodeKind::IdleState;
            seq![Item::Open(name)] + (if kind == NodeKind::Cpu {
                cpu_items(t, cursor, providers, table)
            } else {
                Seq::empty()
            }) + (if disable {
                seq![property("status"@, utf8("disabled\0"@))]
            } else {
                Seq::empty()
            }) + resident_from(
                t,
                providers,
                table,
                next as int,
                stack.push(PatchContext { kind, disable }),
            )
        },
        Ok(Token::End) => seq![Item::Close] + resident_from(
            t,
            providers,
            table,
            cursor + 4,
            stack.drop_last(),
        ),
        Ok(Token::Prop { nameoff, value_start, value_end, next, .. }) => {
            let name = string_of(t.strings, nameoff as int)->0;
            let value = s.subrange(value_start as int, value_end as int);
            let rest = resident_from(t, providers, table, next as int, stack);
            if left_out(context, name) {
                rest
            } else {
                seq![Item::Value { name, value }] + rest
            }
        },
        Ok(Token::Nop) => resident_from(t, providers, table, cursor + 4, stack),
        Ok(Token::Finish) => Seq::empty(),
    }
}

/// Whether the strings have the names of the properties that are written.
pub open spec fn has_names(strings: Seq<u8>, names: PatchNames) -> bool {
    &&& string_of(strings, names.enable_method as int) == Some(utf8("enable-method"@))
    &&& string_of(strings, names.cpu_release_addr as int) == Some(utf8("cpu-release-addr"@))
    &&& string_of(strings, names.status as int) == Some(utf8("status"@))
    &&& string_of(strings, names.power_domains as int) == Some(utf8("power-domains"@))
    &&& string_of(strings, names.power_domain_names as int) == Some(utf8("power-domain-names"@))
}

proof fn lemma_cpu_front(
    t: Tree,
    node: int,
    names: PatchNames,
    providers: Seq<PowerProvider>,
    table: SpinTable,
    tail: Seq<u8>,
    strings: Seq<u8>,
)
    requires
        has_names(strings, names),
        cpu_props(t, node, names, providers, table) matches Some(props) && props.len() + tail.len()
            + 16 <= u32::MAX,
        items_of(tail, strings) is Some,
    ensures
        items_of(cpu_props(t, node, names, providers, table)->0 + tail, strings) == Some(
            cpu_items(t, node, providers, table) + items_of(tail, strings)->0,
        ),
{
    reveal(cpu_props);
    reveal(cpu_items);
    let (domains, domain_names) = domains_kept(t, node, providers)->0;
    let reg = t.cell(node, "reg"@)->Ok_0;
    let place = be64_bytes(table.slot(reg as int) as u64);
    let last = items_of(tail, strings)->0;
    let whole = cpu_props(t, node, names, providers, table)->0 + tail;
    let b1 = prop_bytes(names.cpu_release_addr, place);
    let b2 = prop_bytes(names.enable_method, utf8("spin-table\0"@));
    let i1 = property("cpu-release-addr"@, place);
    let i2 = property("enable-method"@, utf8("spin-table\0"@));
    let s1 = b1 + tail;
    let s2 = b2 + s1;
    let end = seq![i2, i1] + last;
    lemma_prop_front(names.cpu_release_addr, utf8("cpu-release-addr"@), place, tail, strings);
    lemma_prop_front(
        names.enable_method,
        utf8("enable-method"@),
        utf8("spin-table\0"@),
        s1,
        strings,
    );
    assert(seq![i2] + (seq![i1] + last) =~= end);
    if domains.len() == 0 {
        assert(whole =~= s2);
        assert(cpu_items(t, node, providers, table) + last =~= end);
    } else {
        let b4 = prop_bytes(names.power_domains, domains);
        let i4 = property("power-domains"@, domains);
        if domain_names.len() == 0 {
            assert(whole =~= b4 + s2);
            lemma_prop_front(names.power_domains, utf8("power-domains"@), domains, s2, strings);
            assert(cpu_items(t, node, providers, table) + last =~= seq![i4] + end);
        } else {
            let b3 = prop_bytes(names.power_domain_names, domain_names);
            let i3 = property("power-domain-names"@, domain_names);
            let s3 = b3 + s2;
            assert(whole =~= b4 + s3);
            lemma_prop_front(
                names.power_domain_names,
                utf8("power-domain-names"@),
                domain_names,
                s2,
                strings,
            );
            lemma_prop_front(names.power_domains, utf8("power-domains"@), domains, s3, strings);
            assert(cpu_items(t, node, providers, table) + last =~= seq![i4] + (seq![i3] + end));
        }
    }
}

/// A tree that can be patched can be read.
proof fn lemma_can_be_read(
    t: Tree,
    names: PatchNames,
    providers: Seq<PowerProvider>,
    table: SpinTable,
    cursor: int,
    stack: Seq<PatchContext>,
)
    requires
        0 <= cursor,
        cursor % 4 == 0,
        t.structure.len() + 3 <= usize::MAX,
        patched_from(t, names, providers, table, cursor, stack) is Some,
    ensures
        cursor + 4 <= t.structure.len(),
        items_of(t.structure.skip(cursor), t.strings) is Some,
    decreases (if cursor < t.structure.len() { t.structure.len() - cursor } else { 0 }),
{
    let s = t.structure;
    lemma_token_at(s, cursor);
    let step = patch_step(t, names, providers, table, cursor, stack)->0;
    let token = token_at(s, cursor)->Ok_0;
    let next = after_token(cursor, token);
    let here = s.skip(cursor);
    lemma_token_moves(s, cursor, here, 0, next - cursor);
    if !(token is Finish) {
        lemma_can_be_read(t, names, providers, table, next, step.stack);
        assert(here.skip(next - cursor) =~= s.skip(next));
    }
}

/// The patched structure is read as what the kernel is to read.
proof fn lemma_resident(
    t: Tree,
    names: PatchNames,
    providers: Seq<PowerProvider>,
    table: SpinTable,
    cursor: int,
    stack: Seq<PatchContext>,
    strings: Seq<u8>,
)
    requires
        0 <= cursor,
        cursor % 4 == 0,
        t.structure.len() + 3 <= usize::MAX,
        t.strings.is_prefix_of(strings),
        has_names(strings, names),
        patched_from(t, names, providers, table, cursor, stack) matches Some(out) && out.len() + 16
            <= u32::MAX,
    ensures
        items_of(patched_from(t, names, providers, table, cursor, stack)->0, strings) == Some(
            resident_from(t, providers, table, cursor, stack),
        ),
    decreases (if cursor < t.structure.len() { t.structure.len() - cursor } else { 0 }),
{
    let s = t.structure;
    lemma_token_at(s, cursor);
    lemma_can_be_read(t, names, providers, table, cursor, stack);
    lemma_items_grow(s.skip(cursor), t.strings, strings);
    lemma_items_skip(s, cursor, strings);
    let step = patch_step(t, names, providers, table, cursor, stack)->0;
    let out = patched_from(t, names, providers, table, cursor, stack)->0;
    let token = token_at(s, cursor)->Ok_0;
    let next = after_token(cursor, token);
    let here = s.skip(cursor);
    if token is Finish {
        lemma_token_moves(s, cursor, out, 0, 4);
        assert(items_of(out, strings) == Some(Seq::<Item>::empty()));
    } else {
        let tail = patched_from(t, names, providers, table, next, step.stack)->0;
        assert(out == step.bytes + tail);
        lemma_resident(t, names, providers, table, next, step.stack, strings);
        let last = items_of(tail, strings)->0;
        let piece = s.subrange(cursor, next);
        match token {
            Token::Begin { name_end, .. } => {
                let context = if stack.len() == 0 {
                    PatchContext { kind: NodeKind::Other, disable: false }
                } else {
                    stack.last()
                };
                let name = s.subrange(cursor + 4, name_end as int);
                assert(here.subrange(4, name_end - cursor) =~= name);
                let kind = kind_below(stack.len() as int, context.kind, name);
                let disable = context.disable || is_psci(t, cursor) || kind == NodeKind::IdleState;
                let props = if kind == NodeKind::Cpu {
                    cpu_props(t, cursor, names, providers, table)->0
                } else {
                    Seq::empty()
                };
                let told = if kind == NodeKind::Cpu {
                    cpu_items(t, cursor, providers, table)
                } else {
                    Seq::empty()
                };
                let off = if disable {
                    prop_bytes(names.status, utf8("disabled\0"@))
                } else {
                    Seq::empty()
                };
                let off_item = if disable {
                    seq![property("status"@, utf8("disabled\0"@))]
                } else {
                    Seq::empty()
                };
                assert(out =~= piece + (props + (off + tail)));
                if disable {
                    lemma_prop_front(
                        names.status,
                        utf8("status"@),
                        utf8("disabled\0"@),
                        tail,
                        strings,
                    );
                } else {
                    assert(off + tail =~= tail);
                    assert(off_item + last =~= last);
                }
                assert(items_of(off + tail, strings) == Some(off_item + last));
                if kind == NodeKind::Cpu {
                    lemma_cpu_front(t, cursor, names, providers, table, off + tail, strings);
                } else {
                    assert(props + (off + tail) =~= off + tail);
                    assert(told + (off_item + last) =~= off_item + last);
                }
                assert(items_of(props + (off + tail), strings) == Some(told + (off_item + last)));
                lemma_copied_front(s, cursor, props + (off + tail), strings);
                assert(seq![Item::Open(name)] + (told + (off_item + last)) =~= seq![
                    Item::Open(name),
                ] + told + off_item + last);
            },
            Token::End => {
                lemma_copied_front(s, cursor, tail, strings);
            },
            Token::Prop { nameoff, value_start, value_end, .. } => {
                lemma_strings_grow(t.strings, strings, nameoff as int);
                let name = string_of(t.strings, nameoff as int)->0;
                let value = s.subrange(value_start as int, value_end as int);
                assert(here.subrange(value_start - cursor, value_end - cursor) =~= value);
                if step.bytes.len() == 0 {
                    assert(out =~= tail);
                } else {
                    lemma_copied_front(s, cursor, tail, strings);
                }
            },
            Token::Nop => {
                lemma_copied_front(s, cursor, tail, strings);
                assert(Seq::<Item>::empty() + last =~= last);
            },
            Token::Finish => {},
        }
    }
}

/// A name is found where it is said to be.
proof fn lemma_with_name(old: Seq<u8>, new: Seq<u8>, name: Seq<char>)
    requires
        old.is_prefix_of(new),
        forall|i: int| 0 <= i < utf8(name).len() ==> #[trigger] utf8(name)[i] != 0,
        with_name(old, new, name) is Some,
    ensures
        ({
            let (offset, more) = with_name(old, new, name)->0;
            &&& old.is_prefix_of(more)
            &&& new.is_prefix_of(more)
            &&& string_of(more, offset as int) == Some(utf8(name))
        }),
{
    let (offset, more) = with_name(old, new, name)->0;
    lemma_string_offset(old, 0, utf8(name));
    if string_offset(old, 0, utf8(name)) is Some {
        lemma_strings_grow(old, new, offset as int);
        assert(new =~= new.subrange(0, new.len() as int));
    } else {
        lemma_appended(new, utf8(name));
        assert(old =~= more.subrange(0, old.len() as int)) by {
            assert(old =~= new.subrange(0, old.len() as int));
        }
    }
}

/// The names are found where they are said to be.
proof fn lemma_names(old: Seq<u8>)
    requires
        patch_names(old) is Some,
    ensures
        ({
            let (names, strings) = patch_names(old)->0;
            old.is_prefix_of(strings) && has_names(strings, names)
        }),
{
    reveal_strlit("enable-method");
    reveal_strlit("cpu-release-addr");
    reveal_strlit("status");
    reveal_strlit("power-domains");
    reveal_strlit("power-domain-names");
    lemma_no_zero("enable-method"@);
    lemma_no_zero("cpu-release-addr"@);
    lemma_no_zero("status"@);
    lemma_no_zero("power-domains"@);
    lemma_no_zero("power-domain-names"@);
    assert(old =~= old.subrange(0, old.len() as int));
    lemma_with_name(old, old, "enable-method"@);
    let (o1, s1) = with_name(old, old, "enable-method"@)->0;
    lemma_with_name(old, s1, "cpu-release-addr"@);
    let (o2, s2) = with_name(old, s1, "cpu-release-addr"@)->0;
    lemma_with_name(old, s2, "status"@);
    let (o3, s3) = with_name(old, s2, "status"@)->0;
    lemma_with_name(old, s3, "power-domains"@);
    let (o4, s4) = with_name(old, s3, "power-domains"@)->0;
    lemma_with_name(old, s4, "power-domain-names"@);
    let (o5, s5) = with_name(old, s4, "power-domain-names"@)->0;
    lemma_strings_grow(s4, s5, o4 as int);
    lemma_strings_grow(s3, s4, o3 as int);
    lemma_strings_grow(s4, s5, o3 as int);
    lemma_strings_grow(s2, s3, o2 as int);
    lemma_strings_grow(s3, s4, o2 as int);
    lemma_strings_grow(s4, s5, o2 as int);
    lemma_strings_grow(s1, s2, o1 as int);
    lemma_strings_grow(s2, s3, o1 as int);
    lemma_strings_grow(s3, s4, o1 as int);
    lemma_strings_grow(s4, s5, o1 as int);
}

/// The kernel that is started with a patched tree reads in it what the old tree says, changed only
/// as the resident processors need it: each processor waits at its place in the table, the
/// firmware's power service and the idle states are not to be used, and nothing else is different.
#[verifier::spinoff_prover]
#[verifier::rlimit(50)]
pub proof fn law_kernel_finds_resident_processors(
    t: Tree,
    header: Header,
    reserve: Seq<u8>,
    table: SpinTable,
    limit: int,
)
    requires
        t.structure.len() + 3 <= usize::MAX,
        reserve.len() > 0,
        patched(t, header, Ok(reserve), table, limit) is Some,
    ensures
        ({
            let tree = patched(t, header, Ok(reserve), table, limit)->0;
            tree_items(tree) == Some(
                resident_from(t, providers_told(t)->0, table, 0, Seq::empty()),
            )
        }),
{
    let (names, strings) = patch_names(t.strings)->0;
    let providers = providers_told(t)->0;
    let structure = patched_from(t, names, providers, table, 0, Seq::empty())->0;
    lemma_names(t.strings);
    law_built_trees_are_read_back(header, reserve, structure, strings);
    lemma_resident(t, names, providers, table, 0, Seq::empty(), strings);
}

} // verus!
