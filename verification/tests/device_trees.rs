use pocketboot::devicetree::{first_fdt_u32, parse_fdt_strings};
use pocketboot::errors::ErrorKind;
use pocketboot::kexec::fdt::{
    build_dtb, ensure_string, graft_memory, is_memory_node_name, patch_chosen, read_token,
    string_at, write_begin_node, write_prop, FdtError, Header, Token,
};

const FDT_END_NODE: u32 = 2;
const FDT_END: u32 = 9;

#[derive(Debug, PartialEq, Eq)]
enum ChosenEvent {
    Prop(String, Vec<u8>),
    Child(String),
}

#[derive(Debug, PartialEq, Eq)]
struct TestNode {
    name: String,
    props: Vec<(String, Vec<u8>)>,
}

#[test]
fn patched_chosen_properties_are_before_child_nodes() {
    let dtb = test_dtb_with_chosen_child();
    let patched = patch_chosen(&dtb, "console=tty0 root=/dev/ram0", None).unwrap();
    let events = chosen_events(&patched).unwrap();

    let bootargs = events
        .iter()
        .position(|event| matches!(event, ChosenEvent::Prop(name, _) if name == "bootargs"))
        .expect("patched bootargs property missing");
    let child = events
        .iter()
        .position(|event| matches!(event, ChosenEvent::Child(name) if name == "framebuffer@0"))
        .expect("chosen child node missing");

    assert!(bootargs < child, "bootargs must precede /chosen children");
    assert_eq!(
        events[bootargs],
        ChosenEvent::Prop(
            "bootargs".to_string(),
            b"console=tty0 root=/dev/ram0\0".to_vec()
        )
    );
    assert_eq!(
        events
            .iter()
            .filter(|event| matches!(event, ChosenEvent::Prop(name, _) if name == "bootargs"))
            .count(),
        1,
        "old bootargs property should be replaced, not duplicated"
    );
}

#[test]
fn chosen_node_is_made_where_there_is_none() {
    let dtb = test_dtb(|structure, _strings| write_empty_node(structure, b"cpus"));
    let patched = patch_chosen(&dtb, "", Some((0x1000, 0x2000))).unwrap();
    assert_eq!(
        chosen_events(&patched).unwrap(),
        [
            ChosenEvent::Prop("linux,initrd-start".to_string(), 0x1000u64.to_be_bytes().to_vec()),
            ChosenEvent::Prop("linux,initrd-end".to_string(), 0x2000u64.to_be_bytes().to_vec()),
            ChosenEvent::Prop("linux,booted-from-kexec".to_string(), Vec::new()),
        ]
    );
}

#[test]
fn graft_memory_replaces_supplied_memory_nodes() {
    let old_reg = b"old memory";
    let live_reg = b"live memory";
    let target = test_dtb(|structure, strings| {
        write_memory_node(structure, strings, b"memory@deadbeef", old_reg);
        write_empty_node(structure, b"cpus");
    });
    let live = test_dtb(|structure, strings| {
        write_memory_node(structure, strings, b"memory@80000000", live_reg);
    });

    let grafted = graft_memory(&target, &live).unwrap();
    let memory = memory_nodes(&grafted).unwrap();

    assert_eq!(memory.len(), 1);
    assert_eq!(memory[0].name, "memory@80000000");
    assert_eq!(prop(&memory[0], "reg"), Some(live_reg.as_slice()));
    assert_ne!(prop(&memory[0], "reg"), Some(old_reg.as_slice()));
}

#[test]
fn graft_memory_inserts_when_supplied_dtb_has_no_memory() {
    let live_reg = b"live memory";
    let target = test_dtb(|structure, _strings| {
        write_empty_node(structure, b"cpus");
    });
    let live = test_dtb(|structure, strings| {
        write_memory_node(structure, strings, b"memory", live_reg);
    });

    let grafted = graft_memory(&target, &live).unwrap();
    let memory = memory_nodes(&grafted).unwrap();

    assert_eq!(memory.len(), 1);
    assert_eq!(memory[0].name, "memory");
    assert_eq!(prop(&memory[0], "reg"), Some(live_reg.as_slice()));
}

#[test]
fn graft_memory_preserves_chosen_patching() {
    let live_reg = b"live memory";
    let target = test_dtb_with_chosen_child();
    let live = test_dtb(|structure, strings| {
        write_memory_node(structure, strings, b"memory@80000000", live_reg);
    });

    let grafted = graft_memory(&target, &live).unwrap();
    let patched = patch_chosen(&grafted, "console=tty0", None).unwrap();
    let memory = memory_nodes(&patched).unwrap();
    let chosen = chosen_events(&patched).unwrap();

    assert_eq!(memory.len(), 1);
    assert_eq!(prop(&memory[0], "reg"), Some(live_reg.as_slice()));
    assert!(chosen.iter().any(|event| matches!(
        event,
        ChosenEvent::Prop(name, value)
            if name == "bootargs" && value == b"console=tty0\0"
    )));
}

#[test]
fn graft_memory_fails_when_live_dtb_has_no_memory() {
    let target = test_dtb(|structure, strings| {
        write_memory_node(structure, strings, b"memory@deadbeef", b"old memory");
    });
    let live = test_dtb(|structure, _strings| {
        write_empty_node(structure, b"cpus");
    });

    let err = graft_memory(&target, &live).unwrap_err();

    assert_eq!(err.kind(), ErrorKind::InvalidData);
    assert!(
        err.message().contains("live DTB has no root memory nodes"),
        "unexpected error: {}",
        err.message()
    );
}

#[test]
fn unsound_trees_are_refused() {
    let sound = test_dtb(|structure, _strings| write_empty_node(structure, b"cpus"));
    assert_eq!(
        patch_chosen(&sound[..39], "", None).unwrap_err(),
        FdtError::SmallerThanHeader
    );
    let mut magic = sound.clone();
    magic[0] = 0;
    assert_eq!(
        patch_chosen(&magic, "", None).unwrap_err(),
        FdtError::BadMagic
    );
    assert_eq!(
        patch_chosen(&sound[..sound.len() - 1], "", None).unwrap_err(),
        FdtError::TotalSize
    );
    let open = tree_of(&[0, 0, 0, 1, 0, 0, 0, 0, 0, 0, 0, 9], &[]);
    assert_eq!(
        patch_chosen(&open, "", None).unwrap_err(),
        FdtError::Unclosed
    );
    let unknown = tree_of(&[0, 0, 0, 7], &[]);
    let err = patch_chosen(&unknown, "", None).unwrap_err();
    assert_eq!(err, FdtError::UnknownToken(7));
    assert_eq!(err.message(), "DTB has unknown structure token 7");
}

#[test]
fn parses_fdt_strings() {
    assert_eq!(
        parse_fdt_strings(b"oneplus,fajita\0qcom,sdm845\0"),
        vec!["oneplus,fajita", "qcom,sdm845"]
    );
}

#[test]
fn properties_are_read_as_far_as_they_are_text() {
    assert_eq!(parse_fdt_strings(b"\0a\0\xff\0b"), ["a", "b"]);
    assert_eq!(first_fdt_u32(&[0, 0, 8, 1, 9]), Some(0x801));
    assert_eq!(first_fdt_u32(&[0, 0, 8]), None);
}

fn test_dtb_with_chosen_child() -> Vec<u8> {
    test_dtb(|structure, strings| {
        let bootargs = ensure_string(strings, b"bootargs").unwrap();
        let compatible = ensure_string(strings, b"compatible").unwrap();

        write_begin_node(structure, b"chosen");
        write_prop(structure, bootargs, b"old-console=ttyS0\0");
        write_begin_node(structure, b"framebuffer@0");
        write_prop(structure, compatible, b"simple-framebuffer\0");
        write_be32(structure, FDT_END_NODE);
        write_be32(structure, FDT_END_NODE);
    })
}

fn test_dtb(build_root: impl FnOnce(&mut Vec<u8>, &mut Vec<u8>)) -> Vec<u8> {
    let mut strings = Vec::new();
    let mut structure = Vec::new();

    write_begin_node(&mut structure, b"");
    build_root(&mut structure, &mut strings);
    write_be32(&mut structure, FDT_END_NODE);
    write_be32(&mut structure, FDT_END);

    tree_of(&structure, &strings)
}

fn tree_of(structure: &[u8], strings: &[u8]) -> Vec<u8> {
    build_dtb(
        &Header {
            totalsize: 0,
            off_dt_struct: 0,
            off_dt_strings: 0,
            off_mem_rsvmap: 0,
            version: 17,
            last_comp_version: 16,
            boot_cpuid_phys: 0,
            size_dt_strings: 0,
            size_dt_struct: 0,
        },
        &[0; 16],
        structure,
        strings,
    )
    .unwrap()
}

fn write_be32(output: &mut Vec<u8>, value: u32) {
    output.extend_from_slice(&value.to_be_bytes());
}

fn write_memory_node(structure: &mut Vec<u8>, strings: &mut Vec<u8>, name: &[u8], reg: &[u8]) {
    let device_type = ensure_string(strings, b"device_type").unwrap();
    let reg_name = ensure_string(strings, b"reg").unwrap();

    write_begin_node(structure, name);
    write_prop(structure, device_type, b"memory\0");
    write_prop(structure, reg_name, reg);
    write_be32(structure, FDT_END_NODE);
}

fn write_empty_node(structure: &mut Vec<u8>, name: &[u8]) {
    write_begin_node(structure, name);
    write_be32(structure, FDT_END_NODE);
}

fn prop<'a>(node: &'a TestNode, name: &str) -> Option<&'a [u8]> {
    node.props
        .iter()
        .find(|(prop_name, _)| prop_name == name)
        .map(|(_, value)| value.as_slice())
}

fn prop_name(strings: &[u8], nameoff: u32) -> String {
    string_at(strings, nameoff)
        .map(String::from_utf8_lossy)
        .map(|name| name.into_owned())
        .unwrap_or_else(|| format!("<invalid:{nameoff}>"))
}

fn memory_nodes(dtb: &[u8]) -> Result<Vec<TestNode>, FdtError> {
    let header = Header::parse(dtb)?;
    let struct_block = &dtb[header.off_dt_struct..header.off_dt_struct + header.size_dt_struct];
    let strings = &dtb[header.off_dt_strings..header.off_dt_strings + header.size_dt_strings];
    let mut cursor = 0usize;
    let mut stack: Vec<Vec<u8>> = Vec::new();
    let mut current_memory = None;
    let mut memory = Vec::new();

    loop {
        match read_token(struct_block, cursor)? {
            Token::Begin { name_end, next } => {
                let name = &struct_block[cursor + 4..name_end];
                if stack.len() == 1 && is_memory_node_name(name) {
                    current_memory = Some(TestNode {
                        name: String::from_utf8_lossy(name).into_owned(),
                        props: Vec::new(),
                    });
                }
                stack.push(name.to_vec());
                cursor = next;
            }
            Token::End => {
                if stack.len() == 2 && is_memory_node_name(&stack[1]) {
                    memory.push(current_memory.take().unwrap());
                }
                stack.pop();
                cursor += 4;
            }
            Token::Prop {
                nameoff,
                value_start,
                value_end,
                next,
                ..
            } => {
                if stack.len() == 2 && is_memory_node_name(&stack[1]) {
                    current_memory.as_mut().unwrap().props.push((
                        prop_name(strings, nameoff),
                        struct_block[value_start..value_end].to_vec(),
                    ));
                }
                cursor = next;
            }
            Token::Nop => cursor += 4,
            Token::Finish => return Ok(memory),
        }
    }
}

fn is_chosen(stack: &[Vec<u8>]) -> bool {
    stack.len() == 2 && stack[0].is_empty() && stack[1] == b"chosen"
}

fn chosen_events(dtb: &[u8]) -> Result<Vec<ChosenEvent>, FdtError> {
    let header = Header::parse(dtb)?;
    let struct_block = &dtb[header.off_dt_struct..header.off_dt_struct + header.size_dt_struct];
    let strings = &dtb[header.off_dt_strings..header.off_dt_strings + header.size_dt_strings];
    let mut cursor = 0usize;
    let mut stack: Vec<Vec<u8>> = Vec::new();
    let mut events = Vec::new();

    loop {
        match read_token(struct_block, cursor)? {
            Token::Begin { name_end, next } => {
                let name = &struct_block[cursor + 4..name_end];
                if is_chosen(&stack) {
                    events.push(ChosenEvent::Child(
                        String::from_utf8_lossy(name).into_owned(),
                    ));
                }
                stack.push(name.to_vec());
                cursor = next;
            }
            Token::End => {
                stack.pop();
                cursor += 4;
            }
            Token::Prop {
                nameoff,
                value_start,
                value_end,
                next,
                ..
            } => {
                if is_chosen(&stack) {
                    events.push(ChosenEvent::Prop(
                        prop_name(strings, nameoff),
                        struct_block[value_start..value_end].to_vec(),
                    ));
                }
                cursor = next;
            }
            Token::Nop => cursor += 4,
            Token::Finish => return Ok(events),
        }
    }
}
