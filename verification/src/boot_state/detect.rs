//! How the state of the boot is put together from what the system tells.
use vstd::prelude::*;
use vstd::string::*;

use crate::boot_state::{
    find_qcom_pon_regmap, is_state_of, is_target_of, law_register_lines_are_read, listed, qcom_boot_state, qcom_target_for_root,
    read_qcom_pon_register, register_count, registers_to_read, regmap_from, state_of_failure,
    state_of_unknown_root, state_without_root, tells_only, value_told, BootState,
    QcomPonGeneration, QcomPonRaw, QcomPonRegmap, QcomPonTarget, RegmapEntry,
    QCOM_PON_SOFT_RB_SPARE,
};
use crate::devicetree::{parse_fdt_strings, property_texts};
use crate::bytes::utf8;
use crate::text::{cat, hex, owned, padded, texts};

verus! {

/// How far the way to the register maps has come: what was asked for last.
#[derive(Clone, Copy, Debug, PartialEq, Eq, Structural)]
pub enum DebugfsStage {
    Start,
    Create,
    Look,
    Mount,
    LookAgain,
}

/// What came of the last thing that was asked for.
#[derive(Debug)]
pub enum DebugfsAnswer {
    Did,
    /// Whether the directory is there.
    There(bool),
    Failed { errno: Option<i32>, text: String },
}

/// What is to be done next.
#[derive(Debug)]
pub enum DebugfsAction {
    /// Make `/sys/kernel/debug`.
    CreateDir,
    /// See whether `/sys/kernel/debug/regmap` is there.
    Look,
    /// Mount the file system for debugging at `/sys/kernel/debug`.
    Mount,
    /// The register maps are there.
    Ready,
    /// The register maps are not to be had.
    Failed(String),
}

/// Whether `action` is what follows the answer at `stage`. A file system that is mounted already,
/// as `EBUSY` tells, is as good as one that was mounted now.
pub open spec fn debugfs_follows(
    stage: DebugfsStage,
    answer: DebugfsAnswer,
    next: DebugfsStage,
    action: DebugfsAction,
) -> bool {
    match stage {
        DebugfsStage::Start => next == DebugfsStage::Create && action is CreateDir,
        DebugfsStage::Create => match answer {
            DebugfsAnswer::Failed { errno, text } => action matches DebugfsAction::Failed(told)
                && told@ == text@,
            _ => next == DebugfsStage::Look && action is Look,
        },
        DebugfsStage::Look => match answer {
            DebugfsAnswer::There(true) => action is Ready,
            _ => next == DebugfsStage::Mount && action is Mount,
        },
        DebugfsStage::Mount => match answer {
            DebugfsAnswer::Failed { errno, text } => if errno == Some(16i32) {
                next == DebugfsStage::LookAgain && action is Look
            } else {
                action matches DebugfsAction::Failed(told) && told@ == text@
            },
            _ => next == DebugfsStage::LookAgain && action is Look,
        },
        DebugfsStage::LookAgain => match answer {
            DebugfsAnswer::There(true) => action is Ready,
            _ => action matches DebugfsAction::Failed(told) && told@
                == "/sys/kernel/debug/regmap not found after mounting debugfs"@,
        },
    }
}

/// What follows the answer at a stage on the way to the register maps.
pub fn ensure_debugfs(stage: DebugfsStage, answer: DebugfsAnswer) -> (r: (
    DebugfsStage,
    DebugfsAction,
))
    ensures
        debugfs_follows(stage, answer, r.0, r.1),
{
    match stage {
        DebugfsStage::Start => (DebugfsStage::Create, DebugfsAction::CreateDir),
        DebugfsStage::Create => match answer {
            DebugfsAnswer::Failed { text, .. } => (stage, DebugfsAction::Failed(text)),
            _ => (DebugfsStage::Look, DebugfsAction::Look),
        },
        DebugfsStage::Look => match answer {
            DebugfsAnswer::There(true) => (stage, DebugfsAction::Ready),
            _ => (DebugfsStage::Mount, DebugfsAction::Mount),
        },
        DebugfsStage::Mount => match answer {
            DebugfsAnswer::Failed { errno, text } => {
                if let Some(n) = errno {
                    if n == 16 {
                        return (DebugfsStage::LookAgain, DebugfsAction::Look);
                    }
                }
                (stage, DebugfsAction::Failed(text))
            },
            _ => (DebugfsStage::LookAgain, DebugfsAction::Look),
        },
        DebugfsStage::LookAgain => match answer {
            DebugfsAnswer::There(true) => (stage, DebugfsAction::Ready),
            _ => (
                stage,
                DebugfsAction::Failed(
                    owned("/sys/kernel/debug/regmap not found after mounting debugfs"),
                ),
            ),
        },
    }
}

/// The register map of the target's power controller, by what came of the way to the register
/// maps and of the reading of their directory. Each tells in words why it failed.
pub fn find_regmap(
    target: &QcomPonTarget,
    debugfs: Result<(), String>,
    entries: Result<Vec<Result<RegmapEntry, String>>, String>,
) -> (r: Result<QcomPonRegmap, String>)
    ensures
        match debugfs {
            Err(e) => r matches Err(told) && told@
                == "debugfs-unavailable path=/sys/kernel/debug error="@ + e@,
            Ok(()) => match entries {
                Err(e) => r matches Err(told) && told@
                    == "read-regmap-debugfs path=/sys/kernel/debug/regmap error="@ + e@,
                Ok(entries) => regmap_from(entries@, *target, 0, Seq::empty()) == (match r {
                    Ok(regmap) => Ok(regmap@),
                    Err(told) => Err(told@),
                }),
            },
        },
{
    match debugfs {
        Err(e) => Err(cat("debugfs-unavailable path=/sys/kernel/debug error=", e.as_str())),
        Ok(()) => match entries {
            Err(e) => Err(
                cat("read-regmap-debugfs path=/sys/kernel/debug/regmap error=", e.as_str()),
            ),
            Ok(entries) => find_qcom_pon_regmap(target, &entries),
        },
    }
}

/// The values of the registers of a controller at `base`, by the lines that were read for them.
pub open spec fn values_told(
    generation: QcomPonGeneration,
    base: u32,
    lines: Seq<Result<Vec<u8>, String>>,
) -> Result<QcomPonRaw, Seq<char>> {
    let last = register_count(generation) - 1;
    match value_told("pon_reason1"@, (base + generation.reason1()) as u64, lines[0]) {
        Err(e) => Err(e),
        Ok(pon_reason1) => match value_told(
            "warm_reset_reason1"@,
            (base + generation.warm1()) as u64,
            lines[1],
        ) {
            Err(e) => Err(e),
            Ok(warm_reset_reason1) => match second_reason(generation, base, lines) {
                Err(e) => Err(e),
                Ok(warm_reset_reason2) => match value_told(
                    "soft_rb_spare"@,
                    (base + QCOM_PON_SOFT_RB_SPARE) as u64,
                    lines[last],
                ) {
                    Err(e) => Err(e),
                    Ok(soft_rb_spare) => Ok(
                        QcomPonRaw {
                            pon_reason1,
                            warm_reset_reason1,
                            warm_reset_reason2,
                            soft_rb_spare,
                        },
                    ),
                },
            },
        },
    }
}

/// The second reason of a warm reset, where the generation has one.
pub open spec fn second_reason(
    generation: QcomPonGeneration,
    base: u32,
    lines: Seq<Result<Vec<u8>, String>>,
) -> Result<Option<u8>, Seq<char>> {
    match generation.warm2() {
        None => Ok(None),
        Some(offset) => match value_told(
            "warm_reset_reason2"@,
            (base + offset) as u64,
            lines[2],
        ) {
            Err(e) => Err(e),
            Ok(value) => Ok(Some(value)),
        },
    }
}

fn read_registers(
    generation: QcomPonGeneration,
    base: u32,
    lines: &[Result<Vec<u8>, String>],
) -> (r: Result<QcomPonRaw, String>)
    requires
        lines@.len() == register_count(generation),
    ensures
        values_told(generation, base, lines@) == (match r {
            Ok(raw) => Ok(raw),
            Err(e) => Err(e@),
        }),
{
    let registers = registers_to_read(generation, base);
    let pon_reason1 = read_qcom_pon_register(&registers[0], &lines[0])?;
    let warm_reset_reason1 = read_qcom_pon_register(&registers[1], &lines[1])?;
    let warm_reset_reason2 = if registers.len() == 4 {
        Some(read_qcom_pon_register(&registers[2], &lines[2])?)
    } else {
        None
    };
    let last = registers.len() - 1;
    let soft_rb_spare = read_qcom_pon_register(&registers[last], &lines[last])?;
    Ok(QcomPonRaw { pon_reason1, warm_reset_reason1, warm_reset_reason2, soft_rb_spare })
}

/// The state of a known device, by its register map and by the lines that were read for its
/// registers, one for each of them in order. Each tells in words why it failed.
pub fn detect_qcom_pon(
    target: &QcomPonTarget,
    root_compatibles: &[String],
    regmap: Result<QcomPonRegmap, String>,
    lines: Result<Vec<Result<Vec<u8>, String>>, String>,
) -> (r: Result<BootState, String>)
    requires
        lines matches Ok(list) ==> list@.len() == register_count(target.generation),
    ensures
        match regmap {
            Err(e) => r matches Err(told) && told@ == e@,
            Ok(map) => match lines {
                Err(e) => r matches Err(told) && told@ == "open-regmap-registers spmi="@
                    + map.spmi_device@ + " error="@ + e@,
                Ok(list) => match values_told(target.generation, map.pon_base, list@) {
                    Err(e) => r matches Err(told) && told@ == e,
                    Ok(raw) => r matches Ok(state) && is_state_of(
                        state,
                        *target,
                        texts(root_compatibles@),
                        map@,
                        raw,
                    ),
                },
            },
        },
{
    let map = regmap?;
    let list = match lines {
        Err(e) => {
            let mut s = cat("open-regmap-registers spmi=", map.spmi_device.as_str());
            s.append(" error=");
            s.append(e.as_str());
            return Err(s);
        },
        Ok(list) => list,
    };
    let raw = read_registers(target.generation, map.pon_base, &list)?;
    Ok(qcom_boot_state(target, root_compatibles, &map, raw))
}

/// What the names of a device lead to: a known device with them, or the state that is told
/// without looking any further.
#[derive(Debug)]
pub enum Root {
    Known(QcomPonTarget, Vec<String>),
    Told(BootState),
}

/// What the names of a device lead to, by the property that holds them, or by why it could not be
/// read.
pub fn detect_root(property: Result<Vec<u8>, String>) -> (r: Root)
    ensures
        match property {
            Err(e) => r matches Root::Told(state) && tells_only(
                state,
                "devicetree"@,
                "root-compatible-unavailable path=/sys/firmware/devicetree/base/compatible error="@
                    + e@,
            ),
            Ok(bytes) => match r {
                Root::Told(state) => is_target_of(None, property_texts(bytes@)) && tells_only(
                    state,
                    "devicetree"@,
                    "unsupported-root-compatible root="@ + listed(property_texts(bytes@)),
                ),
                Root::Known(target, names) => is_target_of(Some(target), texts(names@)) && texts(
                    names@,
                ) == property_texts(bytes@),
            },
        },
{
    let names = match property {
        Err(e) => {
            return Root::Told(state_without_root(e.as_str()));
        },
        Ok(bytes) => parse_fdt_strings(&bytes),
    };
    match qcom_target_for_root(&names) {
        None => Root::Told(state_of_unknown_root(&names)),
        Some(target) => Root::Known(target, names),
    }
}

/// The state that is told of a known device, by what came of the reading of its registers.
pub fn detect(
    target: &QcomPonTarget,
    root_compatibles: &[String],
    read: Result<BootState, String>,
) -> (state: BootState)
    ensures
        match read {
            Ok(told) => state == told,
            Err(e) => tells_only(
                state,
                "qcom-pon"@,
                "root="@ + listed(texts(root_compatibles@)) + " soc="@ + target.soc_compatible@
                    + " pmic="@ + target.pmic_compatible@ + " pon="@ + target.pon_compatible@
                    + " error="@ + e@,
            ),
        },
{
    match read {
        Ok(told) => told,
        Err(e) => state_of_failure(target, root_compatibles, e.as_str()),
    }
}

/// The line of a register.
pub open spec fn register_line(reg: int, value: u8) -> Seq<u8> {
    utf8(padded(hex(reg), 4, '0') + ": "@ + padded(hex(value as int), 2, '0') + seq!['\n'])
}

proof fn lemma_value_told(name: Seq<char>, reg: u64, value: u8, line: Result<Vec<u8>, String>)
    requires
        reg <= 0xffff,
        line matches Ok(bytes) && bytes@ == register_line(reg as int, value),
    ensures
        value_told(name, reg, line) == Ok::<u8, Seq<char>>(value),
{
    law_register_lines_are_read(reg as u16, value, seq!['\n']);
}

/// The registers are read where the generations of the controller have them, from its base on: the
/// reasons for the start, those for a warm reset, and the spare register with the reboot mode.
pub proof fn law_registers_are_read_where_they_stand(
    base: u32,
    lines: Seq<Result<Vec<u8>, String>>,
    reason: u8,
    warm: u8,
    warm_more: u8,
    spare: u8,
)
    requires
        base <= 0xff00,
    ensures
        lines.len() == 4 && lines[0] is Ok && lines[0]->Ok_0@ == register_line(base + 0x08, reason)
            && lines[1] is Ok && lines[1]->Ok_0@ == register_line(base + 0x0a, warm) && lines[2] is Ok
            && lines[2]->Ok_0@ == register_line(base + 0x0b, warm_more) && lines[3] is Ok
            && lines[3]->Ok_0@ == register_line(base + 0x8f, spare) ==> values_told(
            QcomPonGeneration::Gen1,
            base,
            lines,
        ) == Ok::<QcomPonRaw, Seq<char>>(
            QcomPonRaw {
                pon_reason1: reason,
                warm_reset_reason1: warm,
                warm_reset_reason2: Some(warm_more),
                soft_rb_spare: spare,
            },
        ),
        lines.len() == 3 && lines[0] is Ok && lines[0]->Ok_0@ == register_line(base + 0xc0, reason)
            && lines[1] is Ok && lines[1]->Ok_0@ == register_line(base + 0xc2, warm) && lines[2] is Ok
            && lines[2]->Ok_0@ == register_line(base + 0x8f, spare) ==> values_told(
            QcomPonGeneration::Gen2,
            base,
            lines,
        ) == Ok::<QcomPonRaw, Seq<char>>(
            QcomPonRaw {
                pon_reason1: reason,
                warm_reset_reason1: warm,
                warm_reset_reason2: None,
                soft_rb_spare: spare,
            },
        ),
{
    if lines.len() == 4 && lines[0] is Ok && lines[0]->Ok_0@ == register_line(base + 0x08, reason)
        && lines[1] is Ok && lines[1]->Ok_0@ == register_line(base + 0x0a, warm) && lines[2] is Ok
        && lines[2]->Ok_0@ == register_line(base + 0x0b, warm_more) && lines[3] is Ok
        && lines[3]->Ok_0@ == register_line(base + 0x8f, spare) {
        lemma_value_told("pon_reason1"@, (base + 0x08) as u64, reason, lines[0]);
        lemma_value_told("warm_reset_reason1"@, (base + 0x0a) as u64, warm, lines[1]);
        lemma_value_told("warm_reset_reason2"@, (base + 0x0b) as u64, warm_more, lines[2]);
        lemma_value_told("soft_rb_spare"@, (base + 0x8f) as u64, spare, lines[3]);
    }
    if lines.len() == 3 && lines[0] is Ok && lines[0]->Ok_0@ == register_line(base + 0xc0, reason)
        && lines[1] is Ok && lines[1]->Ok_0@ == register_line(base + 0xc2, warm) && lines[2] is Ok
        && lines[2]->Ok_0@ == register_line(base + 0x8f, spare) {
        lemma_value_told("pon_reason1"@, (base + 0xc0) as u64, reason, lines[0]);
        lemma_value_told("warm_reset_reason1"@, (base + 0xc2) as u64, warm, lines[1]);
        lemma_value_told("soft_rb_spare"@, (base + 0x8f) as u64, spare, lines[2]);
    }
}

/// The way to the register maps is made where it is not there: the directory is made, and the file
/// system is mounted where the maps are not found; one that is busy is looked at again. It ends well
/// where the maps are there, and only there.
pub proof fn law_register_maps_are_made_reachable(
    stage: DebugfsStage,
    answer: DebugfsAnswer,
    next: DebugfsStage,
    action: DebugfsAction,
)
    requires
        debugfs_follows(stage, answer, next, action),
    ensures
        action is Ready ==> answer == DebugfsAnswer::There(true),
        answer == DebugfsAnswer::There(true) && (stage == DebugfsStage::Look || stage
            == DebugfsStage::LookAgain) ==> action is Ready,
        stage == DebugfsStage::Start ==> action is CreateDir && next == DebugfsStage::Create,
        stage == DebugfsStage::Look && answer == DebugfsAnswer::There(false) ==> action is Mount
            && next == DebugfsStage::Mount,
        stage == DebugfsStage::Mount && !(answer is Failed) ==> action is Look && next
            == DebugfsStage::LookAgain,
        stage == DebugfsStage::LookAgain && answer == DebugfsAnswer::There(false) ==> action is Failed,
{
}

} // verus!
