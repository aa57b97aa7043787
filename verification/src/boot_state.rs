//! Why the device was started, as the power controller of a Qualcomm PMIC tells it.
use vstd::prelude::*;
use vstd::string::*;
use vstd::utf8::*;

use crate::devicetree::{
    first_cell, first_fdt_u32, law_properties_are_read, parse_fdt_strings, property_texts,
};
use crate::text::{
    any_text, ascii_text, cat, chars, decimal, decode, decode_lossy, digit, ended, from_chars, hex,
    hex_padded, join_texts, joined, law_hex_digits_are_plain, law_two_digits_are_read_back, owned,
    padded, parse_number, parse_unsigned, push_decimal, push_hex, quoted, quoted_text, same_text,
    text_of_ascii, texts, trim, trim_end, trim_end_chars, trimmed, utf8_error_text, utf8_fault,
    utf8_lossy,
};
use crate::bytes::{has_prefix, utf8};
use crate::errors::ErrorKind;

pub mod detect;

verus! {

/// The register with the reboot mode, from the base of the controller.
pub const QCOM_PON_SOFT_RB_SPARE: u32 = 0x8f;

pub const QCOM_PON_REASON_HARD_RESET: u8 = 0x01;

pub const QCOM_PON_REASON_SMPL: u8 = 0x02;

pub const QCOM_PON_REASON_RTC: u8 = 0x04;

pub const QCOM_PON_REASON_DC_CHARGER: u8 = 0x08;

pub const QCOM_PON_REASON_USB_CHARGER: u8 = 0x10;

pub const QCOM_PON_REASON_PON1: u8 = 0x20;

pub const QCOM_PON_REASON_CABLE: u8 = 0x40;

pub const QCOM_PON_REASON_KPD: u8 = 0x80;

/// The reasons that name a charger.
pub const QCOM_PON_REASON_CHARGER_MASK: u8 = 0x78;

/// The length of a line of a register map.
pub const QCOM_SPMI_REGMAP_LINE_LEN: u64 = 9;

/// What the reboot was to lead to.
#[derive(Clone, Copy, Debug, PartialEq, Eq, Structural)]
pub enum RebootMode {
    Recovery,
    Bootloader,
    Unknown(u8),
}

/// Where the state was read.
#[derive(Debug, PartialEq, Eq)]
pub struct BootStateSource {
    pub backend: &'static str,
    pub detail: String,
}

/// Why the device was started.
#[derive(Debug, PartialEq, Eq)]
pub struct BootState {
    pub reboot_mode: Option<RebootMode>,
    pub hard_reset: Option<bool>,
    pub power_key: Option<bool>,
    pub charger: Option<bool>,
    pub warm_reset: Option<bool>,
    pub source: Option<BootStateSource>,
}

/// The two generations of the controller.
#[derive(Clone, Copy, Debug, PartialEq, Eq, Structural)]
pub enum QcomPonGeneration {
    Gen1,
    Gen2,
}

impl QcomPonGeneration {
    /// The name of the generation.
    pub open spec fn name(self) -> Seq<char> {
        match self {
            QcomPonGeneration::Gen1 => "gen1"@,
            QcomPonGeneration::Gen2 => "gen2"@,
        }
    }

    /// The name of the generation.
    pub fn label(self) -> (s: &'static str)
        ensures
            s@ == self.name(),
    {
        match self {
            QcomPonGeneration::Gen1 => "gen1",
            QcomPonGeneration::Gen2 => "gen2",
        }
    }

    /// The register with the reasons for the start.
    pub open spec fn reason1(self) -> u32 {
        match self {
            QcomPonGeneration::Gen1 => 0x08,
            QcomPonGeneration::Gen2 => 0xc0,
        }
    }

    /// The register with the reasons for the start.
    pub fn pon_reason1_offset(self) -> (r: u32)
        ensures
            r == self.reason1(),
    {
        match self {
            QcomPonGeneration::Gen1 => 0x08,
            QcomPonGeneration::Gen2 => 0xc0,
        }
    }

    /// The register with the reasons for a warm reset.
    pub open spec fn warm1(self) -> u32 {
        match self {
            QcomPonGeneration::Gen1 => 0x0a,
            QcomPonGeneration::Gen2 => 0xc2,
        }
    }

    /// The register with the reasons for a warm reset.
    pub fn warm_reset_reason1_offset(self) -> (r: u32)
        ensures
            r == self.warm1(),
    {
        match self {
            QcomPonGeneration::Gen1 => 0x0a,
            QcomPonGeneration::Gen2 => 0xc2,
        }
    }

    /// The register with further reasons for a warm reset, where there is one.
    pub open spec fn warm2(self) -> Option<u32> {
        match self {
            QcomPonGeneration::Gen1 => Some(0x0bu32),
            QcomPonGeneration::Gen2 => None,
        }
    }

    /// The register with further reasons for a warm reset, where there is one.
    pub fn warm_reset_reason2_offset(self) -> (r: Option<u32>)
        ensures
            r == self.warm2(),
    {
        match self {
            QcomPonGeneration::Gen1 => Some(0x0bu32),
            QcomPonGeneration::Gen2 => None,
        }
    }
}

/// A chip, its power controller and the generation of it.
#[derive(Clone, Copy, Debug, PartialEq, Eq)]
pub struct QcomPonTarget {
    pub soc_compatible: &'static str,
    pub pmic_compatible: &'static str,
    pub pon_compatible: &'static str,
    pub generation: QcomPonGeneration,
}

/// Whether a target is that of the MSM8916.
pub open spec fn is_msm8916(t: QcomPonTarget) -> bool {
    &&& t.soc_compatible@ == "qcom,msm8916"@
    &&& t.pmic_compatible@ == "qcom,pm8916"@
    &&& t.pon_compatible@ == "qcom,pm8916-pon"@
    &&& t.generation == QcomPonGeneration::Gen1
}

/// Whether a target is that of the SDM845.
pub open spec fn is_sdm845(t: QcomPonTarget) -> bool {
    &&& t.soc_compatible@ == "qcom,sdm845"@
    &&& t.pmic_compatible@ == "qcom,pm8998"@
    &&& t.pon_compatible@ == "qcom,pm8998-pon"@
    &&& t.generation == QcomPonGeneration::Gen2
}

/// Whether a list of names has `compatible`.
pub fn has_compatible(compatibles: &[String], compatible: &str) -> (r: bool)
    ensures
        r == texts(compatibles@).contains(compatible@),
{
    any_text(compatibles, compatible)
}

/// Whether `target` is the one that the names of the whole device tell.
pub open spec fn is_target_of(target: Option<QcomPonTarget>, names: Seq<Seq<char>>) -> bool {
    match target {
        Some(t) => if names.contains("qcom,msm8916"@) {
            is_msm8916(t)
        } else {
            names.contains("qcom,sdm845"@) && is_sdm845(t)
        },
        None => !names.contains("qcom,msm8916"@) && !names.contains("qcom,sdm845"@),
    }
}

/// The target that the names of the whole device tell.
pub fn qcom_target_for_root(root_compatibles: &[String]) -> (r: Option<QcomPonTarget>)
    ensures
        is_target_of(r, texts(root_compatibles@)),
{
    if has_compatible(root_compatibles, "qcom,msm8916") {
        Some(
            QcomPonTarget {
                soc_compatible: "qcom,msm8916",
                pmic_compatible: "qcom,pm8916",
                pon_compatible: "qcom,pm8916-pon",
                generation: QcomPonGeneration::Gen1,
            },
        )
    } else if has_compatible(root_compatibles, "qcom,sdm845") {
        Some(
            QcomPonTarget {
                soc_compatible: "qcom,sdm845",
                pmic_compatible: "qcom,pm8998",
                pon_compatible: "qcom,pm8998-pon",
                generation: QcomPonGeneration::Gen2,
            },
        )
    } else {
        None
    }
}

/// The number that the spare register holds.
pub open spec fn mode_number(spare: u8, generation: QcomPonGeneration) -> int {
    match generation {
        QcomPonGeneration::Gen1 => spare as int / 4,
        QcomPonGeneration::Gen2 => spare as int / 2,
    }
}

/// The reboot mode that the spare register tells.
pub fn decode_reboot_mode(spare: u8, generation: QcomPonGeneration) -> (r: Option<RebootMode>)
    ensures
        r == mode_told(spare, generation),
{
    let value: u8 = match generation {
        QcomPonGeneration::Gen1 => spare / 4,
        QcomPonGeneration::Gen2 => spare / 2,
    };
    match value {
        0 => None,
        1 => Some(RebootMode::Recovery),
        2 => Some(RebootMode::Bootloader),
        value => Some(RebootMode::Unknown(value)),
    }
}

/// The name of a reboot mode.
pub open spec fn mode_text(mode: Option<RebootMode>) -> Seq<char> {
    match mode {
        Some(RebootMode::Recovery) => "recovery"@,
        Some(RebootMode::Bootloader) => "bootloader"@,
        Some(RebootMode::Unknown(value)) => "unknown("@ + decimal(value as int) + ")"@,
        None => "none"@,
    }
}

/// The name of a reboot mode.
pub fn format_reboot_mode(mode: Option<RebootMode>) -> (s: String)
    ensures
        s@ == mode_text(mode),
{
    match mode {
        Some(RebootMode::Recovery) => owned("recovery"),
        Some(RebootMode::Bootloader) => owned("bootloader"),
        Some(RebootMode::Unknown(value)) => {
            let mut s = owned("unknown(");
            push_decimal(&mut s, value as u64);
            s.append(")");
            s
        },
        None => owned("none"),
    }
}

/// `text` alone where `value` has one of the bits `mask`, else nothing.
pub open spec fn label_for(value: u8, mask: u8, text: Seq<char>) -> Seq<Seq<char>> {
    if value & mask != 0 {
        seq![text]
    } else {
        Seq::empty()
    }
}

/// The names of the reasons for the start.
pub open spec fn reason_texts(value: u8) -> Seq<Seq<char>> {
    label_for(value, QCOM_PON_REASON_HARD_RESET, "hard-reset"@) + label_for(
        value,
        QCOM_PON_REASON_SMPL,
        "smpl"@,
    ) + label_for(value, QCOM_PON_REASON_RTC, "rtc"@) + label_for(
        value,
        QCOM_PON_REASON_DC_CHARGER,
        "dc-charger"@,
    ) + label_for(value, QCOM_PON_REASON_USB_CHARGER, "usb-charger"@) + label_for(
        value,
        QCOM_PON_REASON_PON1,
        "pon1/secondary-pmic"@,
    ) + label_for(value, QCOM_PON_REASON_CABLE, "cable/external-power"@) + label_for(
        value,
        QCOM_PON_REASON_KPD,
        "pwrkey"@,
    )
}

fn push_label(labels: &mut Vec<String>, value: u8, mask: u8, text: &str)
    ensures
        texts(final(labels)@) == texts(old(labels)@) + label_for(value, mask, text@),
{
    let ghost before = labels@;
    if value & mask != 0 {
        labels.push(owned(text));
    }
    assert(texts(labels@) =~= texts(before) + label_for(value, mask, text@));
}

/// The names of the reasons for the start.
pub fn pon_reason_labels(value: u8) -> (r: Vec<String>)
    ensures
        texts(r@) == reason_texts(value),
{
    let mut labels: Vec<String> = Vec::new();
    assert(texts(labels@) =~= Seq::<Seq<char>>::empty());
    push_label(&mut labels, value, QCOM_PON_REASON_HARD_RESET, "hard-reset");
    assert(texts(labels@) =~= label_for(value, QCOM_PON_REASON_HARD_RESET, "hard-reset"@));
    push_label(&mut labels, value, QCOM_PON_REASON_SMPL, "smpl");
    push_label(&mut labels, value, QCOM_PON_REASON_RTC, "rtc");
    push_label(&mut labels, value, QCOM_PON_REASON_DC_CHARGER, "dc-charger");
    push_label(&mut labels, value, QCOM_PON_REASON_USB_CHARGER, "usb-charger");
    push_label(&mut labels, value, QCOM_PON_REASON_PON1, "pon1/secondary-pmic");
    push_label(&mut labels, value, QCOM_PON_REASON_CABLE, "cable/external-power");
    push_label(&mut labels, value, QCOM_PON_REASON_KPD, "pwrkey");
    labels
}

/// The texts with bars between them, or `none`.
pub open spec fn listed(list: Seq<Seq<char>>) -> Seq<char> {
    if list.len() == 0 {
        "none"@
    } else {
        joined(list, "|"@)
    }
}

/// The texts with bars between them, or `none`.
pub fn format_compatibles(compatibles: &[String]) -> (s: String)
    ensures
        s@ == listed(texts(compatibles@)),
{
    assert(texts(compatibles@).len() == compatibles@.len());
    if compatibles.len() == 0 {
        owned("none")
    } else {
        join_texts(compatibles, "|")
    }
}

/// The names of the reasons for the start, with bars between them.
pub fn format_pon_reason_labels(value: u8) -> (s: String)
    ensures
        s@ == listed(reason_texts(value)),
{
    let labels = pon_reason_labels(value);
    format_compatibles(&labels)
}

/// Why no register could be read.
#[derive(Clone, Copy, Debug, PartialEq, Eq, Structural)]
pub enum RegmapError {
    Range,
    Utf8,
    Prefix,
    Short,
    Unreadable,
    Digits,
}

impl RegmapError {
    /// The kind of the error.
    pub fn kind(self) -> (k: ErrorKind)
        ensures
            k == ErrorKind::InvalidData,
    {
        ErrorKind::InvalidData
    }

    /// The error in words, for a register and the line that was read for it.
    pub open spec fn words(self, reg: u64, line: Seq<u8>) -> Seq<char> {
        match self {
            RegmapError::Range => "register 0x"@ + hex(reg as int) + " exceeds SPMI range"@,
            RegmapError::Utf8 => utf8_error_text(line),
            RegmapError::Prefix => "expected register prefix "@ + quoted_text(line_prefix(reg))
                + ", got "@ + quoted_text(trim_end(utf8_lossy(line))),
            RegmapError::Short => "short register line "@ + quoted_text(utf8_lossy(line)),
            RegmapError::Unreadable => "register 0x"@ + padded(hex(reg as int), 4, '0')
                + " is unreadable"@,
            RegmapError::Digits => "invalid digit found in string"@,
        }
    }

    /// The error in words, for a register and the line that was read for it.
    pub fn message(self, reg: u64, line: &[u8]) -> (s: String)
        ensures
            s@ == self.words(reg, line@),
    {
        match self {
            RegmapError::Range => {
                let mut s = owned("register 0x");
                push_hex(&mut s, reg);
                s.append(" exceeds SPMI range");
                s
            },
            RegmapError::Utf8 => utf8_fault(line),
            RegmapError::Prefix => {
                let prefix = register_prefix(reg);
                let mut s = cat("expected register prefix ", quoted(prefix.as_str()).as_str());
                s.append(", got ");
                let told = chars(decode_lossy(line).as_str());
                let told = from_chars(trim_end_chars(&told));
                s.append(quoted(told.as_str()).as_str());
                s
            },
            RegmapError::Short => cat(
                "short register line ",
                quoted(decode_lossy(line).as_str()).as_str(),
            ),
            RegmapError::Unreadable => {
                let mut s = cat("register 0x", hex_padded(reg, 4).as_str());
                s.append(" is unreadable");
                s
            },
            RegmapError::Digits => owned("invalid digit found in string"),
        }
    }
}

/// What the line of a register starts with.
pub open spec fn line_prefix(reg: u64) -> Seq<char> {
    padded(hex(reg as int), 4, '0') + ": "@
}

/// What the line of a register starts with.
pub fn register_prefix(reg: u64) -> (s: String)
    ensures
        s@ == line_prefix(reg),
{
    cat(hex_padded(reg, 4).as_str(), ": ")
}

/// The value that the line of a register tells.
pub open spec fn register_value(line: Seq<u8>, reg: u64) -> Result<u8, RegmapError> {
    let prefix = utf8(line_prefix(reg));
    let at = prefix.len() as int;
    if !valid_utf8(line) {
        Err(RegmapError::Utf8)
    } else if !prefix.is_prefix_of(line) {
        Err(RegmapError::Prefix)
    } else if at + 2 > line.len() || (at + 2 < line.len() && is_continuation_byte(line[at + 2])) {
        Err(RegmapError::Short)
    } else if line[at] == 0x58 || line[at + 1] == 0x58 {
        Err(RegmapError::Unreadable)
    } else {
        match parse_number(ascii_text(line.subrange(at, at + 2)), 16, 255) {
            None => Err(RegmapError::Digits),
            Some(value) => Ok(value as u8),
        }
    }
}

/// The value that the line of a register tells.
pub fn parse_regmap_u8_line(line: &[u8], reg: u64) -> (r: Result<u8, RegmapError>)
    ensures
        r == register_value(line@, reg),
{
    if decode(line).is_none() {
        return Err(RegmapError::Utf8);
    }
    let prefix = register_prefix(reg);
    let prefix = prefix.as_str().as_bytes();
    if !has_prefix(line, prefix) {
        return Err(RegmapError::Prefix);
    }
    let at = prefix.len();
    if line.len() - at < 2 || (line.len() - at > 2 && line[at + 2] >= 0x80 && line[at + 2]
        <= 0xbf) {
        return Err(RegmapError::Short);
    }
    if line[at] == 0x58 || line[at + 1] == 0x58 {
        return Err(RegmapError::Unreadable);
    }
    let digits = chars(text_of_ascii(&line[at..at + 2]).as_str());
    match parse_unsigned(&digits, 16, 255) {
        None => Err(RegmapError::Digits),
        Some(value) => Ok(value as u8),
    }
}

/// Where the line of a register stands in a register map.
pub fn regmap_offset(reg: u64) -> (r: Result<u64, RegmapError>)
    ensures
        r == (if reg > 0xffff {
            Err::<u64, RegmapError>(RegmapError::Range)
        } else {
            Ok((reg * QCOM_SPMI_REGMAP_LINE_LEN) as u64)
        }),
{
    if reg > 0xffff {
        Err(RegmapError::Range)
    } else {
        Ok(reg * QCOM_SPMI_REGMAP_LINE_LEN)
    }
}

/// A child of the device tree node of a PMIC. What could not be read is missing, or told in words.
#[derive(Debug)]
pub struct PonNode {
    pub path: String,
    pub compatible: Option<Vec<u8>>,
    pub reg: Result<Vec<u8>, String>,
}

/// An entry of the directory of register maps, and the device tree node that belongs to it. What
/// could not be read is missing, or told in words.
#[derive(Debug)]
pub struct RegmapEntry {
    pub device: Option<String>,
    pub path: String,
    pub name: Option<String>,
    pub node: String,
    pub compatible: Result<Vec<u8>, String>,
    pub children: Result<Vec<Result<PonNode, String>>, String>,
}

/// The register map of a power controller.
#[derive(Debug)]
pub struct QcomPonRegmap {
    pub spmi_device: String,
    pub regmap_path: String,
    pub pmic_compatibles: Vec<String>,
    pub pon_compatibles: Vec<String>,
    pub pon_base: u32,
}

/// The register map of a power controller, as plain values.
pub struct FoundRegmap {
    pub spmi_device: Seq<char>,
    pub regmap_path: Seq<char>,
    pub pmic_compatibles: Seq<Seq<char>>,
    pub pon_compatibles: Seq<Seq<char>>,
    pub pon_base: u32,
}

impl View for QcomPonRegmap {
    type V = FoundRegmap;

    open spec fn view(&self) -> FoundRegmap {
        FoundRegmap {
            spmi_device: self.spmi_device@,
            regmap_path: self.regmap_path@,
            pmic_compatibles: texts(self.pmic_compatibles@),
            pon_compatibles: texts(self.pon_compatibles@),
            pon_base: self.pon_base,
        }
    }
}

/// Whether a child of a PMIC's node is a power controller of the wanted kind.
pub open spec fn is_controller(node: PonNode, pon: Seq<char>) -> bool {
    node.compatible matches Some(bytes) && property_texts(bytes@).contains(pon)
}

/// The number of the first power controller of the wanted kind from number `i` on.
pub open spec fn controller_from(
    list: Seq<Result<PonNode, String>>,
    pon: Seq<char>,
    i: int,
) -> Result<Option<int>, Seq<char>>
    decreases list.len() - i,
{
    if i < 0 || i >= list.len() {
        Ok(None)
    } else {
        match list[i] {
            Err(e) => Err("read-pmic-child error="@ + e@),
            Ok(node) => if is_controller(node, pon) {
                Ok(Some(i))
            } else {
                controller_from(list, pon, i + 1)
            },
        }
    }
}

/// The number of the first power controller of the wanted kind among the children of a PMIC's
/// node.
pub open spec fn controller_of(entry: RegmapEntry, pon: Seq<char>) -> Result<
    Option<int>,
    Seq<char>,
> {
    match entry.children {
        Err(e) => Err("read-pmic-of-node path="@ + entry.node@ + " error="@ + e@),
        Ok(list) => controller_from(list@, pon, 0),
    }
}

/// The number of the first power controller of the wanted kind among the children of a PMIC's
/// node.
pub fn find_pon_child(entry: &RegmapEntry, pon_compatible: &str) -> (r: Result<
    Option<usize>,
    String,
>)
    ensures
        controller_of(*entry, pon_compatible@) == (match r {
            Ok(Some(i)) => Ok::<Option<int>, Seq<char>>(Some(i as int)),
            Ok(None) => Ok(None),
            Err(e) => Err(e@),
        }),
        r matches Ok(Some(i)) ==> entry.children matches Ok(list) && i < list@.len() && (
        list@[i as int] matches Ok(node) && is_controller(node, pon_compatible@)),
{
    let list = match &entry.children {
        Err(e) => {
            let mut s = cat("read-pmic-of-node path=", entry.node.as_str());
            s.append(" error=");
            s.append(e.as_str());
            return Err(s);
        },
        Ok(list) => list,
    };
    let mut i: usize = 0;
    while i < list.len()
        invariant
            i <= list@.len(),
            entry.children == Ok::<Vec<Result<PonNode, String>>, String>(*list),
            controller_of(*entry, pon_compatible@) == controller_from(
                list@,
                pon_compatible@,
                i as int,
            ),
        decreases list@.len() - i,
    {
        match &list[i] {
            Err(e) => {
                return Err(cat("read-pmic-child error=", e.as_str()));
            },
            Ok(node) => {
                if let Some(bytes) = &node.compatible {
                    let compatibles = parse_fdt_strings(bytes);
                    if has_compatible(&compatibles, pon_compatible) {
                        return Ok(Some(i));
                    }
                }
            },
        }
        i += 1;
    }
    Ok(None)
}

/// What an entry of the directory of register maps comes to: nothing, a candidate that is noted
/// down, or the end of the search.
pub enum EntryOutcome {
    Skipped,
    Noted(Seq<char>),
    Done(Result<FoundRegmap, Seq<char>>),
}

/// What an entry of the directory of register maps comes to.
pub open spec fn entry_outcome(entry: Result<RegmapEntry, String>, target: QcomPonTarget) ->
    EntryOutcome {
    match entry {
        Err(e) => EntryOutcome::Done(Err("read-regmap-entry error="@ + e@)),
        Ok(entry) => match (entry.device, entry.name) {
            (Some(device), Some(name)) => if trim(name@) != "pmic-spmi"@ {
                EntryOutcome::Skipped
            } else {
                match entry.compatible {
                    Err(e) => EntryOutcome::Noted(device@ + ":compatible-error="@ + e@),
                    Ok(bytes) => {
                        let pmic = property_texts(bytes@);
                        if !pmic.contains(target.pmic_compatible@) {
                            EntryOutcome::Skipped
                        } else {
                            match controller_of(entry, target.pon_compatible@) {
                                Err(e) => EntryOutcome::Done(Err(e)),
                                Ok(None) => EntryOutcome::Noted(device@ + ":"@ + listed(pmic)),
                                Ok(Some(i)) => {
                                    let node = entry.children->Ok_0@[i]->Ok_0;
                                    let failed = "read-pon-reg path="@ + node.path@ + " error="@;
                                    EntryOutcome::Done(
                                        match node.reg {
                                            Err(e) => Err(failed + e@),
                                            Ok(cells) => match first_cell(cells@) {
                                                None => Err(failed + "missing u32 FDT cell"@),
                                                Some(base) => Ok(
                                                    FoundRegmap {
                                                        spmi_device: device@,
                                                        regmap_path: entry.path@,
                                                        pmic_compatibles: pmic,
                                                        pon_compatibles: property_texts(
                                                            node.compatible->0@,
                                                        ),
                                                        pon_base: base,
                                                    },
                                                ),
                                            },
                                        },
                                    )
                                },
                            }
                        }
                    },
                }
            },
            _ => EntryOutcome::Skipped,
        },
    }
}

/// The register map that the entries from number `i` on lead to, with the candidates noted so far.
pub open spec fn regmap_from(
    entries: Seq<Result<RegmapEntry, String>>,
    target: QcomPonTarget,
    i: int,
    candidates: Seq<Seq<char>>,
) -> Result<FoundRegmap, Seq<char>>
    decreases entries.len() - i,
{
    if i < 0 || i >= entries.len() {
        Err(
            "no-pon-regmap pmic="@ + target.pmic_compatible@ + " pon="@ + target.pon_compatible@
                + " candidates="@ + listed(candidates),
        )
    } else {
        match entry_outcome(entries[i], target) {
            EntryOutcome::Skipped => regmap_from(entries, target, i + 1, candidates),
            EntryOutcome::Noted(text) => regmap_from(
                entries,
                target,
                i + 1,
                candidates.push(text),
            ),
            EntryOutcome::Done(result) => result,
        }
    }
}

/// An outcome of an entry.
enum Step {
    Skipped,
    Noted(String),
    Done(Result<QcomPonRegmap, String>),
}

spec fn outcome_of(step: Step) -> EntryOutcome {
    match step {
        Step::Skipped => EntryOutcome::Skipped,
        Step::Noted(text) => EntryOutcome::Noted(text@),
        Step::Done(Ok(regmap)) => EntryOutcome::Done(Ok(regmap@)),
        Step::Done(Err(e)) => EntryOutcome::Done(Err(e@)),
    }
}

fn regmap_of_child(
    entry: &RegmapEntry,
    device: &str,
    pmic_compatibles: Vec<String>,
    node: &PonNode,
) -> (r: Result<QcomPonRegmap, String>)
    requires
        node.compatible is Some,
    ensures
        ({
            let failed = "read-pon-reg path="@ + node.path@ + " error="@;
            match node.reg {
                Err(e) => r matches Err(told) && told@ == failed + e@,
                Ok(cells) => match first_cell(cells@) {
                    None => r matches Err(told) && told@ == failed + "missing u32 FDT cell"@,
                    Some(base) => r matches Ok(regmap) && regmap@ == (FoundRegmap {
                        spmi_device: device@,
                        regmap_path: entry.path@,
                        pmic_compatibles: texts(pmic_compatibles@),
                        pon_compatibles: property_texts(node.compatible->0@),
                        pon_base: base,
                    }),
                },
            }
        }),
{
    let mut failed = cat("read-pon-reg path=", node.path.as_str());
    failed.append(" error=");
    let cells = match &node.reg {
        Err(e) => {
            return Err(cat(failed.as_str(), e.as_str()));
        },
        Ok(cells) => cells,
    };
    let pon_base = match first_fdt_u32(cells) {
        None => {
            return Err(cat(failed.as_str(), "missing u32 FDT cell"));
        },
        Some(base) => base,
    };
    let pon_compatibles = match &node.compatible {
        Some(bytes) => parse_fdt_strings(bytes),
        None => Vec::new(),
    };
    Ok(
        QcomPonRegmap {
            spmi_device: owned(device),
            regmap_path: owned(entry.path.as_str()),
            pmic_compatibles,
            pon_compatibles,
            pon_base,
        },
    )
}

fn regmap_step(entry: &Result<RegmapEntry, String>, target: &QcomPonTarget) -> (r: Step)
    ensures
        outcome_of(r) == entry_outcome(*entry, *target),
{
    let entry = match entry {
        Err(e) => {
            return Step::Done(Err(cat("read-regmap-entry error=", e.as_str())));
        },
        Ok(entry) => entry,
    };
    let (device, name) = match (&entry.device, &entry.name) {
        (Some(device), Some(name)) => (device, name),
        _ => {
            return Step::Skipped;
        },
    };
    if !same_text(trimmed(name.as_str()).as_str(), "pmic-spmi") {
        return Step::Skipped;
    }
    let bytes = match &entry.compatible {
        Err(e) => {
            let mut s = cat(device.as_str(), ":compatible-error=");
            s.append(e.as_str());
            return Step::Noted(s);
        },
        Ok(bytes) => bytes,
    };
    let pmic_compatibles = parse_fdt_strings(bytes);
    if !has_compatible(&pmic_compatibles, target.pmic_compatible) {
        return Step::Skipped;
    }
    match find_pon_child(entry, target.pon_compatible) {
        Err(e) => Step::Done(Err(e)),
        Ok(None) => {
            let mut s = cat(device.as_str(), ":");
            s.append(format_compatibles(&pmic_compatibles).as_str());
            Step::Noted(s)
        },
        Ok(Some(i)) => {
            if let Ok(list) = &entry.children {
                if let Ok(node) = &list[i] {
                    return Step::Done(
                        regmap_of_child(entry, device.as_str(), pmic_compatibles, node),
                    );
                }
            }
            assert(false);
            Step::Skipped
        },
    }
}

/// The register map of the target's power controller among the entries of the directory of
/// register maps.
pub fn find_qcom_pon_regmap(
    target: &QcomPonTarget,
    entries: &[Result<RegmapEntry, String>],
) -> (r: Result<QcomPonRegmap, String>)
    ensures
        regmap_from(entries@, *target, 0, Seq::empty()) == (match r {
            Ok(regmap) => Ok(regmap@),
            Err(e) => Err(e@),
        }),
{
    let mut candidates: Vec<String> = Vec::new();
    let mut i: usize = 0;
    assert(texts(candidates@) =~= Seq::<Seq<char>>::empty());
    while i < entries.len()
        invariant
            i <= entries@.len(),
            regmap_from(entries@, *target, 0, Seq::empty()) == regmap_from(
                entries@,
                *target,
                i as int,
                texts(candidates@),
            ),
        decreases entries@.len() - i,
    {
        match regmap_step(&entries[i], target) {
            Step::Skipped => {},
            Step::Noted(text) => {
                let ghost before = candidates@;
                candidates.push(text);
                assert(texts(candidates@) =~= texts(before).push(text@));
            },
            Step::Done(result) => {
                return result;
            },
        }
        i += 1;
    }
    let mut s = cat("no-pon-regmap pmic=", target.pmic_compatible);
    s.append(" pon=");
    s.append(target.pon_compatible);
    s.append(" candidates=");
    s.append(format_compatibles(&candidates).as_str());
    Err(s)
}

/// The values of the registers of a power controller.
#[derive(Clone, Copy, Debug, PartialEq, Eq, Structural)]
pub struct QcomPonRaw {
    pub pon_reason1: u8,
    pub warm_reset_reason1: u8,
    pub warm_reset_reason2: Option<u8>,
    pub soft_rb_spare: u8,
}

/// All that was read, in words.
pub open spec fn detail_text(
    target: QcomPonTarget,
    root: Seq<Seq<char>>,
    regmap: FoundRegmap,
    raw: QcomPonRaw,
    mode: Option<RebootMode>,
) -> Seq<char> {
    "root="@ + listed(root) + " spmi="@ + regmap.spmi_device + " pmic="@ + target.pmic_compatible@
        + " pmic_node="@ + listed(regmap.pmic_compatibles) + " pon="@ + target.pon_compatible@
        + " pon_node="@ + listed(regmap.pon_compatibles) + " gen="@ + target.generation.name()
        + " pon_base=0x"@ + padded(hex(regmap.pon_base as int), 3, '0') + " pon_reason1=0x"@
        + padded(hex(raw.pon_reason1 as int), 2, '0') + " pon_reasons="@ + listed(
        reason_texts(raw.pon_reason1),
    ) + " warm_reset_reason1=0x"@ + padded(hex(raw.warm_reset_reason1 as int), 2, '0') + (
    match raw.warm_reset_reason2 {
        Some(value) => " warm_reset_reason2=0x"@ + padded(hex(value as int), 2, '0'),
        None => Seq::empty(),
    }) + " soft_rb_spare=0x"@ + padded(hex(raw.soft_rb_spare as int), 2, '0') + " reboot_mode="@
        + mode_text(mode)
}

/// All that was read, in words.
pub fn qcom_pon_detail(
    target: &QcomPonTarget,
    root_compatibles: &[String],
    regmap: &QcomPonRegmap,
    raw: QcomPonRaw,
    reboot_mode: Option<RebootMode>,
) -> (s: String)
    ensures
        s@ == detail_text(*target, texts(root_compatibles@), regmap@, raw, reboot_mode),
{
    let mut s = owned("root=");
    s.append(format_compatibles(root_compatibles).as_str());
    s.append(" spmi=");
    s.append(regmap.spmi_device.as_str());
    s.append(" pmic=");
    s.append(target.pmic_compatible);
    s.append(" pmic_node=");
    s.append(format_compatibles(&regmap.pmic_compatibles).as_str());
    s.append(" pon=");
    s.append(target.pon_compatible);
    s.append(" pon_node=");
    s.append(format_compatibles(&regmap.pon_compatibles).as_str());
    s.append(" gen=");
    s.append(target.generation.label());
    s.append(" pon_base=0x");
    s.append(hex_padded(regmap.pon_base as u64, 3).as_str());
    s.append(" pon_reason1=0x");
    s.append(hex_padded(raw.pon_reason1 as u64, 2).as_str());
    s.append(" pon_reasons=");
    s.append(format_pon_reason_labels(raw.pon_reason1).as_str());
    s.append(" warm_reset_reason1=0x");
    s.append(hex_padded(raw.warm_reset_reason1 as u64, 2).as_str());
    let more = match raw.warm_reset_reason2 {
        Some(value) => cat(" warm_reset_reason2=0x", hex_padded(value as u64, 2).as_str()),
        None => String::new(),
    };
    assert(raw.warm_reset_reason2 is None ==> more@ =~= Seq::<char>::empty());
    s.append(more.as_str());
    s.append(" soft_rb_spare=0x");
    s.append(hex_padded(raw.soft_rb_spare as u64, 2).as_str());
    s.append(" reboot_mode=");
    s.append(format_reboot_mode(reboot_mode).as_str());
    s
}

/// The values of the state that the registers tell.
pub open spec fn state_told(state: BootState, raw: QcomPonRaw, mode: Option<RebootMode>) -> bool {
    &&& state.reboot_mode == mode
    &&& state.hard_reset == Some(raw.pon_reason1 & QCOM_PON_REASON_HARD_RESET != 0)
    &&& state.power_key == Some(raw.pon_reason1 & QCOM_PON_REASON_KPD != 0)
    &&& state.charger == Some(raw.pon_reason1 & QCOM_PON_REASON_CHARGER_MASK != 0)
    &&& state.warm_reset == Some(
        raw.warm_reset_reason1 != 0 || (raw.warm_reset_reason2 matches Some(more) && more != 0),
    )
}

/// The reboot mode that the spare register tells.
pub open spec fn mode_told(spare: u8, generation: QcomPonGeneration) -> Option<RebootMode> {
    let value = mode_number(spare, generation);
    if value == 0 {
        None
    } else if value == 1 {
        Some(RebootMode::Recovery)
    } else if value == 2 {
        Some(RebootMode::Bootloader)
    } else {
        Some(RebootMode::Unknown(value as u8))
    }
}

/// Whether a state is the one that the registers tell.
pub open spec fn is_state_of(
    state: BootState,
    target: QcomPonTarget,
    root: Seq<Seq<char>>,
    regmap: FoundRegmap,
    raw: QcomPonRaw,
) -> bool {
    let mode = mode_told(raw.soft_rb_spare, target.generation);
    &&& state_told(state, raw, mode)
    &&& state.source matches Some(source) && source.backend@ == "qcom-pon"@ && source.detail@
        == detail_text(target, root, regmap, raw, mode)
}

/// The state that the registers tell.
pub fn qcom_boot_state(
    target: &QcomPonTarget,
    root_compatibles: &[String],
    regmap: &QcomPonRegmap,
    raw: QcomPonRaw,
) -> (state: BootState)
    ensures
        is_state_of(state, *target, texts(root_compatibles@), regmap@, raw),
{
    let reboot_mode = decode_reboot_mode(raw.soft_rb_spare, target.generation);
    let warm_reset = raw.warm_reset_reason1 != 0 || match raw.warm_reset_reason2 {
        Some(more) => more != 0,
        None => false,
    };
    BootState {
        reboot_mode,
        hard_reset: Some(raw.pon_reason1 & QCOM_PON_REASON_HARD_RESET != 0),
        power_key: Some(raw.pon_reason1 & QCOM_PON_REASON_KPD != 0),
        charger: Some(raw.pon_reason1 & QCOM_PON_REASON_CHARGER_MASK != 0),
        warm_reset: Some(warm_reset),
        source: Some(
            BootStateSource {
                backend: "qcom-pon",
                detail: qcom_pon_detail(target, root_compatibles, regmap, raw, reboot_mode),
            },
        ),
    }
}

/// Whether a state tells nothing but where it was read.
pub open spec fn tells_only(state: BootState, backend: Seq<char>, detail: Seq<char>) -> bool {
    &&& state.reboot_mode is None
    &&& state.hard_reset is None
    &&& state.power_key is None
    &&& state.charger is None
    &&& state.warm_reset is None
    &&& state.source matches Some(source) && source.backend@ == backend && source.detail@ == detail
}

/// A state that tells nothing but where it was read.
pub fn state_with_source(backend: &'static str, detail: String) -> (state: BootState)
    ensures
        tells_only(state, backend@, detail@),
{
    BootState {
        reboot_mode: None,
        hard_reset: None,
        power_key: None,
        charger: None,
        warm_reset: None,
        source: Some(BootStateSource { backend, detail }),
    }
}

/// The state where the names of the device could not be read.
pub fn state_without_root(error: &str) -> (state: BootState)
    ensures
        tells_only(
            state,
            "devicetree"@,
            "root-compatible-unavailable path=/sys/firmware/devicetree/base/compatible error="@
                + error@,
        ),
{
    state_with_source(
        "devicetree",
        cat(
            "root-compatible-unavailable path=/sys/firmware/devicetree/base/compatible error=",
            error,
        ),
    )
}

/// The state of a device that is not a known one.
pub fn state_of_unknown_root(root_compatibles: &[String]) -> (state: BootState)
    ensures
        tells_only(
            state,
            "devicetree"@,
            "unsupported-root-compatible root="@ + listed(texts(root_compatibles@)),
        ),
{
    state_with_source(
        "devicetree",
        cat(
            "unsupported-root-compatible root=",
            format_compatibles(root_compatibles).as_str(),
        ),
    )
}

/// The state of a known device whose registers could not be read.
pub fn state_of_failure(
    target: &QcomPonTarget,
    root_compatibles: &[String],
    error: &str,
) -> (state: BootState)
    ensures
        tells_only(
            state,
            "qcom-pon"@,
            "root="@ + listed(texts(root_compatibles@)) + " soc="@ + target.soc_compatible@
                + " pmic="@ + target.pmic_compatible@ + " pon="@ + target.pon_compatible@
                + " error="@ + error@,
        ),
{
    let mut s = cat("root=", format_compatibles(root_compatibles).as_str());
    s.append(" soc=");
    s.append(target.soc_compatible);
    s.append(" pmic=");
    s.append(target.pmic_compatible);
    s.append(" pon=");
    s.append(target.pon_compatible);
    s.append(" error=");
    s.append(error);
    state_with_source("qcom-pon", s)
}

/// A register that is read.
#[derive(Debug)]
pub struct PonRegister {
    pub reg: u64,
    pub name: &'static str,
}

/// The number of registers that are read.
pub open spec fn register_count(generation: QcomPonGeneration) -> int {
    if generation.warm2() is Some {
        4
    } else {
        3
    }
}

/// The registers that are read, in order, for a controller of a generation at a base.
pub fn registers_to_read(generation: QcomPonGeneration, base: u32) -> (r: Vec<PonRegister>)
    ensures
        ({
            let w = if generation.warm2() is Some {
                1int
            } else {
                0int
            };
            &&& r@.len() == register_count(generation)
            &&& r@[0].reg == base + generation.reason1() && r@[0].name@ == "pon_reason1"@
            &&& r@[1].reg == base + generation.warm1() && r@[1].name@ == "warm_reset_reason1"@
            &&& generation.warm2() matches Some(offset) ==> r@[2].reg == base + offset
                && r@[2].name@ == "warm_reset_reason2"@
            &&& r@[2 + w].reg == base + QCOM_PON_SOFT_RB_SPARE && r@[2 + w].name@
                == "soft_rb_spare"@
        }),
{
    let mut list: Vec<PonRegister> = Vec::new();
    list.push(PonRegister { reg: base as u64 + generation.pon_reason1_offset() as u64, name: "pon_reason1" });
    list.push(
        PonRegister {
            reg: base as u64 + generation.warm_reset_reason1_offset() as u64,
            name: "warm_reset_reason1",
        },
    );
    if let Some(offset) = generation.warm_reset_reason2_offset() {
        list.push(PonRegister { reg: base as u64 + offset as u64, name: "warm_reset_reason2" });
    }
    list.push(PonRegister { reg: base as u64 + QCOM_PON_SOFT_RB_SPARE as u64, name: "soft_rb_spare" });
    list
}

/// What is told where a register could not be read.
pub open spec fn register_failure(name: Seq<char>, reg: u64, error: Seq<char>) -> Seq<char> {
    "read-"@ + name + " reg=0x"@ + padded(hex(reg as int), 4, '0') + " error="@ + error
}

fn register_error(name: &str, reg: u64, error: &str) -> (s: String)
    ensures
        s@ == register_failure(name@, reg, error@),
{
    let mut s = cat("read-", name);
    s.append(" reg=0x");
    s.append(hex_padded(reg, 4).as_str());
    s.append(" error=");
    s.append(error);
    s
}

/// The value of a register, by the line that was read for it, or by why it could not be read.
pub open spec fn value_told(name: Seq<char>, reg: u64, line: Result<Vec<u8>, String>) -> Result<
    u8,
    Seq<char>,
> {
    if reg > 0xffff {
        Err(register_failure(name, reg, RegmapError::Range.words(reg, Seq::empty())))
    } else {
        match line {
            Err(told) => Err(register_failure(name, reg, told@)),
            Ok(bytes) => match register_value(bytes@, reg) {
                Ok(value) => Ok(value),
                Err(fault) => Err(register_failure(name, reg, fault.words(reg, bytes@))),
            },
        }
    }
}

/// The value of a register, by the line that was read for it, or by why it could not be read.
pub fn read_qcom_pon_register(register: &PonRegister, line: &Result<Vec<u8>, String>) -> (r: Result<
    u8,
    String,
>)
    ensures
        value_told(register.name@, register.reg, *line) == (match r {
            Ok(value) => Ok(value),
            Err(e) => Err(e@),
        }),
{
    let reg = register.reg;
    if let Err(fault) = regmap_offset(reg) {
        return Err(register_error(register.name, reg, fault.message(reg, &[]).as_str()));
    }
    match line {
        Err(told) => Err(register_error(register.name, reg, told.as_str())),
        Ok(bytes) => match parse_regmap_u8_line(bytes, reg) {
            Ok(value) => Ok(value),
            Err(fault) => Err(
                register_error(register.name, reg, fault.message(reg, bytes).as_str()),
            ),
        },
    }
}

/// The reboot mode stands in the upper bits of its register, from the third on in the first
/// generation and from the second on in the second; the bits below it do not matter.
pub proof fn law_reboot_modes_are_told(mode: u8, low: u8)
    requires
        mode < 64,
    ensures
        low < 4 ==> mode_told((mode * 4 + low) as u8, QcomPonGeneration::Gen1) == (if mode == 0 {
            None
        } else if mode == 1 {
            Some(RebootMode::Recovery)
        } else if mode == 2 {
            Some(RebootMode::Bootloader)
        } else {
            Some(RebootMode::Unknown(mode))
        }),
        low < 2 ==> mode_told((mode * 2 + low) as u8, QcomPonGeneration::Gen2) == (if mode == 0 {
            None
        } else if mode == 1 {
            Some(RebootMode::Recovery)
        } else if mode == 2 {
            Some(RebootMode::Bootloader)
        } else {
            Some(RebootMode::Unknown(mode))
        }),
{
}

/// The reasons for the start are told one for each bit that is set, from the lowest bit on.
pub proof fn law_reasons_are_told_by_their_bits(value: u8)
    ensures
        reason_texts(value) == (if value & 0x01 != 0 {
            seq!["hard-reset"@]
        } else {
            Seq::empty()
        }) + (if value & 0x02 != 0 {
            seq!["smpl"@]
        } else {
            Seq::empty()
        }) + (if value & 0x04 != 0 {
            seq!["rtc"@]
        } else {
            Seq::empty()
        }) + (if value & 0x08 != 0 {
            seq!["dc-charger"@]
        } else {
            Seq::empty()
        }) + (if value & 0x10 != 0 {
            seq!["usb-charger"@]
        } else {
            Seq::empty()
        }) + (if value & 0x20 != 0 {
            seq!["pon1/secondary-pmic"@]
        } else {
            Seq::empty()
        }) + (if value & 0x40 != 0 {
            seq!["cable/external-power"@]
        } else {
            Seq::empty()
        }) + (if value & 0x80 != 0 {
            seq!["pwrkey"@]
        } else {
            Seq::empty()
        }),
{
}

/// The line of a register, with four digits of its number, a colon, a space and two digits of its
/// value, gives the value.
pub proof fn law_register_lines_are_read(reg: u16, value: u8, more: Seq<char>)
    requires
        is_ascii_chars(more),
    ensures
        register_value(
            utf8(
                padded(hex(reg as int), 4, '0') + ": "@ + padded(hex(value as int), 2, '0') + more,
            ),
            reg as u64,
        ) == Ok::<u8, RegmapError>(value),
{
    let front = padded(hex(reg as int), 4, '0') + ": "@;
    let digits = padded(hex(value as int), 2, '0');
    let text = front + digits + more;
    reveal_strlit(": ");
    law_two_digits_are_read_back(value);
    law_hex_digits_are_plain(reg as nat);
    law_hex_digits_are_plain(value as nat);
    let number = padded(hex(reg as int), 4, '0');
    assert forall|i: int| 0 <= i < number.len() implies '0' <= #[trigger] number[i] <= '9' || 'a'
        <= number[i] <= 'f' by {
        let k = number.len() - hex(reg as int).len();
        if i >= k {
            assert(number[i] == hex(reg as int)[i - k]);
        } else {
            assert(number[i] == '0');
        }
    }
    assert(digits[0] == digit(value as int / 16) && digits[1] == digit(value as int % 16));
    assert('0' <= digits[0] <= '9' || 'a' <= digits[0] <= 'f');
    assert('0' <= digits[1] <= '9' || 'a' <= digits[1] <= 'f');
    assert(digits.len() == 2);
    assert(front.len() == number.len() + 2);
    assert forall|i: int| 0 <= i < text.len() implies '\0' <= #[trigger] text[i] <= '\u{7f}' by {
        if i < number.len() {
            assert(text[i] == number[i]);
        } else if i < front.len() {
            let c = ": "@[i - number.len()];
            assert(text[i] == c);
            assert(c == ':' || c == ' ');
        } else if i < front.len() + 2 {
            let d = digits[i - front.len()];
            assert(text[i] == d);
            assert(d == digits[0] || d == digits[1]);
        } else {
            let c = more[i - front.len() - 2];
            assert(text[i] == c);
            assert('\0' <= c <= '\u{7f}');
        }
    }
    assert forall|i: int| 0 <= i < front.len() implies '\0' <= #[trigger] front[i] <= '\u{7f}' by {
        assert(text[i] == front[i]);
    }
    is_ascii_chars_encode_utf8(text);
    is_ascii_chars_encode_utf8(front);
    encode_utf8_valid_utf8(text);
    let line = utf8(text);
    let prefix = utf8(front);
    let at = prefix.len() as int;
    assert(prefix =~= line.take(at));
    assert(line[at] == digits[0] as u8);
    assert(line[at + 1] == digits[1] as u8);
    assert(ascii_text(line.subrange(at, at + 2)) =~= digits);
}

proof fn lemma_controller_from(list: Seq<Result<PonNode, String>>, pon: Seq<char>, i: int, j: int)
    requires
        0 <= i <= j < list.len(),
        forall|c: int| i <= c <= j ==> (#[trigger] list[c]) is Ok,
        forall|c: int| i <= c < j ==> !is_controller((#[trigger] list[c])->Ok_0, pon),
        is_controller(list[j]->Ok_0, pon),
    ensures
        controller_from(list, pon, i) == Ok::<Option<int>, Seq<char>>(Some(j)),
    decreases j - i,
{
    assert(list[i] is Ok);
    if i < j {
        lemma_controller_from(list, pon, i + 1, j);
    }
}

proof fn lemma_regmap_from(
    entries: Seq<Result<RegmapEntry, String>>,
    target: QcomPonTarget,
    i: int,
    k: int,
    candidates: Seq<Seq<char>>,
)
    requires
        0 <= i <= k < entries.len(),
        forall|e: int|
            i <= e < k ==> (#[trigger] entries[e]) is Ok && (entries[e]->Ok_0.name matches Some(name)
                ==> trim(name@) != "pmic-spmi"@),
    ensures
        regmap_from(entries, target, i, candidates) == regmap_from(entries, target, k, candidates),
    decreases k - i,
{
    if i < k {
        assert(entries[i] is Ok);
        lemma_regmap_from(entries, target, i + 1, k, candidates);
    }
}

/// The controller is found: the first entry that is a power chip of the kind that is looked for, and
/// in it the first part of the kind that is looked for, give the base of the controller, which is the
/// first number of its place, and where its registers are read.
pub proof fn law_controllers_are_found(
    entries: Seq<Result<RegmapEntry, String>>,
    target: QcomPonTarget,
    k: int,
    j: int,
    pmic: Seq<Seq<u8>>,
    pon: Seq<Seq<u8>>,
)
    requires
        0 <= k < entries.len(),
        forall|e: int|
            0 <= e < k ==> (#[trigger] entries[e]) is Ok && (entries[e]->Ok_0.name matches Some(name)
                ==> trim(name@) != "pmic-spmi"@),
        entries[k] is Ok,
        entries[k]->Ok_0.device is Some,
        entries[k]->Ok_0.name is Some,
        trim(entries[k]->Ok_0.name->0@) == "pmic-spmi"@,
        entries[k]->Ok_0.compatible is Ok,
        entries[k]->Ok_0.compatible->Ok_0@ == ended(pmic, 0u8),
        are_texts(pmic),
        exists|n: int|
            0 <= n < pmic.len() && decode_utf8(#[trigger] pmic[n]) == target.pmic_compatible@,
        entries[k]->Ok_0.children is Ok,
        0 <= j < entries[k]->Ok_0.children->Ok_0@.len(),
        forall|c: int|
            0 <= c < j ==> (#[trigger] entries[k]->Ok_0.children->Ok_0@[c]) is Ok
                && !is_controller(entries[k]->Ok_0.children->Ok_0@[c]->Ok_0, target.pon_compatible@),
        entries[k]->Ok_0.children->Ok_0@[j] is Ok,
        entries[k]->Ok_0.children->Ok_0@[j]->Ok_0.compatible is Some,
        entries[k]->Ok_0.children->Ok_0@[j]->Ok_0.compatible->0@ == ended(pon, 0u8),
        are_texts(pon),
        exists|n: int|
            0 <= n < pon.len() && decode_utf8(#[trigger] pon[n]) == target.pon_compatible@,
        entries[k]->Ok_0.children->Ok_0@[j]->Ok_0.reg is Ok,
        entries[k]->Ok_0.children->Ok_0@[j]->Ok_0.reg->Ok_0@.len() >= 4,
    ensures
        ({
            let entry = entries[k]->Ok_0;
            let cells = entry.children->Ok_0@[j]->Ok_0.reg->Ok_0@;
            regmap_from(entries, target, 0, Seq::empty()) matches Ok(found) && {
                &&& found.spmi_device == entry.device->0@
                &&& found.regmap_path == entry.path@
                &&& found.pon_base == cells[0] * 0x100_0000 + cells[1] * 0x1_0000 + cells[2] * 0x100
                    + cells[3]
            }
        }),
{
    let entry = entries[k]->Ok_0;
    let list = entry.children->Ok_0@;
    let node = list[j]->Ok_0;
    let cells = node.reg->Ok_0@;
    law_properties_are_read(pmic, cells);
    law_properties_are_read(pon, cells);
    let kinds = property_texts(ended(pmic, 0u8));
    let n = choose|n: int|
        0 <= n < pmic.len() && decode_utf8(#[trigger] pmic[n]) == target.pmic_compatible@;
    assert(kinds[n] == target.pmic_compatible@);
    let own = property_texts(ended(pon, 0u8));
    let m = choose|m: int|
        0 <= m < pon.len() && decode_utf8(#[trigger] pon[m]) == target.pon_compatible@;
    assert(own[m] == target.pon_compatible@);
    assert(is_controller(node, target.pon_compatible@));
    lemma_controller_from(list, target.pon_compatible@, 0, j);
    lemma_regmap_from(entries, target, 0, k, Seq::empty());
}

/// Whether byte strings are texts that a property can list.
pub open spec fn are_texts(parts: Seq<Seq<u8>>) -> bool {
    forall|i: int|
        0 <= i < parts.len() ==> (#[trigger] parts[i]).len() > 0 && valid_utf8(parts[i])
            && !parts[i].contains(0u8)
}

/// The controller that is looked for follows from the chip of the device: the first generation on
/// one, the second on the other, and none on others.
pub proof fn law_controllers_follow_from_the_chip(
    target: Option<QcomPonTarget>,
    names: Seq<Seq<char>>,
)
    requires
        is_target_of(target, names),
    ensures
        names.contains("qcom,msm8916"@) ==> (target matches Some(t) && t.generation
            == QcomPonGeneration::Gen1 && t.pmic_compatible@ == "qcom,pm8916"@
            && t.pon_compatible@ == "qcom,pm8916-pon"@),
        !names.contains("qcom,msm8916"@) && names.contains("qcom,sdm845"@) ==> (
        target matches Some(t) && t.generation == QcomPonGeneration::Gen2 && t.pmic_compatible@
            == "qcom,pm8998"@ && t.pon_compatible@ == "qcom,pm8998-pon"@),
        !names.contains("qcom,msm8916"@) && !names.contains("qcom,sdm845"@) ==> target is None,
{
}

} // verus!
