//! Requests to the device mapper.
use vstd::prelude::*;
use vstd::string::*;

use crate::android_lp::mapped::{Mapping, MappingView};
use crate::android_lp::{target_views, DmTarget, MappingPlan, PlanView, TargetView};
use crate::bytes::{
    find_byte, law_double_word_bytes_round_trip, law_word_bytes_round_trip, le32, le32_bytes, le64,
    le64_bytes, le_u32, le_u64, lemma_le32_in, push_bytes, push_le_u32, push_le_u64, round_up,
    utf8,
};
use crate::collect::{collected, lemma_collected_failure};
use crate::errors::ErrorKind;
use crate::text::{cat, decimal, owned, push_decimal, quoted, quoted_text};

verus! {

/// Length of the name in a request.
pub const DM_NAME_LEN: usize = 128;

/// Length of the identifier in a request.
pub const DM_UUID_LEN: usize = 129;

/// Length of the type of a target.
pub const DM_TARGET_TYPE_LEN: usize = 16;

/// Length of the fixed part of a request.
pub const DM_IOCTL_SIZE: usize = 312;

/// Length of the fixed part of a target.
pub const DM_TARGET_SPEC_SIZE: usize = 40;

/// The kind of the device mapper's ioctls.
pub const DM_IOCTL_TYPE: u32 = 0xfd;

/// Asks for the version.
pub const DM_VERSION_CMD: u32 = 0;

/// Makes a device.
pub const DM_DEV_CREATE_CMD: u32 = 3;

/// Removes a device.
pub const DM_DEV_REMOVE_CMD: u32 = 4;

/// Suspends or resumes a device.
pub const DM_DEV_SUSPEND_CMD: u32 = 6;

/// Asks for the state of a device.
pub const DM_DEV_STATUS_CMD: u32 = 7;

/// Loads a table into a device.
pub const DM_TABLE_LOAD_CMD: u32 = 9;

/// A device that is only read.
pub const DM_READONLY_FLAG: u32 = 1;

/// A device that is suspended.
pub const DM_SUSPEND_FLAG: u32 = 2;

/// A device with a table in use.
pub const DM_ACTIVE_PRESENT_FLAG: u32 = 0x20;

/// Where the node of a mapping stands.
pub open spec fn node_path(name: Seq<char>) -> Seq<char> {
    "/dev/mapper/"@ + name
}

/// Where the node of a mapping stands.
pub fn path_of_node(name: &str) -> (s: String)
    ensures
        s@ == node_path(name@),
{
    cat("/dev/mapper/", name)
}

/// Why a request cannot be made, or its answer not be taken.
#[derive(Clone, Copy, Debug, PartialEq, Eq, Structural)]
pub enum DmError {
    NoTargets,
    TargetOverflow,
    TableOverflow,
    InvalidString,
    NameTooLong,
    TooLarge,
    /// The version of the device mapper.
    Version(u32, u32, u32),
    NotReadOnly,
    DeviceChanged,
    /// There is a node of the name of the mapping.
    NodeExists,
    /// The device mapper refused a request, or the node could not be made.
    Refused,
}

impl DmError {
    /// What kind of error it is.
    pub open spec fn what_kind(self) -> ErrorKind {
        match self {
            DmError::NodeExists => ErrorKind::AlreadyExists,
            _ => ErrorKind::InvalidData,
        }
    }

    /// What kind of error it is.
    pub fn kind(self) -> (r: ErrorKind)
        ensures
            r == self.what_kind(),
    {
        match self {
            DmError::NodeExists => ErrorKind::AlreadyExists,
            _ => ErrorKind::InvalidData,
        }
    }

    /// The error in words, with the name of the mapping that it is about.
    pub open spec fn words(self, name: Seq<char>) -> Seq<char> {
        match self {
            DmError::NoTargets => "device-mapper table has no targets"@,
            DmError::TargetOverflow => "device-mapper target size overflows"@,
            DmError::TableOverflow => "device-mapper table size overflows"@,
            DmError::InvalidString => "invalid device-mapper string"@,
            DmError::NameTooLong => "device-mapper name or UUID is too long"@,
            DmError::TooLarge => "device-mapper request is too large"@,
            DmError::Version(major, minor, patch) => "unsupported device-mapper ioctl version "@
                + decimal(major as int) + "."@ + decimal(minor as int) + "."@ + decimal(
                patch as int,
            ),
            DmError::NotReadOnly => "device-mapper mapping "@ + quoted_text(name)
                + " did not become active and read-only"@,
            DmError::DeviceChanged => "device-mapper device number changed"@,
            DmError::NodeExists => "device-mapper node "@ + node_path(name) + " already exists"@,
            DmError::Refused => "device-mapper request was refused"@,
        }
    }

    /// The error in words, with the name of the mapping that it is about.
    pub fn message(self, name: &str) -> (s: String)
        ensures
            s@ == self.words(name@),
    {
        match self {
            DmError::NoTargets => owned("device-mapper table has no targets"),
            DmError::TargetOverflow => owned("device-mapper target size overflows"),
            DmError::TableOverflow => owned("device-mapper table size overflows"),
            DmError::InvalidString => owned("invalid device-mapper string"),
            DmError::NameTooLong => owned("device-mapper name or UUID is too long"),
            DmError::TooLarge => owned("device-mapper request is too large"),
            DmError::Version(major, minor, patch) => {
                let mut s = owned("unsupported device-mapper ioctl version ");
                push_decimal(&mut s, major as u64);
                s.append(".");
                push_decimal(&mut s, minor as u64);
                s.append(".");
                push_decimal(&mut s, patch as u64);
                s
            },
            DmError::NotReadOnly => {
                let mut s = cat("device-mapper mapping ", quoted(name).as_str());
                s.append(" did not become active and read-only");
                s
            },
            DmError::DeviceChanged => owned("device-mapper device number changed"),
            DmError::NodeExists => {
                let mut s = cat("device-mapper node ", path_of_node(name).as_str());
                s.append(" already exists");
                s
            },
            DmError::Refused => owned("device-mapper request was refused"),
        }
    }
}

/// The number of an ioctl that is written to and read back. Its parts stand side by side where each
/// has room.
pub fn ioctl_readwrite(kind: u32, command: u32, size: u32) -> (r: u32)
    ensures
        r == 0xc000_0000u32 | (size << 16) | (kind << 8) | command,
        kind < 0x100 && command < 0x100 && size < 0x4000 ==> r == 0xc000_0000 + size * 0x1_0000
            + kind * 0x100 + command,
{
    assert(kind < 0x100 && command < 0x100 && size < 0x4000 ==> 0xc000_0000u32 | (size << 16) | (
    kind << 8) | command == 0xc000_0000 + size * 0x1_0000 + kind * 0x100 + command)
        by (bit_vector);
    0xc000_0000 | (size << 16) | (kind << 8) | command
}

/// `value` rounded up to a multiple of eight.
pub open spec fn aligned8(value: int) -> Result<usize, DmError> {
    if value + 7 > usize::MAX {
        Err(DmError::TargetOverflow)
    } else {
        Ok(round_up(value, 8) as usize)
    }
}

/// `value` rounded up to a multiple of eight.
pub fn align_to_8(value: usize) -> (r: Result<usize, DmError>)
    ensures
        r == aligned8(value as int),
{
    if value > usize::MAX - 7 {
        return Err(DmError::TargetOverflow);
    }
    Ok((value + 7) / 8 * 8)
}

/// `n` zero bytes.
pub open spec fn zeros(n: int) -> Seq<u8> {
    Seq::new(n as nat, |i: int| 0u8)
}

/// Appends `n` zero bytes.
fn push_zeros(out: &mut Vec<u8>, n: usize)
    ensures
        final(out)@ == old(out)@ + zeros(n as int),
{
    let mut i: usize = 0;
    assert(out@ =~= old(out)@ + zeros(0));
    while i < n
        invariant
            i <= n,
            out@ == old(out)@ + zeros(i as int),
        decreases n - i,
    {
        out.push(0);
        i += 1;
        assert(out@ =~= old(out)@ + zeros(i as int));
    }
}

/// The text in a field of fixed length with zeros behind it: it holds no zero, and at least one
/// zero follows it.
pub open spec fn c_field(text: Seq<char>, length: int) -> Result<Seq<u8>, DmError> {
    let bytes = utf8(text);
    if bytes.contains(0u8) || bytes.len() >= length {
        Err(DmError::InvalidString)
    } else {
        Ok(bytes + zeros(length - bytes.len()))
    }
}

/// The text in a field of fixed length with zeros behind it.
pub fn set_c_field(text: &str, length: usize) -> (r: Result<Vec<u8>, DmError>)
    ensures
        c_field(text@, length as int) == (match r {
            Ok(field) => Ok(field@),
            Err(e) => Err(e),
        }),
        r matches Ok(field) ==> field@.len() == length,
{
    let bytes = text.as_bytes();
    let zero = find_byte(bytes, 0, 0);
    if zero < bytes.len() || bytes.len() >= length {
        return Err(DmError::InvalidString);
    }
    let mut field: Vec<u8> = Vec::new();
    push_bytes(&mut field, bytes);
    assert(field@ =~= utf8(text@));
    push_zeros(&mut field, length - bytes.len());
    Ok(field)
}

/// The type of a target.
pub open spec fn target_type(target: TargetView) -> Seq<char> {
    match target {
        TargetView::Linear { .. } => "linear"@,
        TargetView::Zero { .. } => "zero"@,
    }
}

/// The parameters of a target.
pub open spec fn target_parameters(target: TargetView) -> Seq<char> {
    match target {
        TargetView::Linear { devnum, physical_start, .. } => devnum + " "@ + decimal(
            physical_start as int,
        ),
        TargetView::Zero { .. } => Seq::empty(),
    }
}

/// The bytes of a target in a table: where it starts, its length, no status, the length of the
/// record, the type, and the parameters with at least one zero behind them up to a multiple of
/// eight.
pub open spec fn record_of(target: TargetView) -> Result<Seq<u8>, DmError> {
    let (start, sectors) = match target {
        TargetView::Linear { logical_start, sectors, .. } => (logical_start, sectors),
        TargetView::Zero { logical_start, sectors } => (logical_start, sectors),
    };
    let parameters = utf8(target_parameters(target));
    match aligned8(parameters.len() + 41int) {
        Err(e) => Err(e),
        Ok(length) => match c_field(target_type(target), 16) {
            Err(e) => Err(e),
            Ok(kind) => Ok(
                le64_bytes(start) + le64_bytes(sectors) + le32_bytes(0) + le32_bytes(
                    length as u32,
                ) + kind + parameters + zeros(length - 40 - parameters.len()),
            ),
        },
    }
}

/// The records of a table.
pub open spec fn record_reader(targets: Seq<TargetView>) -> spec_fn(int) -> Result<
    Seq<u8>,
    DmError,
> {
    |i: int| record_of(targets[i])
}

/// The bytes of a table.
pub open spec fn table_of(targets: Seq<TargetView>) -> Result<Seq<u8>, DmError> {
    if targets.len() == 0 {
        Err(DmError::NoTargets)
    } else {
        match collected(record_reader(targets), targets.len() as int) {
            Err(e) => Err(e),
            Ok(records) => if records.flatten().len() > usize::MAX {
                Err(DmError::TableOverflow)
            } else {
                Ok(records.flatten())
            },
        }
    }
}

/// The bytes of a target in a table.
fn encode_target(target: &DmTarget) -> (r: Result<Vec<u8>, DmError>)
    ensures
        record_of(target@) == (match r {
            Ok(record) => Ok(record@),
            Err(e) => Err(e),
        }),
{
    let ghost view = target@;
    let mut parameters = String::new();
    assert(parameters@ =~= Seq::<char>::empty());
    let (start, sectors, kind) = match target {
        DmTarget::Linear { logical_start, sectors, devnum, physical_start } => {
            parameters = cat(devnum.as_str(), " ");
            push_decimal(&mut parameters, *physical_start);
            (*logical_start, *sectors, "linear")
        },
        DmTarget::Zero { logical_start, sectors } => (*logical_start, *sectors, "zero"),
    };
    assert(parameters@ == target_parameters(view));
    assert(kind@ == target_type(view));
    let bytes = parameters.as_str().as_bytes();
    if bytes.len() > usize::MAX - 41 {
        return Err(DmError::TargetOverflow);
    }
    let length = align_to_8(bytes.len() + 41)?;
    let field = set_c_field(kind, DM_TARGET_TYPE_LEN)?;
    let mut record: Vec<u8> = Vec::new();
    push_le_u64(&mut record, start);
    assert(record@ =~= le64_bytes(start));
    push_le_u64(&mut record, sectors);
    push_le_u32(&mut record, 0);
    push_le_u32(&mut record, length as u32);
    push_bytes(&mut record, field.as_slice());
    push_bytes(&mut record, bytes);
    push_zeros(&mut record, length - 40 - bytes.len());
    Ok(record)
}

/// The bytes of a table.
pub fn encode_targets(targets: &[DmTarget]) -> (r: Result<Vec<u8>, DmError>)
    ensures
        table_of(target_views(targets@)) == (match r {
            Ok(table) => Ok(table@),
            Err(e) => Err(e),
        }),
{
    if targets.len() == 0 {
        return Err(DmError::NoTargets);
    }
    let ghost views = target_views(targets@);
    let ghost reader = record_reader(views);
    let mut output: Vec<u8> = Vec::new();
    let mut overflow = false;
    let mut i: usize = 0;
    let ghost mut records: Seq<Seq<u8>> = Seq::empty();
    assert(records.flatten() =~= Seq::<u8>::empty());
    while i < targets.len()
        invariant
            i <= targets@.len(),
            targets@.len() > 0,
            views == target_views(targets@),
            reader == record_reader(views),
            collected(reader, i as int) == Ok::<Seq<Seq<u8>>, DmError>(records),
            !overflow ==> output@ == records.flatten(),
            overflow ==> records.flatten().len() > usize::MAX,
        decreases targets@.len() - i,
    {
        assert(views[i as int] == targets@[i as int]@);
        match encode_target(&targets[i]) {
            Err(e) => {
                proof {
                    lemma_collected_failure(reader, i + 1, targets@.len() as int);
                }
                return Err(e);
            },
            Ok(record) => {
                proof {
                    records.lemma_flatten_push(record@);
                    records = records.push(record@);
                }
                if !overflow {
                    if record.len() > usize::MAX - output.len() {
                        overflow = true;
                    } else {
                        push_bytes(&mut output, record.as_slice());
                    }
                }
            },
        }
        i += 1;
    }
    if overflow {
        return Err(DmError::TableOverflow);
    }
    assert(output.len() <= usize::MAX);
    Ok(output)
}

/// What a request says of a device.
#[derive(Debug)]
pub struct DmRequest<'a> {
    pub name: &'a str,
    pub uuid: &'a str,
    pub flags: u32,
    pub target_count: u32,
}

/// What the fixed part of an answer says.
#[derive(Clone, Copy, Debug, PartialEq, Eq, Structural)]
pub struct DmReply {
    pub major: u32,
    pub minor: u32,
    pub patch: u32,
    pub flags: u32,
    pub dev: u64,
}

/// The bytes of a request in version 4.0.0 of the protocol: the fixed part and the data.
pub open spec fn request_bytes(
    name: Seq<char>,
    uuid: Seq<char>,
    flags: u32,
    target_count: u32,
    data: Seq<u8>,
) -> Result<Seq<u8>, DmError> {
    match c_field(name, 128) {
        Err(e) => Err(e),
        Ok(name_field) => match c_field(uuid, 129) {
            Err(e) => Err(e),
            Ok(uuid_field) => if 312 + data.len() > u32::MAX {
                Err(DmError::TooLarge)
            } else {
                Ok(
                    le32_bytes(4) + le32_bytes(0) + le32_bytes(0) + le32_bytes(
                        (312 + data.len()) as u32,
                    ) + le32_bytes(312) + le32_bytes(target_count) + le32_bytes(0) + le32_bytes(
                        flags,
                    ) + le32_bytes(0) + le32_bytes(0) + le64_bytes(0) + name_field + uuid_field
                        + zeros(7) + data,
                )
            },
        },
    }
}

/// The bytes of a request.
pub fn encode_request(request: &DmRequest<'_>, data: &[u8]) -> (r: Result<Vec<u8>, DmError>)
    ensures
        request_bytes(
            request.name@,
            request.uuid@,
            request.flags,
            request.target_count,
            data@,
        ) == (match r {
            Ok(bytes) => Ok(bytes@),
            Err(e) => Err(e),
        }),
        r matches Ok(bytes) ==> bytes@.len() == 312 + data@.len(),
{
    let name = set_c_field(request.name, DM_NAME_LEN)?;
    let uuid = set_c_field(request.uuid, DM_UUID_LEN)?;
    if data.len() > 0xffff_ffff - 312 {
        return Err(DmError::TooLarge);
    }
    let mut out: Vec<u8> = Vec::new();
    push_le_u32(&mut out, 4);
    assert(out@ =~= le32_bytes(4));
    push_le_u32(&mut out, 0);
    push_le_u32(&mut out, 0);
    push_le_u32(&mut out, 312 + data.len() as u32);
    push_le_u32(&mut out, 312);
    push_le_u32(&mut out, request.target_count);
    push_le_u32(&mut out, 0);
    push_le_u32(&mut out, request.flags);
    push_le_u32(&mut out, 0);
    push_le_u32(&mut out, 0);
    push_le_u64(&mut out, 0);
    push_bytes(&mut out, name.as_slice());
    push_bytes(&mut out, uuid.as_slice());
    push_zeros(&mut out, 7);
    push_bytes(&mut out, data);
    Ok(out)
}

/// What the fixed part of an answer says.
pub open spec fn reply_of(bytes: Seq<u8>) -> DmReply {
    DmReply {
        major: le32(bytes, 0),
        minor: le32(bytes, 4),
        patch: le32(bytes, 8),
        flags: le32(bytes, 28),
        dev: le64(bytes, 40),
    }
}

/// What the fixed part of an answer says.
pub fn decode_reply(bytes: &[u8]) -> (r: DmReply)
    requires
        bytes@.len() >= DM_IOCTL_SIZE,
    ensures
        r == reply_of(bytes@),
{
    DmReply {
        major: le_u32(bytes, 0),
        minor: le_u32(bytes, 4),
        patch: le_u32(bytes, 8),
        flags: le_u32(bytes, 28),
        dev: le_u64(bytes, 40),
    }
}

/// Checks that the device mapper speaks version four of the protocol.
pub fn check_version(reply: DmReply) -> (r: Result<(), DmError>)
    ensures
        r == (if reply.major == 4 {
            Ok(())
        } else {
            Err(DmError::Version(reply.major, reply.minor, reply.patch))
        }),
{
    if reply.major != 4 {
        return Err(DmError::Version(reply.major, reply.minor, reply.patch));
    }
    Ok(())
}

/// How far the making of a mapping has come: what was asked for last.
#[derive(Clone, Copy, Debug, PartialEq, Eq, Structural)]
pub enum CreateStage {
    Create,
    Load,
    Resume,
    Status,
    Node,
}

/// What is to be done next for a mapping.
#[derive(Debug)]
pub enum CreateAction {
    /// Send the request of a command, and go on at the stage with the answer.
    Send { stage: CreateStage, command: u32, request: Vec<u8> },
    /// Make the node of the device at a path, and go on with what came of it.
    MakeNode { path: String, dev: u64 },
    /// The mapping is made.
    Mapped(Mapping),
    /// Give up, after removing the device where it was made.
    Fail { error: DmError, remove: bool },
}

/// What an action is to the one that performs it.
pub enum ActionView {
    Send { stage: CreateStage, command: u32, request: Seq<u8> },
    MakeNode { path: Seq<char>, dev: u64 },
    Mapped(MappingView),
    Fail { error: DmError, remove: bool },
}

impl View for CreateAction {
    type V = ActionView;

    open spec fn view(&self) -> ActionView {
        match self {
            CreateAction::Send { stage, command, request } => ActionView::Send {
                stage: *stage,
                command: *command,
                request: request@,
            },
            CreateAction::MakeNode { path, dev } => ActionView::MakeNode { path: path@, dev: *dev },
            CreateAction::Mapped(mapping) => ActionView::Mapped(mapping@),
            CreateAction::Fail { error, remove } => ActionView::Fail {
                error: *error,
                remove: *remove,
            },
        }
    }
}

/// Sending a request, or giving up where it cannot be made.
pub open spec fn send_or_fail(
    stage: CreateStage,
    command: u32,
    request: Result<Seq<u8>, DmError>,
) -> ActionView {
    match request {
        Ok(request) => ActionView::Send { stage, command, request },
        Err(error) => ActionView::Fail { error, remove: stage != CreateStage::Create },
    }
}

/// Whether a state is that of a device in use, read-only and not suspended.
pub open spec fn active_read_only(flags: u32) -> bool {
    &&& flags & DM_ACTIVE_PRESENT_FLAG != 0
    &&& flags & DM_READONLY_FLAG != 0
    &&& flags & DM_SUSPEND_FLAG == 0
}

/// The mapping that is made for a plan.
pub open spec fn mapping_of(plan: PlanView) -> MappingView {
    MappingView {
        base_name: plan.base_name,
        uuid: plan.dm_uuid,
        path: node_path(plan.dm_name),
    }
}

/// The first action for a mapping: nothing is asked of the device mapper where the names are too
/// long, or where the node is there already.
pub open spec fn first_action(plan: PlanView, node_exists: bool) -> ActionView {
    if utf8(plan.dm_name).len() >= 128 || utf8(plan.dm_uuid).len() >= 129 {
        ActionView::Fail { error: DmError::NameTooLong, remove: false }
    } else if node_exists {
        ActionView::Fail { error: DmError::NodeExists, remove: false }
    } else {
        send_or_fail(
            CreateStage::Create,
            DM_DEV_CREATE_CMD,
            request_bytes(plan.dm_name, plan.dm_uuid, 0, 0, Seq::empty()),
        )
    }
}

/// The action that follows the outcome of the one at `stage`: a device is made, its table loaded
/// read-only, the device resumed and its state asked for. Only a device in use and read-only gets
/// a node. `created` is the number of the device as it was made.
pub open spec fn next_action(
    plan: PlanView,
    stage: CreateStage,
    created: u64,
    reply: Option<DmReply>,
) -> ActionView {
    match reply {
        None => ActionView::Fail {
            error: DmError::Refused,
            remove: stage != CreateStage::Create,
        },
        Some(reply) => match stage {
            CreateStage::Create => match table_of(plan.targets) {
                Err(error) => ActionView::Fail { error, remove: true },
                Ok(table) => send_or_fail(
                    CreateStage::Load,
                    DM_TABLE_LOAD_CMD,
                    request_bytes(
                        Seq::empty(),
                        plan.dm_uuid,
                        DM_READONLY_FLAG,
                        plan.targets.len() as u32,
                        table,
                    ),
                ),
            },
            CreateStage::Load => send_or_fail(
                CreateStage::Resume,
                DM_DEV_SUSPEND_CMD,
                request_bytes(Seq::empty(), plan.dm_uuid, DM_READONLY_FLAG, 0, Seq::empty()),
            ),
            CreateStage::Resume => send_or_fail(
                CreateStage::Status,
                DM_DEV_STATUS_CMD,
                request_bytes(Seq::empty(), plan.dm_uuid, 0, 0, Seq::empty()),
            ),
            CreateStage::Status => if !active_read_only(reply.flags) {
                ActionView::Fail { error: DmError::NotReadOnly, remove: true }
            } else if reply.dev != created && created != 0 {
                ActionView::Fail { error: DmError::DeviceChanged, remove: true }
            } else {
                ActionView::MakeNode { path: node_path(plan.dm_name), dev: reply.dev }
            },
            CreateStage::Node => ActionView::Mapped(mapping_of(plan)),
        },
    }
}

/// Sends a request, or gives up where it cannot be made.
fn send(stage: CreateStage, command: u32, request: &DmRequest<'_>, data: &[u8]) -> (r: CreateAction)
    ensures
        r@ == send_or_fail(
            stage,
            command,
            request_bytes(
                request.name@,
                request.uuid@,
                request.flags,
                request.target_count,
                data@,
            ),
        ),
{
    match encode_request(request, data) {
        Ok(request) => CreateAction::Send { stage, command, request },
        Err(error) => CreateAction::Fail { error, remove: !matches!(stage, CreateStage::Create) },
    }
}

/// The first action for a mapping, given whether there is something at the path of its node.
pub fn start_create(plan: &MappingPlan, node_exists: bool) -> (r: CreateAction)
    ensures
        r@ == first_action(plan@, node_exists),
{
    if plan.dm_name.as_str().as_bytes().len() >= DM_NAME_LEN
        || plan.dm_uuid.as_str().as_bytes().len() >= DM_UUID_LEN {
        return CreateAction::Fail { error: DmError::NameTooLong, remove: false };
    }
    if node_exists {
        return CreateAction::Fail { error: DmError::NodeExists, remove: false };
    }
    let none: Vec<u8> = Vec::new();
    assert(none@ =~= Seq::<u8>::empty());
    send(
        CreateStage::Create,
        DM_DEV_CREATE_CMD,
        &DmRequest {
            name: plan.dm_name.as_str(),
            uuid: plan.dm_uuid.as_str(),
            flags: 0,
            target_count: 0,
        },
        none.as_slice(),
    )
}

/// The mapping that is made for a plan.
pub fn made_mapping(plan: &MappingPlan) -> (m: Mapping)
    ensures
        m@ == mapping_of(plan@),
{
    Mapping {
        base_name: owned(plan.base_name.as_str()),
        uuid: owned(plan.dm_uuid.as_str()),
        path: path_of_node(plan.dm_name.as_str()),
    }
}

/// The action that follows the outcome of the one at `stage`.
pub fn create_read_only(
    plan: &MappingPlan,
    stage: CreateStage,
    created: u64,
    reply: Option<DmReply>,
) -> (r: CreateAction)
    ensures
        r@ == next_action(plan@, stage, created, reply),
{
    let reply = match reply {
        Some(reply) => reply,
        None => return CreateAction::Fail {
            error: DmError::Refused,
            remove: !matches!(stage, CreateStage::Create),
        },
    };
    let none: Vec<u8> = Vec::new();
    assert(none@ =~= Seq::<u8>::empty());
    let unnamed = String::new();
    assert(unnamed@ =~= Seq::<char>::empty());
    let uuid = plan.dm_uuid.as_str();
    match stage {
        CreateStage::Create => match encode_targets(plan.targets.as_slice()) {
            Err(error) => CreateAction::Fail { error, remove: true },
            Ok(table) => send(
                CreateStage::Load,
                DM_TABLE_LOAD_CMD,
                &DmRequest {
                    name: unnamed.as_str(),
                    uuid,
                    flags: DM_READONLY_FLAG,
                    target_count: plan.targets.len() as u32,
                },
                table.as_slice(),
            ),
        },
        CreateStage::Load => send(
            CreateStage::Resume,
            DM_DEV_SUSPEND_CMD,
            &DmRequest {
                name: unnamed.as_str(),
                uuid,
                flags: DM_READONLY_FLAG,
                target_count: 0,
            },
            none.as_slice(),
        ),
        CreateStage::Resume => send(
            CreateStage::Status,
            DM_DEV_STATUS_CMD,
            &DmRequest { name: unnamed.as_str(), uuid, flags: 0, target_count: 0 },
            none.as_slice(),
        ),
        CreateStage::Status => {
            if reply.flags & DM_ACTIVE_PRESENT_FLAG == 0 || reply.flags & DM_READONLY_FLAG == 0
                || reply.flags & DM_SUSPEND_FLAG != 0 {
                CreateAction::Fail { error: DmError::NotReadOnly, remove: true }
            } else if reply.dev != created && created != 0 {
                CreateAction::Fail { error: DmError::DeviceChanged, remove: true }
            } else {
                CreateAction::MakeNode { path: path_of_node(plan.dm_name.as_str()), dev: reply.dev }
            }
        },
        CreateStage::Node => CreateAction::Mapped(made_mapping(plan)),
    }
}

/// The request that removes a device.
pub fn remove_request(uuid: &str) -> (r: Result<Vec<u8>, DmError>)
    ensures
        request_bytes(Seq::empty(), uuid@, 0, 0, Seq::empty()) == (match r {
            Ok(bytes) => Ok(bytes@),
            Err(e) => Err(e),
        }),
{
    let none: Vec<u8> = Vec::new();
    assert(none@ =~= Seq::<u8>::empty());
    let unnamed = String::new();
    assert(unnamed@ =~= Seq::<char>::empty());
    encode_request(
        &DmRequest { name: unnamed.as_str(), uuid, flags: 0, target_count: 0 },
        none.as_slice(),
    )
}

/// No node is made for a device that is not in use, can be written to, or is suspended; and none
/// for a device whose number is not the one that was made, where that one is known. The node that
/// is made is that of the mapping.
pub proof fn law_nodes_are_read_only(
    plan: PlanView,
    stage: CreateStage,
    created: u64,
    reply: Option<DmReply>,
)
    ensures
        next_action(plan, stage, created, reply) matches ActionView::MakeNode { path, dev } ==> {
            &&& stage == CreateStage::Status
            &&& reply matches Some(answer) && active_read_only(answer.flags) && answer.dev == dev
            &&& created == 0 || created == dev
            &&& path == mapping_of(plan).path
        },
{
}

/// A mapping is handed back only after its node was made, with the identifier and the path of its
/// plan.
pub proof fn law_mappings_are_those_planned(
    plan: PlanView,
    stage: CreateStage,
    created: u64,
    reply: Option<DmReply>,
)
    ensures
        next_action(plan, stage, created, reply) matches ActionView::Mapped(mapping) ==> {
            &&& stage == CreateStage::Node
            &&& reply is Some
            &&& mapping.base_name == plan.base_name
            &&& mapping.uuid == plan.dm_uuid
            &&& mapping.path == "/dev/mapper/"@ + plan.dm_name
        },
{
}

/// A device that was made is removed whenever a later step fails, and only then.
pub proof fn law_failures_remove_the_device(
    plan: PlanView,
    stage: CreateStage,
    created: u64,
    reply: Option<DmReply>,
)
    ensures
        next_action(plan, stage, created, reply) matches ActionView::Fail { remove, .. }
            ==> remove == !(stage == CreateStage::Create && reply is None),
{
}

/// Where the node of a mapping with names that fit is there already, the device mapper is asked
/// for nothing, and the failure is that of something that exists.
pub proof fn law_existing_nodes_are_left_alone(plan: PlanView)
    requires
        utf8(plan.dm_name).len() < 128,
        utf8(plan.dm_uuid).len() < 129,
    ensures
        first_action(plan, true) == (ActionView::Fail {
            error: DmError::NodeExists,
            remove: false,
        }),
        DmError::NodeExists.what_kind() == ErrorKind::AlreadyExists,
{
}

/// A number keeps its value behind two double words and a word, whatever follows it.
proof fn lemma_third_word(
    first: Seq<u8>,
    second: Seq<u8>,
    third: Seq<u8>,
    n: u32,
    kind: Seq<u8>,
    parameters: Seq<u8>,
    padding: Seq<u8>,
)
    requires
        first.len() == 8,
        second.len() == 8,
        third.len() == 4,
    ensures
        ({
            let record = first + second + third + le32_bytes(n) + kind + parameters + padding;
            &&& le32(record, 20) == n
            &&& record.len() == 24 + kind.len() + parameters.len() + padding.len()
        }),
{
    law_word_bytes_round_trip(n);
    let front = first + second + third;
    let rest = kind + parameters + padding;
    lemma_le32_in(front, le32_bytes(n), rest);
    assert(front + le32_bytes(n) + rest =~= first + second + third + le32_bytes(n) + kind
        + parameters + padding);
}

/// The records of a table are of whole eight bytes, and each tells its own length.
pub proof fn law_records_are_aligned(target: TargetView)
    ensures
        record_of(target) matches Ok(record) ==> {
            &&& record.len() % 8 == 0
            &&& record.len() <= u32::MAX ==> le32(record, 20) == record.len()
        },
{
    if let Ok(record) = record_of(target) {
        let (start, sectors) = match target {
            TargetView::Linear { logical_start, sectors, .. } => (logical_start, sectors),
            TargetView::Zero { logical_start, sectors } => (logical_start, sectors),
        };
        let parameters = utf8(target_parameters(target));
        let length = aligned8(parameters.len() + 41int)->Ok_0;
        let kind = c_field(target_type(target), 16)->Ok_0;
        law_double_word_bytes_round_trip(start);
        law_double_word_bytes_round_trip(sectors);
        law_word_bytes_round_trip(0);
        lemma_third_word(
            le64_bytes(start),
            le64_bytes(sectors),
            le32_bytes(0),
            length as u32,
            kind,
            parameters,
            zeros(length - 40 - parameters.len()),
        );
    }
}

/// The word that stands at a place.
spec fn word_is(bytes: Seq<u8>, at: int, v: u32) -> bool {
    forall|k: int| 0 <= k < 4 ==> #[trigger] bytes[at + k] == le32_bytes(v)[k]
}

proof fn lemma_word_is(bytes: Seq<u8>, at: int, v: u32)
    requires
        word_is(bytes, at, v),
    ensures
        le32(bytes, at) == v,
{
    law_word_bytes_round_trip(v);
    assert(bytes[at + 0] == le32_bytes(v)[0]);
    assert(bytes[at + 1] == le32_bytes(v)[1]);
    assert(bytes[at + 2] == le32_bytes(v)[2]);
    assert(bytes[at + 3] == le32_bytes(v)[3]);
}

/// A request tells the device mapper what is asked of it: the version of the protocol, its own length
/// and where its data starts, the number of targets, the flags, the name and the identity of the
/// device, and the data behind them.
pub proof fn law_requests_tell_what_they_ask(
    name: Seq<char>,
    uuid: Seq<char>,
    flags: u32,
    target_count: u32,
    data: Seq<u8>,
)
    ensures
        request_bytes(name, uuid, flags, target_count, data) matches Ok(bytes) ==> {
            &&& bytes.len() == 312 + data.len()
            &&& le32(bytes, 0) == 4
            &&& le32(bytes, 12) == bytes.len()
            &&& le32(bytes, 16) == 312
            &&& le32(bytes, 20) == target_count
            &&& le32(bytes, 28) == flags
            &&& bytes.subrange(48, 48int + utf8(name).len()) == utf8(name)
            &&& utf8(name).len() < 128 && bytes[48int + utf8(name).len()] == 0
            &&& bytes.subrange(176, 176int + utf8(uuid).len()) == utf8(uuid)
            &&& utf8(uuid).len() < 129 && bytes[176int + utf8(uuid).len()] == 0
            &&& bytes.skip(312) == data
        },
{
    if let Ok(bytes) = request_bytes(name, uuid, flags, target_count, data) {
        let n = utf8(name);
        let u = utf8(uuid);
        law_word_bytes_round_trip(4);
        law_word_bytes_round_trip(0);
        law_word_bytes_round_trip(312);
        law_word_bytes_round_trip(flags);
        law_word_bytes_round_trip(target_count);
        law_word_bytes_round_trip((312 + data.len()) as u32);
        law_double_word_bytes_round_trip(0);
        let name_field = n + zeros(128 - n.len());
        let uuid_field = u + zeros(129 - u.len());
        let front = le32_bytes(4) + le32_bytes(0) + le32_bytes(0) + le32_bytes(
            (312 + data.len()) as u32,
        ) + le32_bytes(312) + le32_bytes(target_count) + le32_bytes(0) + le32_bytes(flags)
            + le32_bytes(0) + le32_bytes(0) + le64_bytes(0);
        assert(front.len() == 48);
        assert(bytes == front + name_field + uuid_field + zeros(7) + data);
        assert(name_field.len() == 128 && uuid_field.len() == 129);
        assert forall|i: int| 0 <= i < 48 implies #[trigger] bytes[i] == front[i] by {}
        assert(word_is(front, 0, 4));
        assert(word_is(front, 12, (312 + data.len()) as u32));
        assert(word_is(front, 16, 312));
        assert(word_is(front, 20, target_count));
        assert(word_is(front, 28, flags));
        assert(word_is(bytes, 0, 4));
        assert(word_is(bytes, 12, (312 + data.len()) as u32));
        assert(word_is(bytes, 16, 312));
        assert(word_is(bytes, 20, target_count));
        assert(word_is(bytes, 28, flags));
        lemma_word_is(bytes, 0, 4);
        lemma_word_is(bytes, 12, (312 + data.len()) as u32);
        lemma_word_is(bytes, 16, 312);
        lemma_word_is(bytes, 20, target_count);
        lemma_word_is(bytes, 28, flags);
        assert(bytes.subrange(48, 48int + n.len()) =~= n);
        assert(bytes[48int + n.len()] == name_field[n.len() as int]);
        assert(bytes.subrange(176, 176int + u.len()) =~= u);
        assert(bytes[176int + u.len()] == uuid_field[u.len() as int]);
        assert(bytes.skip(312) =~= data);
    }
}

/// The record of a target tells where it starts, how many sectors it has, its own length, its kind,
/// and its parameters with a zero behind them: a linear target its device and the first sector there.
pub proof fn law_records_tell_their_targets(target: TargetView)
    ensures
        record_of(target) matches Ok(bytes) ==> {
            let told = match target {
                TargetView::Linear { devnum, physical_start, .. } => devnum + seq![' ']
                    + decimal(physical_start as int),
                TargetView::Zero { .. } => Seq::empty(),
            };
            let kind = match target {
                TargetView::Linear { .. } => utf8("linear"@),
                TargetView::Zero { .. } => utf8("zero"@),
            };
            let (start, sectors) = match target {
                TargetView::Linear { logical_start, sectors, .. } => (logical_start, sectors),
                TargetView::Zero { logical_start, sectors } => (logical_start, sectors),
            };
            &&& le64(bytes, 0) == start
            &&& le64(bytes, 8) == sectors
            &&& bytes.len() <= u32::MAX ==> le32(bytes, 20) == bytes.len()
            &&& bytes.subrange(24, 24int + kind.len()) == kind
            &&& bytes[24int + kind.len()] == 0
            &&& bytes.subrange(40, 40int + utf8(told).len()) == utf8(told)
            &&& 40int + utf8(told).len() < bytes.len()
            &&& bytes[40int + utf8(told).len()] == 0
        },
{
    reveal_strlit(" ");
    assert(" "@ =~= seq![' ']);
    if let Ok(bytes) = record_of(target) {
        let (start, sectors) = match target {
            TargetView::Linear { logical_start, sectors, .. } => (logical_start, sectors),
            TargetView::Zero { logical_start, sectors } => (logical_start, sectors),
        };
        let parameters = utf8(target_parameters(target));
        let kind = utf8(target_type(target));
        let length = aligned8(parameters.len() + 41int)->Ok_0;
        let kind_field = kind + zeros(16 - kind.len());
        law_double_word_bytes_round_trip(start);
        law_double_word_bytes_round_trip(sectors);
        law_word_bytes_round_trip(0);
        law_word_bytes_round_trip(length as u32);
        let front = le64_bytes(start) + le64_bytes(sectors) + le32_bytes(0) + le32_bytes(
            length as u32,
        );
        assert(front.len() == 24);
        let tail = zeros(length - 40 - parameters.len());
        assert(tail.len() >= 1);
        assert(bytes == front + kind_field + parameters + tail);
        assert(bytes.len() == length);
        assert forall|i: int| 0 <= i < 24 implies #[trigger] bytes[i] == front[i] by {}
        let a = le64_bytes(start);
        let b = le64_bytes(sectors);
        assert forall|k: int| 0 <= k < 8 implies #[trigger] bytes[0 + k] == a[k] by {
            assert(front[k] == a[k]);
        }
        assert forall|k: int| 0 <= k < 8 implies #[trigger] bytes[8 + k] == b[k] by {
            assert(front[8 + k] == b[k]);
        }
        lemma_double_word(bytes, 0, a);
        lemma_double_word(bytes, 8, b);
        assert(word_is(front, 20, length as u32));
        assert(word_is(bytes, 20, length as u32));
        lemma_word_is(bytes, 20, length as u32);
        assert(bytes.subrange(24, 24int + kind.len()) =~= kind);
        assert(bytes[24int + kind.len()] == kind_field[kind.len() as int]);
        assert(bytes.subrange(40, 40int + parameters.len()) =~= parameters);
        assert(bytes[40int + parameters.len()] == tail[0]);
    }
}

proof fn lemma_double_word(s: Seq<u8>, at: int, word: Seq<u8>)
    requires
        0 <= at,
        at + 8 <= s.len(),
        word.len() == 8,
        forall|k: int| 0 <= k < 8 ==> #[trigger] s[at + k] == word[k],
    ensures
        le64(s, at) == le64(word, 0),
{
    assert(s[at + 0] == word[0]);
    assert(s[at + 1] == word[1]);
    assert(s[at + 2] == word[2]);
    assert(s[at + 3] == word[3]);
    assert(s[at + 4] == word[4]);
    assert(s[at + 5] == word[5]);
    assert(s[at + 6] == word[6]);
    assert(s[at + 7] == word[7]);
}

/// A mapping is made step by step, where the device mapper does what it is asked: a device of the
/// name and the identity of the plan is created, a read-only table of the targets is loaded into it,
/// it is resumed, and its state is asked for; a device that is in use and read-only gets its node.
pub proof fn law_mappings_are_made_step_by_step(plan: PlanView, created: u64, reply: DmReply)
    requires
        utf8(plan.dm_name).len() < 128,
        utf8(plan.dm_uuid).len() < 129,
    ensures
        first_action(plan, false) matches ActionView::Send { stage, command, request } ==> {
            &&& stage == CreateStage::Create
            &&& command == 3
            &&& request_bytes(plan.dm_name, plan.dm_uuid, 0, 0, Seq::empty()) == Ok::<
                Seq<u8>,
                DmError,
            >(request)
        },
        next_action(plan, CreateStage::Create, created, Some(reply)) matches ActionView::Send {
            stage,
            command,
            request,
        } ==> {
            &&& stage == CreateStage::Load
            &&& command == 9
            &&& table_of(plan.targets) matches Ok(table) && request_bytes(
                Seq::empty(),
                plan.dm_uuid,
                1,
                plan.targets.len() as u32,
                table,
            ) == Ok::<Seq<u8>, DmError>(request)
        },
        next_action(plan, CreateStage::Load, created, Some(reply)) matches ActionView::Send {
            stage,
            command,
            request,
        } ==> {
            &&& stage == CreateStage::Resume
            &&& command == 6
            &&& request_bytes(Seq::empty(), plan.dm_uuid, 1, 0, Seq::empty()) == Ok::<
                Seq<u8>,
                DmError,
            >(request)
        },
        next_action(plan, CreateStage::Resume, created, Some(reply)) matches ActionView::Send {
            stage,
            command,
            request,
        } ==> {
            &&& stage == CreateStage::Status
            &&& command == 7
            &&& request_bytes(Seq::empty(), plan.dm_uuid, 0, 0, Seq::empty()) == Ok::<
                Seq<u8>,
                DmError,
            >(request)
        },
        reply.flags & 0x20 != 0 && reply.flags & 1 != 0 && reply.flags & 2 == 0 && (reply.dev
            == created || created == 0) ==> next_action(
            plan,
            CreateStage::Status,
            created,
            Some(reply),
        ) == (ActionView::MakeNode { path: "/dev/mapper/"@ + plan.dm_name, dev: reply.dev }),
        next_action(plan, CreateStage::Node, created, Some(reply)) is Mapped,
        !utf8(plan.dm_name).contains(0u8) && !utf8(plan.dm_uuid).contains(0u8) ==> first_action(
            plan,
            false,
        ) is Send && next_action(plan, CreateStage::Load, created, Some(reply)) is Send
            && next_action(plan, CreateStage::Resume, created, Some(reply)) is Send,
{
    lemma_no_text();
}

proof fn lemma_no_text()
    ensures
        utf8(Seq::<char>::empty()) == Seq::<u8>::empty(),
{
    vstd::utf8::is_ascii_chars_encode_utf8(Seq::<char>::empty());
    assert(utf8(Seq::<char>::empty()) =~= Seq::<u8>::empty());
}

/// An answer of the device mapper is read from the places that the protocol has for it.
pub proof fn law_replies_are_read(bytes: Seq<u8>)
    ensures
        ({
            let reply = reply_of(bytes);
            &&& reply.major == le32(bytes, 0)
            &&& reply.minor == le32(bytes, 4)
            &&& reply.patch == le32(bytes, 8)
            &&& reply.flags == le32(bytes, 28)
            &&& reply.dev == le64(bytes, 40)
        }),
{
}

} // verus!
