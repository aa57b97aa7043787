//! How the USB function that lends disks is added to a gadget and taken from it.
use vstd::prelude::*;
use vstd::string::*;

use crate::errors::{ErrorKind, Fault, is_fault};
use crate::gadget::{
    lun_dir, mass_storage_config_link, mass_storage_function_dir, rebind_after_error,
    start_decision, taken, MassStorageStart, UmsState, MAX_UMS_LUNS,
};
use crate::text::{cat, decimal, owned};

verus! {

/// A change of the file system.
#[derive(Debug)]
pub enum FsOp {
    CreateDir(String),
    Write { path: String, text: &'static str },
    Symlink { original: String, link: String },
    /// A file that is not there is as good as removed.
    RemoveFile(String),
    /// A directory that is not there is as good as removed.
    RemoveDir(String),
}

/// A change of the file system, as plain values.
pub enum OpView {
    CreateDir(Seq<char>),
    Write { path: Seq<char>, text: Seq<char> },
    Symlink { original: Seq<char>, link: Seq<char> },
    RemoveFile(Seq<char>),
    RemoveDir(Seq<char>),
}

impl View for FsOp {
    type V = OpView;

    open spec fn view(&self) -> OpView {
        match self {
            FsOp::CreateDir(path) => OpView::CreateDir(path@),
            FsOp::Write { path, text } => OpView::Write { path: path@, text: text@ },
            FsOp::Symlink { original, link } => OpView::Symlink {
                original: original@,
                link: link@,
            },
            FsOp::RemoveFile(path) => OpView::RemoveFile(path@),
            FsOp::RemoveDir(path) => OpView::RemoveDir(path@),
        }
    }
}

/// Changes of the file system, as plain values.
pub open spec fn ops(list: Seq<FsOp>) -> Seq<OpView> {
    list.map_values(|op: FsOp| op@)
}

/// The directory of the USB function.
pub open spec fn function_path(gadget: Seq<char>) -> Seq<char> {
    gadget + "/functions/mass_storage.pocketboot-ums"@
}

/// The link by which the configuration has the USB function.
pub open spec fn link_path(gadget: Seq<char>) -> Seq<char> {
    gadget + "/configs/c.1/mass_storage.pocketboot-ums"@
}

/// The directory of a unit.
pub open spec fn unit_path(function: Seq<char>, index: int) -> Seq<char> {
    function + "/lun."@ + decimal(index)
}

/// How a unit is set up: writable, no optical disk, and one that can be taken out.
pub open spec fn unit_settings(unit: Seq<char>) -> Seq<OpView> {
    seq![
        OpView::Write { path: unit + "/ro"@, text: "0"@ },
        OpView::Write { path: unit + "/cdrom"@, text: "0"@ },
        OpView::Write { path: unit + "/nofua"@, text: "0"@ },
        OpView::Write { path: unit + "/removable"@, text: "1"@ },
        OpView::Write { path: unit + "/inquiry_string"@, text: "pocketboot UMS"@ },
    ]
}

/// The making of the units from number 1 up to `n`.
pub open spec fn more_units(function: Seq<char>, n: int) -> Seq<OpView>
    decreases n,
{
    if n <= 1 {
        Seq::empty()
    } else {
        let unit = unit_path(function, n - 1);
        more_units(function, n - 1) + seq![OpView::CreateDir(unit)] + unit_settings(unit)
    }
}

/// The making of the USB function. The first unit is there as soon as the function is.
pub open spec fn creation(gadget: Seq<char>) -> Seq<OpView> {
    let function = function_path(gadget);
    seq![OpView::CreateDir(function)] + unit_settings(unit_path(function, 0)) + more_units(
        function,
        MAX_UMS_LUNS as int,
    ) + seq![OpView::Symlink { original: function, link: link_path(gadget) }]
}

/// The removal of the units below `n`, the last first, but for the first of all.
pub open spec fn fewer_units(function: Seq<char>, n: int) -> Seq<OpView>
    decreases n,
{
    if n <= 1 {
        Seq::empty()
    } else {
        seq![OpView::RemoveDir(unit_path(function, n - 1))] + fewer_units(function, n - 1)
    }
}

/// The removal of the USB function.
pub open spec fn removal(gadget: Seq<char>) -> Seq<OpView> {
    let function = function_path(gadget);
    seq![OpView::RemoveFile(link_path(gadget))] + fewer_units(function, MAX_UMS_LUNS as int)
        + seq![OpView::RemoveDir(function)]
}

fn push_op(list: &mut Vec<FsOp>, op: FsOp)
    ensures
        ops(final(list)@) == ops(old(list)@).push(op@),
{
    let ghost before = list@;
    list.push(op);
    assert(ops(list@) =~= ops(before).push(op@));
}

fn configure_mass_storage_lun(list: &mut Vec<FsOp>, unit: &str)
    ensures
        ops(final(list)@) == ops(old(list)@) + unit_settings(unit@),
{
    let ghost before = ops(list@);
    push_op(list, FsOp::Write { path: cat(unit, "/ro"), text: "0" });
    push_op(list, FsOp::Write { path: cat(unit, "/cdrom"), text: "0" });
    push_op(list, FsOp::Write { path: cat(unit, "/nofua"), text: "0" });
    push_op(list, FsOp::Write { path: cat(unit, "/removable"), text: "1" });
    push_op(list, FsOp::Write { path: cat(unit, "/inquiry_string"), text: "pocketboot UMS" });
    assert(ops(list@) =~= before + unit_settings(unit@));
}

/// What makes the USB function under the directory of a gadget, in order.
pub fn create_mass_storage_function(gadget_path: &str) -> (r: Vec<FsOp>)
    ensures
        ops(r@) == creation(gadget_path@),
{
    let function = mass_storage_function_dir(gadget_path);
    let mut list: Vec<FsOp> = Vec::new();
    assert(ops(list@) =~= Seq::<OpView>::empty());
    push_op(&mut list, FsOp::CreateDir(owned(function.as_str())));
    let first = lun_dir(function.as_str(), 0);
    configure_mass_storage_lun(&mut list, first.as_str());
    let ghost front = seq![OpView::CreateDir(function@)] + unit_settings(first@);
    assert(ops(list@) =~= front);
    let mut n: usize = 1;
    assert(front + more_units(function@, 1) =~= front);
    while n < MAX_UMS_LUNS
        invariant
            1 <= n <= MAX_UMS_LUNS,
            ops(list@) == front + more_units(function@, n as int),
        decreases MAX_UMS_LUNS - n,
    {
        let unit = lun_dir(function.as_str(), n);
        let ghost before = ops(list@);
        push_op(&mut list, FsOp::CreateDir(owned(unit.as_str())));
        configure_mass_storage_lun(&mut list, unit.as_str());
        assert(ops(list@) =~= front + more_units(function@, n + 1));
        n += 1;
    }
    let ghost before = ops(list@);
    let link = mass_storage_config_link(gadget_path);
    push_op(&mut list, FsOp::Symlink { original: function, link });
    assert(ops(list@) =~= creation(gadget_path@));
    list
}

/// Whether what has been made of the USB function is removed again, where change number `failed`
/// of its making failed: there is something to remove once its directory was made.
pub fn is_cleaned_up(failed: usize) -> (r: bool)
    ensures
        r == (failed > 0),
{
    failed > 0
}

/// What removes the USB function under the directory of a gadget, in order.
pub fn remove_mass_storage_function(gadget_path: &str) -> (r: Vec<FsOp>)
    ensures
        ops(r@) == removal(gadget_path@),
{
    let function = mass_storage_function_dir(gadget_path);
    let mut list: Vec<FsOp> = Vec::new();
    assert(ops(list@) =~= Seq::<OpView>::empty());
    push_op(&mut list, FsOp::RemoveFile(mass_storage_config_link(gadget_path)));
    let ghost front = seq![OpView::RemoveFile(link_path(gadget_path@))];
    assert(ops(list@) =~= front);
    let mut n: usize = MAX_UMS_LUNS;
    assert(front + fewer_units(function@, n as int) =~= ops(list@) + fewer_units(
        function@,
        n as int,
    ));
    while n > 1
        invariant
            1 <= n <= MAX_UMS_LUNS,
            ops(list@) + fewer_units(function@, n as int) == front + fewer_units(
                function@,
                MAX_UMS_LUNS as int,
            ),
        decreases n,
    {
        let ghost before = ops(list@);
        let unit = lun_dir(function.as_str(), n - 1);
        push_op(&mut list, FsOp::RemoveDir(unit));
        assert(before + fewer_units(function@, n as int) =~= ops(list@) + fewer_units(
            function@,
            n - 1,
        ));
        n -= 1;
    }
    assert(ops(list@) =~= ops(list@) + fewer_units(function@, 1));
    push_op(&mut list, FsOp::RemoveDir(function));
    assert(ops(list@) =~= removal(gadget_path@));
    list
}

/// Whether the failed removal of something that need not be there is a failure.
pub fn removal_failed(kind: ErrorKind) -> (r: bool)
    ensures
        r == (kind != ErrorKind::NotFound),
{
    kind != ErrorKind::NotFound
}

proof fn lemma_units_are_removed(function: Seq<char>, n: int, op: OpView)
    requires
        more_units(function, n).contains(op),
        op is CreateDir,
    ensures
        fewer_units(function, n).contains(OpView::RemoveDir(op->CreateDir_0)),
    decreases n,
{
    if n > 1 {
        let unit = unit_path(function, n - 1);
        let front = more_units(function, n - 1);
        let back = seq![OpView::CreateDir(unit)] + unit_settings(unit);
        assert(more_units(function, n) =~= front + back);
        let i = choose|i: int|
            0 <= i < more_units(function, n).len() && more_units(function, n)[i] == op;
        let list = fewer_units(function, n);
        if i < front.len() {
            assert(front[i] == op);
            lemma_units_are_removed(function, n - 1, op);
            let rest = fewer_units(function, n - 1);
            let j = choose|j: int|
                0 <= j < rest.len() && rest[j] == OpView::RemoveDir(op->CreateDir_0);
            assert(list[j + 1] == rest[j]);
        } else {
            assert(back[i - front.len()] == op);
            assert(op == OpView::CreateDir(unit));
            assert(list[0] == OpView::RemoveDir(unit));
        }
    }
}

/// All that the making of the USB function makes, its removal removes: each directory and the link,
/// the link first.
pub proof fn law_removal_undoes_creation(gadget: Seq<char>, op: OpView)
    requires
        creation(gadget).contains(op),
    ensures
        op matches OpView::CreateDir(dir) ==> removal(gadget).contains(OpView::RemoveDir(dir)),
        op matches OpView::Symlink { original, link } ==> removal(gadget)[0] == OpView::RemoveFile(
            link,
        ),
{
    let function = function_path(gadget);
    let n = MAX_UMS_LUNS as int;
    let first = seq![OpView::CreateDir(function)] + unit_settings(unit_path(function, 0));
    let units = more_units(function, n);
    let last = seq![OpView::Symlink { original: function, link: link_path(gadget) }];
    let all = creation(gadget);
    assert(all =~= first + units + last);
    let i = choose|i: int| 0 <= i < all.len() && all[i] == op;
    let gone = removal(gadget);
    let fewer = fewer_units(function, n);
    if op is CreateDir {
        if i < first.len() {
            assert(first[i] == op);
            assert(gone[gone.len() - 1] == OpView::RemoveDir(function));
        } else {
            assert(i < first.len() + units.len());
            assert(units[i - first.len()] == op);
            lemma_units_are_removed(function, n, op);
            let j = choose|j: int|
                0 <= j < fewer.len() && fewer[j] == OpView::RemoveDir(op->CreateDir_0);
            assert(gone[j + 1] == fewer[j]);
        }
    } else if op is Symlink {
        if i < first.len() {
            assert(first[i] == op);
        } else if i < first.len() + units.len() {
            lemma_units_have_no_links(function, n, i - first.len());
            assert(units[i - first.len()] == op);
        }
    }
}

proof fn lemma_units_have_no_links(function: Seq<char>, n: int, i: int)
    requires
        0 <= i < more_units(function, n).len(),
    ensures
        !(more_units(function, n)[i] is Symlink),
    decreases n,
{
    if n > 1 {
        let unit = unit_path(function, n - 1);
        let front = more_units(function, n - 1);
        let back = seq![OpView::CreateDir(unit)] + unit_settings(unit);
        assert(more_units(function, n) =~= front + back);
        if i < front.len() {
            lemma_units_have_no_links(function, n - 1, i);
        } else {
            assert(back[i - front.len()] == more_units(function, n)[i]);
        }
    }
}

/// What lending the first disk, or taking the last one back, begins with.
#[derive(Debug)]
pub enum Begin {
    /// There is nothing to do.
    Nothing,
    /// The disk goes behind a free unit of the USB function that is there.
    Attach { lun: usize },
    Refuse(Fault),
    /// The gadget is unbound, and the change is carried on.
    Unbind,
}

/// What is told where the gadget is not ready for a change.
pub open spec fn not_ready(begin: Begin, registered: bool, bound: bool) -> bool {
    if !registered {
        begin matches Begin::Refuse(fault) && is_fault(
            fault,
            ErrorKind::NotConnected,
            "USB gadget is not registered"@,
        )
    } else if !bound {
        begin matches Begin::Refuse(fault) && is_fault(
            fault,
            ErrorKind::NotConnected,
            "USB gadget is not bound"@,
        )
    } else {
        begin is Unbind
    }
}

fn ready(registered: bool, bound: bool) -> (r: Begin)
    ensures
        not_ready(r, registered, bound),
{
    if !registered {
        Begin::Refuse(
            Fault { kind: ErrorKind::NotConnected, text: owned("USB gadget is not registered") },
        )
    } else if !bound {
        Begin::Refuse(
            Fault { kind: ErrorKind::NotConnected, text: owned("USB gadget is not bound") },
        )
    } else {
        Begin::Unbind
    }
}

/// What lending a disk begins with, once the command that asked for it was answered.
pub fn activate_mass_storage(
    ums: &UmsState,
    backing: &str,
    registered: bool,
    bound: bool,
) -> (r: Begin)
    ensures
        match start_decision(ums.function_dir is Some, ums.disks(), backing@) {
            MassStorageStart::AlreadyStarted { lun } => r is Nothing,
            MassStorageStart::Attach { lun } => r == (Begin::Attach { lun }),
            MassStorageStart::Full => r matches Begin::Refuse(fault) && is_fault(
                fault,
                ErrorKind::Other,
                "no free UMS LUNs; maximum is 8"@,
            ),
            MassStorageStart::AfterResponse => not_ready(r, registered, bound),
        },
{
    match ums.start_mass_storage(backing) {
        MassStorageStart::AlreadyStarted { .. } => Begin::Nothing,
        MassStorageStart::Attach { lun } => Begin::Attach { lun },
        MassStorageStart::Full => Begin::Refuse(
            Fault { kind: ErrorKind::Other, text: owned("no free UMS LUNs; maximum is 8") },
        ),
        MassStorageStart::AfterResponse => ready(registered, bound),
    }
}

/// What taking the USB function away begins with: nothing where it is not there, or is in use.
pub fn deactivate_mass_storage(ums: &UmsState, registered: bool, bound: bool) -> (r: Begin)
    ensures
        if ums.function_dir is None || taken(ums.disks(), ums.disks().len() as int) != 0 {
            r is Nothing
        } else {
            not_ready(r, registered, bound)
        },
{
    if ums.function_dir.is_none() || ums.active_count() != 0 {
        return Begin::Nothing;
    }
    ready(registered, bound)
}

/// How far a change of the gadget has come: what was asked for last.
#[derive(Clone, Copy, Debug, PartialEq, Eq, Structural)]
pub enum ChangeStage {
    Unbind,
    Create,
    Attach,
    Remove,
    Bind,
    Cleanup,
    Rebind,
}

/// A change of the gadget: whether the USB function is added or removed, what was asked for last,
/// and the failure of which operation is being mended.
#[derive(Debug)]
pub struct Change {
    pub adding: bool,
    pub stage: ChangeStage,
    pub failure: Option<Fault>,
    pub operation: &'static str,
}

/// What is to be done next for a change.
#[derive(Debug)]
pub enum ChangeAction {
    /// Make the USB function.
    Create,
    /// Put the disk behind the first unit.
    Attach,
    /// Remove the USB function.
    Remove,
    /// Bind the gadget.
    Bind,
    /// Remove what there is of the USB function, whatever comes of it.
    Cleanup,
    Done,
    Failed(Fault),
}

/// Whether a change is at a stage, mending a failure.
pub open spec fn mends(change: Change, stage: ChangeStage, failure: Fault, operation: Seq<char>) ->
    bool {
    &&& change.stage == stage
    &&& change.failure == Some(failure)
    &&& change.operation@ == operation
}

/// Whether `after` and `action` are what the answer to the last request makes of a change.
pub open spec fn change_follows(
    before: Change,
    answer: Result<(), Fault>,
    after: Change,
    action: ChangeAction,
) -> bool {
    &&& after.adding == before.adding
    &&& match (before.stage, answer) {
        (ChangeStage::Unbind, Err(e)) => action == ChangeAction::Failed(e),
        (ChangeStage::Unbind, Ok(())) => if before.adding {
            after.stage == ChangeStage::Create && action is Create
        } else {
            after.stage == ChangeStage::Remove && action is Remove
        },
        (ChangeStage::Create, Err(e)) => action is Bind && mends(
            after,
            ChangeStage::Rebind,
            e,
            "UMS add"@,
        ),
        (ChangeStage::Create, Ok(())) => after.stage == ChangeStage::Attach && action is Attach,
        (ChangeStage::Attach, Err(e)) => action is Cleanup && mends(
            after,
            ChangeStage::Cleanup,
            e,
            "UMS attach"@,
        ),
        (ChangeStage::Attach, Ok(())) => after.stage == ChangeStage::Bind && action is Bind,
        (ChangeStage::Remove, Err(e)) => action is Bind && mends(
            after,
            ChangeStage::Rebind,
            e,
            "UMS removal"@,
        ),
        (ChangeStage::Remove, Ok(())) => after.stage == ChangeStage::Bind && action is Bind,
        (ChangeStage::Bind, Err(e)) => if before.adding {
            action is Cleanup && mends(after, ChangeStage::Cleanup, e, "UMS bind"@)
        } else {
            action == ChangeAction::Failed(e)
        },
        (ChangeStage::Bind, Ok(())) => action is Done,
        (ChangeStage::Cleanup, _) => action is Bind && after.stage == ChangeStage::Rebind
            && after.failure == before.failure && after.operation == before.operation,
        (ChangeStage::Rebind, answer) => before.failure matches Some(failure)
            ==> (action matches ChangeAction::Failed(told) && match answer {
            Ok(()) => told == failure,
            Err(second) => is_fault(
                told,
                second.kind,
                before.operation@ + " failed: "@ + failure.text@ + "; USB rebind failed: "@
                    + second.text@,
            ),
        }),
    }
}

impl Change {
    /// Whether a change that mends something has a failure to tell.
    pub open spec fn wf(&self) -> bool {
        self.stage == ChangeStage::Cleanup || self.stage == ChangeStage::Rebind
            ==> self.failure is Some
    }

    /// A change that begins with the unbinding of the gadget.
    pub fn new(adding: bool) -> (r: Change)
        ensures
            r.adding == adding,
            r.stage == ChangeStage::Unbind,
            r.wf(),
    {
        Change { adding, stage: ChangeStage::Unbind, failure: None, operation: "" }
    }

    fn mend(&mut self, stage: ChangeStage, failure: Fault, operation: &'static str)
        ensures
            final(self).adding == old(self).adding,
            mends(*final(self), stage, failure, operation@),
    {
        self.stage = stage;
        self.failure = Some(failure);
        self.operation = operation;
    }

    /// What the answer to the last request leads to.
    pub fn step(&mut self, answer: Result<(), Fault>) -> (action: ChangeAction)
        requires
            old(self).wf(),
        ensures
            final(self).wf(),
            change_follows(*old(self), answer, *final(self), action),
    {
        match answer {
            Err(e) => match self.stage {
                ChangeStage::Unbind => {
                    return ChangeAction::Failed(e);
                },
                ChangeStage::Create => {
                    self.mend(ChangeStage::Rebind, e, "UMS add");
                    return ChangeAction::Bind;
                },
                ChangeStage::Attach => {
                    self.mend(ChangeStage::Cleanup, e, "UMS attach");
                    return ChangeAction::Cleanup;
                },
                ChangeStage::Remove => {
                    self.mend(ChangeStage::Rebind, e, "UMS removal");
                    return ChangeAction::Bind;
                },
                ChangeStage::Bind => {
                    if self.adding {
                        self.mend(ChangeStage::Cleanup, e, "UMS bind");
                        return ChangeAction::Cleanup;
                    }
                    return ChangeAction::Failed(e);
                },
                ChangeStage::Cleanup => {
                    self.stage = ChangeStage::Rebind;
                    return ChangeAction::Bind;
                },
                ChangeStage::Rebind => match self.failure.take() {
                    Some(failure) => {
                        let told = rebind_after_error(failure, Some(e), self.operation);
                        self.stage = ChangeStage::Unbind;
                        return ChangeAction::Failed(told);
                    },
                    None => {
                        return ChangeAction::Done;
                    },
                },
            },
            Ok(()) => match self.stage {
                ChangeStage::Unbind => {
                    if self.adding {
                        self.stage = ChangeStage::Create;
                        ChangeAction::Create
                    } else {
                        self.stage = ChangeStage::Remove;
                        ChangeAction::Remove
                    }
                },
                ChangeStage::Create => {
                    self.stage = ChangeStage::Attach;
                    ChangeAction::Attach
                },
                ChangeStage::Attach | ChangeStage::Remove => {
                    self.stage = ChangeStage::Bind;
                    ChangeAction::Bind
                },
                ChangeStage::Bind => ChangeAction::Done,
                ChangeStage::Cleanup => {
                    self.stage = ChangeStage::Rebind;
                    ChangeAction::Bind
                },
                ChangeStage::Rebind => match self.failure.take() {
                    Some(failure) => {
                        self.stage = ChangeStage::Unbind;
                        ChangeAction::Failed(failure)
                    },
                    None => ChangeAction::Done,
                },
            },
        }
    }
}

/// A gadget that was unbound for the sake of a disk is not left unbound without another try: a
/// change fails before the gadget is unbound, or after binding it was the last thing tried.
pub proof fn law_gadgets_are_bound_again(
    before: Change,
    answer: Result<(), Fault>,
    after: Change,
    action: ChangeAction,
)
    requires
        before.wf(),
        change_follows(before, answer, after, action),
        action is Failed || action is Done,
    ensures
        before.stage == ChangeStage::Unbind || before.stage == ChangeStage::Bind || before.stage
            == ChangeStage::Rebind,
        action is Done ==> before.stage == ChangeStage::Bind && answer is Ok,
{
}

/// A disk is lent or taken back only over a gadget that is registered and bound, which is then
/// unbound first.
pub proof fn law_only_bound_gadgets_are_changed(begin: Begin, registered: bool, bound: bool)
    requires
        not_ready(begin, registered, bound),
    ensures
        begin is Unbind <==> registered && bound,
        begin is Refuse <==> !registered || !bound,
{
}

/// A disk is lent step by step where nothing fails: the gadget is unbound, the function is made, the
/// disk is attached, and the gadget is bound; it is taken back in the same way, with the function
/// removed in between. What was made for a disk that cannot be attached is cleaned up, and the gadget
/// is bound again.
pub proof fn law_disks_are_lent_step_by_step(
    before: Change,
    answer: Result<(), Fault>,
    after: Change,
    action: ChangeAction,
)
    requires
        change_follows(before, answer, after, action),
    ensures
        before.stage == ChangeStage::Unbind && answer is Ok && before.adding ==> action is Create
            && after.stage == ChangeStage::Create,
        before.stage == ChangeStage::Unbind && answer is Ok && !before.adding ==> action is Remove
            && after.stage == ChangeStage::Remove,
        before.stage == ChangeStage::Create && answer is Ok ==> action is Attach && after.stage
            == ChangeStage::Attach,
        before.stage == ChangeStage::Attach && answer is Ok ==> action is Bind && after.stage
            == ChangeStage::Bind,
        before.stage == ChangeStage::Remove && answer is Ok ==> action is Bind && after.stage
            == ChangeStage::Bind,
        before.stage == ChangeStage::Bind && answer is Ok ==> action is Done,
        before.stage == ChangeStage::Attach && answer is Err ==> action is Cleanup,
        before.stage == ChangeStage::Cleanup ==> action is Bind && after.failure == before.failure,
        before.stage == ChangeStage::Rebind && answer is Ok && before.failure is Some
            ==> action == ChangeAction::Failed(before.failure->0),
        after.adding == before.adding,
{
}

} // verus!
