//! The menu of boot entries, and what follows each event until something is booted.
use vstd::prelude::*;
use vstd::string::*;

use crate::bootflow::{file_name, file_name_of, no_variables, BootEntry};
use crate::text::{cat, owned, trim, trimmed};

verus! {

/// What else is known of a boot entry: whether it was found inside a partition, and whether it is
/// the preferred one.
#[derive(Clone, Copy, Debug, PartialEq, Eq, Structural)]
pub struct Mark {
    pub nested: bool,
    pub preferred: bool,
}

/// A line of the menu.
#[derive(Debug)]
pub struct BootMenuEntryInfo {
    pub title: String,
    pub subtitle: String,
    pub detail: String,
    pub badge: String,
}

/// The model of a line of the menu.
pub struct MenuView {
    pub title: Seq<char>,
    pub subtitle: Seq<char>,
    pub detail: Seq<char>,
    pub badge: Seq<char>,
}

impl View for BootMenuEntryInfo {
    type V = MenuView;

    open spec fn view(&self) -> MenuView {
        MenuView {
            title: self.title@,
            subtitle: self.subtitle@,
            detail: self.detail@,
            badge: self.badge@,
        }
    }
}

/// What a field of an entry says, without the spaces around it, if it says anything.
pub open spec fn said(field: Option<String>) -> Option<Seq<char>> {
    match field {
        Some(text) => if trim(text@).len() > 0 {
            Some(trim(text@))
        } else {
            None
        },
        None => None,
    }
}

fn field_text(field: &Option<String>) -> (r: Option<String>)
    ensures
        said(*field) == (match r {
            Some(text) => Some(text@),
            None => None,
        }),
{
    match field {
        Some(text) => {
            let short = trimmed(text.as_str());
            if short.as_str().unicode_len() > 0 {
                Some(short)
            } else {
                None
            }
        },
        None => None,
    }
}

/// The title of an entry: its own, or its name.
pub open spec fn title_of(entry: &BootEntry) -> Seq<char> {
    match said(entry.title) {
        Some(title) => title,
        None => entry.id@,
    }
}

/// The title of an entry.
pub fn boot_entry_title(entry: &BootEntry) -> (s: String)
    ensures
        s@ == title_of(entry),
{
    match field_text(&entry.title) {
        Some(title) => title,
        None => owned(entry.id.as_str()),
    }
}

/// The second line of an entry: its version and its architecture, as far as they are told.
pub open spec fn subtitle_of(entry: &BootEntry) -> Seq<char> {
    match (said(entry.version), said(entry.architecture)) {
        (Some(version), Some(architecture)) => version + " - "@ + architecture,
        (Some(version), None) => version,
        (None, Some(architecture)) => architecture,
        (None, None) => "Ready to boot"@,
    }
}

/// The second line of an entry.
pub fn boot_entry_subtitle(entry: &BootEntry) -> (s: String)
    ensures
        s@ == subtitle_of(entry),
{
    match field_text(&entry.version) {
        Some(version) => match field_text(&entry.architecture) {
            Some(architecture) => cat(
                cat(version.as_str(), " - ").as_str(),
                architecture.as_str(),
            ),
            None => version,
        },
        None => match field_text(&entry.architecture) {
            Some(architecture) => architecture,
            None => owned("Ready to boot"),
        },
    }
}

/// Where an entry is from.
pub open spec fn detail_of(entry: &BootEntry) -> Seq<char> {
    entry.disk@ + ":"@ + entry.partition@ + " - "@ + file_name_of(entry.source@)
}

/// Where an entry is from.
pub fn boot_entry_detail(entry: &BootEntry) -> (s: String)
    ensures
        s@ == detail_of(entry),
{
    let mut out = owned(entry.disk.as_str());
    out.append(":");
    out.append(entry.partition.as_str());
    out.append(" - ");
    out.append(file_name(entry.source.as_str()).as_str());
    out
}

/// The kind of partition that an entry is from.
pub open spec fn place_of(entry: &BootEntry, mark: Mark) -> Seq<char> {
    if mark.nested {
        "nested"@
    } else {
        entry.role.words()
    }
}

/// The badge of an entry: the kind of its partition, and whether it is the preferred one.
pub open spec fn badge_of(entry: &BootEntry, mark: Mark) -> Seq<char> {
    if mark.preferred {
        "default "@ + place_of(entry, mark)
    } else {
        place_of(entry, mark)
    }
}

/// The badge of an entry.
pub fn boot_entry_badge(entry: &BootEntry, mark: Mark) -> (s: String)
    ensures
        s@ == badge_of(entry, mark),
{
    let role = if mark.nested {
        "nested"
    } else {
        entry.role.label()
    };
    if mark.preferred {
        cat("default ", role)
    } else {
        owned(role)
    }
}

/// Whether an entry can be booted as it is.
pub open spec fn bootable(entry: &BootEntry) -> bool {
    no_variables(entry.line())
}

/// The places of the first `n` entries that can be booted as they are.
pub open spec fn bootable_places(entries: Seq<BootEntry>, n: int) -> Seq<int>
    decreases n,
{
    if n <= 0 {
        Seq::empty()
    } else if bootable(&entries[n - 1]) {
        bootable_places(entries, n - 1).push(n - 1)
    } else {
        bootable_places(entries, n - 1)
    }
}

/// The line of the menu for an entry.
pub open spec fn menu_line(entry: &BootEntry, mark: Mark) -> MenuView {
    MenuView {
        title: title_of(entry),
        subtitle: subtitle_of(entry),
        detail: detail_of(entry),
        badge: badge_of(entry, mark),
    }
}

/// The menu: the places of the entries that can be booted as they are, and a line for each.
pub fn boot_menu_entries(entries: &[BootEntry], marks: &[Mark]) -> (r: (
    Vec<usize>,
    Vec<BootMenuEntryInfo>,
))
    requires
        entries@.len() == marks@.len(),
    ensures
        r.0@.map_values(|i: usize| i as int) == bootable_places(entries@, entries@.len() as int),
        r.0@.len() == r.1@.len(),
        forall|k: int|
            0 <= k < r.0@.len() ==> (#[trigger] r.0@[k]) < entries@.len() && r.1@[k]@ == menu_line(
                &entries@[r.0@[k] as int],
                marks@[r.0@[k] as int],
            ),
{
    let mut places: Vec<usize> = Vec::new();
    let mut lines: Vec<BootMenuEntryInfo> = Vec::new();
    let mut i: usize = 0;
    assert(places@.map_values(|i: usize| i as int) =~= Seq::<int>::empty());
    while i < entries.len()
        invariant
            i <= entries@.len(),
            entries@.len() == marks@.len(),
            places@.map_values(|i: usize| i as int) == bootable_places(entries@, i as int),
            places@.len() == lines@.len(),
            forall|k: int|
                0 <= k < places@.len() ==> (#[trigger] places@[k]) < entries@.len() && lines@[k]@
                    == menu_line(&entries@[places@[k] as int], marks@[places@[k] as int]),
        decreases entries@.len() - i,
    {
        let entry = &entries[i];
        if entry.is_directly_bootable() {
            let ghost before = places@;
            places.push(i);
            lines.push(
                BootMenuEntryInfo {
                    title: boot_entry_title(entry),
                    subtitle: boot_entry_subtitle(entry),
                    detail: boot_entry_detail(entry),
                    badge: boot_entry_badge(entry, marks[i]),
                },
            );
            assert(places@.map_values(|i: usize| i as int) =~= before.map_values(
                |i: usize| i as int,
            ).push(i as int));
        }
        i += 1;
    }
    (places, lines)
}

/// What happens until something is booted.
#[derive(Debug)]
pub enum CoordinatorEvent {
    /// A line of the menu was chosen.
    Choose(usize),
    /// Fastboot ended, with something left to do or not.
    FastbootEnded { has_action: bool },
    FastbootFailed,
    /// More entries were found; these can be booted as they are.
    DiscoveryUpdate(Vec<usize>),
    /// The search ended; these can be booted as they are.
    DiscoveryComplete(Vec<usize>),
    /// Nothing more can happen.
    Closed,
}

/// The model of an event.
pub enum EventView {
    Choose(int),
    FastbootEnded(bool),
    FastbootFailed,
    DiscoveryUpdate(Seq<usize>),
    DiscoveryComplete(Seq<usize>),
    Closed,
}

impl View for CoordinatorEvent {
    type V = EventView;

    open spec fn view(&self) -> EventView {
        match *self {
            CoordinatorEvent::Choose(i) => EventView::Choose(i as int),
            CoordinatorEvent::FastbootEnded { has_action } => EventView::FastbootEnded(has_action),
            CoordinatorEvent::FastbootFailed => EventView::FastbootFailed,
            CoordinatorEvent::DiscoveryUpdate(places) => EventView::DiscoveryUpdate(places@),
            CoordinatorEvent::DiscoveryComplete(places) => EventView::DiscoveryComplete(places@),
            CoordinatorEvent::Closed => EventView::Closed,
        }
    }
}

/// What follows an event.
#[derive(Clone, Copy, Debug, PartialEq, Eq, Structural)]
pub enum Action {
    /// The next event is waited for.
    Wait,
    /// The entry at a place is booted, and nothing more is done.
    Boot(usize),
    /// Nothing can be booted, and nothing more is done.
    Finish,
    /// What fastboot left to do is done, and nothing more.
    RunAction,
    /// The failure of fastboot ends all.
    Fail,
    /// No event can come any more.
    ChannelClosed,
}

/// What is known until something is booted: the entries that can be booted as they are, whether the
/// search is over, and whether fastboot is.
#[derive(Debug)]
pub struct Coordinator {
    pub bootable: Vec<usize>,
    pub discovery_complete: bool,
    pub default_requested: bool,
}

/// The model of what is known.
pub struct CoordinatorView {
    pub bootable: Seq<usize>,
    pub discovery_complete: bool,
    pub default_requested: bool,
}

impl View for Coordinator {
    type V = CoordinatorView;

    open spec fn view(&self) -> CoordinatorView {
        CoordinatorView {
            bootable: self.bootable@,
            discovery_complete: self.discovery_complete,
            default_requested: self.default_requested,
        }
    }
}

/// The first entry that can be booted as it is, is booted.
pub open spec fn boot_default(bootable: Seq<usize>) -> Action {
    if bootable.len() > 0 {
        Action::Boot(bootable[0])
    } else {
        Action::Finish
    }
}

/// What follows an event. The entry of a chosen line is booted; once fastboot and the search are
/// both over, the first entry is.
pub open spec fn coordinate(s: CoordinatorView, event: EventView) -> (CoordinatorView, Action) {
    match event {
        EventView::Choose(line) => (
            s,
            if 0 <= line < s.bootable.len() {
                Action::Boot(s.bootable[line])
            } else {
                Action::Wait
            },
        ),
        EventView::FastbootFailed => (s, Action::Fail),
        EventView::FastbootEnded(has_action) => if has_action {
            (s, Action::RunAction)
        } else if s.discovery_complete {
            (s, boot_default(s.bootable))
        } else {
            (CoordinatorView { default_requested: true, ..s }, Action::Wait)
        },
        EventView::DiscoveryUpdate(places) => (
            CoordinatorView { bootable: places, ..s },
            Action::Wait,
        ),
        EventView::DiscoveryComplete(places) => (
            CoordinatorView { bootable: places, discovery_complete: true, ..s },
            if s.default_requested {
                boot_default(places)
            } else {
                Action::Wait
            },
        ),
        EventView::Closed => (s, Action::ChannelClosed),
    }
}

impl Coordinator {
    /// Nothing is known yet.
    pub fn new() -> (r: Coordinator)
        ensures
            r@ == (CoordinatorView {
                bootable: Seq::empty(),
                discovery_complete: false,
                default_requested: false,
            }),
    {
        let r = Coordinator {
            bootable: Vec::new(),
            discovery_complete: false,
            default_requested: false,
        };
        assert(r.bootable@ =~= Seq::<usize>::empty());
        r
    }

    /// The place of the first entry that can be booted as it is, is booted.
    pub fn boot_default_entry(&self) -> (r: Action)
        ensures
            r == boot_default(self.bootable@),
    {
        if self.bootable.len() > 0 {
            Action::Boot(self.bootable[0])
        } else {
            Action::Finish
        }
    }

    /// What follows an event.
    pub fn handle(&mut self, event: CoordinatorEvent) -> (r: Action)
        ensures
            (final(self)@, r) == coordinate(old(self)@, event@),
    {
        match event {
            CoordinatorEvent::Choose(line) => {
                if line < self.bootable.len() {
                    Action::Boot(self.bootable[line])
                } else {
                    Action::Wait
                }
            },
            CoordinatorEvent::FastbootFailed => Action::Fail,
            CoordinatorEvent::FastbootEnded { has_action } => {
                if has_action {
                    Action::RunAction
                } else if self.discovery_complete {
                    self.boot_default_entry()
                } else {
                    self.default_requested = true;
                    Action::Wait
                }
            },
            CoordinatorEvent::DiscoveryUpdate(places) => {
                self.bootable = places;
                Action::Wait
            },
            CoordinatorEvent::DiscoveryComplete(places) => {
                self.bootable = places;
                self.discovery_complete = true;
                if self.default_requested {
                    self.boot_default_entry()
                } else {
                    Action::Wait
                }
            },
            CoordinatorEvent::Closed => Action::ChannelClosed,
        }
    }
}

/// Only an entry of the menu is ever booted.
pub proof fn law_only_menu_entries_are_booted(s: CoordinatorView, event: EventView, place: usize)
    requires
        coordinate(s, event).1 == Action::Boot(place),
    ensures
        coordinate(s, event).0.bootable.contains(place),
{
    let after = coordinate(s, event).0;
    match event {
        EventView::Choose(line) => {
            assert(after.bootable[line] == place);
        },
        _ => {
            assert(after.bootable[0] == place);
        },
    }
}

/// Without a choice nothing is booted before the search and fastboot are both over; the two may
/// end in either order, and then the same entry is booted.
pub proof fn law_default_waits_for_both(s: CoordinatorView, places: Seq<usize>)
    requires
        !s.discovery_complete,
        !s.default_requested,
    ensures
        ({
            let searched = coordinate(s, EventView::DiscoveryComplete(places));
            let ended = coordinate(s, EventView::FastbootEnded(false));
            &&& searched.1 == Action::Wait
            &&& ended.1 == Action::Wait
            &&& coordinate(searched.0, EventView::FastbootEnded(false)).1 == boot_default(places)
            &&& coordinate(ended.0, EventView::DiscoveryComplete(places)).1 == boot_default(places)
        }),
{
}

/// What of booting failed.
#[derive(Clone, Copy, Debug, PartialEq, Eq, Structural)]
pub enum BootFailure {
    Load,
    Execute,
}

/// The failure to boot an entry, in words.
pub fn boot_failure(failure: BootFailure, id: &str, error: &str) -> (s: String)
    ensures
        s@ == (if failure == BootFailure::Load {
            "load discovered boot entry "@
        } else {
            "execute discovered boot entry "@
        }) + id@ + ": "@ + error@,
{
    let mut out = match failure {
        BootFailure::Load => owned("load discovered boot entry "),
        BootFailure::Execute => owned("execute discovered boot entry "),
    };
    out.append(id);
    out.append(": ");
    out.append(error);
    out
}

/// How the thread of fastboot ended.
#[derive(Debug)]
pub enum FastbootEnd {
    Failed(String),
    Panicked,
    ActionFailed(String),
}

/// The failure of fastboot, in words.
pub fn fastboot_failure(end: &FastbootEnd) -> (s: String)
    ensures
        s@ == (match *end {
            FastbootEnd::Failed(error) => "fastboot thread failed: "@ + error@,
            FastbootEnd::Panicked => "fastboot thread panicked"@,
            FastbootEnd::ActionFailed(error) => "fastboot post-response action failed: "@ + error@,
        }),
{
    match end {
        FastbootEnd::Failed(error) => cat("fastboot thread failed: ", error.as_str()),
        FastbootEnd::Panicked => owned("fastboot thread panicked"),
        FastbootEnd::ActionFailed(error) => cat(
            "fastboot post-response action failed: ",
            error.as_str(),
        ),
    }
}

/// The menu offers each entry that can be booted, in the order of the entries, and no other.
pub proof fn law_menu_offers_what_can_be_booted(entries: Seq<BootEntry>, n: int)
    requires
        0 <= n <= entries.len(),
    ensures
        forall|k: int|
            0 <= k < n ==> (bootable(&#[trigger] entries[k]) <==> bootable_places(
                entries,
                n,
            ).contains(k)),
        forall|a: int, b: int|
            0 <= a < b < bootable_places(entries, n).len() ==> 0 <= #[trigger] bootable_places(
                entries,
                n,
            )[a] < #[trigger] bootable_places(entries, n)[b],
        forall|a: int|
            0 <= a < bootable_places(entries, n).len() ==> 0 <= #[trigger] bootable_places(
                entries,
                n,
            )[a] < n,
    decreases n,
{
    if n > 0 {
        law_menu_offers_what_can_be_booted(entries, n - 1);
        let before = bootable_places(entries, n - 1);
        let after = bootable_places(entries, n);
        assert forall|k: int| 0 <= k < n implies (bootable(&#[trigger] entries[k])
            <==> after.contains(k)) by {
            if k < n - 1 {
                if before.contains(k) {
                    let a = choose|a: int| 0 <= a < before.len() && before[a] == k;
                    assert(after[a] == k);
                }
                if after.contains(k) {
                    let a = choose|a: int| 0 <= a < after.len() && after[a] == k;
                    if a == before.len() {
                        assert(after[a] == n - 1);
                    }
                    assert(before[a] == k);
                }
            } else {
                if bootable(&entries[k]) {
                    assert(after[after.len() - 1] == k);
                } else if after.contains(k) {
                    let a = choose|a: int| 0 <= a < after.len() && after[a] == k;
                    assert(before[a] == k);
                }
            }
        }
        assert forall|a: int, b: int| 0 <= a < b < after.len() implies 0 <= #[trigger] after[a]
            < #[trigger] after[b] by {
            assert(after[a] == before[a]);
            if b < before.len() {
                assert(after[b] == before[b]);
            }
        }
    }
}

/// Without a choice, the first entry that can be booted is booted, once fastboot has ended and all
/// entries are found.
pub proof fn law_default_is_the_first(s: CoordinatorView, places: Seq<usize>)
    requires
        places.len() > 0,
    ensures
        s.default_requested ==> coordinate(s, EventView::DiscoveryComplete(places)).1
            == Action::Boot(places[0]),
        s.discovery_complete && s.bootable == places ==> coordinate(
            s,
            EventView::FastbootEnded(false),
        ).1 == Action::Boot(places[0]),
{
}

/// A line of the menu has the title of the entry, or its name where it has none; its version and
/// architecture, as far as they are told; and where it is from.
pub proof fn law_menu_tells_of_entries(entry: BootEntry, title: String, mark: Mark)
    requires
        trim(title@) == title@,
        title@.len() > 0,
    ensures
        ({
            let line = menu_line(&entry, mark);
            &&& entry.title == Some(title) ==> line.title == title@
            &&& entry.title is None ==> line.title == entry.id@
            &&& entry.version == Some(title) && entry.architecture is None ==> line.subtitle
                == title@
            &&& entry.version is None && entry.architecture == Some(title) ==> line.subtitle
                == title@
            &&& entry.version == Some(title) && entry.architecture == Some(title) ==> line.subtitle
                == title@ + " - "@ + title@
            &&& line.detail == entry.disk@ + ":"@ + entry.partition@ + " - "@ + file_name_of(
                entry.source@,
            )
            &&& !mark.preferred && mark.nested ==> line.badge == "nested"@
            &&& !mark.preferred && !mark.nested ==> line.badge == entry.role.words()
            &&& mark.preferred && mark.nested ==> line.badge == "default "@ + "nested"@
        }),
{
}

} // verus!
