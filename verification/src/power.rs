//! Restarting the device.
use vstd::prelude::*;
use vstd::string::*;

use crate::errors::{ErrorKind, Fault};
use crate::text::{any_text, ascii_words, cat, quoted, quoted_text, split_ascii_words};

verus! {

/// The file of a driver that lists the reboot modes it knows.
#[derive(Debug)]
pub struct ModesFile {
    pub path: String,
    pub contents: Result<String, Fault>,
}

/// Whether a list of reboot modes has `expected`.
pub fn reboot_modes_contain(modes: &str, expected: &str) -> (r: bool)
    ensures
        r == ascii_words(modes@).contains(expected@),
{
    let list = split_ascii_words(modes);
    any_text(&list, expected)
}

/// What the search for a reboot mode comes to, from the entry with number `i` on; `first` is the
/// first file that could not be read.
pub open spec fn mode_search(
    class: Seq<char>,
    entries: Seq<Result<ModesFile, Fault>>,
    mode: Seq<char>,
    i: int,
    first: Option<(ErrorKind, Seq<char>)>,
) -> Result<(), (ErrorKind, Seq<char>)>
    decreases entries.len() - i,
{
    if i < 0 || i >= entries.len() {
        match first {
            Some(fault) => Err(fault),
            None => Err(
                (
                    ErrorKind::Unsupported,
                    "reboot mode "@ + quoted_text(mode) + " is not advertised under "@ + class,
                ),
            ),
        }
    } else {
        match entries[i] {
            Err(fault) => Err(
                (
                    fault.kind,
                    "read reboot-mode entry under "@ + class + ": "@ + fault.text@,
                ),
            ),
            Ok(file) => match file.contents {
                Ok(modes) => if ascii_words(modes@).contains(mode) {
                    Ok(())
                } else {
                    mode_search(class, entries, mode, i + 1, first)
                },
                Err(fault) => mode_search(
                    class,
                    entries,
                    mode,
                    i + 1,
                    if first is None {
                        Some((fault.kind, "read "@ + file.path@ + ": "@ + fault.text@))
                    } else {
                        first
                    },
                ),
            },
        }
    }
}

/// What the search for a reboot mode comes to.
pub open spec fn mode_found(
    class: Seq<char>,
    entries: Result<Vec<Result<ModesFile, Fault>>, Fault>,
    mode: Seq<char>,
) -> Result<(), (ErrorKind, Seq<char>)> {
    match entries {
        Err(fault) => Err(
            (fault.kind, "read reboot-mode class "@ + class + ": "@ + fault.text@),
        ),
        Ok(list) => mode_search(class, list@, mode, 0, None),
    }
}

/// A fault as plain values.
pub open spec fn fault_values(fault: Option<Fault>) -> Option<(ErrorKind, Seq<char>)> {
    match fault {
        Some(fault) => Some((fault.kind, fault.text@)),
        None => None,
    }
}

/// Refuses a reboot mode that no driver knows, by the entries of the class of such drivers.
pub fn require_reboot_mode(
    class: &str,
    entries: &Result<Vec<Result<ModesFile, Fault>>, Fault>,
    mode: &str,
) -> (r: Result<(), Fault>)
    ensures
        mode_found(class@, *entries, mode@) == (match r {
            Ok(()) => Ok(()),
            Err(fault) => Err((fault.kind, fault.text@)),
        }),
{
    let list = match entries {
        Err(fault) => {
            let mut text = cat("read reboot-mode class ", class);
            text.append(": ");
            text.append(fault.text.as_str());
            return Err(Fault { kind: fault.kind, text });
        },
        Ok(list) => list,
    };
    let mut first: Option<Fault> = None;
    let mut i: usize = 0;
    while i < list.len()
        invariant
            i <= list@.len(),
            mode_found(class@, *entries, mode@) == mode_search(
                class@,
                list@,
                mode@,
                i as int,
                fault_values(first),
            ),
        decreases list@.len() - i,
    {
        match &list[i] {
            Err(fault) => {
                let mut text = cat("read reboot-mode entry under ", class);
                text.append(": ");
                text.append(fault.text.as_str());
                return Err(Fault { kind: fault.kind, text });
            },
            Ok(file) => match &file.contents {
                Ok(modes) => {
                    if reboot_modes_contain(modes.as_str(), mode) {
                        return Ok(());
                    }
                },
                Err(fault) => {
                    if first.is_none() {
                        let mut text = cat("read ", file.path.as_str());
                        text.append(": ");
                        text.append(fault.text.as_str());
                        first = Some(Fault { kind: fault.kind, text });
                    }
                },
            },
        }
        i += 1;
    }
    if let Some(fault) = first {
        return Err(fault);
    }
    let mut text = cat("reboot mode ", quoted(mode).as_str());
    text.append(" is not advertised under ");
    text.append(class);
    Err(Fault { kind: ErrorKind::Unsupported, text })
}

/// A reboot mode is found where one of the drivers lists it, as long as the drivers can be listed,
/// and one that none of them lists is not supported.
pub proof fn law_listed_modes_are_found(
    class: Seq<char>,
    entries: Seq<Result<ModesFile, Fault>>,
    mode: Seq<char>,
    i: int,
    first: Option<(ErrorKind, Seq<char>)>,
)
    requires
        0 <= i <= entries.len(),
        forall|k: int| 0 <= k < entries.len() ==> (#[trigger] entries[k]) is Ok,
    ensures
        ({
            let lists = |k: int|
                entries[k]->Ok_0.contents is Ok && ascii_words(
                    entries[k]->Ok_0.contents->Ok_0@,
                ).contains(mode);
            let found = mode_search(class, entries, mode, i, first);
            &&& found is Ok <==> exists|k: int| i <= k < entries.len() && #[trigger] lists(k)
            &&& found is Err && first is None && (forall|k: int|
                i <= k < entries.len() ==> (#[trigger] entries[k])->Ok_0.contents is Ok)
                ==> found->Err_0.0 == ErrorKind::Unsupported
        }),
    decreases entries.len() - i,
{
    let lists = |k: int|
        entries[k]->Ok_0.contents is Ok && ascii_words(
            entries[k]->Ok_0.contents->Ok_0@,
        ).contains(mode);
    if i < entries.len() {
        assert(entries[i] is Ok);
        let file = entries[i]->Ok_0;
        let next = match file.contents {
            Ok(_) => first,
            Err(fault) => if first is None {
                Some((fault.kind, "read "@ + file.path@ + ": "@ + fault.text@))
            } else {
                first
            },
        };
        law_listed_modes_are_found(class, entries, mode, i + 1, next);
        if lists(i) {
        } else {
            assert(mode_search(class, entries, mode, i, first) == mode_search(
                class,
                entries,
                mode,
                i + 1,
                next,
            ));
        }
    }
}

} // verus!
