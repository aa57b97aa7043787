//! How boot partitions are mounted and searched for boot loader entries.
use vstd::prelude::*;
use vstd::string::*;

use crate::bootflow::{
    bls_outcome, entry_says, file_name, file_name_of, is_bls_entry_name, parse_bls_file,
    snippet_of, BootEntry, BootPartitionCandidate, CandidateView, PathError,
};
use crate::errors::Fault;

verus! {

/// How a boot partition is mounted: read-only (`MS_RDONLY`), without programs of other users
/// (`MS_NOSUID`), devices (`MS_NODEV`), programs at all (`MS_NOEXEC`) and links that are followed
/// (`MS_NOSYMFOLLOW`).
pub const BOOT_MOUNT_FLAGS: u64 = 0x10f;

/// What is to be done next to mount a boot partition.
#[derive(Debug)]
pub enum MountStep {
    /// Try a file system.
    Try(&'static str),
    /// The partition is mounted with a file system.
    Mounted(&'static str),
    Failed(Fault),
}

/// The file system that is tried at a try, the first being number 0.
pub open spec fn file_system(number: int) -> Seq<char> {
    if number == 0 {
        "vfat"@
    } else {
        "ext4"@
    }
}

/// Whether mounting came to something: the partition is mounted, or was already, as `EBUSY` tells.
pub open spec fn mount_went(answer: Result<(), (Option<i32>, Fault)>) -> bool {
    match answer {
        Ok(()) => true,
        Err((errno, fault)) => errno == Some(16i32),
    }
}

/// What follows the answer to the try of a number, the first being number 0.
pub fn mount_partition(number: usize, answer: Result<(), (Option<i32>, Fault)>) -> (r: MountStep)
    requires
        number <= 1,
    ensures
        if mount_went(answer) {
            r matches MountStep::Mounted(name) && name@ == file_system(number as int)
        } else if number == 0 {
            r matches MountStep::Try(name) && name@ == file_system(1)
        } else {
            r == MountStep::Failed(answer->Err_0.1)
        },
{
    let name = if number == 0 {
        "vfat"
    } else {
        "ext4"
    };
    match answer {
        Ok(()) => MountStep::Mounted(name),
        Err((errno, fault)) => {
            if let Some(n) = errno {
                if n == 16 {
                    return MountStep::Mounted(name);
                }
            }
            if number == 0 {
                MountStep::Try("ext4")
            } else {
                MountStep::Failed(fault)
            }
        },
    }
}

/// The first try to mount a boot partition.
pub fn first_mount() -> (r: MountStep)
    ensures
        r matches MountStep::Try(name) && name@ == file_system(0),
{
    MountStep::Try("vfat")
}

/// A file of the directory of entries: its path, its text where it could be read, and whether there
/// is a file at each path that the reading of the entry waits for.
#[derive(Debug)]
pub struct EntryFile {
    pub path: String,
    pub text: Option<String>,
    pub answers: Vec<bool>,
}

/// Whether a file gives an entry.
pub open spec fn gives_entry(file: EntryFile, root: Seq<char>) -> bool {
    let name = file_name_of(file.path@);
    &&& ".conf"@.is_suffix_of(name) && name.len() > 5
    &&& file.text matches Some(text) && bls_outcome(snippet_of(text@), root, file.answers@, 0)
        == Ok::<bool, PathError>(true)
}

/// The numbers of those among the first `n` files that give an entry.
pub open spec fn entry_files(files: Seq<EntryFile>, root: Seq<char>, n: int) -> Seq<int>
    decreases n,
{
    if n <= 0 {
        Seq::empty()
    } else if gives_entry(files[n - 1], root) {
        entry_files(files, root, n - 1).push(n - 1)
    } else {
        entry_files(files, root, n - 1)
    }
}

/// Whether the entries are those of the files with the numbers.
pub open spec fn are_entries_of(
    entries: Seq<BootEntry>,
    numbers: Seq<int>,
    files: Seq<EntryFile>,
    partition: CandidateView,
    root: Seq<char>,
) -> bool {
    &&& entries.len() == numbers.len()
    &&& forall|k: int|
        0 <= k < entries.len() ==> {
            let file = files[numbers[k]];
            entry_says(
                #[trigger] entries[k],
                snippet_of(file.text->0@),
                partition,
                root,
                file.path@,
            )
        }
}

/// The entries of a boot partition that is mounted at `root`: those of all files that give one, in
/// the order of the files.
pub fn scan_bls_entries(
    partition: &BootPartitionCandidate,
    root: &str,
    files: &[EntryFile],
) -> (r: Vec<BootEntry>)
    ensures
        are_entries_of(
            r@,
            entry_files(files@, root@, files@.len() as int),
            files@,
            partition@,
            root@,
        ),
{
    let mut entries: Vec<BootEntry> = Vec::new();
    let mut i: usize = 0;
    while i < files.len()
        invariant
            i <= files@.len(),
            are_entries_of(
                entries@,
                entry_files(files@, root@, i as int),
                files@,
                partition@,
                root@,
            ),
        decreases files@.len() - i,
    {
        let ghost numbers = entry_files(files@, root@, i as int);
        let ghost before = entries@;
        let file = &files[i];
        i += 1;
        let name = file_name(file.path.as_str());
        if !is_bls_entry_name(name.as_str()) {
            continue ;
        }
        let text = match &file.text {
            Some(text) => text,
            None => {
                continue ;
            },
        };
        match parse_bls_file(partition, root, file.path.as_str(), text.as_str(), &file.answers) {
            Ok(Some(entry)) => {
                entries.push(entry);
                proof {
                    let now = entry_files(files@, root@, i as int);
                    assert(now =~= numbers.push(i - 1));
                    assert forall|k: int| 0 <= k < entries@.len() implies entry_says(
                        #[trigger] entries@[k],
                        snippet_of(files@[now[k]].text->0@),
                        partition@,
                        root@,
                        files@[now[k]].path@,
                    ) by {
                        if k < before.len() {
                            assert(entries@[k] == before[k]);
                            assert(now[k] == numbers[k]);
                        }
                    }
                }
            },
            Ok(None) => {},
            Err(_) => {},
        }
    }
    entries
}

/// Each file that gives an entry is used, in the order of the files, and no other.
pub proof fn law_every_entry_file_is_used(files: Seq<EntryFile>, root: Seq<char>, n: int)
    requires
        0 <= n <= files.len(),
    ensures
        forall|k: int|
            0 <= k < n ==> (gives_entry(#[trigger] files[k], root) <==> entry_files(
                files,
                root,
                n,
            ).contains(k)),
        forall|a: int, b: int|
            0 <= a < b < entry_files(files, root, n).len() ==> #[trigger] entry_files(
                files,
                root,
                n,
            )[a] < #[trigger] entry_files(files, root, n)[b],
        forall|a: int|
            0 <= a < entry_files(files, root, n).len() ==> 0 <= #[trigger] entry_files(
                files,
                root,
                n,
            )[a] < n,
    decreases n,
{
    if n > 0 {
        law_every_entry_file_is_used(files, root, n - 1);
        let before = entry_files(files, root, n - 1);
        let after = entry_files(files, root, n);
        assert forall|k: int| 0 <= k < n implies (gives_entry(#[trigger] files[k], root)
            <==> after.contains(k)) by {
            if k < n - 1 {
                if before.contains(k) {
                    let a = choose|a: int| 0 <= a < before.len() && before[a] == k;
                    assert(after[a] == k);
                }
                if after.contains(k) {
                    let a = choose|a: int| 0 <= a < after.len() && after[a] == k;
                    if a == before.len() {
                        assert(after[a] == n - 1);
                    }
                    assert(before[a] == k);
                }
            } else {
                if gives_entry(files[k], root) {
                    assert(after[after.len() - 1] == k);
                } else if after.contains(k) {
                    let a = choose|a: int| 0 <= a < after.len() && after[a] == k;
                    assert(before[a] == k);
                }
            }
        }
        assert forall|a: int, b: int| 0 <= a < b < after.len() implies #[trigger] after[a]
            < #[trigger] after[b] by {
            assert(after[a] == before[a]);
            if b < before.len() {
                assert(after[b] == before[b]);
            }
        }
    }
}

/// A boot partition is tried as a FAT file system first, and as ext4 then; one that was mounted
/// before counts as mounted.
pub proof fn law_file_systems_are_tried_in_order(number: int, fault: Fault)
    ensures
        file_system(0) == "vfat"@,
        number > 0 ==> file_system(number) == "ext4"@,
        mount_went(Ok(())),
        mount_went(Err((Some(16i32), fault))),
        !mount_went(Err((None, fault))),
{
}

} // verus!
