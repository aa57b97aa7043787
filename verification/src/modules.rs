//! Kernel modules that the boot menu needs.
use vstd::prelude::*;
use vstd::string::*;

use crate::text::{
    chars, decimal, from_chars, is_space, joined, law_joined_texts_are_cut_again,
    law_trimming_takes_white_space, lines, owned, pieces, push_decimal, same_text, split_chars,
    split_lines, strip_suffix, texts, trim, trim_chars,
};

verus! {

/// The flag that tells the kernel that a module is compressed.
pub const MODULE_INIT_COMPRESSED_FILE: i32 = 4;

/// The module that a line of a manifest names.
pub open spec fn module_of(line: Seq<char>) -> Option<Seq<char>> {
    let module = trim(line);
    if module.len() == 0 || module[0] == '#' {
        None
    } else {
        Some(module)
    }
}

/// The modules that the first `n` lines of a manifest name.
pub open spec fn modules_upto(list: Seq<Seq<char>>, n: int) -> Seq<Seq<char>>
    decreases n,
{
    if n <= 0 {
        Seq::empty()
    } else {
        match module_of(list[n - 1]) {
            Some(module) => modules_upto(list, n - 1).push(module),
            None => modules_upto(list, n - 1),
        }
    }
}

/// The modules that a manifest names, in order.
pub fn manifest_modules(contents: &str) -> (r: Vec<String>)
    ensures
        texts(r@) == modules_upto(lines(contents@), lines(contents@).len() as int),
{
    let list = split_lines(contents);
    let mut found: Vec<String> = Vec::new();
    let mut i: usize = 0;
    assert(texts(found@) =~= Seq::<Seq<char>>::empty());
    while i < list.len()
        invariant
            i <= list@.len(),
            texts(list@) == lines(contents@),
            texts(found@) == modules_upto(lines(contents@), i as int),
        decreases list@.len() - i,
    {
        assert(lines(contents@)[i as int] == list@[i as int]@);
        let line = chars(list[i].as_str());
        let module = trim_chars(&line);
        if module.len() > 0 && module[0] != '#' {
            let ghost before = found@;
            let name = from_chars(module);
            found.push(name);
            assert(texts(found@) =~= texts(before).push(name@));
        }
        i += 1;
    }
    assert(texts(list@).len() == list@.len());
    found
}

/// The last component of a path, where it has one that is a name: what follows the last slash,
/// slashes and single dots at the end left out.
pub open spec fn last_name(parts: Seq<Seq<char>>, n: int) -> Option<Seq<char>>
    decreases n,
{
    if n <= 0 {
        None
    } else {
        let part = parts[n - 1];
        if part.len() == 0 || (part == "."@ && n > 1) {
            last_name(parts, n - 1)
        } else if part == "."@ || part == ".."@ {
            None
        } else {
            Some(part)
        }
    }
}

/// Whether a name has the extension `xz`: it ends in `.xz`, and something stands before that.
pub open spec fn named_xz(name: Seq<char>) -> bool {
    ".xz"@.is_suffix_of(name) && name.len() > 3
}

/// The flags with which the module at a path is loaded.
pub open spec fn flags_for(path: Seq<char>) -> i32 {
    let parts = pieces(path, '/');
    match last_name(parts, parts.len() as int) {
        Some(name) => if named_xz(name) {
            MODULE_INIT_COMPRESSED_FILE
        } else {
            0
        },
        None => 0,
    }
}

/// The flags with which the module at a path is loaded.
pub fn module_flags(path: &str) -> (r: i32)
    ensures
        r == flags_for(path@),
{
    let v = chars(path);
    let parts = split_chars(&v, '/');
    let mut n: usize = parts.len();
    let ghost all = pieces(path@, '/');
    assert(all.len() == parts@.len());
    while n > 0
        invariant
            n <= parts@.len(),
            all == pieces(path@, '/'),
            texts(parts@) == all,
            last_name(all, all.len() as int) == last_name(all, n as int),
        decreases n,
    {
        assert(all[n - 1] == parts@[n - 1]@);
        let part = parts[n - 1].as_str();
        let dot = same_text(part, ".");
        if part.unicode_len() == 0 || (dot && n > 1) {
            n -= 1;
        } else if dot || same_text(part, "..") {
            return 0;
        } else {
            proof {
                reveal_strlit(".xz");
            }
            if strip_suffix(part, ".xz").is_some() && part.unicode_len() > 3 {
                return MODULE_INIT_COMPRESSED_FILE;
            }
            return 0;
        }
    }
    0
}

/// Whether the answer of the kernel to a module means that it is loaded: it was taken, or it was
/// there before (`EEXIST`).
pub fn module_loaded(errno: Option<i32>) -> (r: bool)
    ensures
        r == (errno is None || errno == Some(17i32)),
{
    match errno {
        None => true,
        Some(n) => n == 17,
    }
}

/// What the loading of a manifest comes to, by the number of modules that failed.
pub fn manifest_result(failures: u64) -> (r: Result<(), String>)
    ensures
        match r {
            Ok(()) => failures == 0,
            Err(text) => failures > 0 && text@ == "failed to load "@ + decimal(failures as int)
                + " bootmenu kernel modules"@,
        },
{
    if failures == 0 {
        Ok(())
    } else {
        let mut text = owned("failed to load ");
        push_decimal(&mut text, failures);
        text.append(" bootmenu kernel modules");
        Err(text)
    }
}

/// A manifest names one module on each line, which may have white space around it; empty lines and
/// lines that begin with a number sign name none. Modules are loaded in the order of their lines.
pub proof fn law_manifests_name_modules(
    list: Seq<Seq<char>>,
    before: Seq<char>,
    module: Seq<char>,
    behind: Seq<char>,
)
    requires
        forall|i: int| 0 <= i < before.len() ==> is_space(#[trigger] before[i]),
        forall|i: int| 0 <= i < behind.len() ==> is_space(#[trigger] behind[i]),
        module.len() > 0 ==> !is_space(module[0]) && !is_space(module.last()),
    ensures
        ({
            let more = list.push(before + module + behind);
            modules_upto(more, more.len() as int) == (if module.len() == 0 || module[0] == '#' {
                modules_upto(list, list.len() as int)
            } else {
                modules_upto(list, list.len() as int).push(module)
            })
        }),
{
    let more = list.push(before + module + behind);
    law_trimming_takes_white_space(before, module, behind);
    lemma_modules_front(list, before + module + behind, list.len() as int);
    assert(more[list.len() as int] == before + module + behind);
}

proof fn lemma_modules_front(list: Seq<Seq<char>>, line: Seq<char>, n: int)
    requires
        0 <= n <= list.len(),
    ensures
        modules_upto(list.push(line), n) == modules_upto(list, n),
    decreases n,
{
    if n > 0 {
        lemma_modules_front(list, line, n - 1);
        assert(list.push(line)[n - 1] == list[n - 1]);
    }
}

/// The kernel is told that a module is compressed where the name of its file ends in `.xz`, and only
/// there, whatever directory it is in.
pub proof fn law_compressed_modules_are_told(parts: Seq<Seq<char>>)
    requires
        parts.len() > 0,
        forall|i: int| 0 <= i < parts.len() ==> !(#[trigger] parts[i]).contains('/'),
        parts.last().len() > 3,
    ensures
        ({
            let name = parts.last();
            flags_for(joined(parts, seq!['/'])) == (if name.skip(name.len() - 3) == seq![
                '.',
                'x',
                'z',
            ] {
                4i32
            } else {
                0i32
            })
        }),
{
    reveal_strlit(".xz");
    reveal_strlit(".");
    reveal_strlit("..");
    assert(".xz"@ =~= seq!['.', 'x', 'z']);
    law_joined_texts_are_cut_again(parts, '/');
    let name = parts.last();
    if name.skip(name.len() - 3) == ".xz"@ {
        assert(".xz"@.is_suffix_of(name));
    }
    if ".xz"@.is_suffix_of(name) {
        assert(name.skip(name.len() - 3) =~= ".xz"@);
    }
}

} // verus!
