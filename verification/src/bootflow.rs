//! Finding an operating system to boot.
use vstd::prelude::*;
use vstd::string::*;

use crate::bytes::{parts, push_parts};
use crate::kexec::arm64::{is_power_of_two, power_of_two};
use crate::order::{in_order, lemma_sorted, sort, sorted, Ranked};
use crate::partitions::{
    excluded_name, flash_name, is_excluded_disk_name, is_local_flash_like_name,
    law_disks_are_told_by_name,
};
use crate::text::{
    cat, chars, contains_text, decimal, from_chars, holds_text, is_line, is_space, join_texts,
    joined, law_joined_texts_are_cut_again, law_lines_are_read, law_pieces_make_the_text,
    law_trimming_takes_white_space, law_written_numbers_are_read_back, lemma_precedes, lines,
    lower_text, lowered, owned, parse_number, parse_unsigned, pieces, precedes, quoted,
    quoted_text, same_text, space, split_chars, split_lines, split_state, split_words,
    strip_suffix, text_before, texts, trim, trim_chars, trimmed, words,
};

pub mod gpt;
pub mod scan;

verus! {

/// The logical block size of a disk that tells none.
pub const DEFAULT_LOGICAL_BLOCK_SIZE: u64 = 512;

/// What a boot partition is for.
#[derive(Clone, Copy, Debug, PartialEq, Eq, Structural)]
pub enum BootPartitionRole {
    Xbootldr,
    Esp,
}

impl BootPartitionRole {
    /// The rank of the role: an extended boot loader partition comes first.
    pub open spec fn rank(self) -> u8 {
        match self {
            BootPartitionRole::Xbootldr => 0,
            BootPartitionRole::Esp => 1,
        }
    }

    /// The name of the role.
    pub open spec fn words(self) -> Seq<char> {
        match self {
            BootPartitionRole::Xbootldr => "xbootldr"@,
            BootPartitionRole::Esp => "esp"@,
        }
    }

    /// The rank of the role.
    pub fn priority(self) -> (r: u8)
        ensures
            r == self.rank(),
    {
        match self {
            BootPartitionRole::Xbootldr => 0,
            BootPartitionRole::Esp => 1,
        }
    }

    /// The name of the role.
    pub fn label(self) -> (s: &'static str)
        ensures
            s@ == self.words(),
    {
        match self {
            BootPartitionRole::Xbootldr => "xbootldr",
            BootPartitionRole::Esp => "esp",
        }
    }
}

/// A partition that may hold boot entries.
#[derive(Debug)]
pub struct BootPartitionCandidate {
    pub disk: String,
    pub partition: String,
    pub partno: u32,
    pub role: BootPartitionRole,
    pub dev_path: String,
    pub removable: bool,
}

/// What a candidate is to the search.
pub struct CandidateView {
    pub disk: Seq<char>,
    pub partition: Seq<char>,
    pub partno: u32,
    pub role: BootPartitionRole,
    pub dev_path: Seq<char>,
    pub removable: bool,
}

impl View for BootPartitionCandidate {
    type V = CandidateView;

    open spec fn view(&self) -> CandidateView {
        CandidateView {
            disk: self.disk@,
            partition: self.partition@,
            partno: self.partno,
            role: self.role,
            dev_path: self.dev_path@,
            removable: self.removable,
        }
    }
}

/// The views of a list of candidates.
pub open spec fn candidate_views(v: Seq<BootPartitionCandidate>) -> Seq<CandidateView> {
    Seq::new(v.len(), |i: int| v[i]@)
}

impl Ranked for BootPartitionCandidate {
    open spec fn goes_before(&self, other: &BootPartitionCandidate) -> bool {
        if self.role.rank() != other.role.rank() {
            self.role.rank() < other.role.rank()
        } else if self.removable != other.removable {
            !self.removable
        } else if self.disk@ != other.disk@ {
            precedes(self.disk@, other.disk@)
        } else {
            self.partno < other.partno
        }
    }

    proof fn lemma_order(
        a: &BootPartitionCandidate,
        b: &BootPartitionCandidate,
        c: &BootPartitionCandidate,
    ) {
        lemma_precedes(a.disk@, b.disk@, c.disk@);
        lemma_precedes(b.disk@, c.disk@, a.disk@);
        lemma_precedes(c.disk@, b.disk@, a.disk@);
        lemma_precedes(b.disk@, a.disk@, c.disk@);
        lemma_precedes(a.disk@, c.disk@, b.disk@);
    }

    fn before(&self, other: &BootPartitionCandidate) -> (r: bool) {
        let own = self.role.priority();
        let their = other.role.priority();
        if own != their {
            own < their
        } else if self.removable != other.removable {
            !self.removable
        } else if !same_text(self.disk.as_str(), other.disk.as_str()) {
            text_before(self.disk.as_str(), other.disk.as_str())
        } else {
            self.partno < other.partno
        }
    }
}

/// A path as its components compare: a separator comes before anything else.
pub open spec fn by_components(path: Seq<char>) -> Seq<char> {
    Seq::new(
        path.len(),
        |i: int| {
            if path[i] == '/' {
                '\0'
            } else {
                path[i]
            }
        },
    )
}

/// A path as its components compare.
fn component_order(path: &str) -> (r: String)
    ensures
        r@ == by_components(path@),
{
    let v = chars(path);
    let mut r = String::new();
    let mut i: usize = 0;
    while i < v.len()
        invariant
            i <= v@.len(),
            r@ == by_components(v@.take(i as int)),
        decreases v@.len() - i,
    {
        if v[i] == '/' {
            r.push('\0');
        } else {
            r.push(v[i]);
        }
        i += 1;
        assert(r@ =~= by_components(v@.take(i as int)));
    }
    assert(v@.take(i as int) =~= v@);
    r
}

/// An operating system that can be booted.
#[derive(Debug)]
pub struct BootEntry {
    pub id: String,
    pub title: Option<String>,
    pub version: Option<String>,
    pub architecture: Option<String>,
    pub source: String,
    pub role: BootPartitionRole,
    pub disk: String,
    pub partition: String,
    pub linux: String,
    pub initrds: Vec<String>,
    pub options: Vec<String>,
}

impl Ranked for BootEntry {
    open spec fn goes_before(&self, other: &BootEntry) -> bool {
        if self.role.rank() != other.role.rank() {
            self.role.rank() < other.role.rank()
        } else if self.disk@ != other.disk@ {
            precedes(self.disk@, other.disk@)
        } else if self.partition@ != other.partition@ {
            precedes(self.partition@, other.partition@)
        } else if self.id@ != other.id@ {
            precedes(other.id@, self.id@)
        } else {
            precedes(by_components(self.source@), by_components(other.source@))
        }
    }

    proof fn lemma_order(a: &BootEntry, b: &BootEntry, c: &BootEntry) {
        lemma_text_order(a.disk@, b.disk@, c.disk@);
        lemma_text_order(a.partition@, b.partition@, c.partition@);
        lemma_text_order(a.id@, b.id@, c.id@);
        lemma_text_order(
            by_components(a.source@),
            by_components(b.source@),
            by_components(c.source@),
        );
    }

    fn before(&self, other: &BootEntry) -> (r: bool) {
        let own = self.role.priority();
        let their = other.role.priority();
        if own != their {
            own < their
        } else if !same_text(self.disk.as_str(), other.disk.as_str()) {
            text_before(self.disk.as_str(), other.disk.as_str())
        } else if !same_text(self.partition.as_str(), other.partition.as_str()) {
            text_before(self.partition.as_str(), other.partition.as_str())
        } else if !same_text(self.id.as_str(), other.id.as_str()) {
            text_before(other.id.as_str(), self.id.as_str())
        } else {
            let own = component_order(self.source.as_str());
            let their = component_order(other.source.as_str());
            text_before(own.as_str(), their.as_str())
        }
    }
}

/// The order of three texts, whichever way round they are compared.
proof fn lemma_text_order(a: Seq<char>, b: Seq<char>, c: Seq<char>)
    ensures
        !precedes(a, a),
        precedes(a, b) ==> !precedes(b, a),
        precedes(b, c) ==> !precedes(c, b),
        precedes(a, c) ==> !precedes(c, a),
        precedes(a, b) || precedes(b, a) || a == b,
        precedes(b, c) || precedes(c, b) || b == c,
        precedes(a, c) || precedes(c, a) || a == c,
        precedes(a, b) && precedes(b, c) ==> precedes(a, c),
        precedes(c, b) && precedes(b, a) ==> precedes(c, a),
{
    lemma_precedes(a, b, c);
    lemma_precedes(c, b, a);
    lemma_precedes(b, c, a);
    lemma_precedes(a, c, b);
}

/// A disk that may hold boot partitions.
#[derive(Debug)]
pub struct DiskCandidate {
    pub name: String,
    pub sysfs_path: String,
    pub dev_path: String,
    pub logical_block_size: u64,
    pub sectors_512: u64,
    pub removable: bool,
}

impl Ranked for DiskCandidate {
    open spec fn goes_before(&self, other: &DiskCandidate) -> bool {
        if self.removable != other.removable {
            !self.removable
        } else {
            precedes(self.name@, other.name@)
        }
    }

    proof fn lemma_order(a: &DiskCandidate, b: &DiskCandidate, c: &DiskCandidate) {
        lemma_text_order(a.name@, b.name@, c.name@);
    }

    fn before(&self, other: &DiskCandidate) -> (r: bool) {
        if self.removable != other.removable {
            !self.removable
        } else {
            text_before(self.name.as_str(), other.name.as_str())
        }
    }
}

/// Whether a disk of this name may hold boot partitions.
pub open spec fn local_disk_name(name: Seq<char>) -> bool {
    !excluded_name(name) && flash_name(name) && !holds_text(name, "boot"@) && !holds_text(
        name,
        "rpmb"@,
    )
}

/// Whether a disk of this name may hold boot partitions.
pub fn is_local_disk_name(name: &str) -> (r: bool)
    ensures
        r == local_disk_name(name@),
{
    !is_excluded_disk_name(name) && is_local_flash_like_name(name) && !contains_text(name, "boot")
        && !contains_text(name, "rpmb")
}

/// The logical block size that a disk tells: a power of two of at least 512, and 512 where it
/// tells no such number.
pub open spec fn block_size_told(told: Option<Seq<char>>) -> u64 {
    match told {
        None => DEFAULT_LOGICAL_BLOCK_SIZE,
        Some(text) => match parse_number(text, 10, u64::MAX as nat) {
            Some(n) => if n >= 512 && power_of_two(n as int) {
                n as u64
            } else {
                DEFAULT_LOGICAL_BLOCK_SIZE
            },
            None => DEFAULT_LOGICAL_BLOCK_SIZE,
        },
    }
}

/// The logical block size that a disk tells.
pub fn logical_block_size(told: Option<&str>) -> (r: u64)
    ensures
        r == block_size_told(
            match told {
                Some(text) => Some(text@),
                None => None,
            },
        ),
        r >= 512,
{
    match told {
        None => DEFAULT_LOGICAL_BLOCK_SIZE,
        Some(text) => {
            let digits = chars(text);
            match parse_unsigned(&digits, 10, u64::MAX) {
                Some(n) => if n >= 512 && is_power_of_two(n) {
                    n
                } else {
                    DEFAULT_LOGICAL_BLOCK_SIZE
                },
                None => DEFAULT_LOGICAL_BLOCK_SIZE,
            }
        },
    }
}

/// The number of sectors that a disk tells, and zero where it tells none.
pub open spec fn sectors_told(told: Option<Seq<char>>) -> u64 {
    match told {
        None => 0,
        Some(text) => match parse_number(text, 10, u64::MAX as nat) {
            Some(n) => n as u64,
            None => 0,
        },
    }
}

/// The number of sectors that a disk tells, and zero where it tells none.
pub fn sectors_512(told: Option<&str>) -> (r: u64)
    ensures
        r == sectors_told(
            match told {
                Some(text) => Some(text@),
                None => None,
            },
        ),
{
    match told {
        None => 0,
        Some(text) => {
            let digits = chars(text);
            match parse_unsigned(&digits, 10, u64::MAX) {
                Some(n) => n,
                None => 0,
            }
        },
    }
}

/// Whether a word starts with a dollar sign.
pub open spec fn is_variable(word: Seq<char>) -> bool {
    word.len() > 0 && word[0] == '$'
}

/// Whether a command line has no word that stands for a variable.
pub open spec fn no_variables(cmdline: Seq<char>) -> bool {
    forall|i: int| 0 <= i < words(cmdline).len() ==> !is_variable(#[trigger] words(cmdline)[i])
}

impl BootEntry {
    /// The command line of the entry.
    pub open spec fn line(&self) -> Seq<char> {
        joined(texts(self.options@), " "@)
    }

    /// The command line of the entry.
    pub fn cmdline(&self) -> (s: String)
        ensures
            s@ == self.line(),
    {
        join_texts(self.options.as_slice(), " ")
    }

    /// Whether the entry can be booted as it stands: no word of its command line stands for a
    /// variable of a boot loader.
    pub fn is_directly_bootable(&self) -> (r: bool)
        ensures
            r == no_variables(self.line()),
    {
        let line = self.cmdline();
        let found = split_words(line.as_str());
        let ghost views = words(line@);
        let mut i: usize = 0;
        while i < found.len()
            invariant
                i <= found@.len(),
                texts(found@) == views,
                views == words(self.line()),
                forall|k: int| 0 <= k < i ==> !is_variable(#[trigger] views[k]),
            decreases found@.len() - i,
        {
            assert(views[i as int] == found@[i as int]@);
            let word = chars(found[i].as_str());
            if word.len() > 0 && word[0] == '$' {
                assert(is_variable(views[i as int]));
                return false;
            }
            i += 1;
        }
        true
    }
}

/// A boot loader entry, as it is written down.
#[derive(Debug)]
pub struct BlsSnippet {
    pub title: Option<String>,
    pub version: Option<String>,
    pub architecture: Option<String>,
    pub linux: Option<String>,
    pub initrds: Vec<String>,
    pub options: Vec<String>,
}

/// What a boot loader entry says.
pub struct SnippetView {
    pub title: Option<Seq<char>>,
    pub version: Option<Seq<char>>,
    pub architecture: Option<Seq<char>>,
    pub linux: Option<Seq<char>>,
    pub initrds: Seq<Seq<char>>,
    pub options: Seq<Seq<char>>,
}

/// The view of a text, if there is one.
pub open spec fn text_option(text: Option<String>) -> Option<Seq<char>> {
    match text {
        Some(text) => Some(text@),
        None => None,
    }
}

impl View for BlsSnippet {
    type V = SnippetView;

    open spec fn view(&self) -> SnippetView {
        SnippetView {
            title: text_option(self.title),
            version: text_option(self.version),
            architecture: text_option(self.architecture),
            linux: text_option(self.linux),
            initrds: texts(self.initrds@),
            options: texts(self.options@),
        }
    }
}

/// The place of the first white space in `s`, or the length of `s`.
pub open spec fn first_space(s: Seq<char>) -> int
    decreases s.len(),
{
    if s.len() == 0 || is_space(s[0]) {
        0
    } else {
        1 + first_space(s.skip(1))
    }
}

/// The key and the value of a line, unless it is empty, a comment, or a key alone.
pub open spec fn bls_line(line: Seq<char>) -> Option<(Seq<char>, Seq<char>)> {
    let text = trim(line);
    let at = first_space(text);
    if text.len() == 0 || text[0] == '#' || at >= text.len() {
        None
    } else {
        let value = trim(text.skip(at));
        if value.len() == 0 {
            None
        } else {
            Some((text.take(at), value))
        }
    }
}

/// The place of the first white space in `v`, or the length of `v`.
fn find_space(v: &[char]) -> (at: usize)
    ensures
        at == first_space(v@),
        at <= v@.len(),
{
    let mut at: usize = 0;
    assert(v@.skip(0) =~= v@);
    while at < v.len() && !space(v[at])
        invariant
            at <= v@.len(),
            first_space(v@) == at + first_space(v@.skip(at as int)),
        decreases v@.len() - at,
    {
        assert(v@.skip(at as int).skip(1) =~= v@.skip(at + 1));
        at += 1;
    }
    at
}

/// The key and the value of a line.
fn split_bls_line(line: &str) -> (r: Option<(String, String)>)
    ensures
        bls_line(line@) == (match r {
            Some((key, value)) => Some((key@, value@)),
            None => None,
        }),
{
    let v = chars(line);
    let text = trim_chars(&v);
    if text.len() == 0 || text[0] == '#' {
        return None;
    }
    let at = find_space(text);
    if at >= text.len() {
        return None;
    }
    let key = &text[0..at];
    let rest = &text[at..text.len()];
    assert(key@ =~= text@.take(at as int));
    assert(rest@ =~= text@.skip(at as int));
    let value = trim_chars(rest);
    if value.len() == 0 {
        return None;
    }
    Some((from_chars(key), from_chars(value)))
}

/// What an entry says behind one more line: the last title, version, architecture and kernel
/// count, initial ramdisks and options add up, and other keys say nothing.
pub open spec fn behind_line(view: SnippetView, line: Seq<char>) -> SnippetView {
    match bls_line(line) {
        None => view,
        Some((key, value)) => if key == "title"@ {
            SnippetView { title: Some(value), ..view }
        } else if key == "version"@ {
            SnippetView { version: Some(value), ..view }
        } else if key == "architecture"@ {
            SnippetView { architecture: Some(value), ..view }
        } else if key == "linux"@ {
            SnippetView { linux: Some(value), ..view }
        } else if key == "initrd"@ {
            SnippetView { initrds: view.initrds.push(value), ..view }
        } else if key == "options"@ {
            SnippetView { options: view.options.push(value), ..view }
        } else {
            view
        },
    }
}

/// What the first `n` lines say.
pub open spec fn said_by(map: Seq<Seq<char>>, n: int) -> SnippetView
    decreases n,
{
    if n <= 0 {
        SnippetView {
            title: None,
            version: None,
            architecture: None,
            linux: None,
            initrds: Seq::empty(),
            options: Seq::empty(),
        }
    } else {
        behind_line(said_by(map, n - 1), map[n - 1])
    }
}

/// What a boot loader entry says.
pub open spec fn snippet_of(text: Seq<char>) -> SnippetView {
    said_by(lines(text), lines(text).len() as int)
}

impl BlsSnippet {
    /// Takes one more line in.
    fn take_line(&mut self, line: &str)
        ensures
            final(self)@ == behind_line(old(self)@, line@),
    {
        let ghost before = self@;
        if let Some((key, value)) = split_bls_line(line) {
            let key = key.as_str();
            if same_text(key, "title") {
                self.title = Some(value);
            } else if same_text(key, "version") {
                self.version = Some(value);
            } else if same_text(key, "architecture") {
                self.architecture = Some(value);
            } else if same_text(key, "linux") {
                self.linux = Some(value);
            } else if same_text(key, "initrd") {
                self.initrds.push(value);
                assert(self@.initrds =~= before.initrds.push(value@));
            } else if same_text(key, "options") {
                self.options.push(value);
                assert(self@.options =~= before.options.push(value@));
            }
        }
    }

    /// What a boot loader entry says.
    pub fn parse(text: &str) -> (snippet: BlsSnippet)
        ensures
            snippet@ == snippet_of(text@),
    {
        let map = split_lines(text);
        let ghost views = lines(text@);
        let mut snippet = BlsSnippet {
            title: None,
            version: None,
            architecture: None,
            linux: None,
            initrds: Vec::new(),
            options: Vec::new(),
        };
        assert(snippet@.initrds =~= Seq::<Seq<char>>::empty());
        assert(snippet@.options =~= Seq::<Seq<char>>::empty());
        let mut i: usize = 0;
        while i < map.len()
            invariant
                i <= map@.len(),
                texts(map@) == views,
                snippet@ == said_by(views, i as int),
            decreases map@.len() - i,
        {
            assert(views[i as int] == map@[i as int]@);
            snippet.take_line(map[i].as_str());
            i += 1;
        }
        snippet
    }
}

/// Whether an entry is for this architecture: it says so, or says nothing of it.
pub open spec fn is_arm64(architecture: Option<Seq<char>>) -> bool {
    match architecture {
        None => true,
        Some(told) => {
            let name = lowered(trim(told));
            name == "aa64"@ || name == "aarch64"@ || name == "arm64"@
        },
    }
}

/// Whether an entry is for this architecture.
pub fn architecture_matches(value: Option<&str>) -> (r: bool)
    ensures
        r == is_arm64(
            match value {
                Some(told) => Some(told@),
                None => None,
            },
        ),
{
    match value {
        None => true,
        Some(told) => {
            let bare = trimmed(told);
            let name = lower_text(bare.as_str());
            let name = name.as_str();
            same_text(name, "aa64") || same_text(name, "aarch64") || same_text(name, "arm64")
        },
    }
}

/// Why a path of an entry was refused.
#[derive(Clone, Copy, Debug, PartialEq, Eq, Structural)]
pub enum PathError {
    Empty,
    /// The path leads out of the boot partition.
    Unsafe,
    /// The path names nothing.
    NamesNothing,
}

impl PathError {
    /// The error in words, for a path.
    pub open spec fn words(self, path: Seq<char>) -> Seq<char> {
        match self {
            PathError::Empty => "empty BLS path"@,
            PathError::Unsafe => "unsafe BLS path "@ + quoted_text(path),
            PathError::NamesNothing => "empty BLS path "@ + quoted_text(path),
        }
    }

    /// The error in words, for a path.
    pub fn message(self, path: &str) -> (s: String)
        ensures
            s@ == self.words(path@),
    {
        match self {
            PathError::Empty => owned("empty BLS path"),
            PathError::Unsafe => cat("unsafe BLS path ", quoted(path).as_str()),
            PathError::NamesNothing => cat("empty BLS path ", quoted(path).as_str()),
        }
    }
}

/// The first `n` pieces of a path without those that name nothing.
pub open spec fn named_pieces(parts: Seq<Seq<char>>, n: int) -> Seq<Seq<char>>
    decreases n,
{
    if n <= 0 {
        Seq::empty()
    } else if parts[n - 1].len() == 0 || parts[n - 1] == "."@ {
        named_pieces(parts, n - 1)
    } else {
        named_pieces(parts, n - 1).push(parts[n - 1])
    }
}

/// The components of a path.
pub open spec fn components(path: Seq<char>) -> Seq<Seq<char>> {
    named_pieces(pieces(path, '/'), pieces(path, '/').len() as int)
}

/// The components of a path.
pub fn path_components(path: &[char]) -> (r: Vec<String>)
    ensures
        texts(r@) == components(path@),
{
    let parts = split_chars(path, '/');
    let ghost views = pieces(path@, '/');
    let mut named: Vec<String> = Vec::new();
    assert(texts(named@) =~= Seq::<Seq<char>>::empty());
    let mut i: usize = 0;
    while i < parts.len()
        invariant
            i <= parts@.len(),
            texts(parts@) == views,
            texts(named@) == named_pieces(views, i as int),
        decreases parts@.len() - i,
    {
        assert(views[i as int] == parts@[i as int]@);
        let ghost before = named@;
        let part = parts[i].as_str();
        if part.unicode_len() > 0 && !same_text(part, ".") {
            let copy = owned(part);
            named.push(copy);
            assert(texts(named@) =~= texts(before).push(copy@));
        }
        i += 1;
    }
    named
}

/// `relative` under `root`.
pub open spec fn under(root: Seq<char>, relative: Seq<char>) -> Seq<char> {
    if root.len() == 0 || root.last() == '/' {
        root + relative
    } else {
        root + "/"@ + relative
    }
}

/// `relative` under `root`.
pub fn join_path(root: &str, relative: &str) -> (r: String)
    ensures
        r@ == under(root@, relative@),
{
    let v = chars(root);
    if v.len() == 0 || v[v.len() - 1] == '/' {
        cat(root, relative)
    } else {
        let front = cat(root, "/");
        cat(front.as_str(), relative)
    }
}

/// The file that a path of an entry means, under the root of its partition. A path with a parent
/// component is refused, so that no path leads out of the partition.
pub open spec fn boot_path(root: Seq<char>, value: Seq<char>) -> Result<Seq<char>, PathError> {
    let parts = components(trim(value));
    if trim(value).len() == 0 {
        Err(PathError::Empty)
    } else if exists|i: int| 0 <= i < parts.len() && #[trigger] parts[i] == ".."@ {
        Err(PathError::Unsafe)
    } else if parts.len() == 0 {
        Err(PathError::NamesNothing)
    } else {
        Ok(under(root, joined(parts, "/"@)))
    }
}

/// The file that a path of an entry means, under the root of its partition.
pub fn resolve_boot_path(root: &str, value: &str) -> (r: Result<String, PathError>)
    ensures
        boot_path(root@, value@) == (match r {
            Ok(path) => Ok(path@),
            Err(e) => Err(e),
        }),
{
    let v = chars(value);
    let text = trim_chars(&v);
    if text.len() == 0 {
        return Err(PathError::Empty);
    }
    let parts = path_components(text);
    let ghost views = components(trim(value@));
    let mut i: usize = 0;
    while i < parts.len()
        invariant
            i <= parts@.len(),
            texts(parts@) == views,
            views == components(trim(value@)),
            trim(value@).len() > 0,
            forall|k: int| 0 <= k < i ==> #[trigger] views[k] != ".."@,
        decreases parts@.len() - i,
    {
        assert(views[i as int] == parts@[i as int]@);
        if same_text(parts[i].as_str(), "..") {
            assert(views[i as int] == ".."@);
            return Err(PathError::Unsafe);
        }
        i += 1;
    }
    if parts.len() == 0 {
        return Err(PathError::NamesNothing);
    }
    let relative = join_texts(parts.as_slice(), "/");
    Ok(join_path(root, relative.as_str()))
}

proof fn lemma_split_state(s: Seq<char>, sep: char)
    ensures
        !split_state(s, sep).1.contains(sep),
        forall|i: int|
            0 <= i < split_state(s, sep).0.len() ==> !(#[trigger] split_state(
                s,
                sep,
            ).0[i]).contains(sep),
    decreases s.len(),
{
    if s.len() > 0 {
        lemma_split_state(s.drop_last(), sep);
        let (done, current) = split_state(s.drop_last(), sep);
        if s.last() != sep {
            assert forall|k: int| 0 <= k < current.push(s.last()).len() implies current.push(
                s.last(),
            )[k] != sep by {
                if k < current.len() {
                    assert(current.contains(current[k]));
                }
            }
        }
    }
}

proof fn lemma_named_pieces(parts: Seq<Seq<char>>, n: int)
    requires
        0 <= n <= parts.len(),
        forall|i: int| 0 <= i < parts.len() ==> !(#[trigger] parts[i]).contains('/'),
    ensures
        forall|i: int|
            0 <= i < named_pieces(parts, n).len() ==> (#[trigger] named_pieces(parts, n)[i]).len()
                > 0 && !named_pieces(parts, n)[i].contains('/'),
    decreases n,
{
    if n > 0 {
        lemma_named_pieces(parts, n - 1);
        let front = named_pieces(parts, n - 1);
        let all = named_pieces(parts, n);
        assert forall|i: int| 0 <= i < all.len() implies (#[trigger] all[i]).len() > 0
            && !all[i].contains('/') by {
            if i < front.len() {
                assert(all[i] == front[i]);
            } else {
                assert(all[i] == parts[n - 1]);
            }
        }
    }
}

/// No path of an entry leads out of its partition: what it means is the root followed by
/// components that are not empty, hold no separator, and do not go to a parent.
pub proof fn law_boot_paths_stay_inside(root: Seq<char>, value: Seq<char>)
    ensures
        boot_path(root, value) matches Ok(path) ==> exists|parts: Seq<Seq<char>>|
            parts.len() > 0 && path == under(
                root,
                #[trigger] joined(parts, "/"@),
            ) && forall|i: int|
                0 <= i < parts.len() ==> (#[trigger] parts[i]).len() > 0 && parts[i] != ".."@
                    && !parts[i].contains('/'),
{
    if let Ok(path) = boot_path(root, value) {
        let text = trim(value);
        let all = pieces(text, '/');
        lemma_split_state(text, '/');
        assert forall|i: int| 0 <= i < all.len() implies !(#[trigger] all[i]).contains('/') by {
            let (done, current) = split_state(text, '/');
            if i < done.len() {
                assert(all[i] == done[i]);
            } else {
                assert(all[i] == current);
            }
        }
        lemma_named_pieces(all, all.len() as int);
        let parts = components(text);
        assert(path == under(root, joined(parts, "/"@)));
    }
}

/// Whether a piece of a path names something: it is not empty and not the mark of the same place.
pub open spec fn names_something(piece: Seq<char>) -> bool {
    piece.len() > 0 && piece != seq!['.']
}

proof fn lemma_named_pieces_filter(parts: Seq<Seq<char>>, n: int)
    requires
        0 <= n <= parts.len(),
    ensures
        named_pieces(parts, n) == parts.take(n).filter(|piece: Seq<char>| names_something(piece)),
    decreases n,
{
    reveal_strlit(".");
    reveal(Seq::filter);
    assert("."@ =~= seq!['.']);
    if n > 0 {
        lemma_named_pieces_filter(parts, n - 1);
        assert(parts.take(n).drop_last() =~= parts.take(n - 1));
        assert(parts.take(n).last() == parts[n - 1]);
    }
}

/// What a path of an entry means is found by its pieces between separators: one that goes to a
/// parent has the path refused, and otherwise all pieces that name something follow the root, in
/// their order and with separators between them.
pub proof fn law_boot_paths_keep_their_pieces(root: Seq<char>, value: Seq<char>)
    requires
        trim(value).len() > 0,
    ensures
        ({
            let all = pieces(trim(value), '/');
            let named = all.filter(|piece: Seq<char>| names_something(piece));
            if named.contains(seq!['.', '.']) {
                boot_path(root, value) == Err::<Seq<char>, PathError>(PathError::Unsafe)
            } else if named.len() == 0 {
                boot_path(root, value) == Err::<Seq<char>, PathError>(PathError::NamesNothing)
            } else {
                boot_path(root, value) matches Ok(path) && {
                    let front = if root.len() > 0 && root.last() != '/' {
                        root.push('/')
                    } else {
                        root
                    };
                    &&& front.is_prefix_of(path)
                    &&& pieces(path.skip(front.len() as int), '/') == named
                }
            }
        }),
{
    reveal_strlit("..");
    reveal_strlit("/");
    assert(".."@ =~= seq!['.', '.']);
    assert("/"@ =~= seq!['/']);
    let text = trim(value);
    let all = pieces(text, '/');
    law_pieces_make_the_text(text, '/');
    lemma_named_pieces(all, all.len() as int);
    lemma_named_pieces_filter(all, all.len() as int);
    assert(all.take(all.len() as int) =~= all);
    let named = components(text);
    if named.contains(seq!['.', '.']) {
        let i = choose|i: int| 0 <= i < named.len() && named[i] == seq!['.', '.'];
        assert(named[i] == ".."@);
    } else {
        assert forall|i: int| 0 <= i < named.len() implies #[trigger] named[i] != ".."@ by {
            assert(named.contains(named[i]));
        }
        if named.len() > 0 {
            law_joined_texts_are_cut_again(named, '/');
            let relative = joined(named, seq!['/']);
            let path = boot_path(root, value)->Ok_0;
            let front = if root.len() > 0 && root.last() != '/' {
                root.push('/')
            } else {
                root
            };
            assert(path =~= front + relative);
            assert(path.skip(front.len() as int) =~= relative);
        }
    }
}

proof fn lemma_all_named(parts: Seq<Seq<char>>, n: int)
    requires
        0 <= n <= parts.len(),
        forall|i: int| 0 <= i < parts.len() ==> names_something(#[trigger] parts[i]),
    ensures
        named_pieces(parts, n) == parts.take(n),
    decreases n,
{
    reveal_strlit(".");
    assert("."@ =~= seq!['.']);
    if n > 0 {
        lemma_all_named(parts, n - 1);
        assert(names_something(parts[n - 1]));
        assert(parts.take(n - 1).push(parts[n - 1]) =~= parts.take(n));
    } else {
        assert(parts.take(0) =~= Seq::<Seq<char>>::empty());
    }
}

proof fn lemma_leading_slash(s: Seq<char>)
    ensures
        split_state(seq!['/'] + s, '/') == (
            seq![Seq::<char>::empty()] + split_state(s, '/').0,
            split_state(s, '/').1,
        ),
    decreases s.len(),
{
    let whole = seq!['/'] + s;
    if s.len() == 0 {
        assert(whole.drop_last() =~= Seq::<char>::empty());
        assert(whole.last() == '/');
        let none = (Seq::<Seq<char>>::empty(), Seq::<char>::empty());
        assert(split_state(whole.drop_last(), '/') == none);
        assert(split_state(s, '/') == none);
        assert(none.0.push(none.1) =~= seq![Seq::<char>::empty()] + none.0);
    } else {
        lemma_leading_slash(s.drop_last());
        assert(whole.drop_last() =~= seq!['/'] + s.drop_last());
        assert(whole.last() == s.last());
        let (done, current) = split_state(s.drop_last(), '/');
        assert((seq![Seq::<char>::empty()] + done).push(current) =~= seq![Seq::<char>::empty()]
            + done.push(current));
    }
}

/// A plain path, each piece of which names something below the place before it, means the file at
/// that path under the root, character for character, with a separator at its start or without,
/// and with white space around it or without.
pub proof fn law_plain_boot_paths_are_kept(
    root: Seq<char>,
    path: Seq<char>,
    before: Seq<char>,
    behind: Seq<char>,
)
    requires
        root.len() > 0,
        root.last() != '/',
        path.len() > 0,
        !is_space(path[0]),
        !is_space(path.last()),
        forall|i: int| 0 <= i < before.len() ==> is_space(#[trigger] before[i]),
        forall|i: int| 0 <= i < behind.len() ==> is_space(#[trigger] behind[i]),
        forall|i: int|
            0 <= i < pieces(path, '/').len() ==> names_something(#[trigger] pieces(path, '/')[i])
                && pieces(path, '/')[i] != seq!['.', '.'],
    ensures
        boot_path(root, before + path + behind) == Ok::<Seq<char>, PathError>(
            root.push('/') + path,
        ),
        boot_path(root, before + (seq!['/'] + path) + behind) == Ok::<Seq<char>, PathError>(
            root.push('/') + path,
        ),
{
    reveal_strlit("..");
    reveal_strlit("/");
    assert(".."@ =~= seq!['.', '.']);
    assert("/"@ =~= seq!['/']);
    let all = pieces(path, '/');
    let slashed = seq!['/'] + path;
    law_pieces_make_the_text(path, '/');
    law_trimming_takes_white_space(before, path, behind);
    assert(!is_space('/'));
    assert(slashed.last() == path.last());
    law_trimming_takes_white_space(before, slashed, behind);
    lemma_all_named(all, all.len() as int);
    assert(all.take(all.len() as int) =~= all);
    lemma_leading_slash(path);
    let longer = pieces(slashed, '/');
    assert(longer =~= seq![Seq::<char>::empty()] + all);
    lemma_named_behind(all, all.len() as int);
    assert(root + "/"@ + path =~= root.push('/') + path);
}

proof fn lemma_named_behind(parts: Seq<Seq<char>>, n: int)
    requires
        0 <= n <= parts.len(),
    ensures
        named_pieces(seq![Seq::<char>::empty()] + parts, n + 1) == named_pieces(parts, n),
    decreases n,
{
    let longer = seq![Seq::<char>::empty()] + parts;
    if n > 0 {
        lemma_named_behind(parts, n - 1);
        assert(longer[n] == parts[n - 1]);
    } else {
        assert(longer[0].len() == 0);
        assert(named_pieces(longer, 0) =~= Seq::<Seq<char>>::empty());
    }
}

/// The name of the file that a path means: its last component, unless it has none or goes to a
/// parent, and the path itself then.
pub open spec fn file_name_of(path: Seq<char>) -> Seq<char> {
    let parts = components(path);
    if parts.len() == 0 || parts.last() == ".."@ {
        path
    } else {
        parts.last()
    }
}

/// The name of the file that a path means.
pub fn file_name(path: &str) -> (r: String)
    ensures
        r@ == file_name_of(path@),
{
    let v = chars(path);
    let parts = path_components(&v);
    let ghost views = components(path@);
    if parts.len() == 0 {
        return owned(path);
    }
    let last = parts[parts.len() - 1].as_str();
    assert(views.last() == parts@[parts@.len() - 1]@);
    if same_text(last, "..") {
        owned(path)
    } else {
        owned(last)
    }
}

/// Whether a file of this name is a boot loader entry: it has the extension `conf`.
pub fn is_bls_entry_name(name: &str) -> (r: bool)
    ensures
        r == (".conf"@.is_suffix_of(name@) && name@.len() > 5),
{
    proof {
        reveal_strlit(".conf");
    }
    strip_suffix(name, ".conf").is_some() && name.unicode_len() > 5
}

/// What the reading of an entry waits for, or has come to.
#[derive(Debug)]
pub enum BlsStep {
    /// The entry is not for this machine, or has no kernel.
    Skip,
    /// It is to be seen whether there is a file at the path.
    Check(String),
    /// A path is refused.
    Fail(PathError),
    /// All files are there.
    Ready,
}

/// What a step is to the one that looks for files.
pub enum StepView {
    Skip,
    Check(Seq<char>),
    Fail(PathError),
    Ready,
}

impl View for BlsStep {
    type V = StepView;

    open spec fn view(&self) -> StepView {
        match self {
            BlsStep::Skip => StepView::Skip,
            BlsStep::Check(path) => StepView::Check(path@),
            BlsStep::Fail(e) => StepView::Fail(*e),
            BlsStep::Ready => StepView::Ready,
        }
    }
}

/// Looking for the file at a path of an entry.
pub open spec fn check_path(root: Seq<char>, value: Seq<char>) -> StepView {
    match boot_path(root, value) {
        Ok(path) => StepView::Check(path),
        Err(e) => StepView::Fail(e),
    }
}

/// What the reading of an entry waits for once `present` of its files have been seen: first the
/// kernel, then the initial ramdisks in their order.
pub open spec fn bls_waits(snippet: SnippetView, root: Seq<char>, present: int) -> StepView {
    if !is_arm64(snippet.architecture) {
        StepView::Skip
    } else {
        match snippet.linux {
            None => StepView::Skip,
            Some(linux) => if linux.len() == 0 {
                StepView::Skip
            } else if present <= 0 {
                check_path(root, linux)
            } else if present - 1 < snippet.initrds.len() {
                check_path(root, snippet.initrds[present - 1])
            } else {
                StepView::Ready
            },
        }
    }
}

/// Looks for the file at a path of an entry.
fn check(root: &str, value: &str) -> (r: BlsStep)
    ensures
        r@ == check_path(root@, value@),
{
    match resolve_boot_path(root, value) {
        Ok(path) => BlsStep::Check(path),
        Err(e) => BlsStep::Fail(e),
    }
}

/// What the reading of an entry waits for once `present` of its files have been seen.
pub fn bls_step(snippet: &BlsSnippet, root: &str, present: usize) -> (r: BlsStep)
    ensures
        r@ == bls_waits(snippet@, root@, present as int),
{
    let ghost view = snippet@;
    let architecture = match &snippet.architecture {
        Some(told) => Some(told.as_str()),
        None => None,
    };
    if !architecture_matches(architecture) {
        return BlsStep::Skip;
    }
    let linux = match &snippet.linux {
        Some(linux) => linux.as_str(),
        None => return BlsStep::Skip,
    };
    if linux.unicode_len() == 0 {
        return BlsStep::Skip;
    }
    if present == 0 {
        return check(root, linux);
    }
    if present - 1 < snippet.initrds.len() {
        assert(view.initrds[present - 1] == snippet.initrds@[present - 1]@);
        return check(root, snippet.initrds[present - 1].as_str());
    }
    BlsStep::Ready
}

/// What an entry comes to when files are looked for one after the other, with the given answers
/// from number `i` on: whether all are there.
pub open spec fn bls_outcome(
    snippet: SnippetView,
    root: Seq<char>,
    answers: Seq<bool>,
    i: int,
) -> Result<bool, PathError>
    decreases answers.len() - i + 1,
{
    match bls_waits(snippet, root, i) {
        StepView::Skip => Ok(false),
        StepView::Fail(e) => Err(e),
        StepView::Ready => Ok(true),
        StepView::Check(_) => if i < 0 || i >= answers.len() || !answers[i] {
            Ok(false)
        } else {
            bls_outcome(snippet, root, answers, i + 1)
        },
    }
}

/// The files of the initial ramdisks of an entry.
pub open spec fn ramdisk_paths(snippet: SnippetView, root: Seq<char>) -> Seq<Seq<char>> {
    Seq::new(snippet.initrds.len(), |i: int| boot_path(root, snippet.initrds[i])->Ok_0)
}

/// Whether `entry` is what the snippet says, with the files under `root`, on a partition.
pub open spec fn entry_says(
    entry: BootEntry,
    snippet: SnippetView,
    partition: CandidateView,
    root: Seq<char>,
    source: Seq<char>,
) -> bool {
    &&& entry.id@ == file_name_of(source)
    &&& text_option(entry.title) == snippet.title
    &&& text_option(entry.version) == snippet.version
    &&& text_option(entry.architecture) == snippet.architecture
    &&& entry.source@ == source
    &&& entry.role == partition.role
    &&& entry.disk@ == partition.disk
    &&& entry.partition@ == partition.partition
    &&& snippet.linux matches Some(linux) && boot_path(root, linux) == Ok::<
        Seq<char>,
        PathError,
    >(entry.linux@)
    &&& texts(entry.initrds@) == ramdisk_paths(snippet, root)
    &&& texts(entry.options@) == snippet.options
}

/// The files of the initial ramdisks of an entry, all of whose paths are sound.
fn resolve_initrds(snippet: &BlsSnippet, root: &str) -> (r: Result<Vec<String>, PathError>)
    ensures
        r matches Ok(paths) ==> texts(paths@) == ramdisk_paths(snippet@, root@),
        r matches Err(e) ==> exists|i: int|
            0 <= i < snippet@.initrds.len() && #[trigger] boot_path(root@, snippet@.initrds[i])
                is Err,
{
    let ghost view = snippet@;
    let mut paths: Vec<String> = Vec::new();
    let mut i: usize = 0;
    while i < snippet.initrds.len()
        invariant
            i <= snippet.initrds@.len(),
            view == snippet@,
            paths@.len() == i,
            forall|k: int|
                0 <= k < i ==> (#[trigger] paths@[k])@ == boot_path(
                    root@,
                    view.initrds[k],
                )->Ok_0,
        decreases snippet.initrds@.len() - i,
    {
        assert(view.initrds[i as int] == snippet.initrds@[i as int]@);
        match resolve_boot_path(root, snippet.initrds[i].as_str()) {
            Ok(path) => {
                paths.push(path);
            },
            Err(e) => {
                assert(boot_path(root@, view.initrds[i as int]) is Err);
                return Err(e);
            },
        }
        i += 1;
    }
    assert(texts(paths@) =~= ramdisk_paths(view, root@));
    Ok(paths)
}

/// All paths of an entry are sound once all its files have been seen.
proof fn lemma_outcome_paths(
    snippet: SnippetView,
    root: Seq<char>,
    answers: Seq<bool>,
    i: int,
    k: int,
)
    requires
        0 <= i <= k <= snippet.initrds.len(),
        bls_outcome(snippet, root, answers, i) == Ok::<bool, PathError>(true),
    ensures
        snippet.linux is Some,
        k > 0 ==> boot_path(root, snippet.initrds[k - 1]) is Ok,
        k == 0 ==> boot_path(root, snippet.linux->0) is Ok,
    decreases answers.len() - i + 1, k - i,
{
    if i < k {
        lemma_outcome_paths(snippet, root, answers, i + 1, k);
    }
}

/// The boot entry that a snippet gives, given whether there is a file at each path that the
/// reading waits for.
pub fn parse_bls_file(
    partition: &BootPartitionCandidate,
    root: &str,
    source: &str,
    text: &str,
    answers: &[bool],
) -> (r: Result<Option<BootEntry>, PathError>)
    ensures
        match bls_outcome(snippet_of(text@), root@, answers@, 0) {
            Err(e) => r matches Err(f) && f == e,
            Ok(false) => r matches Ok(None),
            Ok(true) => r matches Ok(Some(entry)) && entry_says(
                entry,
                snippet_of(text@),
                partition@,
                root@,
                source@,
            ),
        },
{
    let snippet = BlsSnippet::parse(text);
    let ghost view = snippet@;
    let mut present: usize = 0;
    loop
        invariant_except_break
            view == snippet@,
            view == snippet_of(text@),
            present <= answers@.len(),
            bls_outcome(view, root@, answers@, 0) == bls_outcome(
                view,
                root@,
                answers@,
                present as int,
            ),
        ensures
            bls_outcome(view, root@, answers@, 0) == Ok::<bool, PathError>(true),
        decreases answers@.len() - present,
    {
        match bls_step(&snippet, root, present) {
            BlsStep::Skip => {
                return Ok(None);
            },
            BlsStep::Fail(e) => {
                return Err(e);
            },
            BlsStep::Ready => {
                break;
            },
            BlsStep::Check(_) => {
                if present >= answers.len() || !answers[present] {
                    return Ok(None);
                }
                present += 1;
            },
        }
    }
    proof {
        lemma_outcome_paths(view, root@, answers@, 0, 0);
        assert forall|i: int| 0 <= i < view.initrds.len() implies #[trigger] boot_path(
            root@,
            view.initrds[i],
        ) is Ok by {
            lemma_outcome_paths(view, root@, answers@, 0, i + 1);
        }
    }
    let initrds = resolve_initrds(&snippet, root)?;
    let linux = match &snippet.linux {
        Some(linux) => resolve_boot_path(root, linux.as_str())?,
        None => return Ok(None),
    };
    Ok(
        Some(
            BootEntry {
                id: file_name(source),
                title: snippet.title,
                version: snippet.version,
                architecture: snippet.architecture,
                source: owned(source),
                role: partition.role,
                disk: owned(partition.disk.as_str()),
                partition: owned(partition.partition.as_str()),
                linux,
                initrds,
                options: snippet.options,
            },
        ),
    )
}

/// The directory that a candidate is mounted at.
pub fn mount_root(candidate: &BootPartitionCandidate) -> (r: String)
    ensures
        r@ == "/run/pocketboot/boot/"@ + candidate.role.words() + "-"@ + candidate.partition@,
{
    let mut r = owned("/run/pocketboot/boot/");
    r.append(candidate.role.label());
    r.append("-");
    r.append(candidate.partition.as_str());
    r
}

/// The candidate for a disk, from what the system tells of it: none for a name that is not one of
/// local flash, for a virtual disk, and for one without a device.
pub fn disk_candidate(
    name: &str,
    sysfs_path: &str,
    is_virtual: bool,
    has_device: bool,
    removable: Option<&str>,
    block_size: Option<&str>,
    size: Option<&str>,
) -> (r: Option<DiskCandidate>)
    ensures
        r is Some <==> local_disk_name(name@) && !is_virtual && has_device,
        r matches Some(disk) ==> {
            &&& disk.name@ == name@
            &&& disk.sysfs_path@ == sysfs_path@
            &&& disk.dev_path@ == "/dev/"@ + name@
            &&& disk.removable == (removable matches Some(told) && told@ == "1"@)
            &&& disk.logical_block_size == block_size_told(
                match block_size {
                    Some(told) => Some(told@),
                    None => None,
                },
            )
            &&& disk.sectors_512 == sectors_told(
                match size {
                    Some(told) => Some(told@),
                    None => None,
                },
            )
        },
{
    if !is_local_disk_name(name) || is_virtual || !has_device {
        return None;
    }
    Some(
        DiskCandidate {
            name: owned(name),
            sysfs_path: owned(sysfs_path),
            dev_path: cat("/dev/", name),
            logical_block_size: logical_block_size(block_size),
            sectors_512: sectors_512(size),
            removable: match removable {
                Some(told) => same_text(told, "1"),
                None => false,
            },
        },
    )
}

/// The initial ramdisk of an entry, from the contents of its files: nothing without files, and
/// all contents behind one another otherwise.
pub fn initrd_payload(files: &[Vec<u8>]) -> (r: Option<Vec<u8>>)
    ensures
        r is None <==> files@.len() == 0,
        r matches Some(payload) ==> payload@ == parts(files@).flatten(),
{
    if files.len() == 0 {
        return None;
    }
    let mut payload: Vec<u8> = Vec::new();
    push_parts(&mut payload, files);
    assert(payload@ =~= parts(files@).flatten());
    Some(payload)
}

/// The boot entries in the order in which they are offered: first those of extended boot loader
/// partitions, by disk and partition, the later name first.
pub fn sort_entries(entries: Vec<BootEntry>) -> (r: Vec<BootEntry>)
    ensures
        r@ == sorted(entries@, entries@.len() as int),
        in_order(r@),
        r@.to_multiset() =~= entries@.to_multiset(),
{
    proof {
        lemma_sorted(entries@, entries@.len() as int);
        assert(entries@.take(entries@.len() as int) =~= entries@);
    }
    sort(entries)
}

/// The candidates in the order in which they are looked at.
pub fn sort_candidates(candidates: Vec<BootPartitionCandidate>) -> (r: Vec<BootPartitionCandidate>)
    ensures
        r@ == sorted(candidates@, candidates@.len() as int),
        in_order(r@),
        r@.to_multiset() =~= candidates@.to_multiset(),
{
    proof {
        lemma_sorted(candidates@, candidates@.len() as int);
        assert(candidates@.take(candidates@.len() as int) =~= candidates@);
    }
    sort(candidates)
}

/// The disks in the order in which they are looked at: fixed ones first, then by name.
pub fn sort_disks(disks: Vec<DiskCandidate>) -> (r: Vec<DiskCandidate>)
    ensures
        r@ == sorted(disks@, disks@.len() as int),
        in_order(r@),
        r@.to_multiset() =~= disks@.to_multiset(),
{
    proof {
        lemma_sorted(disks@, disks@.len() as int);
        assert(disks@.take(disks@.len() as int) =~= disks@);
    }
    sort(disks)
}

proof fn lemma_first_space(key: Seq<char>, rest: Seq<char>)
    requires
        forall|i: int| 0 <= i < key.len() ==> !is_space(#[trigger] key[i]),
        rest.len() > 0 ==> is_space(rest[0]),
    ensures
        first_space(key + rest) == key.len(),
    decreases key.len(),
{
    if key.len() > 0 {
        let less = key.skip(1);
        assert((key + rest).skip(1) =~= less + rest);
        assert((key + rest)[0] == key[0]);
        assert forall|i: int| 0 <= i < less.len() implies !is_space(#[trigger] less[i]) by {
            assert(less[i] == key[i + 1]);
        }
        lemma_first_space(less, rest);
    } else {
        assert(key + rest =~= rest);
    }
}

/// Whether all characters of a text are white space.
pub open spec fn is_blank(s: Seq<char>) -> bool {
    forall|i: int| 0 <= i < s.len() ==> is_space(#[trigger] s[i])
}

/// A line of an entry gives its key and its value: the key is its first word, and the value all that
/// follows, without the white space around it. A comment gives none, nor does a key alone.
pub proof fn law_entry_lines_are_read(
    before: Seq<char>,
    key: Seq<char>,
    gap: Seq<char>,
    value: Seq<char>,
    behind: Seq<char>,
)
    requires
        is_blank(before),
        is_blank(gap),
        is_blank(behind),
        key.len() > 0,
        forall|i: int| 0 <= i < key.len() ==> !is_space(#[trigger] key[i]),
        gap.len() > 0,
        value.len() > 0,
        !is_space(value[0]),
        !is_space(value.last()),
    ensures
        bls_line(before + (key + gap + value) + behind) == (if key[0] == '#' {
            None
        } else {
            Some((key, value))
        }),
        bls_line(before + key + behind) is None,
        bls_line(before) is None,
{
    let none = Seq::<char>::empty();
    let text = key + gap + value;
    assert(text[0] == key[0]);
    assert(text.last() == value.last());
    law_trimming_takes_white_space(before, text, behind);
    assert(text =~= key + (gap + value));
    assert((gap + value)[0] == gap[0]);
    lemma_first_space(key, gap + value);
    assert(text.take(key.len() as int) =~= key);
    assert(text.skip(key.len() as int) =~= gap + value);
    law_trimming_takes_white_space(gap, value, none);
    assert(gap + value + none =~= gap + value);
    assert(key[key.len() - 1] == key.last());
    law_trimming_takes_white_space(before, key, behind);
    lemma_first_space(key, none);
    assert(key + none =~= key);
    law_trimming_takes_white_space(before, none, none);
    assert(before + none + none =~= before);
}

/// The value of a line with a key, where the line has it.
pub open spec fn value_under(line: Seq<char>, key: Seq<char>) -> Option<Seq<char>> {
    match bls_line(line) {
        Some((found, value)) => if found == key {
            Some(value)
        } else {
            None
        },
        None => None,
    }
}

/// The last value under a key among the first `n` lines.
pub open spec fn last_under(map: Seq<Seq<char>>, n: int, key: Seq<char>) -> Option<Seq<char>>
    decreases n,
{
    if n <= 0 {
        None
    } else if value_under(map[n - 1], key) is Some {
        value_under(map[n - 1], key)
    } else {
        last_under(map, n - 1, key)
    }
}

/// All values under a key among the first `n` lines, in their order.
pub open spec fn all_under(map: Seq<Seq<char>>, n: int, key: Seq<char>) -> Seq<Seq<char>>
    decreases n,
{
    if n <= 0 {
        Seq::empty()
    } else if value_under(map[n - 1], key) is Some {
        all_under(map, n - 1, key).push(value_under(map[n - 1], key)->0)
    } else {
        all_under(map, n - 1, key)
    }
}

proof fn lemma_keys_differ()
    ensures
        "title"@.len() == 5 && "title"@[0] == 't',
        "version"@.len() == 7 && "version"@[0] == 'v',
        "architecture"@.len() == 12,
        "linux"@.len() == 5 && "linux"@[0] == 'l',
        "initrd"@.len() == 6,
        "options"@.len() == 7 && "options"@[0] == 'o',
{
    reveal_strlit("title");
    reveal_strlit("version");
    reveal_strlit("architecture");
    reveal_strlit("linux");
    reveal_strlit("initrd");
    reveal_strlit("options");
}

proof fn lemma_said_by(map: Seq<Seq<char>>, n: int)
    ensures
        ({
            let said = said_by(map, n);
            &&& said.title == last_under(map, n, "title"@)
            &&& said.version == last_under(map, n, "version"@)
            &&& said.architecture == last_under(map, n, "architecture"@)
            &&& said.linux == last_under(map, n, "linux"@)
            &&& said.initrds == all_under(map, n, "initrd"@)
            &&& said.options == all_under(map, n, "options"@)
        }),
    decreases n,
{
    lemma_keys_differ();
    if n > 0 {
        lemma_said_by(map, n - 1);
    }
}

/// An entry says what its lines say: its title, version, architecture and kernel are the last ones
/// that a line gives, and its initial ramdisks and options are all that lines give, in their order.
pub proof fn law_entries_say_what_their_lines_say(parts: Seq<Seq<char>>)
    requires
        parts.len() > 0,
        forall|i: int| 0 <= i < parts.len() ==> is_line(#[trigger] parts[i]),
    ensures
        ({
            let said = snippet_of(joined(parts, seq!['\n']).push('\n'));
            let n = parts.len() as int;
            &&& said.title == last_under(parts, n, "title"@)
            &&& said.version == last_under(parts, n, "version"@)
            &&& said.architecture == last_under(parts, n, "architecture"@)
            &&& said.linux == last_under(parts, n, "linux"@)
            &&& said.initrds == all_under(parts, n, "initrd"@)
            &&& said.options == all_under(parts, n, "options"@)
        }),
{
    law_lines_are_read(parts);
    lemma_said_by(parts, parts.len() as int);
}

/// The files of an entry are looked for one after the other: first its kernel, then each initial
/// ramdisk, each at the path that the entry gives for it under the root. An entry for another
/// architecture, or without a kernel, is passed over; one without an architecture is for any.
pub proof fn law_files_of_entries_are_looked_for(
    snippet: SnippetView,
    root: Seq<char>,
    present: int,
    linux: Seq<char>,
)
    requires
        0 <= present,
        snippet.linux == Some(linux),
        linux.len() > 0,
        snippet.architecture is None || snippet.architecture == Some("aa64"@)
            || snippet.architecture == Some("aarch64"@) || snippet.architecture == Some("arm64"@),
    ensures
        ({
            let step = bls_waits(snippet, root, present);
            let wanted = if present == 0 {
                linux
            } else {
                snippet.initrds[present - 1]
            };
            if present <= snippet.initrds.len() {
                match boot_path(root, wanted) {
                    Ok(path) => step == StepView::Check(path),
                    Err(e) => step == StepView::Fail(e),
                }
            } else {
                step == StepView::Ready
            }
        }),
{
    reveal_strlit("aa64");
    reveal_strlit("aarch64");
    reveal_strlit("arm64");
    let none = Seq::<char>::empty();
    if let Some(told) = snippet.architecture {
        law_trimming_takes_white_space(none, told, none);
        assert(none + told + none =~= told);
        assert(lowered(told) =~= told);
    }
}

/// Boot partitions are tried in this order: extended boot loader partitions before those of the
/// system, disks that stay before those that can be removed, and then by the name of the disk and
/// the number of the partition.
pub proof fn law_boot_partitions_are_tried_in_order(
    a: BootPartitionCandidate,
    b: BootPartitionCandidate,
)
    ensures
        a.role == BootPartitionRole::Xbootldr && b.role == BootPartitionRole::Esp
            ==> a.goes_before(&b) && !b.goes_before(&a),
        a.role == b.role && !a.removable && b.removable ==> a.goes_before(&b) && !b.goes_before(&a),
        a.role == b.role && a.removable == b.removable && a.disk@ == b.disk@ ==> (a.goes_before(&b)
            <==> a.partno < b.partno),
        a.role == b.role && a.removable == b.removable && a.disk@ != b.disk@ ==> (a.goes_before(&b)
            <==> precedes(a.disk@, b.disk@)),
{
}

/// Of two entries of one partition, the one with the greater name comes first, which is that of the
/// newer version; entries of extended boot loader partitions come before those of others.
pub proof fn law_newer_entries_come_first(a: BootEntry, b: BootEntry)
    ensures
        a.role == BootPartitionRole::Xbootldr && b.role == BootPartitionRole::Esp
            ==> a.goes_before(&b) && !b.goes_before(&a),
        a.role == b.role && a.disk@ == b.disk@ && a.partition@ == b.partition@ && precedes(
            a.id@,
            b.id@,
        ) ==> b.goes_before(&a),
{
    lemma_precedes(a.id@, a.id@, a.id@);
}

/// Boot partitions are looked for on disks of local flash, but not on their boot areas, nor on the
/// protected area.
pub proof fn law_boot_areas_are_left_out(front: Seq<char>, behind: Seq<char>)
    ensures
        !local_disk_name(front + seq!['b', 'o', 'o', 't'] + behind),
        !local_disk_name(front + seq!['r', 'p', 'm', 'b'] + behind),
        !local_disk_name(seq!['l', 'o', 'o', 'p'] + behind),
{
    reveal_strlit("boot");
    reveal_strlit("rpmb");
    assert("boot"@ =~= seq!['b', 'o', 'o', 't']);
    assert("rpmb"@ =~= seq!['r', 'p', 'm', 'b']);
    let n = front.len() as int;
    let one = front + "boot"@ + behind;
    assert(one.subrange(n, n + 4) =~= "boot"@);
    let other = front + "rpmb"@ + behind;
    assert(other.subrange(n, n + 4) =~= "rpmb"@);
    law_disks_are_told_by_name(behind);
}

/// A disk has the block size that it tells, where that is a power of two of at least 512, and 512
/// otherwise.
pub proof fn law_block_sizes_are_told(n: u64)
    ensures
        block_size_told(Some(decimal(n as int))) == (if n >= 512 && power_of_two(n as int) {
            n
        } else {
            512u64
        }),
        block_size_told(None) == 512,
        sectors_told(Some(decimal(n as int))) == n,
        sectors_told(None) == 0,
{
    law_written_numbers_are_read_back(n as nat, u64::MAX as nat);
}

/// An entry carries all that its file says: its name is that of the file, its kernel and each of its
/// ramdisks are where their paths lead, in their order, and the command line is all of its options
/// with spaces between them.
pub proof fn law_entries_carry_what_their_files_say(
    entry: BootEntry,
    snippet: SnippetView,
    partition: CandidateView,
    root: Seq<char>,
    source: Seq<char>,
    i: int,
)
    requires
        entry_says(entry, snippet, partition, root, source),
        0 <= i < snippet.initrds.len(),
        boot_path(root, snippet.initrds[i]) is Ok,
    ensures
        snippet.linux is Some,
        boot_path(root, snippet.linux->0) == Ok::<Seq<char>, PathError>(entry.linux@),
        entry.initrds@.len() == snippet.initrds.len(),
        boot_path(root, snippet.initrds[i]) == Ok::<Seq<char>, PathError>(entry.initrds@[i]@),
        entry.line() == joined(snippet.options, seq![' ']),
        entry.title matches Some(title) ==> snippet.title == Some(title@),
        entry.role == partition.role && entry.disk@ == partition.disk && entry.partition@
            == partition.partition,
{
    reveal_strlit(" ");
    assert(" "@ =~= seq![' ']);
    assert(texts(entry.initrds@).len() == entry.initrds@.len());
    assert(texts(entry.initrds@)[i] == entry.initrds@[i]@);
    assert(ramdisk_paths(snippet, root)[i] == boot_path(root, snippet.initrds[i])->Ok_0);
}

} // verus!
