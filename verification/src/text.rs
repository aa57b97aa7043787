//! Text as a sequence of characters: splitting, trimming, numbers.
use vstd::prelude::*;
use vstd::string::*;
use vstd::utf8::*;

use crate::bytes::{parts, same_bytes};

verus! {

/// `String::push` appends one character.
pub assume_specification[ String::push ](text: &mut String, c: char)
    ensures
        final(text)@ == old(text)@.push(c),
;

/// The characters with the Unicode property White_Space.
pub open spec fn is_space(c: char) -> bool {
    ||| '\u{9}' <= c <= '\u{d}'
    ||| c == ' '
    ||| c == '\u{85}'
    ||| c == '\u{a0}'
    ||| c == '\u{1680}'
    ||| '\u{2000}' <= c <= '\u{200a}'
    ||| c == '\u{2028}'
    ||| c == '\u{2029}'
    ||| c == '\u{202f}'
    ||| c == '\u{205f}'
    ||| c == '\u{3000}'
}

/// Whether `c` is white space.
pub fn space(c: char) -> (r: bool)
    ensures
        r == is_space(c),
{
    ('\u{9}' <= c && c <= '\u{d}') || c == ' ' || c == '\u{85}' || c == '\u{a0}' || c == '\u{1680}'
        || ('\u{2000}' <= c && c <= '\u{200a}') || c == '\u{2028}' || c == '\u{2029}' || c
        == '\u{202f}' || c == '\u{205f}' || c == '\u{3000}'
}

/// The characters of `s`.
pub fn chars(s: &str) -> (v: Vec<char>)
    ensures
        v@ == s@,
{
    let mut v: Vec<char> = Vec::new();
    for c in it: s.chars()
        invariant
            it.seq() == s@,
            v@ == s@.take(it.index()),
    {
        v.push(c);
    }
    assert(v@ =~= s@);
    v
}

/// The text made of `v`.
pub fn from_chars(v: &[char]) -> (s: String)
    ensures
        s@ == v@,
{
    let mut s = String::new();
    let mut i: usize = 0;
    while i < v.len()
        invariant
            i <= v@.len(),
            s@ == v@.take(i as int),
        decreases v@.len() - i,
    {
        s.push(v[i]);
        i += 1;
        assert(s@ =~= v@.take(i as int));
    }
    assert(s@ =~= v@);
    s
}

/// Whether two texts are equal.
pub fn same_text(a: &str, b: &str) -> (same: bool)
    ensures
        same == (a@ == b@),
{
    proof {
        encode_utf8_decode_utf8(a@);
        encode_utf8_decode_utf8(b@);
    }
    same_bytes(a.as_bytes(), b.as_bytes())
}

/// A copy of `s` as a `String`.
pub fn owned(s: &str) -> (r: String)
    ensures
        r@ == s@,
{
    s.to_owned()
}

/// The views of a list of texts.
pub open spec fn texts(v: Seq<String>) -> Seq<Seq<char>> {
    Seq::new(v.len(), |i: int| v[i]@)
}

/// The text of valid UTF-8 bytes, as `std::str::from_utf8` gives it: `None` for bytes that are
/// not valid UTF-8.
#[verifier::external_body]
pub(crate) fn decode(bytes: &[u8]) -> (r: Option<String>)
    ensures
        r is Some <==> valid_utf8(bytes@),
        r matches Some(s) ==> s@ == decode_utf8(bytes@),
{
    std::str::from_utf8(bytes).ok().map(str::to_string)
}

/// The text that `String::from_utf8_lossy` makes of any bytes.
pub uninterp spec fn utf8_lossy(bytes: Seq<u8>) -> Seq<char>;

/// The text of bytes, as `String::from_utf8_lossy` gives it: valid UTF-8 is decoded, anything
/// else has replacement characters in it.
#[verifier::external_body]
pub(crate) fn decode_lossy(bytes: &[u8]) -> (s: String)
    ensures
        s@ == utf8_lossy(bytes@),
        valid_utf8(bytes@) ==> s@ == decode_utf8(bytes@),
{
    String::from_utf8_lossy(bytes).into_owned()
}

/// The words in which `std::str::from_utf8` tells what is wrong with bytes; empty where nothing is.
pub uninterp spec fn utf8_error_text(bytes: Seq<u8>) -> Seq<char>;

/// The words in which `std::str::from_utf8` tells what is wrong with bytes; empty where nothing is.
#[verifier::external_body]
pub(crate) fn utf8_fault(bytes: &[u8]) -> (s: String)
    ensures
        s@ == utf8_error_text(bytes@),
{
    std::str::from_utf8(bytes).err().map(|e| e.to_string()).unwrap_or_default()
}

/// The words in which `str::parse::<u32>` tells why a text is no number; empty where it is one.
pub uninterp spec fn u32_error_text(s: Seq<char>) -> Seq<char>;

/// The words in which `str::parse::<u32>` tells why a text is no number; empty where it is one.
#[verifier::external_body]
pub(crate) fn u32_fault(s: &str) -> (r: String)
    ensures
        r@ == u32_error_text(s@),
{
    s.parse::<u32>().err().map(|e| e.to_string()).unwrap_or_default()
}

/// The words in which `str::parse::<u64>` tells why a text is no number; empty where it is one.
pub uninterp spec fn u64_error_text(s: Seq<char>) -> Seq<char>;

/// The words in which `str::parse::<u64>` tells why a text is no number; empty where it is one.
#[verifier::external_body]
pub(crate) fn u64_fault(s: &str) -> (r: String)
    ensures
        r@ == u64_error_text(s@),
{
    s.parse::<u64>().err().map(|e| e.to_string()).unwrap_or_default()
}

/// The text that the `Debug` formatting of a `str` gives: in quotes, with escapes.
pub uninterp spec fn quoted_text(s: Seq<char>) -> Seq<char>;

/// `s` in quotes, as `format!` writes it with `{:?}`.
#[verifier::external_body]
pub(crate) fn quoted(s: &str) -> (r: String)
    ensures
        r@ == quoted_text(s@),
{
    format!("{s:?}")
}

/// `a` followed by `b`.
pub fn cat(a: &str, b: &str) -> (r: String)
    ensures
        r@ == a@ + b@,
{
    let mut r = a.to_owned();
    r.append(b);
    r
}

/// The place of the first `wanted` in `s` at or after `from`, or the length of `s`.
pub open spec fn next_char(s: Seq<char>, from: int, wanted: char) -> int
    decreases s.len() - from,
{
    if from < 0 || from >= s.len() {
        s.len() as int
    } else if s[from] == wanted {
        from
    } else {
        next_char(s, from + 1, wanted)
    }
}

/// The place of the first `wanted` in `v` at or after `from`, or the length of `v`.
pub fn find_char(v: &[char], from: usize, wanted: char) -> (at: usize)
    requires
        from <= v@.len(),
    ensures
        at == next_char(v@, from as int, wanted),
        from <= at <= v@.len(),
        at < v@.len() ==> v@[at as int] == wanted,
        forall|k: int| from <= k < at ==> v@[k] != wanted,
{
    let mut at: usize = from;
    while at < v.len() && v[at] != wanted
        invariant
            from <= at <= v@.len(),
            next_char(v@, from as int, wanted) == next_char(v@, at as int, wanted),
            forall|k: int| from <= k < at ==> v@[k] != wanted,
        decreases v@.len() - at,
    {
        at += 1;
    }
    at
}

/// What stands before and after the first `sep` in `s`.
pub open spec fn split_first(s: Seq<char>, sep: char) -> Option<(Seq<char>, Seq<char>)> {
    let at = next_char(s, 0, sep);
    if at < s.len() {
        Some((s.take(at), s.skip(at + 1)))
    } else {
        None
    }
}

/// What stands before and after the first `sep` in `v`.
pub fn split_once<'a>(v: &'a [char], sep: char) -> (r: Option<(&'a [char], &'a [char])>)
    ensures
        split_first(v@, sep) == (match r {
            Some(p) => Some((p.0@, p.1@)),
            None => None,
        }),
{
    let at = find_char(v, 0, sep);
    if at < v.len() {
        let before = &v[0..at];
        let after = &v[at + 1..v.len()];
        assert(before@ =~= v@.take(at as int));
        assert(after@ =~= v@.skip(at + 1));
        Some((before, after))
    } else {
        None
    }
}

/// `s` without the white space at its start.
pub open spec fn trim_start(s: Seq<char>) -> Seq<char>
    decreases s.len(),
{
    if s.len() > 0 && is_space(s[0]) {
        trim_start(s.skip(1))
    } else {
        s
    }
}

/// `s` without the white space at its end.
pub open spec fn trim_end(s: Seq<char>) -> Seq<char>
    decreases s.len(),
{
    if s.len() > 0 && is_space(s.last()) {
        trim_end(s.drop_last())
    } else {
        s
    }
}

/// `s` without the white space at both ends.
pub open spec fn trim(s: Seq<char>) -> Seq<char> {
    trim_end(trim_start(s))
}

/// `v` without the white space at its start.
pub fn trim_start_chars<'a>(v: &'a [char]) -> (r: &'a [char])
    ensures
        r@ == trim_start(v@),
{
    let mut i: usize = 0;
    assert(v@.skip(0) =~= v@);
    while i < v.len() && space(v[i])
        invariant
            i <= v@.len(),
            trim_start(v@) == trim_start(v@.skip(i as int)),
        decreases v@.len() - i,
    {
        assert(v@.skip(i as int).skip(1) =~= v@.skip(i + 1));
        i += 1;
    }
    let r = &v[i..v.len()];
    assert(r@ =~= v@.skip(i as int));
    r
}

/// `v` without the white space at its end.
pub fn trim_end_chars<'a>(v: &'a [char]) -> (r: &'a [char])
    ensures
        r@ == trim_end(v@),
{
    let mut n: usize = v.len();
    assert(v@.take(n as int) =~= v@);
    while n > 0 && space(v[n - 1])
        invariant
            n <= v@.len(),
            trim_end(v@) == trim_end(v@.take(n as int)),
        decreases n,
    {
        assert(v@.take(n as int).drop_last() =~= v@.take(n - 1));
        n -= 1;
    }
    let r = &v[0..n];
    assert(r@ =~= v@.take(n as int));
    r
}

/// `v` without the white space at both ends.
pub fn trim_chars<'a>(v: &'a [char]) -> (r: &'a [char])
    ensures
        r@ == trim(v@),
{
    trim_end_chars(trim_start_chars(v))
}

/// `s` without the white space at both ends.
pub fn trimmed(s: &str) -> (r: String)
    ensures
        r@ == trim(s@),
{
    let v = chars(s);
    from_chars(trim_chars(&v))
}

/// The pieces of `s` completed by a separator, and what follows the last separator.
pub open spec fn split_state<A>(s: Seq<A>, sep: A) -> (Seq<Seq<A>>, Seq<A>)
    decreases s.len(),
{
    if s.len() == 0 {
        (Seq::empty(), Seq::empty())
    } else {
        let (done, current) = split_state(s.drop_last(), sep);
        if s.last() == sep {
            (done.push(current), Seq::empty())
        } else {
            (done, current.push(s.last()))
        }
    }
}

/// The pieces of `s` between separators, empty ones too.
pub open spec fn pieces<A>(s: Seq<A>, sep: A) -> Seq<Seq<A>> {
    let (done, current) = split_state(s, sep);
    done.push(current)
}

/// The pieces of `v` between separators, empty ones too.
pub fn split_chars(v: &[char], sep: char) -> (r: Vec<String>)
    ensures
        texts(r@) == pieces(v@, sep),
{
    let mut done: Vec<String> = Vec::new();
    let mut start: usize = 0;
    let mut i: usize = 0;
    assert(v@.subrange(0, 0) =~= Seq::<char>::empty());
    assert(texts(done@) =~= Seq::<Seq<char>>::empty());
    while i < v.len()
        invariant
            start <= i <= v@.len(),
            split_state(v@.take(i as int), sep) == (texts(done@), v@.subrange(
                start as int,
                i as int,
            )),
        decreases v@.len() - i,
    {
        proof {
            assert(v@.take(i + 1).drop_last() =~= v@.take(i as int));
            assert(v@.take(i + 1).last() == v@[i as int]);
        }
        let ghost before = done@;
        if v[i] == sep {
            let piece = from_chars(&v[start..i]);
            done.push(piece);
            start = i + 1;
            assert(texts(done@) =~= texts(before).push(piece@));
            assert(v@.subrange(start as int, i + 1) =~= Seq::<char>::empty());
        } else {
            assert(v@.subrange(start as int, i + 1) =~= v@.subrange(start as int, i as int).push(
                v@[i as int],
            ));
        }
        i += 1;
    }
    assert(v@.take(i as int) =~= v@);
    let ghost before = done@;
    let piece = from_chars(&v[start..v.len()]);
    done.push(piece);
    assert(texts(done@) =~= texts(before).push(piece@));
    done
}

/// The words of `s` completed by white space, and the word that runs to the end.
pub open spec fn word_state(s: Seq<char>) -> (Seq<Seq<char>>, Seq<char>)
    decreases s.len(),
{
    if s.len() == 0 {
        (Seq::empty(), Seq::empty())
    } else {
        let (done, current) = word_state(s.drop_last());
        if !is_space(s.last()) {
            (done, current.push(s.last()))
        } else if current.len() > 0 {
            (done.push(current), Seq::empty())
        } else {
            (done, current)
        }
    }
}

/// The maximal runs of characters of `s` that are not white space.
pub open spec fn words(s: Seq<char>) -> Seq<Seq<char>> {
    let (done, current) = word_state(s);
    if current.len() > 0 {
        done.push(current)
    } else {
        done
    }
}

/// The maximal runs of characters of `s` that are not white space.
pub fn split_words(s: &str) -> (r: Vec<String>)
    ensures
        texts(r@) == words(s@),
{
    let v = chars(s);
    let mut done: Vec<String> = Vec::new();
    let mut start: usize = 0;
    let mut i: usize = 0;
    assert(v@.subrange(0, 0) =~= Seq::<char>::empty());
    assert(texts(done@) =~= Seq::<Seq<char>>::empty());
    while i < v.len()
        invariant
            start <= i <= v@.len(),
            word_state(v@.take(i as int)) == (texts(done@), v@.subrange(start as int, i as int)),
        decreases v@.len() - i,
    {
        proof {
            assert(v@.take(i + 1).drop_last() =~= v@.take(i as int));
            assert(v@.take(i + 1).last() == v@[i as int]);
        }
        let ghost before = done@;
        if space(v[i]) {
            if start < i {
                let word = from_chars(&v[start..i]);
                done.push(word);
                assert(texts(done@) =~= texts(before).push(word@));
            } else {
                assert(v@.subrange(start as int, i as int).len() == 0);
            }
            start = i + 1;
            assert(v@.subrange(start as int, i + 1) =~= Seq::<char>::empty());
        } else {
            assert(v@.subrange(start as int, i + 1) =~= v@.subrange(start as int, i as int).push(
                v@[i as int],
            ));
        }
        i += 1;
    }
    assert(v@.take(i as int) =~= v@);
    if start < v.len() {
        let ghost before = done@;
        let word = from_chars(&v[start..v.len()]);
        done.push(word);
        assert(texts(done@) =~= texts(before).push(word@));
    }
    done
}

/// `s` without one carriage return at its end.
pub open spec fn without_return(s: Seq<char>) -> Seq<char> {
    if s.len() > 0 && s.last() == '\r' {
        s.drop_last()
    } else {
        s
    }
}

/// The lines of `s`: what stands before each line feed, less one carriage return, and what
/// follows the last line feed if anything does.
pub open spec fn lines(s: Seq<char>) -> Seq<Seq<char>> {
    let (done, current) = split_state(s, '\n');
    let closed = Seq::new(done.len(), |i: int| without_return(done[i]));
    if current.len() > 0 {
        closed.push(current)
    } else {
        closed
    }
}

/// The lines of `s`.
pub fn split_lines(s: &str) -> (r: Vec<String>)
    ensures
        texts(r@) == lines(s@),
{
    let v = chars(s);
    let mut done: Vec<String> = Vec::new();
    let mut start: usize = 0;
    let mut i: usize = 0;
    assert(v@.subrange(0, 0) =~= Seq::<char>::empty());
    while i < v.len()
        invariant
            start <= i <= v@.len(),
            split_state(v@.take(i as int), '\n').1 == v@.subrange(start as int, i as int),
            split_state(v@.take(i as int), '\n').0.len() == done@.len(),
            forall|k: int|
                0 <= k < done@.len() ==> #[trigger] done@[k]@ == without_return(
                    split_state(v@.take(i as int), '\n').0[k],
                ),
        decreases v@.len() - i,
    {
        proof {
            assert(v@.take(i + 1).drop_last() =~= v@.take(i as int));
            assert(v@.take(i + 1).last() == v@[i as int]);
        }
        if v[i] == '\n' {
            let end = if start < i && v[i - 1] == '\r' {
                i - 1
            } else {
                i
            };
            let line = from_chars(&v[start..end]);
            proof {
                let current = v@.subrange(start as int, i as int);
                if start < i {
                    assert(current.last() == v@[i - 1]);
                    assert(current.drop_last() =~= v@.subrange(start as int, i - 1));
                }
                assert(line@ == without_return(current));
            }
            done.push(line);
            start = i + 1;
            assert(v@.subrange(start as int, i + 1) =~= Seq::<char>::empty());
        } else {
            assert(v@.subrange(start as int, i + 1) =~= v@.subrange(start as int, i as int).push(
                v@[i as int],
            ));
        }
        i += 1;
    }
    assert(v@.take(i as int) =~= v@);
    if start < v.len() {
        let line = from_chars(&v[start..v.len()]);
        done.push(line);
    }
    assert(texts(done@) =~= lines(s@));
    done
}

/// What follows `prefix` in `s`.
pub open spec fn after_prefix(s: Seq<char>, prefix: Seq<char>) -> Option<Seq<char>> {
    if prefix.is_prefix_of(s) {
        Some(s.skip(prefix.len() as int))
    } else {
        None
    }
}

/// What precedes `suffix` in `s`.
pub open spec fn before_suffix(s: Seq<char>, suffix: Seq<char>) -> Option<Seq<char>> {
    if suffix.is_suffix_of(s) {
        Some(s.take(s.len() - suffix.len()))
    } else {
        None
    }
}

/// Whether two character strings are equal.
pub fn same_chars(a: &[char], b: &[char]) -> (same: bool)
    ensures
        same == (a@ == b@),
{
    if a.len() != b.len() {
        return false;
    }
    let mut i: usize = 0;
    while i < a.len()
        invariant
            i <= a@.len(),
            a@.len() == b@.len(),
            forall|k: int| 0 <= k < i ==> a@[k] == b@[k],
        decreases a@.len() - i,
    {
        if a[i] != b[i] {
            return false;
        }
        i += 1;
    }
    assert(a@ =~= b@);
    true
}

/// Whether `s` begins with `prefix`.
pub fn begins_with(s: &str, prefix: &str) -> (r: bool)
    ensures
        r == prefix@.is_prefix_of(s@),
{
    let v = chars(s);
    let p = chars(prefix);
    v.len() >= p.len() && same_chars(&v[0..p.len()], &p)
}

/// What follows `prefix` in `s`.
pub fn strip_prefix<'a>(s: &'a str, prefix: &str) -> (r: Option<&'a str>)
    ensures
        after_prefix(s@, prefix@) == (match r {
            Some(rest) => Some(rest@),
            None => None,
        }),
{
    if begins_with(s, prefix) {
        let from = prefix.unicode_len();
        let to = s.unicode_len();
        assert(s@.subrange(from as int, to as int) =~= s@.skip(from as int));
        Some(s.substring_char(from, to))
    } else {
        None
    }
}

/// What precedes `suffix` in `s`.
pub fn strip_suffix<'a>(s: &'a str, suffix: &str) -> (r: Option<&'a str>)
    ensures
        before_suffix(s@, suffix@) == (match r {
            Some(rest) => Some(rest@),
            None => None,
        }),
{
    let v = chars(s);
    let p = chars(suffix);
    if v.len() < p.len() || !same_chars(&v[v.len() - p.len()..v.len()], &p) {
        return None;
    }
    assert(s@.subrange(0, s@.len() - suffix@.len()) =~= s@.take(s@.len() - suffix@.len()));
    Some(s.substring_char(0, v.len() - p.len()))
}

/// The digit with the value `d`.
pub open spec fn digit(d: int) -> char {
    if d == 0 {
        '0'
    } else if d == 1 {
        '1'
    } else if d == 2 {
        '2'
    } else if d == 3 {
        '3'
    } else if d == 4 {
        '4'
    } else if d == 5 {
        '5'
    } else if d == 6 {
        '6'
    } else if d == 7 {
        '7'
    } else if d == 8 {
        '8'
    } else if d == 9 {
        '9'
    } else if d == 10 {
        'a'
    } else if d == 11 {
        'b'
    } else if d == 12 {
        'c'
    } else if d == 13 {
        'd'
    } else if d == 14 {
        'e'
    } else {
        'f'
    }
}

/// The digit with the value `d`.
pub fn digit_char(d: u64) -> (c: char)
    requires
        d < 16,
    ensures
        c == digit(d as int),
{
    match d {
        0 => '0',
        1 => '1',
        2 => '2',
        3 => '3',
        4 => '4',
        5 => '5',
        6 => '6',
        7 => '7',
        8 => '8',
        9 => '9',
        10 => 'a',
        11 => 'b',
        12 => 'c',
        13 => 'd',
        14 => 'e',
        _ => 'f',
    }
}

/// `n` in decimal.
pub open spec fn decimal(n: int) -> Seq<char>
    decreases n,
{
    if n < 10 {
        seq![digit(n)]
    } else {
        decimal(n / 10).push(digit(n % 10))
    }
}

/// `n` in lower-case hexadecimal.
pub open spec fn hex(n: int) -> Seq<char>
    decreases n,
{
    if n < 16 {
        seq![digit(n)]
    } else {
        hex(n / 16).push(digit(n % 16))
    }
}

/// `s` with `fill` in front of it up to the width `width`.
pub open spec fn padded(s: Seq<char>, width: nat, fill: char) -> Seq<char> {
    if s.len() >= width {
        s
    } else {
        Seq::new((width - s.len()) as nat, |i: int| fill) + s
    }
}

/// Appends `n` in decimal.
pub fn push_decimal(out: &mut String, n: u64)
    ensures
        final(out)@ == old(out)@ + decimal(n as int),
    decreases n,
{
    if n >= 10 {
        push_decimal(out, n / 10);
    }
    out.push(digit_char(n % 10));
    assert(out@ =~= old(out)@ + decimal(n as int));
}

/// Appends `n` in lower-case hexadecimal.
pub fn push_hex(out: &mut String, n: u64)
    ensures
        final(out)@ == old(out)@ + hex(n as int),
    decreases n,
{
    if n >= 16 {
        push_hex(out, n / 16);
    }
    out.push(digit_char(n % 16));
    assert(out@ =~= old(out)@ + hex(n as int));
}

/// `n` in decimal.
pub fn decimal_text(n: u64) -> (s: String)
    ensures
        s@ == decimal(n as int),
{
    let mut s = String::new();
    push_decimal(&mut s, n);
    assert(s@ =~= decimal(n as int));
    s
}

/// `n` in lower-case hexadecimal.
pub fn hex_text(n: u64) -> (s: String)
    ensures
        s@ == hex(n as int),
{
    let mut s = String::new();
    push_hex(&mut s, n);
    assert(s@ =~= hex(n as int));
    s
}

/// `s` with `fill` in front of it up to the width `width`.
pub fn pad(s: &str, width: usize, fill: char) -> (r: String)
    ensures
        r@ == padded(s@, width as nat, fill),
{
    let n = s.unicode_len();
    let mut r = String::new();
    let mut i: usize = n;
    while i < width
        invariant
            n == s@.len(),
            i <= width || i == n,
            n <= i,
            r@ == Seq::new((i - n) as nat, |k: int| fill),
        decreases width - i,
    {
        r.push(fill);
        i += 1;
        assert(r@ =~= Seq::new((i - n) as nat, |k: int| fill));
    }
    r.append(s);
    assert(r@ =~= padded(s@, width as nat, fill));
    r
}

/// `n` in hexadecimal with at least `width` digits.
pub fn hex_padded(n: u64, width: usize) -> (s: String)
    ensures
        s@ == padded(hex(n as int), width as nat, '0'),
{
    let s = hex_text(n);
    pad(s.as_str(), width, '0')
}

/// The value of the digit `c` in base `base`.
pub open spec fn digit_value(c: char, base: nat) -> Option<nat> {
    let v: int = if '0' <= c <= '9' {
        c as int - '0' as int
    } else if 'a' <= c <= 'z' {
        c as int - 'a' as int + 10
    } else if 'A' <= c <= 'Z' {
        c as int - 'A' as int + 10
    } else {
        99
    };
    if v < base {
        Some(v as nat)
    } else {
        None
    }
}

/// The value of the digit `c` in base `base`.
pub fn value_of_digit(c: char, base: u64) -> (r: Option<u64>)
    requires
        base <= 36,
    ensures
        digit_value(c, base as nat) == (match r {
            Some(v) => Some(v as nat),
            None => None,
        }),
        r matches Some(v) ==> v < base,
{
    let v: u64 = if '0' <= c && c <= '9' {
        c as u64 - '0' as u64
    } else if 'a' <= c && c <= 'z' {
        c as u64 - 'a' as u64 + 10
    } else if 'A' <= c && c <= 'Z' {
        c as u64 - 'A' as u64 + 10
    } else {
        99
    };
    if v < base {
        Some(v)
    } else {
        None
    }
}

/// The number that the digits `s` write in base `base`.
pub open spec fn digits_value(s: Seq<char>, base: nat) -> Option<nat>
    decreases s.len(),
{
    if s.len() == 0 {
        Some(0)
    } else {
        match (digits_value(s.drop_last(), base), digit_value(s.last(), base)) {
            (Some(high), Some(low)) => Some(high * base + low),
            _ => None,
        }
    }
}

/// `s` without a plus sign at its start.
pub open spec fn without_plus(s: Seq<char>) -> Seq<char> {
    if s.len() > 0 && s[0] == '+' {
        s.skip(1)
    } else {
        s
    }
}

/// The unsigned number that `s` writes in base `base`: an optional plus sign and at least one
/// digit, with a value of at most `max`.
pub open spec fn parse_number(s: Seq<char>, base: nat, max: nat) -> Option<nat> {
    let body = without_plus(s);
    if body.len() == 0 {
        None
    } else {
        match digits_value(body, base) {
            Some(v) => if v <= max {
                Some(v)
            } else {
                None
            },
            None => None,
        }
    }
}

proof fn lemma_digits_value_grows(s: Seq<char>, n: int, base: nat)
    requires
        0 <= n <= s.len(),
        base >= 1,
    ensures
        digits_value(s.take(n), base) is None ==> digits_value(s, base) is None,
        digits_value(s, base) is Some ==> digits_value(s.take(n), base) is Some && digits_value(
            s.take(n),
            base,
        )->0 <= digits_value(s, base)->0,
    decreases s.len(),
{
    if n < s.len() {
        lemma_digits_value_grows(s.drop_last(), n, base);
        assert(s.drop_last().take(n) =~= s.take(n));
        match (digits_value(s.drop_last(), base), digit_value(s.last(), base)) {
            (Some(high), Some(low)) => {
                assert(high <= high * base) by (nonlinear_arith)
                    requires
                        base >= 1,
                ;
            },
            _ => {},
        }
    } else {
        assert(s.take(n) =~= s);
    }
}

/// The unsigned number that `v` writes in base `base`.
pub fn parse_unsigned(v: &[char], base: u64, max: u64) -> (r: Option<u64>)
    requires
        1 <= base <= 36,
    ensures
        parse_number(v@, base as nat, max as nat) == (match r {
            Some(n) => Some(n as nat),
            None => None,
        }),
{
    let body: &[char] = if v.len() > 0 && v[0] == '+' {
        &v[1..v.len()]
    } else {
        v
    };
    assert(body@ =~= without_plus(v@));
    if body.len() == 0 {
        return None;
    }
    let mut total: u64 = 0;
    let mut i: usize = 0;
    while i < body.len()
        invariant
            i <= body@.len(),
            1 <= base <= 36,
            total <= max,
            digits_value(body@.take(i as int), base as nat) == Some(total as nat),
            body@ == without_plus(v@),
            body@.len() > 0,
        decreases body@.len() - i,
    {
        proof {
            assert(body@.take(i + 1).drop_last() =~= body@.take(i as int));
            assert(body@.take(i + 1).last() == body@[i as int]);
            lemma_digits_value_grows(body@, i + 1, base as nat);
        }
        let low = match value_of_digit(body[i], base) {
            Some(low) => low,
            None => return None,
        };
        assert(total * base <= 0xffff_ffff_ffff_ffff * 36) by (nonlinear_arith)
            requires
                total <= 0xffff_ffff_ffff_ffff,
                base <= 36,
        ;
        assert(0 <= total * base) by (nonlinear_arith);
        let wide: u128 = total as u128 * base as u128 + low as u128;
        if wide > max as u128 {
            return None;
        }
        total = wide as u64;
        i += 1;
    }
    assert(body@.take(i as int) =~= body@);
    Some(total)
}

/// Whether `a` comes before `b` in the order of characters.
pub open spec fn precedes(a: Seq<char>, b: Seq<char>) -> bool
    decreases a.len(),
{
    if b.len() == 0 {
        false
    } else if a.len() == 0 {
        true
    } else if a[0] == b[0] {
        precedes(a.skip(1), b.skip(1))
    } else {
        a[0] < b[0]
    }
}

/// The order of texts is a total one.
pub proof fn lemma_precedes(a: Seq<char>, b: Seq<char>, c: Seq<char>)
    ensures
        !precedes(a, a),
        precedes(a, b) ==> !precedes(b, a),
        precedes(a, b) && precedes(b, c) ==> precedes(a, c),
        !precedes(a, b) && !precedes(b, a) ==> a == b,
    decreases a.len() + b.len() + c.len(),
{
    if a.len() > 0 && b.len() > 0 && c.len() > 0 {
        lemma_precedes(a.skip(1), b.skip(1), c.skip(1));
    } else if a.len() > 0 && b.len() > 0 {
        lemma_precedes(a.skip(1), b.skip(1), c);
    } else if a.len() > 0 {
        lemma_precedes(a.skip(1), b, c);
    }
    if !precedes(a, b) && !precedes(b, a) {
        if a.len() > 0 && b.len() > 0 {
            assert(a.skip(1) == b.skip(1));
            assert forall|i: int| 0 <= i < a.len() implies a[i] == b[i] by {
                if i > 0 {
                    assert(a.skip(1)[i - 1] == b.skip(1)[i - 1]);
                }
            }
        }
        assert(a =~= b);
    }
}

/// Whether `a` comes before `b` in the order of characters.
pub fn text_before(a: &str, b: &str) -> (r: bool)
    ensures
        r == precedes(a@, b@),
{
    let x = chars(a);
    let y = chars(b);
    let mut i: usize = 0;
    assert(x@.skip(0) =~= x@);
    assert(y@.skip(0) =~= y@);
    while i < x.len() && i < y.len() && x[i] == y[i]
        invariant
            i <= x@.len(),
            i <= y@.len(),
            precedes(x@, y@) == precedes(x@.skip(i as int), y@.skip(i as int)),
        decreases x@.len() - i,
    {
        assert(x@.skip(i as int).skip(1) =~= x@.skip(i + 1));
        assert(y@.skip(i as int).skip(1) =~= y@.skip(i + 1));
        i += 1;
    }
    if i >= y.len() {
        false
    } else if i >= x.len() {
        true
    } else {
        x[i] < y[i]
    }
}

/// The text of ASCII bytes.
pub open spec fn ascii_text(bytes: Seq<u8>) -> Seq<char> {
    Seq::new(bytes.len(), |i: int| bytes[i] as char)
}

/// The text of ASCII bytes.
pub fn text_of_ascii(bytes: &[u8]) -> (s: String)
    ensures
        s@ == ascii_text(bytes@),
{
    let mut s = String::new();
    let mut i: usize = 0;
    while i < bytes.len()
        invariant
            i <= bytes@.len(),
            s@ == ascii_text(bytes@.take(i as int)),
        decreases bytes@.len() - i,
    {
        s.push(bytes[i] as char);
        i += 1;
        assert(s@ =~= ascii_text(bytes@.take(i as int)));
    }
    assert(s@ =~= ascii_text(bytes@));
    s
}

/// Whether `b` is an ASCII letter or digit.
pub open spec fn is_alphanumeric(b: u8) -> bool {
    ||| 0x30 <= b <= 0x39
    ||| 0x41 <= b <= 0x5a
    ||| 0x61 <= b <= 0x7a
}

/// Whether `b` is an ASCII letter or digit.
pub fn alphanumeric(b: u8) -> (r: bool)
    ensures
        r == is_alphanumeric(b),
{
    (0x30 <= b && b <= 0x39) || (0x41 <= b && b <= 0x5a) || (0x61 <= b && b <= 0x7a)
}

/// `c` in lower case, if it is an ASCII letter.
pub open spec fn lower(c: char) -> char {
    if 'A' <= c <= 'Z' {
        (c as int + 32) as char
    } else {
        c
    }
}

/// `c` in lower case, if it is an ASCII letter.
pub fn lower_char(c: char) -> (r: char)
    ensures
        r == lower(c),
{
    if 'A' <= c && c <= 'Z' {
        (c as u8 + 32) as char
    } else {
        c
    }
}

/// `s` with its ASCII letters in lower case.
pub open spec fn lowered(s: Seq<char>) -> Seq<char> {
    Seq::new(s.len(), |i: int| lower(s[i]))
}

/// `s` with its ASCII letters in lower case.
pub fn lower_text(s: &str) -> (r: String)
    ensures
        r@ == lowered(s@),
{
    let v = chars(s);
    let mut r = String::new();
    let mut i: usize = 0;
    while i < v.len()
        invariant
            i <= v@.len(),
            r@ == lowered(v@.take(i as int)),
        decreases v@.len() - i,
    {
        r.push(lower_char(v[i]));
        i += 1;
        assert(r@ =~= lowered(v@.take(i as int)));
    }
    assert(v@.take(i as int) =~= v@);
    r
}

/// Whether `part` stands somewhere in `s`.
pub open spec fn holds_text(s: Seq<char>, part: Seq<char>) -> bool {
    exists|i: int|
        0 <= i <= s.len() - part.len() && #[trigger] s.subrange(i, i + part.len()) == part
}

/// Whether `part` stands somewhere in `s`.
pub fn contains_text(s: &str, part: &str) -> (r: bool)
    ensures
        r == holds_text(s@, part@),
{
    let v = chars(s);
    let p = chars(part);
    if p.len() > v.len() {
        return false;
    }
    if p.len() == 0 {
        let ghost i: int = 0;
        assert(s@.subrange(i, i + part@.len()) =~= part@);
        return true;
    }
    let mut i: usize = 0;
    while i <= v.len() - p.len()
        invariant
            0 < p@.len() <= v@.len(),
            i <= v@.len() - p@.len() + 1,
            v@ == s@,
            p@ == part@,
            forall|k: int| 0 <= k < i ==> #[trigger] v@.subrange(k, k + p@.len()) != p@,
        decreases v@.len() - p@.len() + 1 - i,
    {
        if same_chars(&v[i..i + p.len()], &p) {
            assert(s@.subrange(i as int, i + part@.len()) == part@);
            return true;
        }
        i += 1;
    }
    false
}

/// The first `n` texts with `sep` between them.
pub open spec fn joined_upto(list: Seq<Seq<char>>, sep: Seq<char>, n: int) -> Seq<char>
    decreases n,
{
    if n <= 0 {
        Seq::empty()
    } else if n == 1 {
        list[0]
    } else {
        joined_upto(list, sep, n - 1) + sep + list[n - 1]
    }
}

/// The texts with `sep` between them.
pub open spec fn joined(list: Seq<Seq<char>>, sep: Seq<char>) -> Seq<char> {
    joined_upto(list, sep, list.len() as int)
}

/// The texts with `sep` between them.
pub fn join_texts(list: &[String], sep: &str) -> (s: String)
    ensures
        s@ == joined(texts(list@), sep@),
{
    let mut s = String::new();
    let mut i: usize = 0;
    while i < list.len()
        invariant
            i <= list@.len(),
            s@ == joined_upto(texts(list@), sep@, i as int),
        decreases list@.len() - i,
    {
        assert(texts(list@)[i as int] == list@[i as int]@);
        let ghost before = s@;
        if i > 0 {
            s.append(sep);
        }
        s.append(list[i].as_str());
        i += 1;
        assert(s@ =~= joined_upto(texts(list@), sep@, i as int));
    }
    s
}

/// Whether one of the texts is `wanted`.
pub fn any_text(list: &[String], wanted: &str) -> (r: bool)
    ensures
        r == texts(list@).contains(wanted@),
{
    let mut i: usize = 0;
    while i < list.len()
        invariant
            i <= list@.len(),
            forall|k: int| 0 <= k < i ==> texts(list@)[k] != wanted@,
        decreases list@.len() - i,
    {
        if same_text(list[i].as_str(), wanted) {
            assert(texts(list@)[i as int] == wanted@);
            return true;
        }
        i += 1;
    }
    false
}

/// The characters that ASCII has for white space.
pub open spec fn is_ascii_space(c: char) -> bool {
    c == ' ' || c == '\t' || c == '\n' || c == '\u{c}' || c == '\r'
}

/// The words of `s` completed by ASCII white space, and the word that runs to the end.
pub open spec fn ascii_word_state(s: Seq<char>) -> (Seq<Seq<char>>, Seq<char>)
    decreases s.len(),
{
    if s.len() == 0 {
        (Seq::empty(), Seq::empty())
    } else {
        let (done, current) = ascii_word_state(s.drop_last());
        if !is_ascii_space(s.last()) {
            (done, current.push(s.last()))
        } else if current.len() > 0 {
            (done.push(current), Seq::empty())
        } else {
            (done, current)
        }
    }
}

/// The maximal runs of characters of `s` that are not ASCII white space.
pub open spec fn ascii_words(s: Seq<char>) -> Seq<Seq<char>> {
    let (done, current) = ascii_word_state(s);
    if current.len() > 0 {
        done.push(current)
    } else {
        done
    }
}

/// The maximal runs of characters of `s` that are not ASCII white space.
pub fn split_ascii_words(s: &str) -> (r: Vec<String>)
    ensures
        texts(r@) == ascii_words(s@),
{
    let v = chars(s);
    let mut done: Vec<String> = Vec::new();
    let mut start: usize = 0;
    let mut i: usize = 0;
    assert(v@.subrange(0, 0) =~= Seq::<char>::empty());
    assert(texts(done@) =~= Seq::<Seq<char>>::empty());
    while i < v.len()
        invariant
            start <= i <= v@.len(),
            ascii_word_state(v@.take(i as int)) == (texts(done@), v@.subrange(
                start as int,
                i as int,
            )),
        decreases v@.len() - i,
    {
        proof {
            assert(v@.take(i + 1).drop_last() =~= v@.take(i as int));
            assert(v@.take(i + 1).last() == v@[i as int]);
        }
        let ghost before = done@;
        let c = v[i];
        if c == ' ' || c == '\t' || c == '\n' || c == '\u{c}' || c == '\r' {
            if start < i {
                let word = from_chars(&v[start..i]);
                done.push(word);
                assert(texts(done@) =~= texts(before).push(word@));
            } else {
                assert(v@.subrange(start as int, i as int).len() == 0);
            }
            start = i + 1;
            assert(v@.subrange(start as int, i + 1) =~= Seq::<char>::empty());
        } else {
            assert(v@.subrange(start as int, i + 1) =~= v@.subrange(start as int, i as int).push(
                v@[i as int],
            ));
        }
        i += 1;
    }
    assert(v@.take(i as int) =~= v@);
    if start < v.len() {
        let ghost before = done@;
        let word = from_chars(&v[start..v.len()]);
        done.push(word);
        assert(texts(done@) =~= texts(before).push(word@));
    } else {
        assert(v@.subrange(start as int, i as int).len() == 0);
    }
    done
}

/// The signed number of 64 bits that `s` writes in decimal: an optional sign and at least one
/// digit.
pub open spec fn parse_integer(s: Seq<char>) -> Option<int> {
    if s.len() > 0 && s[0] == '-' {
        match digits_value(s.skip(1), 10) {
            Some(v) => if s.len() > 1 && v <= 0x8000_0000_0000_0000 {
                Some(-(v as int))
            } else {
                None
            },
            None => None,
        }
    } else {
        match parse_number(s, 10, i64::MAX as nat) {
            Some(v) => Some(v as int),
            None => None,
        }
    }
}

/// The signed number of 64 bits that `v` writes in decimal.
pub fn parse_signed(v: &[char]) -> (r: Option<i64>)
    ensures
        parse_integer(v@) == (match r {
            Some(n) => Some(n as int),
            None => None,
        }),
{
    if v.len() > 0 && v[0] == '-' {
        let body = &v[1..v.len()];
        assert(body@ =~= v@.skip(1));
        if body.len() == 0 {
            return None;
        }
        if body[0] == '+' {
            proof {
                lemma_digits_value_grows(body@, 1, 10);
                reveal_with_fuel(digits_value, 2);
                assert(body@.take(1).last() == '+');
                assert(body@.take(1).drop_last() =~= Seq::<char>::empty());
            }
            return None;
        }
        match parse_unsigned(body, 10, 0x8000_0000_0000_0000) {
            Some(n) => if n == 0x8000_0000_0000_0000 {
                Some(i64::MIN)
            } else {
                Some(-(n as i64))
            },
            None => None,
        }
    } else {
        match parse_unsigned(v, 10, 0x7fff_ffff_ffff_ffff) {
            Some(n) => Some(n as i64),
            None => None,
        }
    }
}

/// `n` in decimal, with a minus sign where it is negative.
pub open spec fn signed(n: int) -> Seq<char> {
    if n < 0 {
        "-"@ + decimal(-n)
    } else {
        decimal(n)
    }
}

/// `n` in decimal, with a minus sign where it is negative.
pub fn signed_text(n: i64) -> (s: String)
    ensures
        s@ == signed(n as int),
{
    if n < 0 {
        let magnitude: u64 = if n == i64::MIN {
            0x8000_0000_0000_0000
        } else {
            (-n) as u64
        };
        let mut s = owned("-");
        push_decimal(&mut s, magnitude);
        s
    } else {
        decimal_text(n as u64)
    }
}

/// The place in a list in order at which the texts stop coming before `x`, from `i` on.
pub open spec fn text_place(list: Seq<Seq<char>>, x: Seq<char>, i: int) -> int
    decreases list.len() - i,
{
    if i >= list.len() || !precedes(list[i], x) {
        i
    } else {
        text_place(list, x, i + 1)
    }
}

/// A set of texts, in order, with a text more.
pub open spec fn with_text(list: Seq<Seq<char>>, x: Seq<char>) -> Seq<Seq<char>> {
    let at = text_place(list, x, 0);
    if at < list.len() && list[at] == x {
        list
    } else {
        list.insert(at, x)
    }
}

/// The set of some texts, in order.
pub open spec fn text_set(list: Seq<Seq<char>>) -> Seq<Seq<char>>
    decreases list.len(),
{
    if list.len() == 0 {
        Seq::empty()
    } else {
        with_text(text_set(list.drop_last()), list.last())
    }
}

/// Whether each text comes before all that follow it.
pub open spec fn ascending(list: Seq<Seq<char>>) -> bool {
    forall|i: int, j: int|
        0 <= i < j < list.len() ==> precedes(#[trigger] list[i], #[trigger] list[j])
}

/// The place of a text is in the list; what comes before it stands in front of it.
pub proof fn lemma_text_place(list: Seq<Seq<char>>, x: Seq<char>, i: int)
    requires
        0 <= i <= list.len(),
    ensures
        i <= text_place(list, x, i) <= list.len(),
        forall|k: int| i <= k < text_place(list, x, i) ==> precedes(#[trigger] list[k], x),
        text_place(list, x, i) < list.len() ==> !precedes(list[text_place(list, x, i)], x),
    decreases list.len() - i,
{
    if i < list.len() && precedes(list[i], x) {
        lemma_text_place(list, x, i + 1);
    }
}

/// A set of texts with a text more is in order, and has the text and what it had before.
pub proof fn lemma_with_text(list: Seq<Seq<char>>, x: Seq<char>)
    requires
        ascending(list),
    ensures
        ascending(with_text(list, x)),
        forall|t: Seq<char>| with_text(list, x).contains(t) <==> list.contains(t) || t == x,
{
    let at = text_place(list, x, 0);
    lemma_text_place(list, x, 0);
    let after = with_text(list, x);
    if at < list.len() && list[at] == x {
    } else {
        assert forall|i: int, j: int| 0 <= i < j < after.len() implies precedes(
            #[trigger] after[i],
            #[trigger] after[j],
        ) by {
            let a = if i < at {
                i
            } else {
                i - 1
            };
            let b = if j < at {
                j
            } else {
                j - 1
            };
            if i == at {
                lemma_precedes(list[at], x, x);
                lemma_precedes(list[b], list[at], x);
                lemma_precedes(x, list[at], list[b]);
                assert(b >= at);
                if b > at {
                    assert(precedes(list[at], list[b]));
                }
            } else if j == at {
            } else {
                assert(precedes(list[a], list[b]));
            }
        }
        assert forall|t: Seq<char>| after.contains(t) <==> list.contains(t) || t == x by {
            if after.contains(t) {
                let k = choose|k: int| 0 <= k < after.len() && after[k] == t;
                if k < at {
                    assert(list[k] == t);
                } else if k > at {
                    assert(list[k - 1] == t);
                }
            }
            if list.contains(t) {
                let k = choose|k: int| 0 <= k < list.len() && list[k] == t;
                if k < at {
                    assert(after[k] == t);
                } else {
                    assert(after[k + 1] == t);
                }
            }
            assert(after[at] == x);
        }
    }
}

/// The set of some texts is in order and holds those texts and no others, each once.
pub proof fn law_text_sets(list: Seq<Seq<char>>)
    ensures
        ascending(text_set(list)),
        forall|t: Seq<char>| text_set(list).contains(t) <==> list.contains(t),
    decreases list.len(),
{
    if list.len() > 0 {
        let front = list.drop_last();
        law_text_sets(front);
        lemma_with_text(text_set(front), list.last());
        assert forall|t: Seq<char>| text_set(list).contains(t) <==> list.contains(t) by {
            if list.contains(t) {
                let k = choose|k: int| 0 <= k < list.len() && list[k] == t;
                if k < front.len() {
                    assert(front[k] == t);
                }
            }
            if front.contains(t) {
                let k = choose|k: int| 0 <= k < front.len() && front[k] == t;
                assert(list[k] == t);
            }
            assert(list[list.len() - 1] == list.last());
        }
    }
}

/// Adds a text to a set in order.
pub fn insert_text(list: &mut Vec<String>, x: &str)
    ensures
        texts(final(list)@) == with_text(texts(old(list)@), x@),
{
    let ghost before = texts(list@);
    let mut at: usize = 0;
    while at < list.len() && text_before(list[at].as_str(), x)
        invariant
            at <= list@.len(),
            texts(list@) == before,
            text_place(before, x@, at as int) == text_place(before, x@, 0),
        decreases list@.len() - at,
    {
        assert(before[at as int] == list@[at as int]@);
        at += 1;
    }
    if at < list.len() {
        assert(before[at as int] == list@[at as int]@);
        if same_text(list[at].as_str(), x) {
            return;
        }
    }
    list.insert(at, owned(x));
    assert(texts(list@) =~= before.insert(at as int, x@));
}

/// What stands between the bytes `sep`.
pub fn split_bytes(bytes: &[u8], sep: u8) -> (r: Vec<Vec<u8>>)
    ensures
        parts(r@) == pieces(bytes@, sep),
{
    let mut out: Vec<Vec<u8>> = Vec::new();
    let mut current: Vec<u8> = Vec::new();
    let mut i: usize = 0;
    assert(bytes@.take(0) =~= Seq::<u8>::empty());
    assert(parts(out@) =~= Seq::<Seq<u8>>::empty());
    while i < bytes.len()
        invariant
            i <= bytes@.len(),
            split_state(bytes@.take(i as int), sep) == (parts(out@), current@),
        decreases bytes@.len() - i,
    {
        assert(bytes@.take(i + 1).drop_last() =~= bytes@.take(i as int));
        assert(bytes@.take(i + 1).last() == bytes@[i as int]);
        if bytes[i] == sep {
            let ghost before = out@;
            let ghost piece = current@;
            out.push(current);
            assert(parts(out@) =~= parts(before).push(piece));
            current = Vec::new();
        } else {
            current.push(bytes[i]);
        }
        i += 1;
    }
    assert(bytes@.take(i as int) =~= bytes@);
    let ghost before = out@;
    let ghost piece = current@;
    out.push(current);
    assert(parts(out@) =~= parts(before).push(piece));
    out
}

/// What `decimal` writes are digits, at least one of them.
proof fn lemma_decimal_digits(n: int)
    requires
        0 <= n,
    ensures
        decimal(n).len() > 0,
        decimal(n)[0] != '+',
        digits_value(decimal(n), 10) == Some(n as nat),
        forall|i: int| 0 <= i < decimal(n).len() ==> '0' <= #[trigger] decimal(n)[i] <= '9',
    decreases n,
{
    if n < 10 {
        let s = seq![digit(n)];
        assert(s.drop_last() =~= Seq::<char>::empty());
        assert(digits_value(s.drop_last(), 10) == Some(0nat));
        assert(digit_value(s.last(), 10) == Some(n as nat));
    } else {
        lemma_decimal_digits(n / 10);
        let s = decimal(n);
        assert(s.drop_last() =~= decimal(n / 10));
        assert(s[0] == decimal(n / 10)[0]);
        assert(digit_value(s.last(), 10) == Some((n % 10) as nat));
    }
}

/// What `hex` writes are digits, at least one of them.
proof fn lemma_hex_digits(n: int)
    requires
        0 <= n,
    ensures
        hex(n).len() > 0,
        hex(n)[0] != '+',
        digits_value(hex(n), 16) == Some(n as nat),
        forall|i: int|
            0 <= i < hex(n).len() ==> '0' <= #[trigger] hex(n)[i] <= '9' || 'a' <= hex(n)[i]
                <= 'f',
    decreases n,
{
    if n < 16 {
        let s = seq![digit(n)];
        assert(s.drop_last() =~= Seq::<char>::empty());
        assert(digits_value(s.drop_last(), 16) == Some(0nat));
        assert(digit_value(s.last(), 16) == Some(n as nat));
    } else {
        lemma_hex_digits(n / 16);
        let s = hex(n);
        assert(s.drop_last() =~= hex(n / 16));
        assert(s[0] == hex(n / 16)[0]);
        assert(digit_value(s.last(), 16) == Some((n % 16) as nat));
    }
}

/// A number that is written is read back, in decimal and in hexadecimal, with a plus sign before
/// it too; it is written in digits, and one that is above what is allowed is refused.
pub proof fn law_written_numbers_are_read_back(n: nat, max: nat)
    ensures
        parse_number(decimal(n as int), 10, max) == (if n <= max {
            Some(n)
        } else {
            None
        }),
        parse_number(hex(n as int), 16, max) == (if n <= max {
            Some(n)
        } else {
            None
        }),
        parse_number(seq!['+'] + decimal(n as int), 10, max) == parse_number(
            decimal(n as int),
            10,
            max,
        ),
        forall|i: int|
            0 <= i < decimal(n as int).len() ==> '0' <= #[trigger] decimal(n as int)[i] <= '9',
{
    lemma_decimal_digits(n as int);
    lemma_hex_digits(n as int);
    let plus = seq!['+'] + decimal(n as int);
    assert(plus.skip(1) =~= decimal(n as int));
}

proof fn lemma_split_state<A>(s: Seq<A>, sep: A)
    ensures
        !split_state(s, sep).1.contains(sep),
        forall|i: int|
            0 <= i < split_state(s, sep).0.len() ==> !(#[trigger] split_state(
                s,
                sep,
            ).0[i]).contains(sep),
    decreases s.len(),
{
    if s.len() > 0 {
        lemma_split_state(s.drop_last(), sep);
        let (done, current) = split_state(s.drop_last(), sep);
        if s.last() != sep {
            assert forall|k: int| 0 <= k < current.push(s.last()).len() implies current.push(
                s.last(),
            )[k] != sep by {
                if k < current.len() {
                    assert(current.contains(current[k]));
                }
            }
        }
    }
}

/// The first `n` of some texts joined are not changed by what follows them.
proof fn lemma_joined_prefix(a: Seq<Seq<char>>, b: Seq<Seq<char>>, sep: Seq<char>, n: int)
    requires
        n <= a.len(),
        n <= b.len(),
        forall|i: int| 0 <= i < n ==> a[i] == b[i],
    ensures
        joined_upto(a, sep, n) == joined_upto(b, sep, n),
    decreases n,
{
    if n > 1 {
        lemma_joined_prefix(a, b, sep, n - 1);
    }
}

proof fn lemma_joined_push(list: Seq<Seq<char>>, last: Seq<char>, sep: Seq<char>)
    ensures
        joined(list.push(last), sep) == (if list.len() == 0 {
            last
        } else {
            joined(list, sep) + sep + last
        }),
{
    lemma_joined_prefix(list, list.push(last), sep, list.len() as int);
}

/// A text that is joined to others comes behind them, with the separator before it.
pub proof fn lemma_joined_more(list: Seq<Seq<char>>, last: Seq<char>, sep: Seq<char>)
    requires
        list.len() > 0,
    ensures
        joined(list.push(last), sep) == joined(list, sep) + sep + last,
{
    lemma_joined_push(list, last, sep);
}

proof fn lemma_pieces_join(s: Seq<char>, sep: char)
    ensures
        joined(pieces(s, sep), seq![sep]) == s,
    decreases s.len(),
{
    let (done, current) = split_state(s, sep);
    lemma_joined_push(done, current, seq![sep]);
    if s.len() > 0 {
        let front = s.drop_last();
        let (before, open) = split_state(front, sep);
        lemma_pieces_join(front, sep);
        lemma_joined_push(before, open, seq![sep]);
        assert(front.push(s.last()) =~= s);
        if s.last() == sep {
            assert(joined(done, seq![sep]) == front);
            assert(front + seq![sep] + Seq::<char>::empty() =~= s);
        } else {
            if before.len() == 0 {
                assert(current =~= s);
            } else {
                assert(joined(before, seq![sep]) + seq![sep] + open.push(s.last()) =~= (joined(
                    before,
                    seq![sep],
                ) + seq![sep] + open).push(s.last()));
            }
        }
    } else {
        assert(s =~= current);
    }
}

/// Cutting a text at a separator loses nothing: the pieces, with the separator between them again,
/// are the text, and no piece has a separator in it.
pub proof fn law_pieces_make_the_text(s: Seq<char>, sep: char)
    ensures
        joined(pieces(s, sep), seq![sep]) == s,
        pieces(s, sep).len() > 0,
        forall|i: int|
            0 <= i < pieces(s, sep).len() ==> !(#[trigger] pieces(s, sep)[i]).contains(sep),
{
    lemma_pieces_join(s, sep);
    lemma_split_state(s, sep);
    let (done, current) = split_state(s, sep);
    assert forall|i: int| 0 <= i < pieces(s, sep).len() implies !(#[trigger] pieces(
        s,
        sep,
    )[i]).contains(sep) by {
        if i < done.len() {
            assert(pieces(s, sep)[i] == done[i]);
        } else {
            assert(pieces(s, sep)[i] == current);
        }
    }
}

proof fn lemma_split_more(front: Seq<char>, more: Seq<char>, sep: char)
    requires
        !more.contains(sep),
    ensures
        split_state(front + more, sep) == (
            split_state(front, sep).0,
            split_state(front, sep).1 + more,
        ),
    decreases more.len(),
{
    if more.len() == 0 {
        assert(front + more =~= front);
        assert(split_state(front, sep).1 + more =~= split_state(front, sep).1);
    } else {
        let rest = more.drop_last();
        assert forall|k: int| 0 <= k < rest.len() implies rest[k] != sep by {
            assert(more.contains(more[k]));
        }
        lemma_split_more(front, rest, sep);
        assert(more.contains(more.last()));
        assert((front + more).drop_last() =~= front + rest);
        assert((front + more).last() == more.last());
        assert((split_state(front, sep).1 + rest).push(more.last()) =~= split_state(front, sep).1
            + more);
    }
}

/// Cutting joined texts at what joins them gives the texts, where none of them holds it.
pub proof fn law_joined_texts_are_cut_again(parts: Seq<Seq<char>>, sep: char)
    requires
        parts.len() > 0,
        forall|i: int| 0 <= i < parts.len() ==> !(#[trigger] parts[i]).contains(sep),
    ensures
        pieces(joined(parts, seq![sep]), sep) == parts,
    decreases parts.len(),
{
    let front = parts.drop_last();
    let last = parts.last();
    assert(front.push(last) =~= parts);
    lemma_joined_push(front, last, seq![sep]);
    assert(!parts[parts.len() - 1].contains(sep));
    if front.len() == 0 {
        let none = Seq::<char>::empty();
        lemma_split_more(none, last, sep);
        assert(none + last =~= last);
        assert(pieces(last, sep) =~= parts);
    } else {
        assert forall|i: int| 0 <= i < front.len() implies !(#[trigger] front[i]).contains(sep) by {
            assert(front[i] == parts[i]);
        }
        law_joined_texts_are_cut_again(front, sep);
        let text = joined(front, seq![sep]);
        let cut = text + seq![sep];
        assert(cut.drop_last() =~= text);
        lemma_split_more(cut, last, sep);
        assert(split_state(cut, sep) == (pieces(text, sep), Seq::<char>::empty()));
        assert(Seq::<char>::empty() + last =~= last);
        assert(pieces(cut + last, sep) =~= parts);
    }
}

proof fn lemma_trim_start(s: Seq<char>) -> (n: int)
    ensures
        0 <= n <= s.len(),
        trim_start(s) == s.skip(n),
        forall|i: int| 0 <= i < n ==> is_space(#[trigger] s[i]),
        n < s.len() ==> !is_space(s[n]),
    decreases s.len(),
{
    if s.len() > 0 && is_space(s[0]) {
        let n = lemma_trim_start(s.skip(1));
        assert(s.skip(1).skip(n) =~= s.skip(n + 1));
        assert forall|i: int| 0 <= i < n + 1 implies is_space(#[trigger] s[i]) by {
            if i > 0 {
                assert(s[i] == s.skip(1)[i - 1]);
            }
        }
        n + 1
    } else {
        assert(s.skip(0) =~= s);
        0
    }
}

proof fn lemma_trim_end(s: Seq<char>) -> (n: int)
    ensures
        0 <= n <= s.len(),
        trim_end(s) == s.take(n),
        forall|i: int| n <= i < s.len() ==> is_space(#[trigger] s[i]),
        n > 0 ==> !is_space(s[n - 1]),
    decreases s.len(),
{
    if s.len() > 0 && is_space(s.last()) {
        let n = lemma_trim_end(s.drop_last());
        assert(s.drop_last().take(n) =~= s.take(n));
        assert forall|i: int| n <= i < s.len() implies is_space(#[trigger] s[i]) by {
            if i < s.len() - 1 {
                assert(s[i] == s.drop_last()[i]);
            }
        }
        n
    } else {
        assert(s.take(s.len() as int) =~= s);
        s.len() as int
    }
}

/// Trimming takes white space away and nothing else: white space before and behind a text that has
/// none at its ends, or that is empty, is all that goes.
pub proof fn law_trimming_takes_white_space(before: Seq<char>, s: Seq<char>, behind: Seq<char>)
    requires
        forall|i: int| 0 <= i < before.len() ==> is_space(#[trigger] before[i]),
        forall|i: int| 0 <= i < behind.len() ==> is_space(#[trigger] behind[i]),
        s.len() > 0 ==> !is_space(s[0]) && !is_space(s.last()),
    ensures
        trim(before + s + behind) == s,
        trim_end(s + behind) == s,
        trim_start(before + s) == s,
{
    lemma_trim_whole(before, s, behind);
    let none = Seq::<char>::empty();
    let n = lemma_trim_end(s + behind);
    if s.len() > 0 {
        assert((s + behind)[s.len() - 1] == s.last());
    }
    if n < s.len() {
        assert(is_space((s + behind)[s.len() - 1]));
    } else if n > s.len() {
        assert((s + behind)[n - 1] == behind[n - 1 - s.len()]);
    }
    assert((s + behind).take(s.len() as int) =~= s);
    let m = lemma_trim_start(before + s);
    if m < before.len() {
        assert((before + s)[m] == before[m]);
    } else if m > before.len() {
        assert((before + s)[before.len() as int] == s[0]);
        assert(is_space((before + s)[before.len() as int]));
    }
    assert((before + s).skip(before.len() as int) =~= s);
}

proof fn lemma_trim_whole(before: Seq<char>, s: Seq<char>, behind: Seq<char>)
    requires
        forall|i: int| 0 <= i < before.len() ==> is_space(#[trigger] before[i]),
        forall|i: int| 0 <= i < behind.len() ==> is_space(#[trigger] behind[i]),
        s.len() > 0 ==> !is_space(s[0]) && !is_space(s.last()),
    ensures
        trim(before + s + behind) == s,
{
    let whole = before + s + behind;
    let m = lemma_trim_start(whole);
    let rest = whole.skip(m);
    let n = lemma_trim_end(rest);
    if s.len() == 0 {
        assert forall|i: int| 0 <= i < whole.len() implies is_space(#[trigger] whole[i]) by {
            if i < before.len() {
                assert(whole[i] == before[i]);
            } else {
                assert(whole[i] == behind[i - before.len()]);
            }
        }
        if m < whole.len() {
            assert(is_space(whole[m]));
        }
        assert(rest.take(n) =~= s);
    } else {
        let k = before.len() as int;
        assert(whole[k] == s[0]);
        if m > k {
            assert(is_space(whole[k]));
        }
        if m < k {
            assert(whole[m] == before[m]);
        }
        assert(m == k);
        assert(rest =~= s + behind);
        assert(rest[s.len() - 1] == s.last());
        if n < s.len() {
            assert(is_space(rest[s.len() - 1]));
        }
        if n > s.len() {
            assert(rest[n - 1] == behind[n - 1 - s.len()]);
        }
        assert(rest.take(n) =~= s);
    }
}

proof fn lemma_word_grows(s: Seq<char>, w: Seq<char>)
    requires
        forall|i: int| 0 <= i < w.len() ==> !is_space(#[trigger] w[i]),
    ensures
        word_state(s + w) == (word_state(s).0, word_state(s).1 + w),
    decreases w.len(),
{
    if w.len() == 0 {
        assert(s + w =~= s);
        assert(word_state(s).1 + w =~= word_state(s).1);
    } else {
        let front = w.drop_last();
        assert forall|i: int| 0 <= i < front.len() implies !is_space(#[trigger] front[i]) by {
            assert(front[i] == w[i]);
        }
        lemma_word_grows(s, front);
        assert((s + w).drop_last() =~= s + front);
        assert((s + w).last() == w[w.len() - 1]);
        assert((word_state(s).1 + front).push(w.last()) =~= word_state(s).1 + w);
    }
}

proof fn lemma_gap_ends_word(s: Seq<char>, gap: Seq<char>)
    requires
        gap.len() > 0,
        forall|i: int| 0 <= i < gap.len() ==> is_space(#[trigger] gap[i]),
    ensures
        word_state(s + gap) == (words(s), Seq::<char>::empty()),
    decreases gap.len(),
{
    let front = gap.drop_last();
    assert((s + gap).drop_last() =~= s + front);
    assert((s + gap).last() == gap[gap.len() - 1]);
    if front.len() == 0 {
        assert(s + front =~= s);
    } else {
        assert forall|i: int| 0 <= i < front.len() implies is_space(#[trigger] front[i]) by {
            assert(front[i] == gap[i]);
        }
        lemma_gap_ends_word(s, front);
    }
}

/// The words of a text are its runs of characters other than white space, in their order: a word
/// behind white space, or at the start of the text, is one more, and white space behind a text adds
/// none.
pub proof fn law_words_are_found(s: Seq<char>, gap: Seq<char>, w: Seq<char>)
    requires
        forall|i: int| 0 <= i < gap.len() ==> is_space(#[trigger] gap[i]),
        forall|i: int| 0 <= i < w.len() ==> !is_space(#[trigger] w[i]),
    ensures
        w.len() > 0 ==> words(w) == seq![w],
        gap.len() > 0 && w.len() > 0 ==> words(s + gap + w) == words(s).push(w),
        words(s + gap) == words(s),
        words(Seq::<char>::empty()) == Seq::<Seq<char>>::empty(),
{
    let none = Seq::<char>::empty();
    lemma_word_grows(none, w);
    assert(none + w =~= w);
    if gap.len() > 0 {
        lemma_gap_ends_word(s, gap);
        lemma_word_grows(s + gap, w);
        assert(none + w =~= w);
    } else {
        assert(s + gap =~= s);
    }
    if w.len() > 0 {
        assert(words(w) =~= seq![w]);
    }
}

/// Each text without one carriage return at its end.
spec fn bare(raw: Seq<Seq<char>>) -> Seq<Seq<char>> {
    Seq::new(raw.len(), |i: int| without_return(raw[i]))
}

proof fn lemma_lines_ended(raw: Seq<Seq<char>>)
    requires
        raw.len() > 0,
        forall|i: int| 0 <= i < raw.len() ==> !(#[trigger] raw[i]).contains('\n'),
    ensures
        lines(joined(raw, seq!['\n']).push('\n')) == bare(raw),
{
    let text = joined(raw, seq!['\n']);
    law_joined_texts_are_cut_again(raw, '\n');
    let ended = text.push('\n');
    assert(ended.drop_last() =~= text);
    assert(split_state(ended, '\n') == (pieces(text, '\n'), Seq::<char>::empty()));
    assert(lines(ended) =~= bare(raw));
}

proof fn lemma_lines_open(raw: Seq<Seq<char>>)
    requires
        raw.len() > 0,
        raw.last().len() > 0,
        forall|i: int| 0 <= i < raw.len() ==> !(#[trigger] raw[i]).contains('\n'),
    ensures
        lines(joined(raw, seq!['\n'])) == bare(raw.drop_last()).push(raw.last()),
{
    let text = joined(raw, seq!['\n']);
    law_joined_texts_are_cut_again(raw, '\n');
    let (done, current) = split_state(text, '\n');
    assert(done.push(current).drop_last() =~= done);
    assert(done.push(current).last() == current);
    assert(lines(text) =~= bare(raw.drop_last()).push(raw.last()));
}

/// Whether a text has no line feed and no carriage return at its end.
pub open spec fn is_line(s: Seq<char>) -> bool {
    !s.contains('\n') && !(s.len() > 0 && s.last() == '\r')
}

/// The lines of a text are read as they were written, each ended by a line feed or by a carriage
/// return and a line feed; the last one may have no end.
pub proof fn law_lines_are_read(parts: Seq<Seq<char>>)
    requires
        parts.len() > 0,
        forall|i: int| 0 <= i < parts.len() ==> is_line(#[trigger] parts[i]),
    ensures
        lines(joined(parts, seq!['\n']).push('\n')) == parts,
        parts.last().len() > 0 ==> lines(joined(parts, seq!['\n'])) == parts,
        lines(joined(parts, seq!['\r', '\n']) + seq!['\r', '\n']) == parts,
{
    assert forall|i: int| 0 <= i < parts.len() implies !(#[trigger] parts[i]).contains('\n') by {
        assert(is_line(parts[i]));
    }
    lemma_bare(parts);
    lemma_lines_ended(parts);
    if parts.last().len() > 0 {
        lemma_lines_open(parts);
        assert(bare(parts.drop_last()) =~= bare(parts).drop_last());
        assert(parts.drop_last().push(parts.last()) =~= parts);
    }
    lemma_lines_returned(parts);
}

proof fn lemma_bare(parts: Seq<Seq<char>>)
    requires
        forall|i: int| 0 <= i < parts.len() ==> is_line(#[trigger] parts[i]),
    ensures
        bare(parts) == parts,
{
    assert forall|i: int| 0 <= i < parts.len() implies bare(parts)[i] == parts[i] by {
        assert(is_line(parts[i]));
    }
    assert(bare(parts) =~= parts);
}

/// Each text with a carriage return at its end.
spec fn returned(parts: Seq<Seq<char>>) -> Seq<Seq<char>> {
    Seq::new(parts.len(), |i: int| parts[i].push('\r'))
}

proof fn lemma_lines_returned(parts: Seq<Seq<char>>)
    requires
        parts.len() > 0,
        forall|i: int| 0 <= i < parts.len() ==> is_line(#[trigger] parts[i]),
    ensures
        lines(joined(parts, seq!['\r', '\n']) + seq!['\r', '\n']) == parts,
{
    let raw = returned(parts);
    lemma_returned(parts, parts.len() as int);
    assert forall|i: int| 0 <= i < raw.len() implies !(#[trigger] raw[i]).contains('\n') by {
        assert(is_line(parts[i]));
        assert forall|k: int| 0 <= k < raw[i].len() implies raw[i][k] != '\n' by {
            if k < parts[i].len() {
                assert(parts[i].contains(parts[i][k]));
            }
        }
    }
    lemma_lines_ended(raw);
    assert(joined(raw, seq!['\n']).push('\n') =~= joined(parts, seq!['\r', '\n']) + seq![
        '\r',
        '\n',
    ]);
    assert forall|i: int| 0 <= i < parts.len() implies bare(raw)[i] == parts[i] by {
        assert(raw[i].drop_last() =~= parts[i]);
    }
    assert(bare(raw) =~= parts);
}

proof fn lemma_returned(parts: Seq<Seq<char>>, n: int)
    requires
        0 <= n <= parts.len(),
    ensures
        n > 0 ==> joined_upto(returned(parts), seq!['\n'], n) == joined_upto(
            parts,
            seq!['\r', '\n'],
            n,
        ).push('\r'),
    decreases n,
{
    if n > 1 {
        lemma_returned(parts, n - 1);
        let before = joined_upto(parts, seq!['\r', '\n'], n - 1);
        assert(before.push('\r') + seq!['\n'] + parts[n - 1].push('\r') =~= (before + seq![
            '\r',
            '\n',
        ] + parts[n - 1]).push('\r'));
    }
}

proof fn lemma_leading_zeros(n: nat, s: Seq<char>, base: nat)
    requires
        1 <= base,
    ensures
        digits_value(Seq::new(n, |i: int| '0') + s, base) == digits_value(s, base),
    decreases s.len(), n,
{
    let zeros = Seq::new(n, |i: int| '0');
    let whole = zeros + s;
    if s.len() > 0 {
        lemma_leading_zeros(n, s.drop_last(), base);
        assert(whole.drop_last() =~= zeros + s.drop_last());
        assert(whole.last() == s.last());
    } else if n > 0 {
        let fewer = Seq::new((n - 1) as nat, |i: int| '0');
        lemma_leading_zeros((n - 1) as nat, s, base);
        assert(whole.drop_last() =~= fewer + s);
        assert(whole.last() == '0');
        assert(digit_value('0', base) == Some(0nat));
        assert(0nat * base == 0) by (nonlinear_arith);
    } else {
        assert(whole =~= s);
    }
}

proof fn lemma_hex_length(n: int, digits: nat)
    requires
        0 <= n,
        1 <= digits,
        digits == 1 ==> n < 16,
        digits == 2 ==> n < 0x100,
        digits == 3 ==> n < 0x1000,
        digits == 4 ==> n < 0x1_0000,
        digits == 5 ==> n < 0x10_0000,
        digits == 6 ==> n < 0x100_0000,
        digits == 7 ==> n < 0x1000_0000,
        digits == 8 ==> n < 0x1_0000_0000,
        digits <= 8,
    ensures
        hex(n).len() <= digits,
    decreases digits,
{
    if n >= 16 {
        lemma_hex_length(n / 16, (digits - 1) as nat);
    }
}

/// A number of 32 bits that is written with eight hexadecimal digits has eight of them, and is read
/// back.
pub proof fn law_eight_digits_are_read_back(n: u32)
    ensures
        padded(hex(n as int), 8, '0').len() == 8,
        parse_number(padded(hex(n as int), 8, '0'), 16, u32::MAX as nat) == Some(n as nat),
        forall|i: int|
            0 <= i < 8 ==> '0' <= #[trigger] padded(hex(n as int), 8, '0')[i] <= '9' || 'a'
                <= padded(hex(n as int), 8, '0')[i] <= 'f',
{
    let digits = hex(n as int);
    lemma_hex_digits(n as int);
    lemma_hex_length(n as int, 8);
    let k = (8 - digits.len()) as nat;
    let whole = padded(digits, 8, '0');
    lemma_leading_zeros(k, digits, 16);
    if k > 0 {
        assert(whole[0] == '0');
    } else {
        assert(whole =~= digits);
    }
    assert forall|i: int| 0 <= i < 8 implies '0' <= #[trigger] whole[i] <= '9' || 'a' <= whole[i]
        <= 'f' by {
        if i >= k {
            assert(whole[i] == digits[i - k]);
        }
    }
}

/// What stands behind a beginning is what was written behind it, and what stands before an end is
/// what was written before it; a text without the beginning or the end gives nothing.
pub proof fn law_beginnings_and_ends_are_taken_off(a: Seq<char>, b: Seq<char>)
    ensures
        after_prefix(a + b, a) == Some(b),
        before_suffix(a + b, b) == Some(a),
        after_prefix(a, b) is Some ==> b.len() <= a.len() && a.take(b.len() as int) == b,
        before_suffix(a, b) is Some ==> b.len() <= a.len() && a.skip(a.len() - b.len()) == b,
{
    assert((a + b).skip(a.len() as int) =~= b);
    assert((a + b).take(a.len() as int) =~= a);
    assert(a.is_prefix_of(a + b));
    assert(b.is_suffix_of(a + b)) by {
        assert((a + b).subrange((a + b).len() - b.len(), (a + b).len() as int) =~= b);
    }
    if b.is_prefix_of(a) {
        assert(a.take(b.len() as int) =~= b);
    }
    if b.is_suffix_of(a) {
        assert(a.skip(a.len() - b.len()) =~= b);
    }
}

proof fn lemma_next_char(s: Seq<char>, from: int, wanted: char, at: int)
    requires
        0 <= from <= at <= s.len(),
        forall|i: int| from <= i < at ==> #[trigger] s[i] != wanted,
        at < s.len() ==> s[at] == wanted,
    ensures
        next_char(s, from, wanted) == at,
    decreases at - from,
{
    if from < at {
        lemma_next_char(s, from + 1, wanted, at);
    }
}

/// A text is cut in two at the first separator, wherever it stands; one without a separator is not
/// cut.
pub proof fn law_texts_are_cut_in_two(a: Seq<char>, sep: char, b: Seq<char>)
    requires
        !a.contains(sep),
    ensures
        split_first(a.push(sep) + b, sep) == Some((a, b)),
        split_first(a, sep) is None,
{
    let whole = a.push(sep) + b;
    let n = a.len() as int;
    assert forall|i: int| 0 <= i < n implies #[trigger] whole[i] != sep by {
        assert(whole[i] == a[i]);
        assert(a.contains(a[i]));
    }
    assert(whole[n] == sep);
    lemma_next_char(whole, 0, sep, n);
    assert(whole.take(n) =~= a);
    assert(whole.skip(n + 1) =~= b);
    assert forall|i: int| 0 <= i < n implies #[trigger] a[i] != sep by {
        assert(a.contains(a[i]));
    }
    lemma_next_char(a, 0, sep, n);
}

/// The digits of a number are neither white space nor any of the characters that stand between
/// numbers.
pub proof fn law_hex_digits_are_plain(n: nat)
    ensures
        hex(n as int).len() > 0,
        forall|i: int|
            0 <= i < hex(n as int).len() ==> '0' <= #[trigger] hex(n as int)[i] <= '9' || 'a' <= hex(
                n as int,
            )[i] <= 'f',
        forall|i: int|
            0 <= i < hex(n as int).len() ==> !is_space(#[trigger] hex(n as int)[i]) && hex(
                n as int,
            )[i] != ':' && hex(n as int)[i] != '-' && hex(n as int)[i] != ',',
{
    lemma_hex_digits(n as int);
}

/// Pieces one behind the other, each ended by `sep`.
pub open spec fn ended<A>(parts: Seq<Seq<A>>, sep: A) -> Seq<A>
    decreases parts.len(),
{
    if parts.len() == 0 {
        Seq::empty()
    } else {
        ended(parts.drop_last(), sep) + parts.last().push(sep)
    }
}

proof fn lemma_split_behind<A>(front: Seq<A>, more: Seq<A>, sep: A)
    requires
        !more.contains(sep),
    ensures
        split_state(front + more, sep) == (
            split_state(front, sep).0,
            split_state(front, sep).1 + more,
        ),
    decreases more.len(),
{
    if more.len() == 0 {
        assert(front + more =~= front);
        assert(split_state(front, sep).1 + more =~= split_state(front, sep).1);
    } else {
        let fewer = more.drop_last();
        assert forall|i: int| 0 <= i < fewer.len() implies fewer[i] != sep by {
            assert(more.contains(more[i]));
        }
        lemma_split_behind(front, fewer, sep);
        assert((front + more).drop_last() =~= front + fewer);
        assert(more.contains(more.last()));
        assert((split_state(front, sep).1 + fewer).push(more.last()) =~= split_state(front, sep).1
            + more);
    }
}

/// Pieces that are each ended by a separator are cut into the same pieces again, with nothing behind
/// the last.
pub proof fn law_ended_pieces_are_cut_again<A>(parts: Seq<Seq<A>>, sep: A)
    requires
        forall|i: int| 0 <= i < parts.len() ==> !(#[trigger] parts[i]).contains(sep),
    ensures
        pieces(ended(parts, sep), sep) == parts.push(Seq::empty()),
    decreases parts.len(),
{
    if parts.len() > 0 {
        let fewer = parts.drop_last();
        let last = parts.last();
        assert forall|i: int| 0 <= i < fewer.len() implies !(#[trigger] fewer[i]).contains(sep) by {
            assert(fewer[i] == parts[i]);
        }
        law_ended_pieces_are_cut_again(fewer, sep);
        let front = ended(fewer, sep);
        assert(!parts[parts.len() - 1].contains(sep));
        let (done, current) = split_state(front, sep);
        assert(pieces(front, sep).drop_last() =~= done);
        assert(fewer.push(Seq::empty()).drop_last() =~= fewer);
        assert(pieces(front, sep).last() == current);
        assert(fewer.push(Seq::<A>::empty()).last() == Seq::<A>::empty());
        lemma_split_behind(front, last, sep);
        assert(Seq::<A>::empty() + last =~= last);
        let whole = ended(parts, sep);
        assert(whole =~= (front + last).push(sep));
        assert((front + last).push(sep).drop_last() =~= front + last);
        assert(fewer.push(last) =~= parts);
    }
}

/// A byte that is written with two hexadecimal digits has two of them, the higher first, and is read
/// back.
pub proof fn law_two_digits_are_read_back(n: u8)
    ensures
        padded(hex(n as int), 2, '0') == seq![digit(n as int / 16), digit(n as int % 16)],
        parse_number(padded(hex(n as int), 2, '0'), 16, 255) == Some(n as nat),
{
    let digits = hex(n as int);
    lemma_hex_digits(n as int);
    reveal_with_fuel(hex, 2);
    lemma_leading_zeros((2 - digits.len()) as nat, digits, 16);
    let whole = padded(digits, 2, '0');
    assert(whole =~= seq![digit(n as int / 16), digit(n as int % 16)]);
    if n >= 16 {
        assert(whole =~= digits);
    } else {
        assert(whole =~= Seq::new(1, |i: int| '0') + digits);
        assert(whole[0] == '0');
    }
}

proof fn lemma_ended_joined(parts: Seq<Seq<char>>, sep: char)
    requires
        parts.len() > 0,
    ensures
        ended(parts, sep) == joined(parts, seq![sep]).push(sep),
    decreases parts.len(),
{
    let front = parts.drop_last();
    let last = parts.last();
    assert(front.push(last) =~= parts);
    lemma_joined_push(front, last, seq![sep]);
    if front.len() > 0 {
        lemma_ended_joined(front, sep);
        assert(ended(parts, sep) =~= joined(parts, seq![sep]).push(sep));
    } else {
        assert(ended(front, sep) =~= Seq::<char>::empty());
        assert(ended(parts, sep) =~= last.push(sep));
    }
}

/// The lines of a text in which each line is ended by a line feed are those lines.
pub proof fn law_ended_lines_are_read(parts: Seq<Seq<char>>)
    requires
        parts.len() > 0,
        forall|i: int| 0 <= i < parts.len() ==> is_line(#[trigger] parts[i]),
    ensures
        lines(ended(parts, '\n')) == parts,
{
    lemma_ended_joined(parts, '\n');
    law_lines_are_read(parts);
}

} // verus!
