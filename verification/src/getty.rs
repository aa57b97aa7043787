//! The consoles on which a shell is offered.
use vstd::prelude::*;
use vstd::string::*;

use crate::cmdline::{values_of, KernelCommandLine};
use crate::text::{
    chars, from_chars, is_space, law_texts_are_cut_in_two, law_trimming_takes_white_space, owned,
    same_text, split_first, split_once, split_words, texts, trim, trim_chars, words,
};

verus! {

/// The rate of a console that is told no other.
pub open spec fn default_baud() -> Seq<char> {
    "115200"@
}

/// A console and its rate.
#[derive(Debug, PartialEq, Eq)]
pub struct Console {
    pub tty: String,
    pub baud: String,
}

/// A console and its rate, as plain values.
#[verifier::ext_equal]
pub struct ConsoleView {
    pub tty: Seq<char>,
    pub baud: Seq<char>,
}

impl View for Console {
    type V = ConsoleView;

    open spec fn view(&self) -> ConsoleView {
        ConsoleView { tty: self.tty@, baud: self.baud@ }
    }
}

/// The views of a list of consoles.
pub open spec fn consoles(v: Seq<Console>) -> Seq<ConsoleView> {
    Seq::new(v.len(), |i: int| v[i]@)
}

/// The digits that `s` starts with.
pub open spec fn leading_digits(s: Seq<char>) -> Seq<char>
    decreases s.len(),
{
    if s.len() > 0 && '0' <= s[0] <= '9' {
        seq![s[0]] + leading_digits(s.skip(1))
    } else {
        Seq::empty()
    }
}

/// The rate that the options of a console tell.
pub open spec fn baud_told(options: Seq<char>) -> Seq<char> {
    if leading_digits(options).len() == 0 {
        default_baud()
    } else {
        leading_digits(options)
    }
}

/// The rate that the options of a console tell.
pub fn parse_baud(options: &[char]) -> (r: String)
    ensures
        r@ == baud_told(options@),
{
    let mut i: usize = 0;
    assert(options@.skip(0) =~= options@);
    assert(Seq::<char>::empty() + leading_digits(options@) =~= leading_digits(options@));
    assert(options@.take(0) =~= Seq::<char>::empty());
    while i < options.len() && '0' <= options[i] && options[i] <= '9'
        invariant
            i <= options@.len(),
            leading_digits(options@) == options@.take(i as int) + leading_digits(
                options@.skip(i as int),
            ),
        decreases options@.len() - i,
    {
        proof {
            let rest = options@.skip(i as int);
            assert(rest.skip(1) =~= options@.skip(i + 1));
            assert(options@.take(i as int) + (seq![rest[0]] + leading_digits(rest.skip(1)))
                =~= options@.take(i + 1) + leading_digits(options@.skip(i + 1)));
        }
        i += 1;
    }
    assert(leading_digits(options@) =~= options@.take(i as int));
    if i == 0 {
        owned("115200")
    } else {
        let r = from_chars(&options[0..i]);
        assert(r@ =~= options@.take(i as int));
        r
    }
}

/// The console that a value of `console=` names.
pub open spec fn console_told(value: Seq<char>) -> Option<ConsoleView> {
    let (name, options) = match split_first(value, ',') {
        Some(p) => p,
        None => (value, Seq::empty()),
    };
    let tty = trim(name);
    if tty.len() == 0 || tty == "null"@ {
        None
    } else {
        Some(ConsoleView { tty, baud: baud_told(options) })
    }
}

/// The console that a value of `console=` names.
pub fn parse_console_spec(value: &str) -> (r: Option<Console>)
    ensures
        console_told(value@) == (match r {
            Some(console) => Some(console@),
            None => None,
        }),
{
    let v = chars(value);
    let nothing: Vec<char> = Vec::new();
    let (name, options): (&[char], &[char]) = match split_once(&v, ',') {
        Some((name, options)) => (name, options),
        None => (v.as_slice(), nothing.as_slice()),
    };
    assert(split_first(value@, ',') is None ==> options@ =~= Seq::<char>::empty());
    let tty = from_chars(trim_chars(name));
    if tty.as_str().unicode_len() == 0 || same_text(tty.as_str(), "null") {
        return None;
    }
    Some(Console { tty, baud: parse_baud(options) })
}

/// The consoles that the first `n` values name.
pub open spec fn told_upto(values: Seq<Seq<char>>, n: int) -> Seq<ConsoleView>
    decreases n,
{
    if n <= 0 {
        Seq::empty()
    } else {
        match console_told(values[n - 1]) {
            Some(console) => told_upto(values, n - 1).push(console),
            None => told_upto(values, n - 1),
        }
    }
}

/// The consoles that the command line names.
pub open spec fn cmdline_consoles(args: Seq<Seq<char>>) -> Seq<ConsoleView> {
    let values = values_of(args, "console"@);
    told_upto(values, values.len() as int)
}

/// The consoles that the command line names.
pub fn cmdline_console_specs(cmdline: &KernelCommandLine) -> (r: Vec<Console>)
    ensures
        consoles(r@) == cmdline_consoles(cmdline@),
{
    let values = cmdline.values("console");
    let mut found: Vec<Console> = Vec::new();
    let mut i: usize = 0;
    assert(consoles(found@) =~= Seq::<ConsoleView>::empty());
    while i < values.len()
        invariant
            i <= values@.len(),
            consoles(found@) == told_upto(texts(values@), i as int),
        decreases values@.len() - i,
    {
        assert(texts(values@)[i as int] == values@[i as int]@);
        if let Some(console) = parse_console_spec(values[i].as_str()) {
            let ghost before = found@;
            found.push(console);
            assert(consoles(found@) =~= consoles(before).push(console@));
        }
        i += 1;
    }
    assert(texts(values@).len() == values@.len());
    found
}

/// The first `n` words that are not `null`.
pub open spec fn active_upto(list: Seq<Seq<char>>, n: int) -> Seq<Seq<char>>
    decreases n,
{
    if n <= 0 {
        Seq::empty()
    } else if list[n - 1] != "null"@ {
        active_upto(list, n - 1).push(list[n - 1])
    } else {
        active_upto(list, n - 1)
    }
}

/// The names of the active consoles.
pub open spec fn active_names(active: Seq<char>) -> Seq<Seq<char>> {
    active_upto(words(active), words(active).len() as int)
}

/// The names of the active consoles.
pub fn active_console_names(active: &str) -> (r: Vec<String>)
    ensures
        texts(r@) == active_names(active@),
{
    let list = split_words(active);
    let mut found: Vec<String> = Vec::new();
    let mut i: usize = 0;
    assert(texts(found@) =~= Seq::<Seq<char>>::empty());
    while i < list.len()
        invariant
            i <= list@.len(),
            texts(found@) == active_upto(texts(list@), i as int),
        decreases list@.len() - i,
    {
        assert(texts(list@)[i as int] == list@[i as int]@);
        if !same_text(list[i].as_str(), "null") {
            let ghost before = found@;
            let name = owned(list[i].as_str());
            found.push(name);
            assert(texts(found@) =~= texts(before).push(name@));
        }
        i += 1;
    }
    assert(texts(list@).len() == list@.len());
    found
}

/// The rate that the last of the first `n` consoles of this name has.
pub open spec fn baud_upto(list: Seq<ConsoleView>, tty: Seq<char>, n: int) -> Seq<char>
    decreases n,
{
    if n <= 0 {
        default_baud()
    } else if list[n - 1].tty == tty {
        list[n - 1].baud
    } else {
        baud_upto(list, tty, n - 1)
    }
}

/// The rate that the last console of this name has.
pub fn baud_for_tty(list: &[Console], tty: &str) -> (r: String)
    ensures
        r@ == baud_upto(consoles(list@), tty@, list@.len() as int),
{
    let mut n: usize = list.len();
    while n > 0
        invariant
            n <= list@.len(),
            baud_upto(consoles(list@), tty@, list@.len() as int) == baud_upto(
                consoles(list@),
                tty@,
                n as int,
            ),
        decreases n,
    {
        assert(consoles(list@)[n - 1] == list@[n - 1]@);
        if same_text(list[n - 1].tty.as_str(), tty) {
            return owned(list[n - 1].baud.as_str());
        }
        n -= 1;
    }
    owned("115200")
}

/// Whether one of the consoles has this name.
pub open spec fn has_tty(list: Seq<ConsoleView>, tty: Seq<char>) -> bool {
    exists|i: int| 0 <= i < list.len() && (#[trigger] list[i]).tty == tty
}

/// The list with the console behind it, unless it has one of this name.
pub open spec fn with_console(list: Seq<ConsoleView>, console: ConsoleView) -> Seq<ConsoleView> {
    if has_tty(list, console.tty) {
        list
    } else {
        list.push(console)
    }
}

/// Appends the console, unless the list has one of this name.
pub fn push_console(list: &mut Vec<Console>, console: Console)
    ensures
        consoles(final(list)@) == with_console(consoles(old(list)@), console@),
{
    let mut i: usize = 0;
    while i < list.len()
        invariant
            i <= list@.len(),
            list@ == old(list)@,
            forall|k: int| 0 <= k < i ==> (#[trigger] consoles(list@)[k]).tty != console.tty@,
        decreases list@.len() - i,
    {
        assert(consoles(list@)[i as int] == list@[i as int]@);
        if same_text(list[i].tty.as_str(), console.tty.as_str()) {
            return;
        }
        i += 1;
    }
    let ghost before = list@;
    list.push(console);
    assert(consoles(list@) =~= consoles(before).push(console@));
}

/// The first `n` consoles, each name once.
pub open spec fn deduped_upto(list: Seq<ConsoleView>, n: int) -> Seq<ConsoleView>
    decreases n,
{
    if n <= 0 {
        Seq::empty()
    } else {
        with_console(deduped_upto(list, n - 1), list[n - 1])
    }
}

/// The consoles, each name once.
pub fn dedupe_console_specs(list: Vec<Console>) -> (r: Vec<Console>)
    ensures
        consoles(r@) == deduped_upto(consoles(list@), list@.len() as int),
{
    let mut out: Vec<Console> = Vec::new();
    let mut i: usize = 0;
    assert(consoles(out@) =~= Seq::<ConsoleView>::empty());
    while i < list.len()
        invariant
            i <= list@.len(),
            consoles(out@) == deduped_upto(consoles(list@), i as int),
        decreases list@.len() - i,
    {
        assert(consoles(list@)[i as int] == list@[i as int]@);
        let console = Console {
            tty: owned(list[i].tty.as_str()),
            baud: owned(list[i].baud.as_str()),
        };
        assert(console@ == list@[i as int]@);
        push_console(&mut out, console);
        i += 1;
    }
    out
}

/// The active consoles with the rates that the command line tells.
pub open spec fn active_consoles(
    names: Seq<Seq<char>>,
    told: Seq<ConsoleView>,
    n: int,
) -> Seq<ConsoleView>
    decreases n,
{
    if n <= 0 {
        Seq::empty()
    } else {
        with_console(
            active_consoles(names, told, n - 1),
            ConsoleView { tty: names[n - 1], baud: baud_upto(told, names[n - 1], told.len() as int) },
        )
    }
}

/// The consoles on which a shell is offered: the active ones, or else those of the command line.
pub open spec fn consoles_chosen(args: Seq<Seq<char>>, active: Option<Seq<char>>) -> Seq<
    ConsoleView,
> {
    let told = cmdline_consoles(args);
    let names = match active {
        Some(text) => active_names(text),
        None => Seq::empty(),
    };
    if names.len() == 0 {
        deduped_upto(told, told.len() as int)
    } else {
        active_consoles(names, told, names.len() as int)
    }
}

/// The consoles on which a shell is offered.
pub fn selected_consoles(cmdline: &KernelCommandLine, active: Option<&str>) -> (r: Vec<Console>)
    ensures
        consoles(r@) == consoles_chosen(
            cmdline@,
            match active {
                Some(text) => Some(text@),
                None => None,
            },
        ),
{
    let told = cmdline_console_specs(cmdline);
    let names = match active {
        Some(text) => active_console_names(text),
        None => Vec::new(),
    };
    assert(active is None ==> texts(names@) =~= Seq::<Seq<char>>::empty());
    assert(texts(names@).len() == names@.len());
    assert(consoles(told@).len() == told@.len());
    if names.len() == 0 {
        return dedupe_console_specs(told);
    }
    let mut out: Vec<Console> = Vec::new();
    let mut i: usize = 0;
    assert(consoles(out@) =~= Seq::<ConsoleView>::empty());
    while i < names.len()
        invariant
            i <= names@.len(),
            consoles(told@) == cmdline_consoles(cmdline@),
            consoles(told@).len() == told@.len(),
            consoles(out@) == active_consoles(texts(names@), consoles(told@), i as int),
        decreases names@.len() - i,
    {
        assert(texts(names@)[i as int] == names@[i as int]@);
        let tty = owned(names[i].as_str());
        let baud = baud_for_tty(&told, tty.as_str());
        push_console(&mut out, Console { tty, baud });
        i += 1;
    }
    out
}

/// Whether no name occurs twice.
pub open spec fn distinct_names(list: Seq<ConsoleView>) -> bool {
    forall|i: int, j: int|
        0 <= i < j < list.len() ==> (#[trigger] list[i]).tty != (#[trigger] list[j]).tty
}

proof fn lemma_with_console(list: Seq<ConsoleView>, console: ConsoleView)
    requires
        distinct_names(list),
    ensures
        distinct_names(with_console(list, console)),
{
}

proof fn lemma_deduped(list: Seq<ConsoleView>, n: int)
    ensures
        distinct_names(deduped_upto(list, n)),
    decreases n,
{
    if n > 0 {
        lemma_deduped(list, n - 1);
        lemma_with_console(deduped_upto(list, n - 1), list[n - 1]);
    }
}

proof fn lemma_active(names: Seq<Seq<char>>, told: Seq<ConsoleView>, n: int)
    ensures
        distinct_names(active_consoles(names, told, n)),
    decreases n,
{
    if n > 0 {
        lemma_active(names, told, n - 1);
        lemma_with_console(
            active_consoles(names, told, n - 1),
            ConsoleView { tty: names[n - 1], baud: baud_upto(told, names[n - 1], told.len() as int) },
        );
    }
}

/// No console is chosen twice.
pub proof fn law_consoles_are_distinct(args: Seq<Seq<char>>, active: Option<Seq<char>>)
    ensures
        distinct_names(consoles_chosen(args, active)),
{
    let told = cmdline_consoles(args);
    lemma_deduped(told, told.len() as int);
    let names = match active {
        Some(text) => active_names(text),
        None => Seq::empty(),
    };
    lemma_active(names, told, names.len() as int);
}

proof fn lemma_leading_digits(digits: Seq<char>, rest: Seq<char>)
    requires
        forall|i: int| 0 <= i < digits.len() ==> '0' <= #[trigger] digits[i] <= '9',
        rest.len() > 0 ==> !('0' <= rest[0] <= '9'),
    ensures
        leading_digits(digits + rest) == digits,
    decreases digits.len(),
{
    let all = digits + rest;
    if digits.len() > 0 {
        let fewer = digits.skip(1);
        assert forall|i: int| 0 <= i < fewer.len() implies '0' <= #[trigger] fewer[i] <= '9' by {
            assert(fewer[i] == digits[i + 1]);
        }
        lemma_leading_digits(fewer, rest);
        assert(all[0] == digits[0]);
        assert(all.skip(1) =~= fewer + rest);
        assert(seq![digits[0]] + fewer =~= digits);
    } else {
        assert(all =~= rest);
    }
}

/// A console is told by its name, and its rate by the digits behind a comma; without digits it is
/// 115200.
pub proof fn law_consoles_are_told_with_their_rates(
    tty: Seq<char>,
    digits: Seq<char>,
    rest: Seq<char>,
)
    requires
        tty.len() > 0,
        !tty.contains(','),
        !is_space(tty[0]),
        !is_space(tty.last()),
        tty != "null"@,
        forall|i: int| 0 <= i < digits.len() ==> '0' <= #[trigger] digits[i] <= '9',
        rest.len() > 0 ==> !('0' <= rest[0] <= '9'),
    ensures
        ({
            let usual = seq!['1', '1', '5', '2', '0', '0'];
            &&& console_told(tty) == Some(ConsoleView { tty, baud: usual })
            &&& console_told(tty.push(',') + (digits + rest)) == Some(
                ConsoleView {
                    tty,
                    baud: if digits.len() > 0 {
                        digits
                    } else {
                        usual
                    },
                },
            )
        }),
{
    reveal_strlit("115200");
    assert("115200"@ =~= seq!['1', '1', '5', '2', '0', '0']);
    let none = Seq::<char>::empty();
    law_texts_are_cut_in_two(tty, ',', digits + rest);
    law_trimming_takes_white_space(none, tty, none);
    assert(none + tty + none =~= tty);
    lemma_leading_digits(digits, rest);
    lemma_leading_digits(none, none);
    assert(none + none =~= none);
}

proof fn lemma_baud_upto(told: Seq<ConsoleView>, tty: Seq<char>, k: int, n: int)
    requires
        0 <= n <= told.len(),
        forall|i: int| k < i < n ==> (#[trigger] told[i]).tty != tty,
        k < n ==> k == -1 || (0 <= k && told[k].tty == tty),
        k < n,
    ensures
        baud_upto(told, tty, n) == (if k < 0 {
            default_baud()
        } else {
            told[k].baud
        }),
    decreases n,
{
    if n > 0 && k < n - 1 {
        lemma_baud_upto(told, tty, k, n - 1);
    }
}

proof fn lemma_all_active(names: Seq<Seq<char>>, told: Seq<ConsoleView>, n: int)
    requires
        0 <= n <= names.len(),
    ensures
        forall|j: int| 0 <= j < n ==> has_tty(active_consoles(names, told, n), #[trigger] names[j]),
        forall|i: int|
            0 <= i < active_consoles(names, told, n).len() ==> names.contains(
                (#[trigger] active_consoles(names, told, n)[i]).tty,
            ) && active_consoles(names, told, n)[i].baud == baud_upto(
                told,
                active_consoles(names, told, n)[i].tty,
                told.len() as int,
            ),
    decreases n,
{
    if n > 0 {
        lemma_all_active(names, told, n - 1);
        let before = active_consoles(names, told, n - 1);
        let after = active_consoles(names, told, n);
        assert(names.contains(names[n - 1]));
        assert forall|j: int| 0 <= j < n implies has_tty(after, #[trigger] names[j]) by {
            if has_tty(before, names[j]) {
                let i = choose|i: int| 0 <= i < before.len() && (#[trigger] before[i]).tty
                    == names[j];
                assert(after[i] == before[i]);
            } else {
                assert(after[after.len() - 1].tty == names[j]);
            }
        }
        assert forall|i: int| 0 <= i < after.len() implies names.contains((#[trigger] after[i]).tty)
            && after[i].baud == baud_upto(told, after[i].tty, told.len() as int) by {
            if i < before.len() {
                assert(after[i] == before[i]);
            }
        }
    }
}

/// A shell is offered on the consoles that the kernel has active, on each of them and on no other,
/// each with the rate that was told last for it. Where none is active, it is offered on those that
/// were told.
pub proof fn law_active_consoles_get_a_shell(args: Seq<Seq<char>>, active: Seq<char>, tty: Seq<char>)
    requires
        active_names(active).len() > 0,
    ensures
        has_tty(consoles_chosen(args, Some(active)), tty) <==> active_names(active).contains(tty),
        forall|i: int, k: int|
            0 <= i < consoles_chosen(args, Some(active)).len() && 0 <= k < cmdline_consoles(
                args,
            ).len() && cmdline_consoles(args)[k].tty == consoles_chosen(args, Some(active))[i].tty
                && (forall|j: int|
                k < j < cmdline_consoles(args).len() ==> (#[trigger] cmdline_consoles(args)[j]).tty
                    != consoles_chosen(args, Some(active))[i].tty) ==> (
            #[trigger] consoles_chosen(args, Some(active))[i]).baud
                == (#[trigger] cmdline_consoles(args)[k]).baud,
{
    let told = cmdline_consoles(args);
    let names = active_names(active);
    let chosen = consoles_chosen(args, Some(active));
    lemma_all_active(names, told, names.len() as int);
    if names.contains(tty) {
        let j = choose|j: int| 0 <= j < names.len() && names[j] == tty;
        assert(has_tty(chosen, names[j]));
    }
    assert forall|i: int, k: int|
        0 <= i < chosen.len() && 0 <= k < told.len() && told[k].tty == chosen[i].tty && (forall|
            j: int,
        |
            k < j < told.len() ==> (#[trigger] told[j]).tty != chosen[i].tty) implies (
    #[trigger] chosen[i]).baud == (#[trigger] told[k]).baud by {
        lemma_baud_upto(told, chosen[i].tty, k, told.len() as int);
    }
}

} // verus!
