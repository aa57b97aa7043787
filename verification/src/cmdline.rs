//! The command line of the kernel.
use vstd::prelude::*;
use vstd::string::*;

use crate::text::{
    after_prefix, any_text, law_beginnings_and_ends_are_taken_off, owned, split_words,
    strip_prefix, texts, words,
};

verus! {

/// The command line of the kernel, as a list of arguments.
#[derive(Debug)]
pub struct KernelCommandLine {
    pub args: Vec<String>,
}

impl View for KernelCommandLine {
    type V = Seq<Seq<char>>;

    open spec fn view(&self) -> Seq<Seq<char>> {
        texts(self.args@)
    }
}

/// What an argument gives for `key`: what follows `key=`, unless that is empty.
pub open spec fn argument_value(arg: Seq<char>, key: Seq<char>) -> Option<Seq<char>> {
    match after_prefix(arg, key) {
        None => None,
        Some(rest) => match after_prefix(rest, "="@) {
            None => None,
            Some(value) => if value.len() > 0 {
                Some(value)
            } else {
                None
            },
        },
    }
}

/// What the first `n` arguments give for `key`.
pub open spec fn values_upto(args: Seq<Seq<char>>, key: Seq<char>, n: int) -> Seq<Seq<char>>
    decreases n,
{
    if n <= 0 {
        Seq::empty()
    } else {
        let front = values_upto(args, key, n - 1);
        match argument_value(args[n - 1], key) {
            Some(value) => front.push(value),
            None => front,
        }
    }
}

/// What the arguments give for `key`.
pub open spec fn values_of(args: Seq<Seq<char>>, key: Seq<char>) -> Seq<Seq<char>> {
    values_upto(args, key, args.len() as int)
}

/// The first that the arguments give for `key`.
pub open spec fn value_of(args: Seq<Seq<char>>, key: Seq<char>) -> Option<Seq<char>> {
    if values_of(args, key).len() > 0 {
        Some(values_of(args, key)[0])
    } else {
        None
    }
}

fn argument_for<'a>(arg: &'a str, key: &str) -> (r: Option<&'a str>)
    ensures
        argument_value(arg@, key@) == (match r {
            Some(value) => Some(value@),
            None => None,
        }),
{
    match strip_prefix(arg, key) {
        None => None,
        Some(rest) => match strip_prefix(rest, "=") {
            None => None,
            Some(value) => if value.unicode_len() > 0 {
                Some(value)
            } else {
                None
            },
        },
    }
}

impl KernelCommandLine {
    /// A command line without arguments.
    pub fn empty() -> (r: KernelCommandLine)
        ensures
            r@ == Seq::<Seq<char>>::empty(),
    {
        let r = KernelCommandLine { args: Vec::new() };
        assert(r@ =~= Seq::<Seq<char>>::empty());
        r
    }

    /// The command line that `contents` holds: its words.
    pub fn parse(contents: &str) -> (r: KernelCommandLine)
        ensures
            r@ == words(contents@),
    {
        KernelCommandLine { args: split_words(contents) }
    }

    /// What the arguments give for `key`, in order.
    pub fn values(&self, key: &str) -> (r: Vec<String>)
        ensures
            texts(r@) == values_of(self@, key@),
    {
        let mut found: Vec<String> = Vec::new();
        let mut i: usize = 0;
        assert(texts(found@) =~= Seq::<Seq<char>>::empty());
        while i < self.args.len()
            invariant
                i <= self.args@.len(),
                texts(found@) == values_upto(self@, key@, i as int),
            decreases self.args@.len() - i,
        {
            assert(self@[i as int] == self.args@[i as int]@);
            if let Some(value) = argument_for(self.args[i].as_str(), key) {
                let ghost before = found@;
                found.push(owned(value));
                assert(texts(found@) =~= texts(before).push(value@));
            }
            i += 1;
        }
        found
    }

    /// The first that the arguments give for `key`.
    pub fn value(&self, key: &str) -> (r: Option<String>)
        ensures
            value_of(self@, key@) == (match r {
                Some(value) => Some(value@),
                None => None,
            }),
    {
        let found = self.values(key);
        assert(texts(found@).len() == found@.len());
        if found.len() > 0 {
            assert(texts(found@)[0] == found@[0]@);
            Some(owned(found[0].as_str()))
        } else {
            None
        }
    }

    /// Whether one of the arguments is `key` alone.
    pub fn is_set(&self, key: &str) -> (r: bool)
        ensures
            r == self@.contains(key@),
    {
        any_text(&self.args, key)
    }
}

/// An argument of the form `key=value` gives its value for its key, and nothing for a key with which
/// it does not begin; one without a value gives nothing.
pub proof fn law_arguments_give_their_values(key: Seq<char>, value: Seq<char>)
    ensures
        value.len() > 0 ==> argument_value(key + seq!['='] + value, key) == Some(value),
        argument_value(key + seq!['='], key) is None,
        argument_value(key, key) is None,
        !key.is_prefix_of(value) ==> argument_value(value, key) is None,
{
    reveal_strlit("=");
    assert("="@ =~= seq!['=']);
    let arg = key + seq!['='] + value;
    law_beginnings_and_ends_are_taken_off(key, seq!['='] + value);
    assert(key + (seq!['='] + value) =~= arg);
    law_beginnings_and_ends_are_taken_off(seq!['='], value);
    law_beginnings_and_ends_are_taken_off(key, seq!['=']);
    law_beginnings_and_ends_are_taken_off(seq!['='], Seq::empty());
    assert(seq!['='] + Seq::<char>::empty() =~= seq!['=']);
    law_beginnings_and_ends_are_taken_off(key, Seq::empty());
    assert(key + Seq::<char>::empty() =~= key);
}

proof fn lemma_values_prefix(args: Seq<Seq<char>>, more: Seq<char>, key: Seq<char>, n: int)
    requires
        n <= args.len(),
    ensures
        values_upto(args.push(more), key, n) == values_upto(args, key, n),
    decreases n,
{
    if n > 0 {
        lemma_values_prefix(args, more, key, n - 1);
    }
}

/// The values of a key come in the order of the arguments: one more argument adds its value behind
/// the others, or nothing; the value of a key is the first of them.
pub proof fn law_values_come_in_order(args: Seq<Seq<char>>, more: Seq<char>, key: Seq<char>)
    ensures
        values_of(Seq::<Seq<char>>::empty(), key) == Seq::<Seq<char>>::empty(),
        values_of(args.push(more), key) == (match argument_value(more, key) {
            Some(value) => values_of(args, key).push(value),
            None => values_of(args, key),
        }),
        value_of(args.push(more), key) == (if value_of(args, key) is Some {
            value_of(args, key)
        } else {
            argument_value(more, key)
        }),
        value_of(Seq::<Seq<char>>::empty(), key) is None,
{
    lemma_values_prefix(args, more, key, args.len() as int);
}

} // verus!
