//! Lists in order.
use vstd::prelude::*;

verus! {

/// A type whose values have an order.
pub trait Ranked: Sized {
    /// Whether `self` goes before `other`.
    spec fn goes_before(&self, other: &Self) -> bool;

    /// The order is a strict weak one: nothing goes before itself, and what does not go before
    /// carries over.
    proof fn lemma_order(a: &Self, b: &Self, c: &Self)
        ensures
            !a.goes_before(a),
            a.goes_before(b) ==> !b.goes_before(a),
            !a.goes_before(b) && !b.goes_before(c) ==> !a.goes_before(c),
    ;

    /// Whether `self` goes before `other`.
    fn before(&self, other: &Self) -> (r: bool)
        ensures
            r == self.goes_before(other),
    ;
}

/// Whether no value goes before one that stands earlier.
pub open spec fn in_order<T: Ranked>(s: Seq<T>) -> bool {
    forall|i: int, j: int| 0 <= i < j < s.len() ==> !(#[trigger] s[j]).goes_before(#[trigger] &s[i])
}

/// How many of the first `n` values `item` does not go before.
pub open spec fn place_in_order<T: Ranked>(s: Seq<T>, item: T, n: int) -> int
    decreases n,
{
    if n <= 0 {
        0
    } else if item.goes_before(&s[n - 1]) {
        place_in_order(s, item, n - 1)
    } else {
        n
    }
}

/// `s` with `item` behind all values that it does not go before.
pub open spec fn with_item<T: Ranked>(s: Seq<T>, item: T) -> Seq<T> {
    s.insert(place_in_order(s, item, s.len() as int), item)
}

/// The first `n` values in order, equal ones as they stood.
pub open spec fn sorted<T: Ranked>(s: Seq<T>, n: int) -> Seq<T>
    decreases n,
{
    if n <= 0 {
        Seq::empty()
    } else {
        with_item(sorted(s, n - 1), s[n - 1])
    }
}

proof fn lemma_place_bounds<T: Ranked>(s: Seq<T>, item: T, n: int)
    requires
        0 <= n <= s.len(),
    ensures
        0 <= place_in_order(s, item, n) <= n,
        forall|i: int| place_in_order(s, item, n) <= i < n ==> item.goes_before(&#[trigger] s[i]),
        place_in_order(s, item, n) > 0 ==> !item.goes_before(&s[place_in_order(s, item, n) - 1]),
    decreases n,
{
    if n > 0 && item.goes_before(&s[n - 1]) {
        lemma_place_bounds(s, item, n - 1);
    }
}

/// Putting an item in its place keeps the order.
pub proof fn lemma_with_item<T: Ranked>(s: Seq<T>, item: T)
    requires
        in_order(s),
    ensures
        in_order(with_item(s, item)),
        with_item(s, item).len() == s.len() + 1,
        with_item(s, item).to_multiset() =~= s.to_multiset().insert(item),
{
    let at = place_in_order(s, item, s.len() as int);
    lemma_place_bounds(s, item, s.len() as int);
    let r = with_item(s, item);
    s.insert_ensures(at, item);
    vstd::seq_lib::to_multiset_insert(s, at, item);
    assert forall|i: int, j: int| 0 <= i < j < r.len() implies !(#[trigger] r[j]).goes_before(
        #[trigger] &r[i],
    ) by {
        if j == at {
            // `item` does not go before the value in front of it, nor before any earlier one.
            assert(r[i] == s[i]);
            if i < at - 1 {
                assert(!s[at - 1].goes_before(&s[i]));
                T::lemma_order(&item, &s[at - 1], &s[i]);
            }
        } else if i == at {
            assert(r[j] == s[j - 1]);
            T::lemma_order(&item, &s[j - 1], &item);
        } else {
            let a = if i < at {
                i
            } else {
                i - 1
            };
            let b = if j < at {
                j
            } else {
                j - 1
            };
            assert(r[i] == s[a]);
            assert(r[j] == s[b]);
        }
    }
}

/// Sorting gives the same values, in order.
pub proof fn lemma_sorted<T: Ranked>(s: Seq<T>, n: int)
    requires
        0 <= n <= s.len(),
    ensures
        in_order(sorted(s, n)),
        sorted(s, n).len() == n,
        sorted(s, n).to_multiset() =~= s.take(n).to_multiset(),
    decreases n,
{
    if n > 0 {
        lemma_sorted(s, n - 1);
        lemma_with_item(sorted(s, n - 1), s[n - 1]);
        assert(s.take(n) =~= s.take(n - 1).push(s[n - 1]));
        vstd::seq_lib::to_multiset_build(s.take(n - 1), s[n - 1]);
    } else {
        assert(sorted(s, n) =~= s.take(n));
    }
}

/// Puts `item` behind all values that it does not go before.
pub fn insert_sorted<T: Ranked>(v: &mut Vec<T>, item: T)
    ensures
        final(v)@ == with_item(old(v)@, item),
{
    let mut at: usize = v.len();
    while at > 0 && item.before(&v[at - 1])
        invariant
            at <= v@.len(),
            place_in_order(v@, item, v@.len() as int) == place_in_order(v@, item, at as int),
        decreases at,
    {
        at -= 1;
    }
    v.insert(at, item);
}

/// The values of `v` in order, equal ones as they stood.
pub fn sort<T: Ranked>(v: Vec<T>) -> (r: Vec<T>)
    ensures
        r@ == sorted(v@, v@.len() as int),
{
    let ghost whole = v@;
    let mut rest = v;
    let mut reversed: Vec<T> = Vec::new();
    while rest.len() > 0
        invariant
            rest@.len() + reversed@.len() == whole.len(),
            rest@ == whole.take(rest@.len() as int),
            forall|k: int|
                0 <= k < reversed@.len() ==> reversed@[k] == whole[whole.len() - 1 - k],
        decreases rest@.len(),
    {
        let ghost before = rest@;
        if let Some(item) = rest.pop() {
            reversed.push(item);
        }
        assert(rest@ =~= whole.take(rest@.len() as int));
    }
    let mut r: Vec<T> = Vec::new();
    while reversed.len() > 0
        invariant
            r@.len() + reversed@.len() == whole.len(),
            r@ == sorted(whole, r@.len() as int),
            forall|k: int|
                0 <= k < reversed@.len() ==> reversed@[k] == whole[whole.len() - 1 - k],
        decreases reversed@.len(),
    {
        let ghost done = r@.len() as int;
        if let Some(item) = reversed.pop() {
            insert_sorted(&mut r, item);
            proof {
                lemma_place_bounds(sorted(whole, done), item, done);
            }
        }
        assert(r@ == sorted(whole, done + 1));
    }
    r
}

} // verus!
