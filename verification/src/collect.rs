//! Results gathered in order.
use vstd::prelude::*;

verus! {

/// The first `n` results of `f`, or the first failure among them.
pub open spec fn collected<A, E>(f: spec_fn(int) -> Result<A, E>, n: int) -> Result<Seq<A>, E>
    decreases n,
{
    if n <= 0 {
        Ok(Seq::empty())
    } else {
        match collected(f, n - 1) {
            Err(e) => Err(e),
            Ok(front) => match f(n - 1) {
                Err(e) => Err(e),
                Ok(a) => Ok(front.push(a)),
            },
        }
    }
}

/// A failure among the first `k` results is the outcome for any greater number of them.
pub proof fn lemma_collected_failure<A, E>(f: spec_fn(int) -> Result<A, E>, k: int, n: int)
    requires
        k <= n,
        collected(f, k) is Err,
    ensures
        collected(f, n) == collected(f, k),
    decreases n - k,
{
    if k < n {
        lemma_collected_failure(f, k, n - 1);
    }
}

/// What a full collection holds.
pub proof fn lemma_collected_success<A, E>(f: spec_fn(int) -> Result<A, E>, n: int)
    requires
        collected(f, n) is Ok,
        0 <= n,
    ensures
        collected(f, n)->Ok_0.len() == n,
        forall|i: int|
            0 <= i < n ==> f(i) == Ok::<A, E>(#[trigger] collected(f, n)->Ok_0[i]),
    decreases n,
{
    if n > 0 {
        lemma_collected_success(f, n - 1);
        let front = collected(f, n - 1)->Ok_0;
        assert forall|i: int| 0 <= i < n implies f(i) == Ok::<A, E>(
            #[trigger] collected(f, n)->Ok_0[i],
        ) by {
            if i < n - 1 {
                assert(front[i] == collected(f, n)->Ok_0[i]);
            }
        }
    }
}

/// Those of the first `n` results of `f` that hold something, or the first failure.
pub open spec fn gathered<A, E>(f: spec_fn(int) -> Result<Option<A>, E>, n: int) -> Result<Seq<A>, E>
    decreases n,
{
    if n <= 0 {
        Ok(Seq::empty())
    } else {
        match gathered(f, n - 1) {
            Err(e) => Err(e),
            Ok(front) => match f(n - 1) {
                Err(e) => Err(e),
                Ok(None) => Ok(front),
                Ok(Some(a)) => Ok(front.push(a)),
            },
        }
    }
}

/// A failure among the first `k` results is the outcome for any greater number of them.
pub proof fn lemma_gathered_failure<A, E>(
    f: spec_fn(int) -> Result<Option<A>, E>,
    k: int,
    n: int,
)
    requires
        k <= n,
        gathered(f, k) is Err,
    ensures
        gathered(f, n) == gathered(f, k),
    decreases n - k,
{
    if k < n {
        lemma_gathered_failure(f, k, n - 1);
    }
}

/// A collection is full where each result is a success, and only there.
pub proof fn lemma_collected_all<A, E>(f: spec_fn(int) -> Result<A, E>, n: int)
    requires
        forall|i: int| 0 <= i < n ==> (#[trigger] f(i)) is Ok,
    ensures
        collected(f, n) is Ok,
    decreases n,
{
    if n > 0 {
        lemma_collected_all(f, n - 1);
        assert(f(n - 1) is Ok);
    }
}

} // verus!
