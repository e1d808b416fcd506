//! The first index at which a predicate holds.
use vstd::prelude::*;

verus! {

/// `k` is below `n`, `p` holds at `k` and at no smaller index.
pub open spec fn is_first(k: int, n: int, p: spec_fn(int) -> bool) -> bool {
    &&& 0 <= k < n
    &&& p(k)
    &&& forall|j: int| 0 <= j < k ==> !#[trigger] p(j)
}

/// `p` holds nowhere below `n`.
pub open spec fn never(n: int, p: spec_fn(int) -> bool) -> bool {
    forall|j: int| 0 <= j < n ==> !#[trigger] p(j)
}

/// The smallest index below `n` at which `p` holds.
pub open spec fn first(n: int, p: spec_fn(int) -> bool) -> Option<int> {
    if exists|k: int| is_first(k, n, p) {
        Some(choose|k: int| is_first(k, n, p))
    } else {
        None
    }
}

/// An index that is first is the one that `first` gives.
pub proof fn lemma_first_is(k: int, n: int, p: spec_fn(int) -> bool)
    requires
        is_first(k, n, p),
    ensures
        first(n, p) == Some(k),
{
    let c = choose|c: int| is_first(c, n, p);
    if c < k {
        assert(!p(c));
    } else if k < c {
        assert(!p(k));
    }
}

/// Where `p` never holds, `first` gives nothing.
pub proof fn lemma_first_none(n: int, p: spec_fn(int) -> bool)
    requires
        never(n, p),
    ensures
        first(n, p) is None,
{
    if exists|k: int| is_first(k, n, p) {
        let c = choose|c: int| is_first(c, n, p);
        assert(!p(c));
    }
}

/// What `first` gives is first; it gives nothing only where `p` never holds.
pub proof fn lemma_first(n: int, p: spec_fn(int) -> bool)
    ensures
        match first(n, p) {
            Some(k) => is_first(k, n, p),
            None => never(n, p),
        },
    decreases n,
{
    if first(n, p) is None {
        if !never(n, p) {
            let j = choose|j: int| 0 <= j < n && #[trigger] p(j);
            lemma_first(j, p);
            match first(j, p) {
                Some(k) => {
                    assert(is_first(k, n, p));
                },
                None => {
                    assert(is_first(j, n, p));
                },
            }
        }
    }
}

} // verus!
