//! Counting the positions of a range at which a predicate holds.
//!
//! Category sizes and sufficient statistics are all counts of this shape,
//! so the facts about them are proved once, here.

use vstd::prelude::*;

verus! {

/// The number of positions `i` in `0..n` at which `p(i)` holds.
pub open spec fn count_where(n: nat, p: spec_fn(int) -> bool) -> nat
    decreases n,
{
    if n == 0 {
        0
    } else {
        count_where((n - 1) as nat, p) + if p(n - 1) {
            1nat
        } else {
            0nat
        }
    }
}

/// A count over `0..n` is at most `n`.
pub proof fn lemma_count_bound(n: nat, p: spec_fn(int) -> bool)
    ensures
        count_where(n, p) <= n,
    decreases n,
{
    if n > 0 {
        lemma_count_bound((n - 1) as nat, p);
    }
}

/// Two predicates that agree on `0..n` have the same count.
pub proof fn lemma_count_agree(n: nat, p: spec_fn(int) -> bool, q: spec_fn(int) -> bool)
    requires
        forall|i: int| 0 <= i < n ==> #[trigger] p(i) == q(i),
    ensures
        count_where(n, p) == count_where(n, q),
    decreases n,
{
    if n > 0 {
        lemma_count_agree((n - 1) as nat, p, q);
    }
}

/// Two predicates that agree on `0..n` except perhaps at `at` have counts
/// that differ by what `at` contributes.
pub proof fn lemma_count_differ_at(
    n: nat,
    p: spec_fn(int) -> bool,
    q: spec_fn(int) -> bool,
    at: int,
)
    requires
        0 <= at < n,
        forall|i: int| 0 <= i < n && i != at ==> #[trigger] p(i) == q(i),
    ensures
        count_where(n, q) + (if p(at) {
            1nat
        } else {
            0nat
        }) == count_where(n, p) + (if q(at) {
            1nat
        } else {
            0nat
        }),
    decreases n,
{
    if at == n - 1 {
        lemma_count_agree((n - 1) as nat, p, q);
    } else {
        lemma_count_differ_at((n - 1) as nat, p, q, at);
    }
}

/// A predicate that holds nowhere on `0..n` has count zero.
pub proof fn lemma_count_none(n: nat, p: spec_fn(int) -> bool)
    requires
        forall|i: int| 0 <= i < n ==> !#[trigger] p(i),
    ensures
        count_where(n, p) == 0,
    decreases n,
{
    if n > 0 {
        lemma_count_none((n - 1) as nat, p);
    }
}

/// A predicate that holds everywhere on `0..n` has count `n`.
pub proof fn lemma_count_all(n: nat, p: spec_fn(int) -> bool)
    requires
        forall|i: int| 0 <= i < n ==> #[trigger] p(i),
    ensures
        count_where(n, p) == n,
    decreases n,
{
    if n > 0 {
        lemma_count_all((n - 1) as nat, p);
    }
}

/// A predicate that holds at some position of `0..n` has a positive count.
pub proof fn lemma_count_witness(n: nat, p: spec_fn(int) -> bool, at: int)
    requires
        0 <= at < n,
        p(at),
    ensures
        count_where(n, p) >= 1,
    decreases n,
{
    if at != n - 1 {
        lemma_count_witness((n - 1) as nat, p, at);
    }
}

/// A positive count has a position at which the predicate holds.
pub proof fn lemma_count_positive(n: nat, p: spec_fn(int) -> bool) -> (at: int)
    requires
        count_where(n, p) >= 1,
    ensures
        0 <= at < n,
        p(at),
    decreases n,
{
    if p(n - 1) {
        n - 1
    } else {
        lemma_count_positive((n - 1) as nat, p)
    }
}

/// A count of exactly one has only one position at which the predicate holds.
pub proof fn lemma_count_one(n: nat, p: spec_fn(int) -> bool, a: int, b: int)
    requires
        count_where(n, p) == 1,
        0 <= a < n,
        0 <= b < n,
        p(a),
        p(b),
    ensures
        a == b,
    decreases n,
{
    if a == n - 1 {
        if b != a {
            lemma_count_witness((n - 1) as nat, p, b);
        }
    } else if b == n - 1 {
        lemma_count_witness((n - 1) as nat, p, a);
    } else {
        if p(n - 1) {
            lemma_count_witness((n - 1) as nat, p, a);
        }
        lemma_count_one((n - 1) as nat, p, a, b);
    }
}

/// Where `p` holds exactly when one of the exclusive `q` and `r` holds, the
/// count of `p` is the sum of their counts.
pub proof fn lemma_count_split(
    n: nat,
    p: spec_fn(int) -> bool,
    q: spec_fn(int) -> bool,
    r: spec_fn(int) -> bool,
)
    requires
        forall|i: int| 0 <= i < n ==> (#[trigger] p(i) <==> (q(i) || r(i))),
        forall|i: int| 0 <= i < n ==> !(#[trigger] q(i) && r(i)),
    ensures
        count_where(n, p) == count_where(n, q) + count_where(n, r),
    decreases n,
{
    if n > 0 {
        lemma_count_split((n - 1) as nat, p, q, r);
    }
}

} // verus!
