//! Counting the positions below a bound at which a predicate holds.

use vstd::prelude::*;

verus! {

/// How many `i` with `0 <= i < n` satisfy `f`.
pub open spec fn count_where(f: spec_fn(int) -> bool, n: int) -> nat
    decreases n,
{
    if n <= 0 {
        0
    } else {
        count_where(f, n - 1) + if f(n - 1) {
            1nat
        } else {
            0nat
        }
    }
}

/// Predicates that agree below `n` have the same count.
pub proof fn lemma_count_agree(f: spec_fn(int) -> bool, g: spec_fn(int) -> bool, n: int)
    requires
        forall|i: int| 0 <= i < n ==> #[trigger] f(i) == #[trigger] g(i),
    ensures
        count_where(f, n) == count_where(g, n),
    decreases n,
{
    if n > 0 {
        lemma_count_agree(f, g, n - 1);
    }
}

/// A count never exceeds its bound and grows with it.
pub proof fn lemma_count_monotone(f: spec_fn(int) -> bool, m: int, n: int)
    requires
        0 <= m <= n,
    ensures
        count_where(f, m) <= count_where(f, n) <= count_where(f, m) + (n - m),
    decreases n - m,
{
    if m < n {
        lemma_count_monotone(f, m, n - 1);
    }
}

/// A predicate that holds nowhere below `n` counts nothing.
pub proof fn lemma_count_none(f: spec_fn(int) -> bool, n: int)
    requires
        forall|i: int| 0 <= i < n ==> !#[trigger] f(i),
    ensures
        count_where(f, n) == 0,
    decreases n,
{
    if n > 0 {
        lemma_count_none(f, n - 1);
    }
}

/// A predicate that holds at `x` and nowhere else below `n` counts one.
pub proof fn lemma_count_single(f: spec_fn(int) -> bool, n: int, x: int)
    requires
        0 <= x < n,
        f(x),
        forall|i: int| 0 <= i < n && i != x ==> !#[trigger] f(i),
    ensures
        count_where(f, n) == 1,
    decreases n,
{
    if n - 1 == x {
        lemma_count_none(f, n - 1);
    } else {
        lemma_count_single(f, n - 1, x);
    }
}

/// The count of a predicate that is the disjunction of two predicates
/// which never hold together is the sum of their counts.
pub proof fn lemma_count_split(
    f: spec_fn(int) -> bool,
    g: spec_fn(int) -> bool,
    h: spec_fn(int) -> bool,
    n: int,
)
    requires
        forall|i: int| 0 <= i < n ==> #[trigger] f(i) == (g(i) || h(i)),
        forall|i: int| 0 <= i < n ==> !(#[trigger] g(i) && #[trigger] h(i)),
    ensures
        count_where(f, n) == count_where(g, n) + count_where(h, n),
    decreases n,
{
    if n > 0 {
        lemma_count_split(f, g, h, n - 1);
    }
}

/// Counting along a rearrangement: if `order` holds every position below
/// `n` exactly once, then as many of its first `p` entries satisfy `f` as
/// there are positions below `n` that satisfy `f` and sit among those
/// entries.
pub proof fn lemma_count_rearranged(
    order: Seq<int>,
    slot: spec_fn(int) -> int,
    f: spec_fn(int) -> bool,
    p: int,
)
    requires
        0 <= p <= order.len(),
        forall|s: int| 0 <= s < order.len() ==> 0 <= #[trigger] order[s] < order.len(),
        forall|s: int| 0 <= s < order.len() ==> slot(#[trigger] order[s]) == s,
        forall|i: int| 0 <= i < order.len() ==> 0 <= #[trigger] slot(i) < order.len() && order[slot(i)] == i,
    ensures
        count_where(|s: int| f(order[s]), p) == count_where(
            |i: int| f(i) && slot(i) < p,
            order.len() as int,
        ),
    decreases p,
{
    let n = order.len() as int;
    let along = |s: int| f(order[s]);
    let among = |i: int| f(i) && slot(i) < p;
    if p == 0 {
        lemma_count_none(among, n);
    } else {
        let earlier = |i: int| f(i) && slot(i) < p - 1;
        let here = |i: int| f(i) && slot(i) == p - 1;
        lemma_count_rearranged(order, slot, f, p - 1);
        lemma_count_agree(|s: int| f(order[s]), along, p - 1);
        lemma_count_split(among, earlier, here, n);
        let x = order[p - 1];
        if f(x) {
            assert(here(x));
            lemma_count_single(here, n, x);
        } else {
            lemma_count_none(here, n);
        }
    }
}

} // verus!
