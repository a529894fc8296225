//! Facts about the shape of a sound tree and about its depth-first order.

use vstd::prelude::*;
use vstd::seq_lib::{lemma_no_dup_in_concat, lemma_seq_concat_contains_all_elements};
use vstd::set_lib::{lemma_int_range, set_int_range};
use crate::edge::Edge;
use crate::tree::{
    all_rooted, all_within, depth_within, dfs_order, distinct_numbers, forest, number_index,
    number_index_from, parent_index, slot_from, slot_of, MAX_EDGES,
};

verus! {

/// `number_index_from` returns the first position from `lo` with that
/// number.
pub proof fn lemma_number_index_from(edges: Seq<Edge>, n: usize, lo: int)
    requires
        0 <= lo <= edges.len(),
    ensures
        lo <= number_index_from(edges, n, lo) <= edges.len(),
        number_index_from(edges, n, lo) < edges.len() ==> edges[number_index_from(
            edges,
            n,
            lo,
        )].number == n,
        forall|j: int| lo <= j < number_index_from(edges, n, lo) ==> edges[j].number != n,
    decreases edges.len() - lo,
{
    if lo < edges.len() && edges[lo].number != n {
        lemma_number_index_from(edges, n, lo + 1);
    }
}

/// With distinct numbers, an edge is found under its own number.
pub proof fn lemma_number_index_of(edges: Seq<Edge>, i: int)
    requires
        distinct_numbers(edges),
        0 <= i < edges.len(),
    ensures
        number_index(edges, edges[i].number) == i,
{
    lemma_number_index_from(edges, edges[i].number, 0);
    let r = number_index(edges, edges[i].number);
    if r < i {
        assert(edges[r].number != edges[i].number);
    }
}

/// An edge within depth `k` is within every larger depth.
pub proof fn lemma_depth_monotone(edges: Seq<Edge>, i: int, k: nat, m: nat)
    requires
        depth_within(edges, i, k),
        k <= m,
    ensures
        depth_within(edges, i, m),
    decreases k,
{
    if let Some(p) = edges[i].parent {
        lemma_depth_monotone(edges, number_index(edges, p), (k - 1) as nat, (m - 1) as nat);
    }
}

/// A tree whose edges all lie within depth sixteen or less is rooted.
pub proof fn lemma_within_is_rooted(edges: Seq<Edge>, max_depth: nat)
    requires
        all_within(edges, max_depth),
        max_depth <= MAX_EDGES,
    ensures
        all_rooted(edges),
{
    assert forall|i: int| 0 <= i < edges.len() implies depth_within(edges, i, MAX_EDGES as nat) by {
        lemma_depth_monotone(edges, i, max_depth, MAX_EDGES as nat);
    }
}

/// Number of edges from edge `i` up to its root edge, itself included, as
/// far as `fuel` hops show it.
pub open spec fn depth(edges: Seq<Edge>, i: int, fuel: nat) -> int
    decreases fuel,
{
    if fuel == 0 {
        0
    } else {
        match edges[i].parent {
            None => 1,
            Some(p) => 1 + depth(edges, number_index(edges, p), (fuel - 1) as nat),
        }
    }
}

/// The depth of an edge as seen with sixteen hops.
pub open spec fn level(edges: Seq<Edge>, i: int) -> int {
    depth(edges, i, MAX_EDGES as nat)
}

/// Once the hops suffice, more hops do not change the depth.
pub proof fn lemma_depth_stable(edges: Seq<Edge>, i: int, k: nat, m: nat)
    requires
        depth_within(edges, i, k),
        k <= m,
    ensures
        depth(edges, i, m) == depth(edges, i, k),
        1 <= depth(edges, i, k) <= k,
    decreases k,
{
    if let Some(p) = edges[i].parent {
        lemma_depth_stable(edges, number_index(edges, p), (k - 1) as nat, (m - 1) as nat);
    }
}

/// In a rooted tree a root edge has level 1 and every other edge lies one
/// level below its parent.
pub proof fn lemma_level_step(edges: Seq<Edge>, i: int)
    requires
        all_rooted(edges),
        0 <= i < edges.len(),
    ensures
        edges[i].parent is None ==> level(edges, i) == 1,
        edges[i].parent is Some ==> 0 <= parent_index(edges, i) < edges.len() && level(edges, i)
            == level(edges, parent_index(edges, i)) + 1,
        1 <= level(edges, i) <= 16,
{
    assert(depth_within(edges, i, 16));
    lemma_depth_stable(edges, i, 16, 16);
    if let Some(p) = edges[i].parent {
        let j = number_index(edges, p);
        assert(depth_within(edges, j, 15));
        lemma_depth_stable(edges, j, 15, 16);
    }
}

/// Position of the `k`-th ancestor of the edge at position `x` (the edge
/// itself for `k == 0`), or a position outside `edges` when there is none.
pub open spec fn ancestor(edges: Seq<Edge>, x: int, k: nat) -> int
    decreases k,
{
    if k == 0 {
        x
    } else {
        let a = ancestor(edges, x, (k - 1) as nat);
        if 0 <= a < edges.len() {
            parent_index(edges, a)
        } else {
            -1
        }
    }
}

/// The ancestors of an edge are the ancestors of its parent, one step on.
pub proof fn lemma_ancestor_shift(edges: Seq<Edge>, x: int, k: nat)
    requires
        0 <= x < edges.len(),
    ensures
        ancestor(edges, x, k + 1) == ancestor(edges, parent_index(edges, x), k),
    decreases k,
{
    if k > 0 {
        lemma_ancestor_shift(edges, x, (k - 1) as nat);
    } else {
        assert(ancestor(edges, x, 0) == x);
        assert(ancestor(edges, x, 1) == parent_index(edges, x));
    }
}

/// If the `k`-th ancestor exists, so does the edge itself.
pub proof fn lemma_ancestor_exists(edges: Seq<Edge>, x: int, k: nat)
    requires
        0 <= ancestor(edges, x, k) < edges.len(),
    ensures
        0 <= x < edges.len(),
    decreases k,
{
    if k > 0 {
        lemma_ancestor_exists(edges, x, (k - 1) as nat);
    }
}

/// The `k`-th ancestor lies `k` levels up.
pub proof fn lemma_ancestor_level(edges: Seq<Edge>, x: int, k: nat)
    requires
        all_rooted(edges),
        0 <= ancestor(edges, x, k) < edges.len(),
    ensures
        0 <= x < edges.len(),
        level(edges, ancestor(edges, x, k)) == level(edges, x) - k,
    decreases k,
{
    lemma_ancestor_exists(edges, x, k);
    if k > 0 {
        let b = ancestor(edges, x, (k - 1) as nat);
        lemma_ancestor_level(edges, x, (k - 1) as nat);
        lemma_level_step(edges, b);
        lemma_number_index_from(edges, edges[b].parent.unwrap(), 0);
    }
}

/// The `k`-th ancestor of `x` is a child of `parent` at position `lo` or
/// later.
pub open spec fn stem(edges: Seq<Edge>, parent: Option<usize>, lo: int, x: int, k: nat) -> bool {
    let a = ancestor(edges, x, k);
    lo <= a < edges.len() && edges[a].parent == parent
}

/// Whatever the forest below `parent` holds descends from one of the
/// children it starts from, within the levels it enters.
pub proof fn lemma_member_stem(
    edges: Seq<Edge>,
    parent: Option<usize>,
    lo: int,
    fuel: nat,
    x: int,
) -> (k: nat)
    requires
        distinct_numbers(edges),
        0 <= lo,
        forest(edges, parent, lo, fuel).contains(x),
    ensures
        k < fuel,
        stem(edges, parent, lo, x, k),
    decreases fuel, edges.len() - lo,
{
    if edges[lo].parent == parent {
        let below = forest(edges, Some(edges[lo].number), 0, (fuel - 1) as nat);
        let rest = forest(edges, parent, lo + 1, fuel);
        lemma_seq_concat_contains_all_elements(seq![lo] + below, rest, x);
        lemma_seq_concat_contains_all_elements(seq![lo], below, x);
        if rest.contains(x) {
            lemma_member_stem(edges, parent, lo + 1, fuel, x)
        } else if below.contains(x) {
            let k = lemma_member_stem(edges, Some(edges[lo].number), 0, (fuel - 1) as nat, x);
            lemma_number_index_of(edges, lo);
            k + 1
        } else {
            assert(seq![lo][0] == lo);
            0
        }
    } else {
        lemma_member_stem(edges, parent, lo + 1, fuel, x)
    }
}

/// Whatever descends from a child of `parent` at position `lo` or later,
/// within the levels the forest enters, is in the forest.
pub proof fn lemma_stem_member(
    edges: Seq<Edge>,
    parent: Option<usize>,
    lo: int,
    fuel: nat,
    x: int,
    k: nat,
)
    requires
        0 <= lo,
        k < fuel,
        stem(edges, parent, lo, x, k),
    ensures
        forest(edges, parent, lo, fuel).contains(x),
    decreases fuel, edges.len() - lo,
{
    let a = ancestor(edges, x, k);
    if edges[lo].parent == parent {
        let below = forest(edges, Some(edges[lo].number), 0, (fuel - 1) as nat);
        let rest = forest(edges, parent, lo + 1, fuel);
        lemma_seq_concat_contains_all_elements(seq![lo] + below, rest, x);
        lemma_seq_concat_contains_all_elements(seq![lo], below, x);
        if a == lo {
            if k == 0 {
                assert(seq![lo][0] == x);
            } else {
                let b = ancestor(edges, x, (k - 1) as nat);
                lemma_number_index_from(edges, edges[b].parent.unwrap(), 0);
                lemma_stem_member(
                    edges,
                    Some(edges[lo].number),
                    0,
                    (fuel - 1) as nat,
                    x,
                    (k - 1) as nat,
                );
            }
        } else {
            lemma_stem_member(edges, parent, lo + 1, fuel, x, k);
        }
    } else {
        lemma_stem_member(edges, parent, lo + 1, fuel, x, k);
    }
}

/// Everything in a forest is a position in `edges`.
pub proof fn lemma_forest_positions(edges: Seq<Edge>, parent: Option<usize>, lo: int, fuel: nat)
    requires
        0 <= lo,
    ensures
        forall|s: int|
            0 <= s < forest(edges, parent, lo, fuel).len() ==> 0 <= #[trigger] forest(
                edges,
                parent,
                lo,
                fuel,
            )[s] < edges.len(),
    decreases fuel, edges.len() - lo,
{
    let all = forest(edges, parent, lo, fuel);
    if fuel == 0 || lo >= edges.len() {
    } else if edges[lo].parent == parent {
        let below = forest(edges, Some(edges[lo].number), 0, (fuel - 1) as nat);
        let rest = forest(edges, parent, lo + 1, fuel);
        lemma_forest_positions(edges, Some(edges[lo].number), 0, (fuel - 1) as nat);
        lemma_forest_positions(edges, parent, lo + 1, fuel);
        assert forall|s: int| 0 <= s < all.len() implies 0 <= #[trigger] all[s] < edges.len() by {
            if s == 0 {
            } else if s < 1 + below.len() {
                assert(all[s] == below[s - 1]);
            } else {
                assert(all[s] == rest[s - 1 - below.len()]);
            }
        }
    } else {
        lemma_forest_positions(edges, parent, lo + 1, fuel);
        assert(all == forest(edges, parent, lo + 1, fuel));
    }
    assert forall|s: int| 0 <= s < all.len() implies 0 <= #[trigger] all[s] < edges.len() by {}
}

/// In a sound tree no edge occurs twice in a forest.
pub proof fn lemma_forest_no_duplicates(
    edges: Seq<Edge>,
    parent: Option<usize>,
    lo: int,
    fuel: nat,
)
    requires
        distinct_numbers(edges),
        all_rooted(edges),
        0 <= lo,
    ensures
        forest(edges, parent, lo, fuel).no_duplicates(),
    decreases fuel, edges.len() - lo,
{
    if fuel == 0 || lo >= edges.len() {
    } else if edges[lo].parent == parent {
        let below = forest(edges, Some(edges[lo].number), 0, (fuel - 1) as nat);
        let rest = forest(edges, parent, lo + 1, fuel);
        lemma_forest_no_duplicates(edges, Some(edges[lo].number), 0, (fuel - 1) as nat);
        lemma_forest_no_duplicates(edges, parent, lo + 1, fuel);
        lemma_level_step(edges, lo);
        assert forall|i: int, j: int| 0 <= i < 1 && 0 <= j < below.len() implies seq![lo][i]
            != below[j] by {
            if below[j] == lo {
                assert(below.contains(lo));
                let k = lemma_member_stem(
                    edges,
                    Some(edges[lo].number),
                    0,
                    (fuel - 1) as nat,
                    lo,
                );
                let a = ancestor(edges, lo, k);
                lemma_ancestor_level(edges, lo, k);
                lemma_level_step(edges, a);
                lemma_number_index_of(edges, lo);
            }
        }
        lemma_no_dup_in_concat(seq![lo], below);
        let head = seq![lo] + below;
        assert forall|i: int, j: int| 0 <= i < head.len() && 0 <= j < rest.len() implies head[i]
            != rest[j] by {
            let x = rest[j];
            if head[i] == x {
                assert(rest.contains(x));
                let kr = lemma_member_stem(edges, parent, lo + 1, fuel, x);
                let ar = ancestor(edges, x, kr);
                lemma_ancestor_level(edges, x, kr);
                lemma_level_step(edges, ar);
                // `ar` and `lo` are children of the same parent: same level.
                assert(level(edges, ar) == level(edges, lo));
                if i == 0 {
                    assert(x == lo);
                } else {
                    assert(below[i - 1] == x);
                    assert(below.contains(x));
                    let kb = lemma_member_stem(
                        edges,
                        Some(edges[lo].number),
                        0,
                        (fuel - 1) as nat,
                        x,
                    );
                    let ab = ancestor(edges, x, kb);
                    lemma_ancestor_level(edges, x, kb);
                    lemma_level_step(edges, ab);
                    lemma_number_index_of(edges, lo);
                }
            }
        }
        lemma_no_dup_in_concat(head, rest);
    } else {
        lemma_forest_no_duplicates(edges, parent, lo + 1, fuel);
    }
}

/// An edge within depth `fuel` has a root edge among its first `fuel`
/// ancestors, itself included.
pub proof fn lemma_root_ancestor(edges: Seq<Edge>, i: int, fuel: nat) -> (k: nat)
    requires
        depth_within(edges, i, fuel),
    ensures
        k < fuel,
        stem(edges, None, 0, i, k),
    decreases fuel,
{
    match edges[i].parent {
        None => 0,
        Some(p) => {
            let j = number_index(edges, p);
            let k = lemma_root_ancestor(edges, j, (fuel - 1) as nat);
            lemma_ancestor_shift(edges, i, k);
            k + 1
        },
    }
}

/// The depth-first order of a sound tree whose edges all lie within
/// `max_depth` holds every position of `edges` exactly once.
pub proof fn lemma_order_is_permutation(edges: Seq<Edge>, max_depth: nat)
    requires
        distinct_numbers(edges),
        all_rooted(edges),
        all_within(edges, max_depth),
    ensures
        dfs_order(edges, max_depth).len() == edges.len(),
        dfs_order(edges, max_depth).no_duplicates(),
        forall|s: int|
            0 <= s < edges.len() ==> 0 <= #[trigger] dfs_order(edges, max_depth)[s] < edges.len(),
        forall|i: int| 0 <= i < edges.len() ==> dfs_order(edges, max_depth).contains(i),
{
    let order = dfs_order(edges, max_depth);
    lemma_forest_positions(edges, None, 0, max_depth);
    lemma_forest_no_duplicates(edges, None, 0, max_depth);
    assert forall|i: int| 0 <= i < edges.len() implies order.contains(i) by {
        let k = lemma_root_ancestor(edges, i, max_depth);
        lemma_stem_member(edges, None, 0, max_depth, i, k);
    }
    assert(order.to_set() =~= set_int_range(0, edges.len() as int)) by {
        assert forall|x: int| order.to_set().contains(x) implies set_int_range(
            0,
            edges.len() as int,
        ).contains(x) by {
            let s = choose|s: int| 0 <= s < order.len() && order[s] == x;
            assert(0 <= order[s] < edges.len());
        }
    }
    order.unique_seq_to_set();
    lemma_int_range(0, edges.len() as int);
}

/// `slot_from` returns the first position from `lo` that holds `x`.
pub proof fn lemma_slot_from(order: Seq<int>, x: int, lo: int)
    requires
        0 <= lo <= order.len(),
    ensures
        lo <= slot_from(order, x, lo) <= order.len(),
        slot_from(order, x, lo) < order.len() ==> order[slot_from(order, x, lo)] == x,
        forall|s: int| lo <= s < slot_from(order, x, lo) ==> order[s] != x,
    decreases order.len() - lo,
{
    if lo < order.len() && order[lo] != x {
        lemma_slot_from(order, x, lo + 1);
    }
}

/// In an order without duplicates each slot is the slot of what it holds.
pub proof fn lemma_slot_of(order: Seq<int>, s: int)
    requires
        order.no_duplicates(),
        0 <= s < order.len(),
    ensures
        slot_of(order, order[s]) == s,
{
    lemma_slot_from(order, order[s], 0);
}

} // verus!
