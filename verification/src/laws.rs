//! What holds of every trie that is packed from a valid tree.

use vstd::prelude::*;
use crate::counting::{
    count_where, lemma_count_agree, lemma_count_monotone, lemma_count_rearranged,
};
use crate::edge::{Edge, Lookup};
use crate::oracle::{child_from, flagged, lemma_child_from, number_rank, reach, walk_lookup};
use crate::packed::{
    first_hit, has_flag, hit, is_root, lemma_first_hit, lookup, parent_slot, rank_below, spells,
    Packed, BRANCH_FLAG, MAX_KEY, SLOTS, VALUE_FLAG,
};
use crate::shape::{
    lemma_level_step, lemma_number_index_from, lemma_number_index_of,
    lemma_order_is_permutation, lemma_slot_from, lemma_slot_of,
};
use crate::tree::{
    depth_within, dfs_order, distinct_numbers, distinct_sibling_labels, forest, number_index,
    pack, parent_index, slot_of, valid_tree,
};

verus! {

/// The depth-first order of a tree that a trie can hold.
pub open spec fn packing_order(edges: Seq<Edge>) -> Seq<int> {
    dfs_order(edges, MAX_KEY as nat)
}

/// The packed form of a tree as a trie holds it.
pub open spec fn packed(edges: Seq<Edge>) -> Packed {
    pack(edges, MAX_KEY as nat, SLOTS as nat)
}

/// The flag bit that stands for branches (`branch`) or for values.
pub open spec fn flag_of(branch: bool) -> u8 {
    if branch {
        BRANCH_FLAG
    } else {
        VALUE_FLAG
    }
}

/// How many of the edges packed before slot `p` carry the flag.
pub open spec fn order_rank(edges: Seq<Edge>, branch: bool, p: int) -> nat
    decreases p,
{
    if p <= 0 {
        0
    } else {
        order_rank(edges, branch, p - 1) + if flagged(
            edges[packing_order(edges)[p - 1]],
            branch,
        ) {
            1nat
        } else {
            0nat
        }
    }
}

/// What a trie packed from `edges` yields for the key `q[0..len]`, told
/// over the tree: a miss when the walk from the root falls off the tree or
/// ends on an edge without a flag; else the number of edges with the same
/// flag that come earlier in depth-first order, as a branch when the edge
/// carries the branch flag and as a value otherwise.
pub open spec fn tree_lookup(edges: Seq<Edge>, q: Seq<u8>, len: int) -> Lookup {
    let r = reach(edges, q, len as nat);
    if r < 0 || r >= edges.len() {
        Lookup::Miss
    } else {
        let s = slot_of(packing_order(edges), r);
        if edges[r].has_branch {
            Lookup::Branch(order_rank(edges, true, s) as u8)
        } else if edges[r].has_value {
            Lookup::Value(order_rank(edges, false, s) as u8)
        } else {
            Lookup::Miss
        }
    }
}

/// The fields of a node byte made of a root flag or a parent slot and the
/// two flags.
proof fn lemma_node_fields(base: u8, has_value: bool, has_branch: bool)
    by (bit_vector)
    requires
        base == 0x80 || base < 16,
    ensures
        ({
            let node = base | ((if has_value {
                0x40u8
            } else {
                0u8
            }) | (if has_branch {
                0x20u8
            } else {
                0u8
            }));
            &&& (node & 0x80 != 0) == (base == 0x80)
            &&& (node & 0x40 != 0) == has_value
            &&& (node & 0x20 != 0) == has_branch
            &&& base < 16 ==> node & 0x0f == base
        }),
{
}

/// What slot `s` of a packed valid tree holds.
pub proof fn lemma_packed_slot(edges: Seq<Edge>, s: int)
    requires
        valid_tree(edges, MAX_KEY as nat),
        0 <= s < 16,
    ensures
        packed(edges).labels.len() == 16,
        packed(edges).nodes.len() == 16,
        packing_order(edges).len() == edges.len(),
        s >= edges.len() ==> {
            &&& is_root(packed(edges).nodes[s])
            &&& !has_flag(packed(edges).nodes[s], VALUE_FLAG)
            &&& !has_flag(packed(edges).nodes[s], BRANCH_FLAG)
        },
        s < edges.len() ==> {
            let i = packing_order(edges)[s];
            let node = packed(edges).nodes[s];
            &&& 0 <= i < edges.len()
            &&& slot_of(packing_order(edges), i) == s
            &&& packed(edges).labels[s] == edges[i].label
            &&& is_root(node) == (edges[i].parent is None)
            &&& has_flag(node, VALUE_FLAG) == edges[i].has_value
            &&& has_flag(node, BRANCH_FLAG) == edges[i].has_branch
            &&& edges[i].parent is Some ==> {
                &&& 0 <= parent_index(edges, i) < edges.len()
                &&& 0 <= parent_slot(node) < edges.len()
                &&& packing_order(edges)[parent_slot(node)] == parent_index(edges, i)
            }
        },
{
    let order = packing_order(edges);
    lemma_order_is_permutation(edges, MAX_KEY as nat);
    if s >= edges.len() {
        assert(0x9fu8 & 0x80 != 0 && 0x9fu8 & 0x40 == 0 && 0x9fu8 & 0x20 == 0) by (bit_vector);
    } else {
        let i = order[s];
        let e = edges[i];
        lemma_slot_of(order, s);
        match e.parent {
            None => {
                lemma_node_fields(0x80, e.has_value, e.has_branch);
            },
            Some(p) => {
                let j = number_index(edges, p);
                lemma_level_step(edges, i);
                assert(0 <= j < edges.len());
                assert(order.contains(j));
                lemma_slot_from(order, j, 0);
                let ps = slot_of(order, j);
                lemma_node_fields(ps as u8, e.has_value, e.has_branch);
            },
        }
    }
}

/// With distinct sibling labels, a child is found under its parent and
/// label.
pub proof fn lemma_child_unique(edges: Seq<Edge>, i: int)
    requires
        distinct_sibling_labels(edges),
        0 <= i < edges.len(),
    ensures
        child_from(edges, edges[i].parent, edges[i].label, 0) == i,
{
    lemma_child_from(edges, edges[i].parent, edges[i].label, 0);
    let c = child_from(edges, edges[i].parent, edges[i].label, 0);
    if c < i {
        assert(edges[c].parent == edges[i].parent);
    }
}

/// After at least one byte the walk is at an edge or off the tree.
pub proof fn lemma_reach_range(edges: Seq<Edge>, q: Seq<u8>, k: nat)
    ensures
        -1 <= reach(edges, q, k) <= edges.len(),
        k >= 1 ==> 0 <= reach(edges, q, k),
    decreases k,
{
    if k >= 1 {
        lemma_reach_range(edges, q, (k - 1) as nat);
        let r = reach(edges, q, (k - 1) as nat);
        if r < 0 {
            lemma_child_from(edges, None, q[k - 1], 0);
        } else if r < edges.len() {
            lemma_child_from(edges, Some(edges[r].number), q[k - 1], 0);
        }
    }
}

/// A used slot spells the first `d + 1` bytes of `q` exactly when the walk
/// along those bytes ends at the edge packed into it.
pub proof fn lemma_spells_is_reach(edges: Seq<Edge>, q: Seq<u8>, s: int, d: nat)
    requires
        valid_tree(edges, MAX_KEY as nat),
        0 <= s < edges.len(),
    ensures
        spells(packed(edges), q, s, d) <==> reach(edges, q, d + 1) == packing_order(edges)[s],
    decreases d,
{
    let order = packing_order(edges);
    let t = packed(edges);
    let i = order[s];
    lemma_packed_slot(edges, s);
    lemma_child_unique(edges, i);
    lemma_reach_range(edges, q, d);
    if d == 0 {
        assert(reach(edges, q, 0) == -1);
        lemma_child_from(edges, None, q[0], 0);
    } else {
        let r = reach(edges, q, d);
        if r < edges.len() {
            lemma_child_from(edges, Some(edges[r].number), q[d as int], 0);
        }
        match edges[i].parent {
            None => {
                assert(!spells(t, q, s, d));
            },
            Some(p) => {
                let j = parent_index(edges, i);
                let ps = parent_slot(t.nodes[s]);
                lemma_spells_is_reach(edges, q, ps, (d - 1) as nat);
                lemma_number_index_from(edges, p, 0);
                if r < edges.len() {
                    lemma_number_index_of(edges, r);
                }
                if spells(t, q, s, d) {
                    assert(r == j);
                    assert(reach(edges, q, d + 1) == i);
                }
                if reach(edges, q, d + 1) == i {
                    assert(edges[i].parent == Some(edges[r].number));
                    assert(r == j);
                    assert(spells(t, q, ps, (d - 1) as nat));
                }
            },
        }
    }
}

/// Ranks counted over the packed node bytes are ranks counted over the
/// edges in depth-first order.
pub proof fn lemma_rank_is_order_rank(edges: Seq<Edge>, branch: bool, p: int)
    requires
        valid_tree(edges, MAX_KEY as nat),
        0 <= p <= edges.len(),
    ensures
        rank_below(packed(edges).nodes, flag_of(branch), p) == order_rank(edges, branch, p),
    decreases p,
{
    if p > 0 {
        lemma_rank_is_order_rank(edges, branch, p - 1);
        lemma_packed_slot(edges, p - 1);
    }
}

/// The hits for one flag: the slot of the edge the walk ends at, if that
/// edge carries the flag, and no other slot.
proof fn lemma_first_hit_of_walk(edges: Seq<Edge>, q: Seq<u8>, len: int, branch: bool)
    requires
        valid_tree(edges, MAX_KEY as nat),
        1 <= len <= 8,
    ensures
        ({
            let r = reach(edges, q, len as nat);
            first_hit(packed(edges), q, len, flag_of(branch), 0) == if 0 <= r < edges.len()
                && flagged(edges[r], branch) {
                slot_of(packing_order(edges), r)
            } else {
                16
            }
        }),
        ({
            let r = reach(edges, q, len as nat);
            0 <= r < edges.len() ==> 0 <= slot_of(packing_order(edges), r) < edges.len()
                && packing_order(edges)[slot_of(packing_order(edges), r)] == r
        }),
{
    let t = packed(edges);
    let order = packing_order(edges);
    let flag = flag_of(branch);
    let r = reach(edges, q, len as nat);
    let last = (len - 1) as nat;
    lemma_order_is_permutation(edges, MAX_KEY as nat);
    lemma_reach_range(edges, q, len as nat);
    lemma_first_hit(t, q, len, flag, 0);
    let fh = first_hit(t, q, len, flag, 0);
    assert forall|x: int| 0 <= x < 16 implies (hit(t, q, len, flag, x) <==> (x < edges.len()
        && order[x] == r && flagged(edges[order[x]], branch))) by {
        lemma_packed_slot(edges, x);
        if x < edges.len() {
            lemma_spells_is_reach(edges, q, x, last);
        }
    }
    if 0 <= r < edges.len() {
        assert(order.contains(r));
        lemma_slot_from(order, r, 0);
        let s = slot_of(order, r);
        if flagged(edges[r], branch) {
            assert(hit(t, q, len, flag, s));
        }
    }
}

/// Looking a key up in the trie packed from a valid tree is walking the
/// tree along the key and ranking the edge reached among the edges with
/// its flag in depth-first order.
pub proof fn lemma_lookup_is_tree_lookup(edges: Seq<Edge>, q: Seq<u8>, len: int)
    requires
        valid_tree(edges, MAX_KEY as nat),
        1 <= len <= 8,
    ensures
        lookup(packed(edges), q, len) == tree_lookup(edges, q, len),
{
    let r = reach(edges, q, len as nat);
    lemma_first_hit_of_walk(edges, q, len, true);
    lemma_first_hit_of_walk(edges, q, len, false);
    if 0 <= r < edges.len() {
        let s = slot_of(packing_order(edges), r);
        lemma_rank_is_order_rank(edges, true, s);
        lemma_rank_is_order_rank(edges, false, s);
    }
}

/// A key that leaves the tree — some byte of it has no matching child
/// where the walk stands — is a miss.
pub proof fn lemma_off_tree_is_miss(edges: Seq<Edge>, q: Seq<u8>, len: int)
    requires
        valid_tree(edges, MAX_KEY as nat),
        1 <= len <= 8,
        reach(edges, q, len as nat) >= edges.len(),
    ensures
        lookup(packed(edges), q, len) == Lookup::Miss,
{
    lemma_lookup_is_tree_lookup(edges, q, len);
}

/// The walk along the first `k` bytes reads only those bytes.
pub proof fn lemma_reach_prefix(edges: Seq<Edge>, q1: Seq<u8>, q2: Seq<u8>, k: nat)
    requires
        forall|j: int| 0 <= j < k ==> q1[j] == q2[j],
    ensures
        reach(edges, q1, k) == reach(edges, q2, k),
    decreases k,
{
    if k > 0 {
        lemma_reach_prefix(edges, q1, q2, (k - 1) as nat);
    }
}

/// The edge at position `i` has the same rank among the edges with its
/// flag whether they are counted by smaller number or by earlier place in
/// depth-first order.
pub open spec fn ranks_agree_at(edges: Seq<Edge>, i: int) -> bool {
    let s = slot_of(packing_order(edges), i);
    let n = edges[i].number;
    if edges[i].has_branch {
        number_rank(edges, true, n, edges.len() as int) == order_rank(edges, true, s)
    } else if edges[i].has_value {
        number_rank(edges, false, n, edges.len() as int) == order_rank(edges, false, s)
    } else {
        true
    }
}

/// The packed trie and the reference walk give the same answer for every
/// key of one to eight bytes, provided that the edge the key ends at, if
/// any, has the same rank by number as by depth-first order.
pub proof fn lemma_trie_matches_walk(edges: Seq<Edge>, q: Seq<u8>, len: int)
    requires
        valid_tree(edges, MAX_KEY as nat),
        1 <= len <= 8,
        q.len() >= len,
        0 <= reach(edges, q, len as nat) < edges.len() ==> ranks_agree_at(
            edges,
            reach(edges, q, len as nat),
        ),
    ensures
        lookup(packed(edges), q, len) == walk_lookup(edges, q.take(len)),
{
    let key = q.take(len);
    let r = reach(edges, q, len as nat);
    lemma_lookup_is_tree_lookup(edges, q, len);
    lemma_reach_prefix(edges, q, key, len as nat);
    if 0 <= r < edges.len() {
        lemma_number_index_of(edges, r);
    }
}

/// The edges that carry the flag are numbered in the order in which they
/// are packed: of two such edges, the one packed first has the smaller
/// number.
pub open spec fn numbered_in_order(edges: Seq<Edge>, branch: bool) -> bool {
    forall|a: int, b: int|
        0 <= a < b < edges.len() && flagged(edges[#[trigger] packing_order(edges)[a]], branch)
            && flagged(edges[#[trigger] packing_order(edges)[b]], branch) ==> edges[packing_order(
            edges,
        )[a]].number < edges[packing_order(edges)[b]].number
}

/// A rank in depth-first order is a count along that order.
proof fn lemma_order_rank_counts(edges: Seq<Edge>, branch: bool, p: int)
    ensures
        order_rank(edges, branch, p) == count_where(
            |s: int| flagged(edges[packing_order(edges)[s]], branch),
            p,
        ),
    decreases p,
{
    if p > 0 {
        lemma_order_rank_counts(edges, branch, p - 1);
    }
}

/// A rank by number is a count over the edges.
proof fn lemma_number_rank_counts(edges: Seq<Edge>, branch: bool, n: usize, upto: int)
    ensures
        number_rank(edges, branch, n, upto) == count_where(
            |i: int| flagged(edges[i], branch) && edges[i].number < n,
            upto,
        ),
    decreases upto,
{
    if upto > 0 {
        lemma_number_rank_counts(edges, branch, n, upto - 1);
    }
}

/// As many of the first `p` packed edges carry the flag as there are edges
/// that carry it and are packed into a slot before `p`.
proof fn lemma_order_rank_by_slot(edges: Seq<Edge>, branch: bool, p: int)
    requires
        valid_tree(edges, MAX_KEY as nat),
        0 <= p <= edges.len(),
    ensures
        order_rank(edges, branch, p) == count_where(
            |i: int| flagged(edges[i], branch) && slot_of(packing_order(edges), i) < p,
            edges.len() as int,
        ),
{
    let order = packing_order(edges);
    let slot = |i: int| slot_of(order, i);
    let f = |i: int| flagged(edges[i], branch);
    lemma_order_is_permutation(edges, MAX_KEY as nat);
    assert forall|s: int| 0 <= s < order.len() implies slot(#[trigger] order[s]) == s by {
        lemma_slot_of(order, s);
    }
    assert forall|i: int| 0 <= i < order.len() implies 0 <= #[trigger] slot(i) < order.len()
        && order[slot(i)] == i by {
        assert(order.contains(i));
        lemma_slot_from(order, i, 0);
    }
    lemma_count_rearranged(order, slot, f, p);
    lemma_order_rank_counts(edges, branch, p);
    lemma_count_agree(
        |s: int| f(order[s]),
        |s: int| flagged(edges[packing_order(edges)[s]], branch),
        p,
    );
    lemma_count_agree(
        |i: int| f(i) && slot(i) < p,
        |i: int| flagged(edges[i], branch) && slot_of(packing_order(edges), i) < p,
        edges.len() as int,
    );
}

/// Where the flagged edges are numbered in the order in which they are
/// packed, every edge has the same rank by number as by depth-first order.
pub proof fn lemma_numbered_ranks_agree(edges: Seq<Edge>, i: int)
    requires
        valid_tree(edges, MAX_KEY as nat),
        numbered_in_order(edges, true),
        numbered_in_order(edges, false),
        0 <= i < edges.len(),
    ensures
        ranks_agree_at(edges, i),
{
    let order = packing_order(edges);
    let branch = edges[i].has_branch;
    let num = edges[i].number;
    lemma_order_is_permutation(edges, MAX_KEY as nat);
    assert(order.contains(i));
    lemma_slot_from(order, i, 0);
    let s = slot_of(order, i);
    if flagged(edges[i], branch) {
        lemma_number_rank_counts(edges, branch, num, edges.len() as int);
        lemma_order_rank_by_slot(edges, branch, s);
        assert forall|j: int| 0 <= j < edges.len() implies ((flagged(edges[j], branch)
            && edges[j].number < num) == (flagged(edges[j], branch) && slot_of(order, j) < s)) by {
            assert(order.contains(j));
            lemma_slot_from(order, j, 0);
            let sj = slot_of(order, j);
            if flagged(edges[j], branch) {
                if sj < s {
                    assert(edges[order[sj]].number < edges[order[s]].number);
                } else if s < sj {
                    assert(edges[order[s]].number < edges[order[sj]].number);
                }
            }
        }
        lemma_count_agree(
            |j: int| flagged(edges[j], branch) && edges[j].number < num,
            |j: int| flagged(edges[j], branch) && slot_of(packing_order(edges), j) < s,
            edges.len() as int,
        );
    }
}

/// The packed trie and the reference walk give the same answer for every
/// key of one to eight bytes when the flagged edges are numbered in the
/// order in which they are packed.
pub proof fn lemma_trie_matches_walk_numbered(edges: Seq<Edge>, q: Seq<u8>, len: int)
    requires
        valid_tree(edges, MAX_KEY as nat),
        numbered_in_order(edges, true),
        numbered_in_order(edges, false),
        1 <= len <= 8,
        q.len() >= len,
    ensures
        lookup(packed(edges), q, len) == walk_lookup(edges, q.take(len)),
{
    let r = reach(edges, q, len as nat);
    if 0 <= r < edges.len() {
        lemma_numbered_ranks_agree(edges, r);
    }
    lemma_trie_matches_walk(edges, q, len);
}

/// How many edges carry the flag.
pub open spec fn flag_count(edges: Seq<Edge>, branch: bool) -> nat {
    count_where(|i: int| flagged(edges[i], branch), edges.len() as int)
}

/// No edge carries both flags.
pub open spec fn exclusive_flags(edges: Seq<Edge>) -> bool {
    forall|i: int| 0 <= i < edges.len() ==> !((#[trigger] edges[i]).has_value && edges[i].has_branch)
}

/// The answer that carries rank `r` for the flag.
pub open spec fn ranked(branch: bool, r: u8) -> Lookup {
    if branch {
        Lookup::Branch(r)
    } else {
        Lookup::Value(r)
    }
}

/// All the packed edges together hold as many flagged edges as the tree.
proof fn lemma_order_rank_total(edges: Seq<Edge>, branch: bool)
    requires
        valid_tree(edges, MAX_KEY as nat),
    ensures
        order_rank(edges, branch, edges.len() as int) == flag_count(edges, branch),
        flag_count(edges, branch) <= edges.len(),
{
    let n = edges.len() as int;
    lemma_order_rank_by_slot(edges, branch, n);
    lemma_order_is_permutation(edges, MAX_KEY as nat);
    assert forall|i: int| 0 <= i < n implies slot_of(packing_order(edges), i) < n by {
        assert(packing_order(edges).contains(i));
        lemma_slot_from(packing_order(edges), i, 0);
    }
    lemma_count_agree(
        |i: int| flagged(edges[i], branch) && slot_of(packing_order(edges), i) < n,
        |i: int| flagged(edges[i], branch),
        n,
    );
    lemma_count_monotone(|i: int| flagged(edges[i], branch), 0, n);
}

/// Ranks grow along the depth-first order.
proof fn lemma_order_rank_monotone(edges: Seq<Edge>, branch: bool, a: int, b: int)
    requires
        0 <= a <= b,
    ensures
        order_rank(edges, branch, a) <= order_rank(edges, branch, b),
    decreases b - a,
{
    if a < b {
        lemma_order_rank_monotone(edges, branch, a, b - 1);
    }
}

/// Every rank that a lookup returns is below the number of edges that
/// carry its flag.
pub proof fn lemma_rank_in_range(edges: Seq<Edge>, q: Seq<u8>, len: int)
    requires
        valid_tree(edges, MAX_KEY as nat),
        1 <= len <= 8,
    ensures
        match lookup(packed(edges), q, len) {
            Lookup::Miss => true,
            Lookup::Branch(r) => r < flag_count(edges, true),
            Lookup::Value(r) => r < flag_count(edges, false),
        },
{
    let r = reach(edges, q, len as nat);
    lemma_lookup_is_tree_lookup(edges, q, len);
    lemma_first_hit_of_walk(edges, q, len, true);
    if 0 <= r < edges.len() {
        let s = slot_of(packing_order(edges), r);
        lemma_order_rank_total(edges, true);
        lemma_order_rank_total(edges, false);
        lemma_order_rank_monotone(edges, true, s + 1, edges.len() as int);
        lemma_order_rank_monotone(edges, false, s + 1, edges.len() as int);
    }
}

/// The slot of the flagged edge that has exactly `r` flagged edges packed
/// before it, among the first `p` slots.
proof fn lemma_slot_with_rank(edges: Seq<Edge>, branch: bool, r: nat, p: int) -> (s: int)
    requires
        r < order_rank(edges, branch, p),
    ensures
        0 <= s < p,
        flagged(edges[packing_order(edges)[s]], branch),
        order_rank(edges, branch, s) == r,
    decreases p,
{
    if r < order_rank(edges, branch, p - 1) {
        lemma_slot_with_rank(edges, branch, r, p - 1)
    } else {
        p - 1
    }
}

/// The labels on the way from the root to the edge at position `i`.
pub open spec fn key_of(edges: Seq<Edge>, i: int, fuel: nat) -> Seq<u8>
    decreases fuel,
{
    if fuel == 0 {
        Seq::empty()
    } else {
        match edges[i].parent {
            None => seq![edges[i].label],
            Some(p) => key_of(edges, number_index(edges, p), (fuel - 1) as nat).push(
                edges[i].label,
            ),
        }
    }
}

/// Walking along the key of an edge ends at that edge.
pub proof fn lemma_key_reaches(edges: Seq<Edge>, i: int, fuel: nat)
    requires
        distinct_sibling_labels(edges),
        depth_within(edges, i, fuel),
    ensures
        1 <= key_of(edges, i, fuel).len() <= fuel,
        reach(edges, key_of(edges, i, fuel), key_of(edges, i, fuel).len()) == i,
    decreases fuel,
{
    let key = key_of(edges, i, fuel);
    lemma_child_unique(edges, i);
    match edges[i].parent {
        None => {
            assert(key.len() == 1);
            assert(reach(edges, key, 0) == -1);
            assert(key[0] == edges[i].label);
            assert(reach(edges, key, 1) == child_from(edges, None, key[0], 0));
        },
        Some(p) => {
            let j = number_index(edges, p);
            let up = key_of(edges, j, (fuel - 1) as nat);
            assert(depth_within(edges, j, (fuel - 1) as nat));
            assert(0 <= j < edges.len());
            lemma_key_reaches(edges, j, (fuel - 1) as nat);
            lemma_reach_prefix(edges, up, key, up.len());
            lemma_number_index_from(edges, p, 0);
            assert(key == up.push(edges[i].label));
            assert(key.len() == up.len() + 1);
            assert(key[up.len() as int] == edges[i].label);
            assert(reach(edges, key, up.len()) == j);
            assert(edges[j].number == p);
            assert(reach(edges, key, (up.len() + 1) as nat) == child_from(
                edges,
                Some(edges[j].number),
                key[up.len() as int],
                0,
            ));
        },
    }
}

/// Every rank below the number of edges that carry a flag is returned for
/// some key, provided no edge carries both flags: the key of the edge with
/// that rank, filled up with zero bytes to the width of a query.
pub proof fn lemma_rank_is_seen(edges: Seq<Edge>, branch: bool, r: nat) -> (found: (Seq<u8>, int))
    requires
        valid_tree(edges, MAX_KEY as nat),
        exclusive_flags(edges),
        r < flag_count(edges, branch),
    ensures
        found.0.len() == 8,
        1 <= found.1 <= 8,
        lookup(packed(edges), found.0, found.1) == ranked(branch, r as u8),
{
    let order = packing_order(edges);
    lemma_order_rank_total(edges, branch);
    lemma_order_is_permutation(edges, MAX_KEY as nat);
    let s = lemma_slot_with_rank(edges, branch, r, edges.len() as int);
    let i = order[s];
    lemma_slot_of(order, s);
    let key = key_of(edges, i, 8);
    lemma_key_reaches(edges, i, 8);
    let len = key.len() as int;
    let q = key + Seq::new((8 - len) as nat, |j: int| 0u8);
    lemma_reach_prefix(edges, key, q, len as nat);
    lemma_lookup_is_tree_lookup(edges, q, len);
    (q, len)
}

/// Two keys that get the same rank for the same flag end at the same
/// edge: no rank is given twice.
pub proof fn lemma_rank_names_edge(
    edges: Seq<Edge>,
    q1: Seq<u8>,
    len1: int,
    q2: Seq<u8>,
    len2: int,
)
    requires
        valid_tree(edges, MAX_KEY as nat),
        1 <= len1 <= 8,
        1 <= len2 <= 8,
        lookup(packed(edges), q1, len1) == lookup(packed(edges), q2, len2),
        lookup(packed(edges), q1, len1) != Lookup::Miss,
    ensures
        reach(edges, q1, len1 as nat) == reach(edges, q2, len2 as nat),
{
    let order = packing_order(edges);
    let r1 = reach(edges, q1, len1 as nat);
    let r2 = reach(edges, q2, len2 as nat);
    lemma_lookup_is_tree_lookup(edges, q1, len1);
    lemma_lookup_is_tree_lookup(edges, q2, len2);
    lemma_first_hit_of_walk(edges, q1, len1, true);
    lemma_first_hit_of_walk(edges, q2, len2, true);
    let s1 = slot_of(order, r1);
    let s2 = slot_of(order, r2);
    let branch = edges[r1].has_branch;
    lemma_order_rank_total(edges, branch);
    lemma_order_rank_monotone(edges, branch, s1 + 1, edges.len() as int);
    lemma_order_rank_monotone(edges, branch, s2 + 1, edges.len() as int);
    if s1 < s2 {
        lemma_order_rank_monotone(edges, branch, s1 + 1, s2);
    } else if s2 < s1 {
        lemma_order_rank_monotone(edges, branch, s2 + 1, s1);
    }
}

/// In a forest every edge is either one of the children the forest starts
/// from or comes after its own parent.
proof fn lemma_forest_parent_first(
    edges: Seq<Edge>,
    parent: Option<usize>,
    lo: int,
    fuel: nat,
    t: int,
) -> (u: int)
    requires
        distinct_numbers(edges),
        0 <= lo,
        0 <= t < forest(edges, parent, lo, fuel).len(),
    ensures
        ({
            let all = forest(edges, parent, lo, fuel);
            edges[all[t]].parent == parent || (0 <= u < t && all[u] == parent_index(
                edges,
                all[t],
            ))
        }),
    decreases fuel, edges.len() - lo,
{
    let all = forest(edges, parent, lo, fuel);
    if edges[lo].parent == parent {
        let below = forest(edges, Some(edges[lo].number), 0, (fuel - 1) as nat);
        let rest = forest(edges, parent, lo + 1, fuel);
        assert(all == seq![lo] + below + rest);
        if t == 0 {
            0
        } else if t < 1 + below.len() {
            assert(all[t] == below[t - 1]);
            let u = lemma_forest_parent_first(
                edges,
                Some(edges[lo].number),
                0,
                (fuel - 1) as nat,
                t - 1,
            );
            if edges[all[t]].parent == Some(edges[lo].number) {
                lemma_number_index_of(edges, lo);
                assert(all[0] == lo);
                0
            } else {
                assert(all[u + 1] == below[u]);
                u + 1
            }
        } else {
            let off = 1 + below.len();
            assert(all[t] == rest[t - off]);
            let u = lemma_forest_parent_first(edges, parent, lo + 1, fuel, t - off);
            if edges[all[t]].parent == parent {
                0
            } else {
                assert(all[u + off] == rest[u]);
                u + off
            }
        }
    } else {
        lemma_forest_parent_first(edges, parent, lo + 1, fuel, t)
    }
}

/// Depth-first packing puts every edge after its parent: the parent slot
/// in a node byte is below the slot of the byte.
pub proof fn lemma_parent_packed_first(edges: Seq<Edge>, s: int)
    requires
        valid_tree(edges, MAX_KEY as nat),
        0 <= s < edges.len(),
        !is_root(packed(edges).nodes[s]),
    ensures
        0 <= parent_slot(packed(edges).nodes[s]) < s,
{
    let order = packing_order(edges);
    lemma_packed_slot(edges, s);
    lemma_order_is_permutation(edges, MAX_KEY as nat);
    let u = lemma_forest_parent_first(edges, None, 0, MAX_KEY as nat, s);
    lemma_slot_of(order, u);
}

} // verus!
