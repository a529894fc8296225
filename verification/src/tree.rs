//! The input tree: a sequence of edges that name their parents by number.
//!
//! Everything here is stated over the sequence as given.  Siblings are
//! ordered by their position in the sequence; a caller who wants them
//! ordered by label passes the edges sorted by `(parent, label, number)`.

use vstd::prelude::*;
use crate::edge::Edge;
use crate::error::TrieError;
use crate::packed::{Packed, BRANCH_FLAG, ROOT_FLAG, UNUSED_NODE, VALUE_FLAG};

verus! {

/// Most edges a tree may have.
pub const MAX_EDGES: usize = 16;

/// Position of the first edge at or after `lo` whose number is `n`, or
/// `edges.len()` when there is none.
pub open spec fn number_index_from(edges: Seq<Edge>, n: usize, lo: int) -> int
    decreases edges.len() - lo,
{
    if lo >= edges.len() {
        edges.len() as int
    } else if edges[lo].number == n {
        lo
    } else {
        number_index_from(edges, n, lo + 1)
    }
}

/// Position of the edge numbered `n`, or `edges.len()` when there is none.
pub open spec fn number_index(edges: Seq<Edge>, n: usize) -> int {
    number_index_from(edges, n, 0)
}

/// Position of the parent of edge `i`: `-1` for a root edge, `edges.len()`
/// when the parent reference names no edge.
pub open spec fn parent_index(edges: Seq<Edge>, i: int) -> int {
    match edges[i].parent {
        None => -1,
        Some(p) => number_index(edges, p),
    }
}

/// No two edges share a number.
pub open spec fn distinct_numbers(edges: Seq<Edge>) -> bool {
    forall|i: int, j: int|
        0 <= i < j < edges.len() ==> (#[trigger] edges[i]).number != (#[trigger] edges[j]).number
}

/// No two edges with the same parent share a label.
pub open spec fn distinct_sibling_labels(edges: Seq<Edge>) -> bool {
    forall|i: int, j: int|
        0 <= i < j < edges.len() && (#[trigger] edges[i]).parent == (#[trigger] edges[j]).parent
            ==> edges[i].label != edges[j].label
}

/// Edge `i` exists and following parent references from it reaches a root
/// edge with at most `k` edges on the way, itself included.
pub open spec fn depth_within(edges: Seq<Edge>, i: int, k: nat) -> bool
    decreases k,
{
    &&& 0 <= i < edges.len()
    &&& k > 0
    &&& match edges[i].parent {
        None => true,
        Some(p) => depth_within(edges, number_index(edges, p), (k - 1) as nat),
    }
}

/// Every edge reaches a root edge within sixteen hops.  Among at most
/// sixteen edges with distinct numbers this fails exactly when a parent
/// reference names no edge or the references run in a circle.
pub open spec fn all_rooted(edges: Seq<Edge>) -> bool {
    forall|i: int| 0 <= i < edges.len() ==> depth_within(edges, i, MAX_EDGES as nat)
}

/// Every edge lies at depth `max_depth` or less.
pub open spec fn all_within(edges: Seq<Edge>, max_depth: nat) -> bool {
    forall|i: int| 0 <= i < edges.len() ==> depth_within(edges, i, max_depth)
}

/// The parent references are sound: numbers identify edges, siblings are
/// told apart by their labels, and every edge hangs below the root.
pub open spec fn sound_parents(edges: Seq<Edge>) -> bool {
    &&& distinct_numbers(edges)
    &&& distinct_sibling_labels(edges)
    &&& all_rooted(edges)
}

/// The edges form a tree that can be packed: at most sixteen edges, sound
/// parent references, and no edge deeper than `max_depth`.
pub open spec fn valid_tree(edges: Seq<Edge>, max_depth: nat) -> bool {
    &&& edges.len() <= MAX_EDGES
    &&& sound_parents(edges)
    &&& all_within(edges, max_depth)
}

/// The reason why `edges` cannot be packed into `slots` slots, if there is
/// one.  Too many edges is reported before unsound parent references, and
/// those before excessive depth.
pub open spec fn build_error(edges: Seq<Edge>, max_depth: nat, slots: nat) -> Option<TrieError> {
    if edges.len() > slots || edges.len() > MAX_EDGES {
        Some(TrieError::TooManyEdges)
    } else if !sound_parents(edges) {
        Some(TrieError::BadParent)
    } else if !all_within(edges, max_depth) {
        Some(TrieError::TooDeep)
    } else {
        None
    }
}

/// Pre-order of the subtrees hanging from those children of `parent` that
/// sit at position `lo` or later, as positions into `edges`; siblings come
/// in the order of their positions.  `fuel` bounds the number of levels
/// that are entered.
pub open spec fn forest(edges: Seq<Edge>, parent: Option<usize>, lo: int, fuel: nat) -> Seq<int>
    decreases fuel, edges.len() - lo,
{
    if fuel == 0 || lo < 0 || lo >= edges.len() {
        Seq::empty()
    } else if edges[lo].parent == parent {
        seq![lo] + forest(edges, Some(edges[lo].number), 0, (fuel - 1) as nat) + forest(
            edges,
            parent,
            lo + 1,
            fuel,
        )
    } else {
        forest(edges, parent, lo + 1, fuel)
    }
}

/// Depth-first pre-order of the whole tree: `dfs_order(edges, d)[s]` is the
/// position in `edges` of the edge that is packed into slot `s`.
pub open spec fn dfs_order(edges: Seq<Edge>, max_depth: nat) -> Seq<int> {
    forest(edges, None, 0, max_depth)
}

/// First position at or after `lo` at which `order` holds `x`, or
/// `order.len()`.
pub open spec fn slot_from(order: Seq<int>, x: int, lo: int) -> int
    decreases order.len() - lo,
{
    if lo >= order.len() {
        order.len() as int
    } else if order[lo] == x {
        lo
    } else {
        slot_from(order, x, lo + 1)
    }
}

/// The slot into which `order` puts the edge at position `x`.
pub open spec fn slot_of(order: Seq<int>, x: int) -> int {
    slot_from(order, x, 0)
}

/// The flag bits of an edge's node byte.
pub open spec fn flag_bits(e: Edge) -> u8 {
    (if e.has_value {
        VALUE_FLAG
    } else {
        0u8
    }) | (if e.has_branch {
        BRANCH_FLAG
    } else {
        0u8
    })
}

/// The node byte of the edge at position `i`: the root flag for a root
/// edge, else the slot of its parent, together with the edge's flags.
pub open spec fn node_byte(edges: Seq<Edge>, order: Seq<int>, i: int) -> u8 {
    match edges[i].parent {
        None => ROOT_FLAG | flag_bits(edges[i]),
        Some(p) => (slot_of(order, number_index(edges, p)) as u8) | flag_bits(edges[i]),
    }
}

/// The packed form of a tree in `slots` slots: slot `s` holds the `s`-th
/// edge in depth-first pre-order; slots beyond the last edge have label 0
/// and `UNUSED_NODE`.
pub open spec fn pack(edges: Seq<Edge>, max_depth: nat, slots: nat) -> Packed {
    let order = dfs_order(edges, max_depth);
    Packed {
        labels: Seq::new(
            slots,
            |s: int|
                if s < order.len() {
                    edges[order[s]].label
                } else {
                    0u8
                },
        ),
        nodes: Seq::new(
            slots,
            |s: int|
                if s < order.len() {
                    node_byte(edges, order, order[s])
                } else {
                    UNUSED_NODE
                },
        ),
    }
}

} // verus!
