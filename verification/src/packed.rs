//! The packed form of a trie and what a lookup in it means.
//!
//! Slot `s` of a packed trie holds one edge: `labels[s]` is its label and
//! `nodes[s]` carries the root flag (bit 7), the value flag (bit 6), the
//! branch flag (bit 5) and, for an edge that is not a root edge, the slot
//! of its parent (bits 3..0).

use vstd::prelude::*;
use crate::edge::Lookup;

verus! {

/// Number of slots in a packed trie.
pub const SLOTS: usize = 16;

/// Longest key a packed trie can resolve.
pub const MAX_KEY: usize = 8;

/// Set in `nodes[s]` when the edge in slot `s` leaves the root.
pub const ROOT_FLAG: u8 = 0x80;

/// Set in `nodes[s]` when a key ending in slot `s` yields a value.
pub const VALUE_FLAG: u8 = 0x40;

/// Set in `nodes[s]` when a key ending in slot `s` yields a branch.
pub const BRANCH_FLAG: u8 = 0x20;

/// The bits of `nodes[s]` that hold the parent's slot.
pub const PARENT_MASK: u8 = 0x0f;

/// `nodes[s]` of a slot that holds no edge.
pub const UNUSED_NODE: u8 = 0x9f;

/// The two arrays of a packed trie as sequences of sixteen bytes each.
pub struct Packed {
    pub labels: Seq<u8>,
    pub nodes: Seq<u8>,
}

/// Bit `j` of a byte.
pub open spec fn byte_bit(x: u8, j: int) -> bool {
    0 <= j < 8 && (x >> (j as u8)) & 1u8 == 1u8
}

/// The edge in a slot with this node byte leaves the root.
pub open spec fn is_root(node: u8) -> bool {
    node & ROOT_FLAG != 0
}

/// The node byte carries the flag (`VALUE_FLAG` or `BRANCH_FLAG`).
pub open spec fn has_flag(node: u8, flag: u8) -> bool {
    node & flag != 0
}

/// The parent slot recorded in a node byte.
pub open spec fn parent_slot(node: u8) -> int {
    (node & PARENT_MASK) as int
}

/// The path from the root to slot `s` has `d + 1` edges and its labels are
/// `q[0], .., q[d]`.
pub open spec fn spells(t: Packed, q: Seq<u8>, s: int, d: nat) -> bool
    decreases d,
{
    &&& 0 <= s < 16
    &&& t.labels[s] == q[d as int]
    &&& if d == 0 {
        is_root(t.nodes[s])
    } else {
        !is_root(t.nodes[s]) && spells(t, q, parent_slot(t.nodes[s]), (d - 1) as nat)
    }
}

/// The key `q[0..len]` ends in slot `s`, and that slot carries `flag`.
pub open spec fn hit(t: Packed, q: Seq<u8>, len: int, flag: u8, s: int) -> bool {
    spells(t, q, s, (len - 1) as nat) && has_flag(t.nodes[s], flag)
}

/// The lowest slot at or after `lo` that is a hit, or 16 when there is none.
pub open spec fn first_hit(t: Packed, q: Seq<u8>, len: int, flag: u8, lo: int) -> int
    decreases 16 - lo,
{
    if lo >= 16 {
        16
    } else if hit(t, q, len, flag, lo) {
        lo
    } else {
        first_hit(t, q, len, flag, lo + 1)
    }
}

/// How many slots before `p` carry `flag`.
pub open spec fn rank_below(nodes: Seq<u8>, flag: u8, p: int) -> nat
    decreases p,
{
    if p <= 0 {
        0
    } else {
        rank_below(nodes, flag, p - 1) + if has_flag(nodes[p - 1], flag) {
            1nat
        } else {
            0nat
        }
    }
}

/// What resolving the key `q[0..len]` in `t` yields: the rank of the lowest
/// branch hit if there is one, else the rank of the lowest value hit if
/// there is one, else a miss.
pub open spec fn lookup(t: Packed, q: Seq<u8>, len: int) -> Lookup {
    let b = first_hit(t, q, len, BRANCH_FLAG, 0);
    let v = first_hit(t, q, len, VALUE_FLAG, 0);
    if b < 16 {
        Lookup::Branch(rank_below(t.nodes, BRANCH_FLAG, b) as u8)
    } else if v < 16 {
        Lookup::Value(rank_below(t.nodes, VALUE_FLAG, v) as u8)
    } else {
        Lookup::Miss
    }
}

/// `first_hit` returns a hit at or after `lo` with no hit between, or 16.
pub proof fn lemma_first_hit(t: Packed, q: Seq<u8>, len: int, flag: u8, lo: int)
    requires
        0 <= lo <= 16,
    ensures
        lo <= first_hit(t, q, len, flag, lo) <= 16,
        first_hit(t, q, len, flag, lo) < 16 ==> hit(t, q, len, flag, first_hit(t, q, len, flag, lo)),
        forall|s: int| lo <= s < first_hit(t, q, len, flag, lo) ==> !hit(t, q, len, flag, s),
    decreases 16 - lo,
{
    if lo < 16 && !hit(t, q, len, flag, lo) {
        lemma_first_hit(t, q, len, flag, lo + 1);
    }
}

/// A slot spells a key whatever bytes follow the key.
pub proof fn lemma_spells_prefix(t: Packed, q1: Seq<u8>, q2: Seq<u8>, s: int, d: nat)
    requires
        forall|j: int| 0 <= j <= d ==> q1[j] == q2[j],
    ensures
        spells(t, q1, s, d) == spells(t, q2, s, d),
    decreases d,
{
    if d > 0 {
        lemma_spells_prefix(t, q1, q2, parent_slot(t.nodes[s]), (d - 1) as nat);
    }
}

/// The first hit is the same whatever bytes follow the key.
proof fn lemma_first_hit_prefix(t: Packed, q1: Seq<u8>, q2: Seq<u8>, len: int, flag: u8, lo: int)
    requires
        1 <= len,
        0 <= lo,
        forall|j: int| 0 <= j < len ==> q1[j] == q2[j],
    ensures
        first_hit(t, q1, len, flag, lo) == first_hit(t, q2, len, flag, lo),
    decreases 16 - lo,
{
    if lo < 16 {
        lemma_spells_prefix(t, q1, q2, lo, (len - 1) as nat);
        lemma_first_hit_prefix(t, q1, q2, len, flag, lo + 1);
    }
}

/// The bytes of a query from the key length on do not affect the lookup:
/// two queries that agree on the key give the same answer.
pub proof fn lemma_lookup_reads_key_only(t: Packed, q1: Seq<u8>, q2: Seq<u8>, len: int)
    requires
        1 <= len,
        forall|j: int| 0 <= j < len ==> q1[j] == q2[j],
    ensures
        lookup(t, q1, len) == lookup(t, q2, len),
{
    lemma_first_hit_prefix(t, q1, q2, len, BRANCH_FLAG, 0);
    lemma_first_hit_prefix(t, q1, q2, len, VALUE_FLAG, 0);
}

} // verus!
