//! The packed trie and its lane-parallel lookup.

use vstd::prelude::*;
use vstd::pervasive::unreached;
use crate::builder::build_tree;
use crate::edge::{Edge, Lookup};
use crate::error::TrieError;
use crate::tree::{build_error, pack, valid_tree};
use crate::lanes::{
    bitmask, first_rank, lanes_and, lanes_eq, lanes_ne, lanes_or, lanes_shl1, lowest_set, mask_bit,
    ones_below, select, shuffle, splat,
};
use crate::packed::{
    byte_bit, first_hit, has_flag, hit, is_root, lemma_first_hit, lookup, parent_slot, rank_below,
    spells, Packed, BRANCH_FLAG, MAX_KEY, PARENT_MASK, ROOT_FLAG, SLOTS, VALUE_FLAG,
};

verus! {

/// A trie of at most sixteen edges and depth at most eight, packed into two
/// vectors of sixteen bytes.  It never changes once it is built.
pub struct ByteTrie16 {
    /// Per slot: root flag, value flag, branch flag and parent slot.
    nodes: [u8; 16],
    /// Per slot: label of the incoming edge.
    edges: [u8; 16],
}

impl View for ByteTrie16 {
    type V = Packed;

    closed spec fn view(&self) -> Packed {
        Packed { labels: self.edges@, nodes: self.nodes@ }
    }
}

/// Bit `d` of lane `s` of `m` says whether slot `s` spells `q[0..=d]`.
spec fn tracks(t: Packed, q: Seq<u8>, m: Seq<u8>, d: nat) -> bool {
    forall|s: int| 0 <= s < 16 ==> byte_bit(#[trigger] m[s], d as int) == spells(t, q, s, d)
}

/// Bit `j` of lane `s` of `gate` says whether slot `s` is a child slot
/// whose label is `q[j]`.
spec fn gates_children(t: Packed, q: Seq<u8>, gate: Seq<u8>) -> bool {
    forall|s: int, j: int|
        0 <= s < 16 && 0 <= j < 8 ==> #[trigger] byte_bit(gate[s], j) == (!is_root(t.nodes[s])
            && t.labels[s] == q[j])
}

/// One propagation step: gathers the parent's state into each lane,
/// advances it by one depth, and keeps it where the lane's own label
/// matches.
fn propagate(
    prev: &[u8; 16],
    parents: &[u8; 16],
    gate: &[u8; 16],
    Ghost(t): Ghost<Packed>,
    Ghost(q): Ghost<Seq<u8>>,
    Ghost(d): Ghost<nat>,
) -> (next: [u8; 16])
    requires
        d + 1 < 8,
        q.len() == 8,
        t.labels.len() == 16,
        t.nodes.len() == 16,
        forall|s: int| 0 <= s < 16 ==> parents[s] == t.nodes[s] & PARENT_MASK,
        gates_children(t, q, gate@),
        tracks(t, q, prev@, d),
    ensures
        tracks(t, q, next@, d + 1),
{
    proof {
        assert forall|s: int| 0 <= s < 16 implies parents[s] < 16 by {
            let n = t.nodes[s];
            assert(n & 0x0fu8 < 16) by (bit_vector);
        }
    }
    let gathered = shuffle(prev, parents);
    let shifted = lanes_shl1(&gathered);
    let next = lanes_and(&shifted, gate);
    proof {
        let d1: nat = d + 1;
        assert forall|s: int| 0 <= s < 16 implies byte_bit(#[trigger] next@[s], d1 as int)
            == spells(t, q, s, d1) by {
            let p = prev[parent_slot(t.nodes[s])];
            let g = gate[s];
            let k = d as u8;
            let k1 = (d + 1) as u8;
            assert(next[s] == (p << 1u8) & g);
            assert((((p << 1u8) & g) >> k1) & 1u8 == 1u8 <==> ((p >> k) & 1u8 == 1u8 && (g >> k1)
                & 1u8 == 1u8)) by (bit_vector)
                requires
                    k < 7,
                    k1 == k + 1,
            ;
            assert(byte_bit(gate@[s], d1 as int) == (!is_root(t.nodes[s]) && t.labels[s]
                == q[d1 as int]));
            assert(byte_bit(prev@[parent_slot(t.nodes[s])], d as int) == spells(
                t,
                q,
                parent_slot(t.nodes[s]),
                d,
            ));
        }
    }
    next
}

/// For every slot the set of key positions whose byte is the slot's label:
/// bit `i` of lane `s` is set exactly when `labels[s] == query[i]`.
fn label_matches(labels: &[u8; 16], query: &[u8; 8]) -> (m: [u8; 16])
    ensures
        forall|s: int, j: int|
            0 <= s < 16 && 0 <= j < 8 ==> #[trigger] byte_bit(m[s], j) == (labels[s] == query[j]),
{
    let zero = splat(0);
    let mut matches = splat(0);
    let mut i: usize = 0;
    proof {
        assert forall|s: int, j: int| 0 <= s < 16 && 0 <= j < 8 implies !byte_bit(matches[s], j) by {
            let k = j as u8;
            assert((0u8 >> k) & 1u8 == 0u8) by (bit_vector);
        }
    }
    while i < 8
        invariant
            i <= 8,
            forall|s: int| 0 <= s < 16 ==> zero[s] == 0,
            forall|s: int, j: int|
                0 <= s < 16 && 0 <= j < 8 ==> #[trigger] byte_bit(matches[s], j) == (j < i
                    && labels[s] == query[j]),
        decreases 8 - i,
    {
        let label = splat(query[i]);
        let bitset = splat(1u8 << (i as u8));
        let found = select(&lanes_eq(labels, &label), &bitset, &zero);
        let ghost before = matches;
        matches = lanes_or(&matches, &found);
        proof {
            assert forall|s: int, j: int| 0 <= s < 16 && 0 <= j < 8 implies #[trigger] byte_bit(
                matches[s],
                j,
            ) == (j < i + 1 && labels[s] == query[j]) by {
                let a = before[s];
                let k = i as u8;
                let b = j as u8;
                assert(byte_bit(before[s], j) == (j < i && labels[s] == query[j]));
                assert((((a | (1u8 << k)) >> b) & 1u8 == 1u8) == ((a >> b) & 1u8 == 1u8 || b == k))
                    by (bit_vector)
                    requires
                        k < 8,
                        b < 8,
                ;
                assert(a | 0u8 == a) by (bit_vector);
            }
        }
        i += 1;
    }
    matches
}

/// The slots whose node byte carries `flag`, one bit per slot.
fn flag_mask(nodes: &[u8; 16], flag: u8) -> (m: u16)
    ensures
        forall|s: int| 0 <= s < 16 ==> mask_bit(m, s) == has_flag(nodes[s], flag),
{
    let flagged = lanes_ne(&lanes_and(nodes, &splat(flag)), &splat(0));
    bitmask(&flagged)
}

/// What a lookup yields when `hits` has a bit for each slot the key ends
/// in, and `branches` and `values` one for each slot with that flag: the
/// rank of the lowest hit among the branches if a branch is hit, else the
/// rank of the lowest hit among the values if a value is hit, else a miss.
pub open spec fn classified(hits: u16, branches: u16, values: u16) -> Lookup {
    let b = lowest_set(hits & branches, 0);
    let v = lowest_set(hits & values, 0);
    if b < 16 {
        Lookup::Branch(ones_below(branches, b) as u8)
    } else if v < 16 {
        Lookup::Value(ones_below(values, v) as u8)
    } else {
        Lookup::Miss
    }
}

/// Turns the three masks of a lookup into its answer.  A branch is
/// reported before a value, and the lowest slot first.
pub fn classify(hits: u16, branches: u16, values: u16) -> (r: Lookup)
    ensures
        r == classified(hits, branches, values),
{
    if let Some(rank) = first_rank(hits & branches, branches) {
        return Lookup::Branch(rank);
    }
    if let Some(rank) = first_rank(hits & values, values) {
        return Lookup::Value(rank);
    }
    Lookup::Miss
}

impl ByteTrie16 {
    /// Packs a tree of at most sixteen edges and depth at most eight.
    /// Siblings are packed in the order of their positions in `edges`.
    pub fn new(edges: Vec<Edge>) -> (t: Self)
        requires
            valid_tree(edges@, MAX_KEY as nat),
        ensures
            t@ == pack(edges@, MAX_KEY as nat, SLOTS as nat),
            t@.labels.len() + t@.nodes.len() == 32,
    {
        match build_tree::<16>(edges, MAX_KEY) {
            Ok((packed_edges, packed_nodes)) => ByteTrie16 {
                nodes: packed_nodes,
                edges: packed_edges,
            },
            Err(_) => unreached(),
        }
    }

    /// Packs a tree, or says why it cannot be packed: more than sixteen
    /// edges (`TooManyEdges`), unsound parent references (`BadParent`), or
    /// an edge deeper than eight (`TooDeep`).
    pub fn try_new(edges: Vec<Edge>) -> (r: Result<Self, TrieError>)
        ensures
            match r {
                Ok(t) => {
                    &&& valid_tree(edges@, MAX_KEY as nat)
                    &&& t@ == pack(edges@, MAX_KEY as nat, SLOTS as nat)
                    &&& t@.labels.len() + t@.nodes.len() == 32
                },
                Err(e) => build_error(edges@, MAX_KEY as nat, SLOTS as nat) == Some(e),
            },
            r is Ok <==> valid_tree(edges@, MAX_KEY as nat),
    {
        match build_tree::<16>(edges, MAX_KEY) {
            Ok((packed_edges, packed_nodes)) => Ok(
                ByteTrie16 { nodes: packed_nodes, edges: packed_edges },
            ),
            Err(e) => Err(e),
        }
    }

    /// The labels of the packed edges, slot by slot.
    pub fn labels(&self) -> (r: [u8; 16])
        ensures
            r@ == self@.labels,
    {
        self.edges
    }

    /// The node bytes of the packed edges, slot by slot.
    pub fn nodes(&self) -> (r: [u8; 16])
        ensures
            r@ == self@.nodes,
    {
        self.nodes
    }

    /// Resolves the key `query[0..query_len]`, or fails with
    /// `InvalidQueryLength` when `query_len` is not between one and eight.
    pub fn try_traverse(&self, query: &[u8; 8], query_len: usize) -> (r: Result<Lookup, TrieError>)
        ensures
            r == if 1 <= query_len <= 8 {
                Ok::<Lookup, TrieError>(lookup(self@, query@, query_len as int))
            } else {
                Err::<Lookup, TrieError>(TrieError::InvalidQueryLength)
            },
    {
        if query_len == 0 || query_len > MAX_KEY {
            return Err(TrieError::InvalidQueryLength);
        }
        Ok(self.traverse(query, query_len))
    }

    /// Resolves the key `query[0..query_len]`.
    ///
    /// The bytes of `query` from `query_len` on are not looked at.
    pub fn traverse(&self, query: &[u8; 8], query_len: usize) -> (r: Lookup)
        requires
            1 <= query_len <= 8,
        ensures
            r == lookup(self@, query@, query_len as int),
    {
        let ghost t = self@;
        let ghost q = query@;
        let zero = splat(0);
        let edge_matches = label_matches(&self.edges, query);

        // A root slot starts a path; every other slot goes on from its
        // parent.  The parent bits of a root slot mean nothing, so root
        // lanes take nothing from the gather.
        let is_root_lane = lanes_ne(&lanes_and(&self.nodes, &splat(ROOT_FLAG)), &zero);
        let parents = lanes_and(&self.nodes, &splat(PARENT_MASK));
        let child_matches = select(&is_root_lane, &zero, &edge_matches);
        let matches0 = select(&is_root_lane, &edge_matches, &zero);
        proof {
            assert forall|s: int, j: int| 0 <= s < 16 && 0 <= j < 8 implies !byte_bit(zero[s], j) by {
                let k = j as u8;
                assert((0u8 >> k) & 1u8 == 0u8) by (bit_vector);
            }
            assert(gates_children(t, q, child_matches@)) by {
                assert forall|s: int, j: int| 0 <= s < 16 && 0 <= j < 8 implies #[trigger] byte_bit(
                    child_matches@[s],
                    j,
                ) == (!is_root(t.nodes[s]) && t.labels[s] == q[j]) by {
                    assert(byte_bit(edge_matches[s], j) == (self.edges[s] == query[j]));
                    assert(!byte_bit(zero[s], j));
                }
            }
            assert(tracks(t, q, matches0@, 0)) by {
                assert forall|s: int| 0 <= s < 16 implies byte_bit(#[trigger] matches0@[s], 0)
                    == spells(t, q, s, 0) by {
                    assert(byte_bit(edge_matches[s], 0) == (self.edges[s] == query[0]));
                    assert(!byte_bit(zero[s], 0));
                }
            }
        }
        let matches1 = propagate(&matches0, &parents, &child_matches, Ghost(t), Ghost(q), Ghost(0));
        let matches2 = propagate(&matches1, &parents, &child_matches, Ghost(t), Ghost(q), Ghost(1));
        let matches3 = propagate(&matches2, &parents, &child_matches, Ghost(t), Ghost(q), Ghost(2));
        let matches4 = propagate(&matches3, &parents, &child_matches, Ghost(t), Ghost(q), Ghost(3));
        let matches5 = propagate(&matches4, &parents, &child_matches, Ghost(t), Ghost(q), Ghost(4));
        let matches6 = propagate(&matches5, &parents, &child_matches, Ghost(t), Ghost(q), Ghost(5));
        let matches7 = propagate(&matches6, &parents, &child_matches, Ghost(t), Ghost(q), Ghost(6));

        let state = match query_len {
            1 => matches0,
            2 => matches1,
            3 => matches2,
            4 => matches3,
            5 => matches4,
            6 => matches5,
            7 => matches6,
            _ => matches7,
        };
        let ghost last = (query_len - 1) as nat;
        assert(tracks(t, q, state@, last));
        let depth_bit = splat(1u8 << ((query_len - 1) as u8));
        let ended = lanes_and(&state, &depth_bit);
        let match_mask = bitmask(&lanes_ne(&ended, &zero));
        proof {
            assert forall|s: int| 0 <= s < 16 implies mask_bit(match_mask, s) == spells(
                t,
                q,
                s,
                last,
            ) by {
                let x = state[s];
                let k = (query_len - 1) as u8;
                assert((x & (1u8 << k) != 0) == ((x >> k) & 1u8 == 1u8)) by (bit_vector)
                    requires
                        k < 8,
                ;
                assert(byte_bit(state@[s], last as int) == spells(t, q, s, last));
            }
        }

        let values = flag_mask(&self.nodes, VALUE_FLAG);
        let branches = flag_mask(&self.nodes, BRANCH_FLAG);
        proof {
            let value_match = match_mask & values;
            let branch_match = match_mask & branches;
            assert forall|s: int| 0 <= s < 16 implies (mask_bit(branch_match, s) == hit(
                t,
                q,
                query_len as int,
                BRANCH_FLAG,
                s,
            ) && mask_bit(value_match, s) == hit(t, q, query_len as int, VALUE_FLAG, s)) by {
                let j = s as u16;
                assert((((match_mask & branches) >> j) & 1u16 == 1u16) == ((match_mask >> j) & 1u16
                    == 1u16 && (branches >> j) & 1u16 == 1u16)) by (bit_vector);
                assert((((match_mask & values) >> j) & 1u16 == 1u16) == ((match_mask >> j) & 1u16
                    == 1u16 && (values >> j) & 1u16 == 1u16)) by (bit_vector);
                assert(mask_bit(match_mask, s) == spells(t, q, s, last));
                assert(mask_bit(branches, s) == has_flag(t.nodes[s], BRANCH_FLAG));
                assert(mask_bit(values, s) == has_flag(t.nodes[s], VALUE_FLAG));
            }
            lemma_hits_as_mask(t, q, query_len as int, BRANCH_FLAG, branch_match, 0);
            lemma_hits_as_mask(t, q, query_len as int, VALUE_FLAG, value_match, 0);
            lemma_first_hit(t, q, query_len as int, BRANCH_FLAG, 0);
            lemma_first_hit(t, q, query_len as int, VALUE_FLAG, 0);
            lemma_rank_as_ones(
                t.nodes,
                BRANCH_FLAG,
                branches,
                first_hit(t, q, query_len as int, BRANCH_FLAG, 0),
            );
            lemma_rank_as_ones(
                t.nodes,
                VALUE_FLAG,
                values,
                first_hit(t, q, query_len as int, VALUE_FLAG, 0),
            );
        }

        classify(match_mask, branches, values)
    }
}

/// A mask whose bits are the hits has its lowest set bit at the first hit.
proof fn lemma_hits_as_mask(t: Packed, q: Seq<u8>, len: int, flag: u8, m: u16, lo: int)
    requires
        0 <= lo <= 16,
        forall|s: int| 0 <= s < 16 ==> mask_bit(m, s) == hit(t, q, len, flag, s),
    ensures
        lowest_set(m, lo) == first_hit(t, q, len, flag, lo),
    decreases 16 - lo,
{
    if lo < 16 {
        lemma_hits_as_mask(t, q, len, flag, m, lo + 1);
    }
}

/// A mask whose bits are the flagged slots counts ranks.
proof fn lemma_rank_as_ones(nodes: Seq<u8>, flag: u8, m: u16, p: int)
    requires
        p <= 16,
        nodes.len() == 16,
        forall|s: int| 0 <= s < 16 ==> mask_bit(m, s) == has_flag(nodes[s], flag),
    ensures
        ones_below(m, p) == rank_below(nodes, flag, p),
    decreases p,
{
    if p > 0 {
        lemma_rank_as_ones(nodes, flag, m, p - 1);
    }
}

} // verus!
