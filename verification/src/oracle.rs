//! A plain reference walk over the input tree, to hold the packed trie
//! against.

use vstd::prelude::*;
use crate::builder::{find_number, same_parent};
use crate::edge::{Edge, Lookup};
use crate::shape::lemma_number_index_from;
use crate::tree::number_index;

verus! {

/// A tree kept as its edges, resolved one edge at a time.
pub struct TestTree {
    /// The edges of the tree; siblings count in the order in which they
    /// stand here.
    pub edges: Vec<Edge>,
}

/// Position of the first edge at or after `lo` that hangs below `parent`
/// with label `label`, or `edges.len()` when there is none.
pub open spec fn child_from(edges: Seq<Edge>, parent: Option<usize>, label: u8, lo: int) -> int
    decreases edges.len() - lo,
{
    if lo >= edges.len() {
        edges.len() as int
    } else if edges[lo].parent == parent && edges[lo].label == label {
        lo
    } else {
        child_from(edges, parent, label, lo + 1)
    }
}

/// Position of the edge reached from the root along `q[0..k]`: `-1` at the
/// root itself (`k == 0`), `edges.len()` once a byte has no matching
/// child.
pub open spec fn reach(edges: Seq<Edge>, q: Seq<u8>, k: nat) -> int
    decreases k,
{
    if k == 0 {
        -1
    } else {
        let r = reach(edges, q, (k - 1) as nat);
        if r >= edges.len() {
            edges.len() as int
        } else if r < 0 {
            child_from(edges, None, q[k - 1], 0)
        } else {
            child_from(edges, Some(edges[r].number), q[k - 1], 0)
        }
    }
}

/// Whether the edge carries the branch flag (`branch`) or the value flag.
pub open spec fn flagged(e: Edge, branch: bool) -> bool {
    if branch {
        e.has_branch
    } else {
        e.has_value
    }
}

/// How many of the first `upto` edges carry the flag and have a number
/// below `n`.
pub open spec fn number_rank(edges: Seq<Edge>, branch: bool, n: usize, upto: int) -> nat
    decreases upto,
{
    if upto <= 0 {
        0
    } else {
        number_rank(edges, branch, n, upto - 1) + if flagged(edges[upto - 1], branch) && edges[upto
            - 1].number < n {
            1nat
        } else {
            0nat
        }
    }
}

/// What the reference walk yields for the key `q`: a miss when the walk
/// falls off the tree or ends on an edge without a flag; else the number
/// of edges with the same flag and a smaller number, as a branch when the
/// edge carries the branch flag and as a value otherwise.
pub open spec fn walk_lookup(edges: Seq<Edge>, q: Seq<u8>) -> Lookup {
    let r = reach(edges, q, q.len());
    if r < 0 || r >= edges.len() {
        Lookup::Miss
    } else {
        let e = edges[number_index(edges, edges[r].number)];
        if e.has_branch {
            Lookup::Branch(number_rank(edges, true, e.number, edges.len() as int) as u8)
        } else if e.has_value {
            Lookup::Value(number_rank(edges, false, e.number, edges.len() as int) as u8)
        } else {
            Lookup::Miss
        }
    }
}

/// `child_from` returns the first position from `lo` with that parent and
/// label.
pub proof fn lemma_child_from(edges: Seq<Edge>, parent: Option<usize>, label: u8, lo: int)
    requires
        0 <= lo <= edges.len(),
    ensures
        lo <= child_from(edges, parent, label, lo) <= edges.len(),
        child_from(edges, parent, label, lo) < edges.len() ==> {
            let c = child_from(edges, parent, label, lo);
            edges[c].parent == parent && edges[c].label == label
        },
        forall|j: int|
            lo <= j < child_from(edges, parent, label, lo) ==> !(edges[j].parent == parent
                && edges[j].label == label),
    decreases edges.len() - lo,
{
    if lo < edges.len() && !(edges[lo].parent == parent && edges[lo].label == label) {
        lemma_child_from(edges, parent, label, lo + 1);
    }
}

/// Position of the first child of `parent` with label `label`, or
/// `edges.len()` when there is none.
pub fn find_child(edges: &Vec<Edge>, parent: Option<usize>, label: u8) -> (r: usize)
    ensures
        r == child_from(edges@, parent, label, 0),
{
    let mut i: usize = 0;
    while i < edges.len()
        invariant
            i <= edges.len(),
            child_from(edges@, parent, label, 0) == child_from(edges@, parent, label, i as int),
        decreases edges.len() - i,
    {
        if same_parent(edges[i].parent, parent) && edges[i].label == label {
            return i;
        }
        i += 1;
    }
    i
}

/// How many edges carry the flag and have a number below `n`.
pub fn count_flagged_below(edges: &Vec<Edge>, branch: bool, n: usize) -> (r: usize)
    ensures
        r == number_rank(edges@, branch, n, edges@.len() as int),
        r <= edges@.len(),
{
    let mut count: usize = 0;
    let mut i: usize = 0;
    while i < edges.len()
        invariant
            i <= edges.len(),
            count == number_rank(edges@, branch, n, i as int),
            count <= i,
        decreases edges.len() - i,
    {
        let flag = if branch {
            edges[i].has_branch
        } else {
            edges[i].has_value
        };
        if flag && edges[i].number < n {
            count += 1;
        }
        i += 1;
    }
    count
}

impl TestTree {
    /// Resolves `query` by walking the tree edge by edge.
    pub fn traverse(&self, query: &[u8]) -> (r: Lookup)
        requires
            query@.len() >= 1,
            self.edges@.len() <= u8::MAX,
        ensures
            r == walk_lookup(self.edges@, query@),
    {
        let mut cur_node: Option<usize> = None;
        let ghost mut at: int = -1;
        let mut k: usize = 0;
        while k < query.len()
            invariant
                k <= query.len(),
                at == reach(self.edges@, query@, k as nat),
                -1 <= at < self.edges@.len(),
                at < 0 <==> k == 0,
                cur_node == if at < 0 {
                    None::<usize>
                } else {
                    Some(self.edges@[at].number)
                },
            decreases query.len() - k,
        {
            let byte = query[k];
            let found = find_child(&self.edges, cur_node, byte);
            proof {
                lemma_child_from(self.edges@, cur_node, byte, 0);
                assert(reach(self.edges@, query@, (k + 1) as nat) == found);
            }
            if found == self.edges.len() {
                proof {
                    lemma_reach_stays_off(self.edges@, query@, (k + 1) as nat, query@.len());
                }
                return Lookup::Miss;
            }
            cur_node = Some(self.edges[found].number);
            proof {
                at = found as int;
            }
            k += 1;
        }
        let number = cur_node.unwrap();
        let at_number = find_number(&self.edges, number);
        proof {
            lemma_number_index_from(self.edges@, number, 0);
        }
        let e = self.edges[at_number];
        if e.has_branch {
            let rank = count_flagged_below(&self.edges, true, number);
            return Lookup::Branch(rank as u8);
        }
        if e.has_value {
            let rank = count_flagged_below(&self.edges, false, number);
            return Lookup::Value(rank as u8);
        }
        Lookup::Miss
    }
}

/// Once the walk has fallen off the tree it stays off.
pub proof fn lemma_reach_stays_off(edges: Seq<Edge>, q: Seq<u8>, k: nat, m: nat)
    requires
        k <= m,
        reach(edges, q, k) >= edges.len(),
    ensures
        reach(edges, q, m) >= edges.len(),
    decreases m - k,
{
    if k < m {
        lemma_reach_stays_off(edges, q, k, (m - 1) as nat);
    }
}

} // verus!
