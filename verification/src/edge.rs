use vstd::prelude::*;

verus! {

/// Outcome of resolving a key against a trie.
#[derive(Clone, Copy, Debug, PartialEq, Eq)]
pub enum Lookup {
    /// The key does not end on a flagged edge.
    Miss,
    /// The key ends on a branch-bearing edge; the payload is the number of
    /// branch-bearing edges packed before it.
    Branch(u8),
    /// The key ends on a value-bearing edge; the payload is the number of
    /// value-bearing edges packed before it.
    Value(u8),
}

/// One edge of the input tree.  There are no node objects: an edge stands
/// for the node it leads to.
#[derive(Clone, Copy, Debug, PartialEq, Eq, PartialOrd, Ord)]
pub struct Edge {
    /// `number` of the edge this one hangs below, or `None` for an edge that
    /// leaves the root.
    pub parent: Option<usize>,
    /// The byte consumed when this edge is followed.
    pub label: u8,
    /// Identity of the edge within its input set.
    pub number: usize,
    /// A key ending here yields `Lookup::Value`.
    pub has_value: bool,
    /// A key ending here yields `Lookup::Branch`.
    pub has_branch: bool,
}

/// `None` sorts before every `Some`, and `Some` values by their content.
pub open spec fn parent_before(a: Option<usize>, b: Option<usize>) -> bool {
    match (a, b) {
        (None, None) => false,
        (None, Some(_)) => true,
        (Some(_), None) => false,
        (Some(x), Some(y)) => x < y,
    }
}

impl Edge {
    /// The strict order of edges: by parent, then label, then number, then
    /// the two flags (`false` before `true`).
    pub open spec fn before(self, other: Edge) -> bool {
        if self.parent != other.parent {
            parent_before(self.parent, other.parent)
        } else if self.label != other.label {
            self.label < other.label
        } else if self.number != other.number {
            self.number < other.number
        } else if self.has_value != other.has_value {
            !self.has_value
        } else {
            !self.has_branch && other.has_branch
        }
    }

    /// The least edge below `parent`: every edge with that parent is at or
    /// after it, so it bounds the run of `parent`'s children from below.
    pub fn bound(parent: Option<usize>) -> (e: Edge)
        ensures
            e == (Edge { parent, label: 0, number: 0, has_value: false, has_branch: false }),
            forall|c: Edge| c.parent == parent ==> !c.before(e),
    {
        Edge { parent, label: 0, number: 0, has_value: false, has_branch: false }
    }
}

} // verus!
