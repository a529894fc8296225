//! Growing a valid tree from drawn numbers.
//!
//! The grower decides; its caller draws.  It asks for one number at a
//! time — how many children the next edge gets, a label, whether the new
//! edge bears a value — and whatever is handed to it, the tree it holds
//! stays valid: at most sixteen edges, depth at most eight, distinct labels
//! among siblings.  Edges are numbered in the order in which they are
//! made, parents are served first come first served, and an edge that bears
//! a value gets no children.

use vstd::prelude::*;
use std::collections::VecDeque;
use crate::edge::Edge;
use crate::oracle::TestTree;
use crate::packed::MAX_KEY;
use crate::shape::{lemma_depth_monotone, lemma_number_index_of};
use crate::tree::{
    depth_within, distinct_numbers, distinct_sibling_labels, valid_tree, MAX_EDGES,
};

verus! {

/// What the grower needs next.
#[derive(Clone, Copy, Debug, PartialEq, Eq)]
pub enum Ask {
    /// The number of children to try to give to the edge now served.
    ChildCount,
    /// A label for the next child.
    Label,
    /// Whether the next child bears a value.
    ValueFlag,
    /// Nothing: the tree is complete.
    Done,
}

/// The state of a grower.
pub struct Growth {
    /// The edges made so far.
    pub edges: Seq<Edge>,
    /// The depth of each of them.
    pub depths: Seq<nat>,
    /// The edges that still wait to be served, each by its number and the
    /// depth of its children.
    pub queue: Seq<(Option<usize>, usize)>,
    /// The edge now served; `None` while the root is.
    pub parent: Option<usize>,
    /// The depth of its children.
    pub depth: usize,
    /// How many more children it is to get.
    pub remaining: usize,
    /// The labels of the children it has.
    pub labels: Seq<u8>,
    /// The label of the child being made.
    pub label: u8,
    /// What is needed next.
    pub ask: Ask,
}

/// The state before anything is drawn: no edges, the root is served.
pub open spec fn initial() -> Growth {
    Growth {
        edges: Seq::empty(),
        depths: Seq::empty(),
        queue: Seq::empty(),
        parent: None,
        depth: 1,
        remaining: 0,
        labels: Seq::empty(),
        label: 0,
        ask: Ask::ChildCount,
    }
}

/// Serves the next waiting edge whose children would not lie deeper than
/// eight; done when none waits.
pub open spec fn next_parent(s: Growth) -> Growth
    decreases s.queue.len(),
{
    if s.queue.len() == 0 {
        Growth { ask: Ask::Done, ..s }
    } else if s.queue[0].1 > MAX_KEY {
        next_parent(Growth { queue: s.queue.drop_first(), ..s })
    } else {
        Growth {
            queue: s.queue.drop_first(),
            parent: s.queue[0].0,
            depth: s.queue[0].1,
            ask: Ask::ChildCount,
            ..s
        }
    }
}

/// Goes on with the edge now served while it is to get more children and
/// there is room for them, else with the next waiting edge.
pub open spec fn next_child(s: Growth) -> Growth {
    if s.remaining > 0 && s.edges.len() < MAX_EDGES {
        Growth { ask: Ask::Label, ..s }
    } else {
        next_parent(s)
    }
}

/// The state after `n` was drawn as the number of children.
pub open spec fn after_child_count(s: Growth, n: usize) -> Growth {
    next_child(Growth { remaining: n, labels: Seq::empty(), ..s })
}

/// The state after `label` was drawn: unchanged when a sibling has that
/// label already, so that another label is asked for.
pub open spec fn after_label(s: Growth, label: u8) -> Growth {
    if s.labels.contains(label) {
        s
    } else {
        Growth { label, ask: Ask::ValueFlag, ..s }
    }
}

/// The edge that is made when the value flag is drawn.
pub open spec fn new_edge(s: Growth, has_value: bool) -> Edge {
    Edge {
        parent: s.parent,
        label: s.label,
        number: s.edges.len() as usize,
        has_value,
        has_branch: false,
    }
}

/// The state after the value flag was drawn: the new edge is made, and it
/// waits to be served unless it bears a value.
pub open spec fn after_value_flag(s: Growth, has_value: bool) -> Growth {
    next_child(
        Growth {
            edges: s.edges.push(new_edge(s, has_value)),
            depths: s.depths.push(s.depth as nat),
            queue: if has_value {
                s.queue
            } else {
                s.queue.push((Some(s.edges.len() as usize), (s.depth + 1) as usize))
            },
            remaining: (s.remaining - 1) as usize,
            labels: s.labels.push(s.label),
            ..s
        },
    )
}

/// Edge `i` is numbered by its position, bears no branch, and lies one
/// level below its parent, which was made before it and bears no value.
pub open spec fn edge_ok(edges: Seq<Edge>, depths: Seq<nat>, i: int) -> bool {
    let e = edges[i];
    &&& e.number == i
    &&& !e.has_branch
    &&& 1 <= depths[i] <= MAX_KEY
    &&& match e.parent {
        None => depths[i] == 1,
        Some(p) => p < i && depths[i] == depths[p as int] + 1 && !edges[p as int].has_value,
    }
}

/// No edge hangs below `p`.
pub open spec fn childless(edges: Seq<Edge>, p: Option<usize>) -> bool {
    forall|i: int| 0 <= i < edges.len() ==> (#[trigger] edges[i]).parent != p
}

/// The waiting edge `entry` exists, bears no value and has no children
/// yet.
pub open spec fn entry_ok(edges: Seq<Edge>, depths: Seq<nat>, entry: (Option<usize>, usize)) -> bool {
    match entry.0 {
        None => false,
        Some(p) => {
            &&& p < edges.len()
            &&& entry.1 == depths[p as int] + 1
            &&& !edges[p as int].has_value
            &&& childless(edges, Some(p))
        },
    }
}

/// The children of `parent` have their labels among `labels`.
pub open spec fn labels_cover(edges: Seq<Edge>, parent: Option<usize>, labels: Seq<u8>) -> bool {
    forall|i: int|
        0 <= i < edges.len() && (#[trigger] edges[i]).parent == parent ==> labels.contains(
            edges[i].label,
        )
}

/// What holds of a grower between any two steps.
pub open spec fn steady(s: Growth) -> bool {
    &&& s.edges.len() <= MAX_EDGES
    &&& s.depths.len() == s.edges.len()
    &&& forall|i: int| 0 <= i < s.edges.len() ==> edge_ok(s.edges, s.depths, i)
    &&& distinct_sibling_labels(s.edges)
    &&& forall|k: int|
        0 <= k < s.queue.len() ==> entry_ok(s.edges, s.depths, #[trigger] s.queue[k])
            && s.queue[k].0 != s.parent
    &&& forall|j: int, k: int|
        0 <= j < k < s.queue.len() ==> (#[trigger] s.queue[j]).0 != (#[trigger] s.queue[k]).0
    &&& 1 <= s.depth <= MAX_KEY
    &&& match s.parent {
        None => s.depth == 1,
        Some(p) => p < s.edges.len() && s.depth == s.depths[p as int] + 1 && !s.edges[p as int].has_value,
    }
    &&& labels_cover(s.edges, s.parent, s.labels)
}

/// What holds of a grower that waits for a draw.
pub open spec fn well_formed(s: Growth) -> bool {
    &&& steady(s)
    &&& match s.ask {
        Ask::ChildCount => childless(s.edges, s.parent),
        Ask::Label => s.remaining > 0 && s.edges.len() < MAX_EDGES,
        Ask::ValueFlag => s.remaining > 0 && s.edges.len() < MAX_EDGES && !s.labels.contains(
            s.label,
        ),
        Ask::Done => true,
    }
}

/// Serving the next waiting edge keeps the grower well formed.
pub proof fn lemma_next_parent(s: Growth)
    requires
        steady(s),
    ensures
        well_formed(next_parent(s)),
        next_parent(s).edges == s.edges,
    decreases s.queue.len(),
{
    if s.queue.len() == 0 {
    } else {
        let rest = s.queue.drop_first();
        let first = s.queue[0];
        assert(entry_ok(s.edges, s.depths, first));
        assert forall|k: int| 0 <= k < rest.len() implies #[trigger] rest[k] == s.queue[k + 1] by {}
        if first.1 > MAX_KEY {
            let t = Growth { queue: rest, ..s };
            assert(steady(t));
            lemma_next_parent(t);
        } else {
            let t = next_parent(s);
            assert(t.queue == rest);
            assert(t.parent == first.0);
            assert forall|k: int| 0 <= k < t.queue.len() implies entry_ok(
                t.edges,
                t.depths,
                #[trigger] t.queue[k],
            ) && t.queue[k].0 != t.parent by {
                assert(s.queue[0].0 != s.queue[k + 1].0);
            }
            assert(labels_cover(t.edges, t.parent, t.labels));
            assert(steady(t));
        }
    }
}

/// Going on after a child keeps the grower well formed.
pub proof fn lemma_next_child(s: Growth)
    requires
        steady(s),
    ensures
        well_formed(next_child(s)),
        next_child(s).edges == s.edges,
{
    if s.remaining > 0 && s.edges.len() < MAX_EDGES {
        let t = Growth { ask: Ask::Label, ..s };
        assert(steady(t));
    } else {
        lemma_next_parent(s);
    }
}

/// Whatever number of children is drawn, the grower stays well formed.
pub proof fn lemma_after_child_count(s: Growth, n: usize)
    requires
        well_formed(s),
        s.ask == Ask::ChildCount,
    ensures
        well_formed(after_child_count(s, n)),
        after_child_count(s, n).edges == s.edges,
{
    let t = Growth { remaining: n, labels: Seq::empty(), ..s };
    assert(steady(t));
    lemma_next_child(t);
}

/// Whatever label is drawn, the grower stays well formed.
pub proof fn lemma_after_label(s: Growth, label: u8)
    requires
        well_formed(s),
        s.ask == Ask::Label,
    ensures
        well_formed(after_label(s, label)),
        after_label(s, label).edges == s.edges,
{
    if !s.labels.contains(label) {
        let t = Growth { label, ask: Ask::ValueFlag, ..s };
        assert(steady(t));
    }
}

/// Whatever value flag is drawn, the grower stays well formed.
pub proof fn lemma_after_value_flag(s: Growth, has_value: bool)
    requires
        well_formed(s),
        s.ask == Ask::ValueFlag,
    ensures
        well_formed(after_value_flag(s, has_value)),
        after_value_flag(s, has_value).edges == s.edges.push(new_edge(s, has_value)),
{
    let n = s.edges.len() as int;
    let e = new_edge(s, has_value);
    let t = Growth {
        edges: s.edges.push(e),
        depths: s.depths.push(s.depth as nat),
        queue: if has_value {
            s.queue
        } else {
            s.queue.push((Some(s.edges.len() as usize), (s.depth + 1) as usize))
        },
        remaining: (s.remaining - 1) as usize,
        labels: s.labels.push(s.label),
        ..s
    };
    assert forall|i: int| 0 <= i < t.edges.len() implies edge_ok(t.edges, t.depths, i) by {
        if i < n {
            assert(edge_ok(s.edges, s.depths, i));
        }
    }
    assert(childless(t.edges, Some(n as usize))) by {
        assert forall|i: int| 0 <= i < t.edges.len() implies (#[trigger] t.edges[i]).parent
            != Some(n as usize) by {
            if i < n {
                assert(edge_ok(s.edges, s.depths, i));
            }
        }
    }
    assert(distinct_sibling_labels(t.edges)) by {
        assert forall|i: int, j: int|
            0 <= i < j < t.edges.len() && (#[trigger] t.edges[i]).parent == (
            #[trigger] t.edges[j]).parent implies t.edges[i].label != t.edges[j].label by {
            if j == n {
                assert(s.edges[i].parent == s.parent);
                assert(s.labels.contains(s.edges[i].label));
            } else {
                assert(s.edges[i].parent == s.edges[j].parent);
            }
        }
    }
    assert forall|k: int| 0 <= k < t.queue.len() implies entry_ok(
        t.edges,
        t.depths,
        #[trigger] t.queue[k],
    ) && t.queue[k].0 != t.parent by {
        if k < s.queue.len() {
            let entry = s.queue[k];
            assert(t.queue[k] == entry);
            assert(entry_ok(s.edges, s.depths, entry) && entry.0 != s.parent);
            assert(childless(t.edges, entry.0)) by {
                assert forall|i: int| 0 <= i < t.edges.len() implies (#[trigger] t.edges[i]).parent
                    != entry.0 by {
                    if i < n {
                        assert(s.edges[i].parent != entry.0);
                    }
                }
            }
        }
    }
    assert forall|j: int, k: int| 0 <= j < k < t.queue.len() implies (#[trigger] t.queue[j]).0 != (
    #[trigger] t.queue[k]).0 by {
        if k < s.queue.len() {
            assert(s.queue[j].0 != s.queue[k].0);
        } else {
            assert(entry_ok(s.edges, s.depths, s.queue[j]));
        }
    }
    assert(labels_cover(t.edges, t.parent, t.labels)) by {
        assert forall|i: int|
            0 <= i < t.edges.len() && (#[trigger] t.edges[i]).parent == t.parent implies t.labels.contains(
        t.edges[i].label) by {
            if i < n {
                assert(s.edges[i].parent == s.parent);
                let w = choose|w: int| 0 <= w < s.labels.len() && s.labels[w] == s.edges[i].label;
                assert(t.labels[w] == s.edges[i].label);
            } else {
                assert(t.labels[s.labels.len() as int] == s.label);
            }
        }
    }
    assert(steady(t));
    lemma_next_child(t);
}

/// The edges of a grower form a valid tree.
pub proof fn lemma_grown_is_valid(s: Growth)
    requires
        steady(s),
    ensures
        valid_tree(s.edges, MAX_KEY as nat),
{
    assert(distinct_numbers(s.edges)) by {
        assert forall|i: int, j: int| 0 <= i < j < s.edges.len() implies (
        #[trigger] s.edges[i]).number != (#[trigger] s.edges[j]).number by {
            assert(edge_ok(s.edges, s.depths, i) && edge_ok(s.edges, s.depths, j));
        }
    }
    assert forall|i: int| 0 <= i < s.edges.len() implies depth_within(s.edges, i, 8)
        && depth_within(s.edges, i, 16) by {
        lemma_grown_depth(s, i);
        assert(edge_ok(s.edges, s.depths, i));
        lemma_depth_monotone(s.edges, i, s.depths[i], 8);
        lemma_depth_monotone(s.edges, i, s.depths[i], 16);
    }
}

/// Every edge of a grower lies within the depth recorded for it.
proof fn lemma_grown_depth(s: Growth, i: int)
    requires
        steady(s),
        distinct_numbers(s.edges),
        0 <= i < s.edges.len(),
    ensures
        depth_within(s.edges, i, s.depths[i]),
    decreases i,
{
    assert(edge_ok(s.edges, s.depths, i));
    if let Some(p) = s.edges[i].parent {
        assert(edge_ok(s.edges, s.depths, p as int));
        lemma_number_index_of(s.edges, p as int);
        lemma_grown_depth(s, p as int);
    }
}

/// Whether `labels` holds `label`.
pub fn has_label(labels: &Vec<u8>, label: u8) -> (r: bool)
    ensures
        r == labels@.contains(label),
{
    let mut i: usize = 0;
    while i < labels.len()
        invariant
            i <= labels.len(),
            forall|j: int| 0 <= j < i ==> labels@[j] != label,
        decreases labels.len() - i,
    {
        if labels[i] == label {
            return true;
        }
        i += 1;
    }
    false
}

/// Grows a tree from what its caller draws.  Ask it with `ask` what it
/// needs, draw that, and hand it over with the method of that name.
pub struct TreeGrower {
    edges: Vec<Edge>,
    depths: Ghost<Seq<nat>>,
    queue: VecDeque<(Option<usize>, usize)>,
    parent: Option<usize>,
    depth: usize,
    remaining: usize,
    labels: Vec<u8>,
    label: u8,
    ask: Ask,
}

impl View for TreeGrower {
    type V = Growth;

    closed spec fn view(&self) -> Growth {
        Growth {
            edges: self.edges@,
            depths: self.depths@,
            queue: self.queue@,
            parent: self.parent,
            depth: self.depth,
            remaining: self.remaining,
            labels: self.labels@,
            label: self.label,
            ask: self.ask,
        }
    }
}

impl TreeGrower {
    /// A grower with no edges yet, about to ask how many edges leave the
    /// root.
    pub fn new() -> (g: Self)
        ensures
            g@ == initial(),
            well_formed(g@),
    {
        TreeGrower {
            edges: Vec::new(),
            depths: Ghost(Seq::empty()),
            queue: VecDeque::new(),
            parent: None,
            depth: 1,
            remaining: 0,
            labels: Vec::new(),
            label: 0,
            ask: Ask::ChildCount,
        }
    }

    /// What the grower needs next.
    pub fn ask(&self) -> (a: Ask)
        ensures
            a == self@.ask,
    {
        self.ask
    }

    /// How many edges have been made.
    pub fn edge_count(&self) -> (n: usize)
        ensures
            n == self@.edges.len(),
    {
        self.edges.len()
    }

    /// Serves the next waiting edge.
    fn next_parent(&mut self)
        ensures
            final(self)@ == next_parent(old(self)@),
    {
        let ghost start = self@;
        loop
            invariant
                start == old(self)@,
                next_parent(self@) == next_parent(start),
            decreases self.queue@.len(),
        {
            let ghost before = self@;
            match self.queue.pop_front() {
                None => {
                    self.ask = Ask::Done;
                    assert(self@ == next_parent(before));
                    return ;
                },
                Some((p, d)) => {
                    assert(self.queue@ == before.queue.drop_first());
                    if d <= MAX_KEY {
                        self.parent = p;
                        self.depth = d;
                        self.ask = Ask::ChildCount;
                        assert(self@ == next_parent(before));
                        return ;
                    }
                    assert(next_parent(self@) == next_parent(before));
                },
            }
        }
    }

    /// Goes on with the next child or the next waiting edge.
    fn next_child(&mut self)
        ensures
            final(self)@ == next_child(old(self)@),
    {
        if self.remaining > 0 && self.edges.len() < MAX_EDGES {
            self.ask = Ask::Label;
        } else {
            self.next_parent();
        }
    }

    /// Takes the number of children drawn for the edge now served.
    pub fn child_count(&mut self, n: usize)
        requires
            well_formed(old(self)@),
            old(self)@.ask == Ask::ChildCount,
        ensures
            final(self)@ == after_child_count(old(self)@, n),
            well_formed(final(self)@),
    {
        self.remaining = n;
        self.labels = Vec::new();
        self.next_child();
        proof {
            lemma_after_child_count(old(self)@, n);
        }
    }

    /// Takes the label drawn for the next child.  A label that a sibling
    /// has already is passed over, and another one is asked for.
    pub fn label(&mut self, label: u8)
        requires
            well_formed(old(self)@),
            old(self)@.ask == Ask::Label,
        ensures
            final(self)@ == after_label(old(self)@, label),
            well_formed(final(self)@),
    {
        if !has_label(&self.labels, label) {
            self.label = label;
            self.ask = Ask::ValueFlag;
        }
        proof {
            lemma_after_label(old(self)@, label);
        }
    }

    /// Takes the value flag drawn for the next child, and makes that child.
    pub fn value_flag(&mut self, has_value: bool)
        requires
            well_formed(old(self)@),
            old(self)@.ask == Ask::ValueFlag,
        ensures
            final(self)@ == after_value_flag(old(self)@, has_value),
            well_formed(final(self)@),
    {
        let number = self.edges.len();
        self.edges.push(
            Edge { parent: self.parent, label: self.label, number, has_value, has_branch: false },
        );
        proof {
            self.depths = Ghost(self.depths@.push(self.depth as nat));
        }
        if !has_value {
            self.queue.push_back((Some(number), self.depth + 1));
        }
        self.labels.push(self.label);
        self.remaining = self.remaining - 1;
        self.next_child();
        proof {
            lemma_after_value_flag(old(self)@, has_value);
        }
    }

    /// The tree grown so far.
    pub fn into_tree(self) -> (t: TestTree)
        requires
            well_formed(self@),
        ensures
            t.edges@ == self@.edges,
            valid_tree(t.edges@, MAX_KEY as nat),
    {
        proof {
            lemma_grown_is_valid(self@);
        }
        TestTree { edges: self.edges }
    }
}

} // verus!
