//! The builder: checks an input tree and packs it in depth-first order.

use vstd::prelude::*;
use crate::edge::Edge;
use crate::error::TrieError;
use crate::packed::{BRANCH_FLAG, ROOT_FLAG, UNUSED_NODE, VALUE_FLAG};
use crate::shape::{
    lemma_number_index_from, lemma_number_index_of, lemma_order_is_permutation, lemma_slot_of,
};
use crate::tree::{
    build_error, depth_within, dfs_order, distinct_numbers, distinct_sibling_labels, flag_bits,
    forest, node_byte, number_index, number_index_from, pack, MAX_EDGES,
};

verus! {

/// Whether two parent references are the same.
pub fn same_parent(a: Option<usize>, b: Option<usize>) -> (r: bool)
    ensures
        r == (a == b),
{
    match (a, b) {
        (None, None) => true,
        (Some(x), Some(y)) => x == y,
        _ => false,
    }
}

/// Position of the edge numbered `n`, or `edges.len()` when there is none.
pub fn find_number(edges: &Vec<Edge>, n: usize) -> (r: usize)
    ensures
        r == number_index(edges@, n),
{
    let mut i: usize = 0;
    while i < edges.len()
        invariant
            i <= edges.len(),
            number_index(edges@, n) == number_index_from(edges@, n, i as int),
        decreases edges.len() - i,
    {
        if edges[i].number == n {
            return i;
        }
        i += 1;
    }
    i
}

/// Whether no two edges share a number.
pub fn numbers_distinct(edges: &Vec<Edge>) -> (r: bool)
    ensures
        r == distinct_numbers(edges@),
{
    let mut j: usize = 0;
    while j < edges.len()
        invariant
            j <= edges.len(),
            forall|a: int, b: int|
                0 <= a < b < j ==> (#[trigger] edges@[a]).number != (#[trigger] edges@[b]).number,
        decreases edges.len() - j,
    {
        let mut i: usize = 0;
        while i < j
            invariant
                i <= j < edges.len(),
                forall|a: int| 0 <= a < i ==> (#[trigger] edges@[a]).number != edges@[j as int].number,
            decreases j - i,
        {
            if edges[i].number == edges[j].number {
                return false;
            }
            i += 1;
        }
        j += 1;
    }
    true
}

/// Whether no two edges with the same parent share a label.
pub fn sibling_labels_distinct(edges: &Vec<Edge>) -> (r: bool)
    ensures
        r == distinct_sibling_labels(edges@),
{
    let mut j: usize = 0;
    while j < edges.len()
        invariant
            j <= edges.len(),
            forall|a: int, b: int|
                0 <= a < b < j && (#[trigger] edges@[a]).parent == (#[trigger] edges@[b]).parent
                    ==> edges@[a].label != edges@[b].label,
        decreases edges.len() - j,
    {
        let mut i: usize = 0;
        while i < j
            invariant
                i <= j < edges.len(),
                forall|a: int|
                    0 <= a < i && (#[trigger] edges@[a]).parent == edges@[j as int].parent
                        ==> edges@[a].label != edges@[j as int].label,
            decreases j - i,
        {
            if same_parent(edges[i].parent, edges[j].parent) && edges[i].label == edges[j].label {
                return false;
            }
            i += 1;
        }
        j += 1;
    }
    true
}

/// Depth of edge `i`: the number of edges from it up to its root edge,
/// itself included.  Zero when no root edge is reached within sixteen
/// hops.
pub fn edge_depth(edges: &Vec<Edge>, i: usize) -> (d: usize)
    requires
        i < edges.len(),
    ensures
        d <= 16,
        d == 0 <==> !depth_within(edges@, i as int, 16),
        d > 0 ==> forall|k: nat| depth_within(edges@, i as int, k) <==> d <= k,
{
    let mut cur: usize = i;
    let mut steps: usize = 1;
    loop
        invariant
            1 <= steps <= 16,
            cur < edges.len(),
            i < edges.len(),
            forall|k: nat| #[trigger]
                depth_within(edges@, i as int, k) <==> (k >= steps && depth_within(
                    edges@,
                    cur as int,
                    (k - (steps - 1)) as nat,
                )),
        decreases 16 - steps,
    {
        match edges[cur].parent {
            None => {
                proof {
                    assert forall|k: nat| depth_within(edges@, i as int, k) <==> steps <= k by {
                        if k >= steps {
                            assert(depth_within(edges@, cur as int, (k - (steps - 1)) as nat));
                        }
                    }
                    assert(depth_within(edges@, i as int, 16));
                }
                return steps;
            },
            Some(p) => {
                let j = find_number(edges, p);
                proof {
                    lemma_number_index_from(edges@, p, 0);
                }
                if j == edges.len() || steps == 16 {
                    proof {
                        assert(!depth_within(edges@, j as int, (16 - steps) as nat));
                        assert(!depth_within(edges@, cur as int, (16 - (steps - 1)) as nat));
                    }
                    return 0;
                }
                proof {
                    assert forall|k: nat| #[trigger]
                        depth_within(edges@, i as int, k) <==> (k >= steps + 1 && depth_within(
                            edges@,
                            j as int,
                            (k - steps) as nat,
                        )) by {
                        if k >= steps {
                            let m = (k - (steps - 1)) as nat;
                            assert(depth_within(edges@, cur as int, m) <==> depth_within(
                                edges@,
                                j as int,
                                (m - 1) as nat,
                            ));
                        }
                    }
                }
                cur = j;
                steps += 1;
            },
        }
    }
}

/// Checks that `edges` can be packed into `slots` slots with no edge
/// deeper than `max_depth`.
pub fn check_edges(edges: &Vec<Edge>, max_depth: usize, slots: usize) -> (r: Result<
    (),
    TrieError,
>)
    ensures
        r == match build_error(edges@, max_depth as nat, slots as nat) {
            Some(e) => Err::<(), TrieError>(e),
            None => Ok(()),
        },
{
    if edges.len() > slots || edges.len() > MAX_EDGES {
        return Err(TrieError::TooManyEdges);
    }
    if !numbers_distinct(edges) || !sibling_labels_distinct(edges) {
        return Err(TrieError::BadParent);
    }
    let mut too_deep = false;
    let mut i: usize = 0;
    while i < edges.len()
        invariant
            i <= edges.len(),
            edges.len() <= slots,
            edges.len() <= MAX_EDGES,
            distinct_numbers(edges@),
            distinct_sibling_labels(edges@),
            forall|j: int| 0 <= j < i ==> depth_within(edges@, j, 16),
            too_deep <==> exists|j: int| 0 <= j < i && !depth_within(edges@, j, max_depth as nat),
        decreases edges.len() - i,
    {
        let d = edge_depth(edges, i);
        if d == 0 {
            assert(!depth_within(edges@, i as int, MAX_EDGES as nat));
            return Err(TrieError::BadParent);
        }
        if d > max_depth {
            too_deep = true;
        }
        proof {
            assert(depth_within(edges@, i as int, max_depth as nat) <==> d <= max_depth);
        }
        i += 1;
    }
    if too_deep {
        return Err(TrieError::TooDeep);
    }
    Ok(())
}

/// A visit waiting on the depth-first stack: the position of an edge, its
/// depth, and the slot its parent was packed into.
#[derive(Clone, Copy)]
struct Frame {
    edge: usize,
    depth: usize,
    parent_slot: u8,
}

/// What the visits on `stack` will pack, topmost first: each edge followed
/// by the subtrees below it.
spec fn pending(edges: Seq<Edge>, stack: Seq<Frame>, max_depth: nat) -> Seq<int>
    decreases stack.len(),
{
    if stack.len() == 0 {
        Seq::empty()
    } else {
        let top = stack.last();
        seq![top.edge as int] + forest(
            edges,
            Some(edges[top.edge as int].number),
            0,
            (max_depth - top.depth) as nat,
        ) + pending(edges, stack.drop_last(), max_depth)
    }
}

/// Pushes the children of `parent`, last child first, so that they are
/// popped in the order of their positions.
fn push_children(
    edges: &Vec<Edge>,
    parent: Option<usize>,
    depth: usize,
    parent_slot: u8,
    max_depth: usize,
    stack: &mut Vec<Frame>,
)
    requires
        1 <= depth <= max_depth,
    ensures
        pending(edges@, final(stack)@, max_depth as nat) == forest(
            edges@,
            parent,
            0,
            (max_depth - depth + 1) as nat,
        ) + pending(edges@, old(stack)@, max_depth as nat),
        final(stack)@.len() >= old(stack)@.len(),
        forall|k: int| 0 <= k < old(stack)@.len() ==> final(stack)@[k] == old(stack)@[k],
        forall|k: int|
            old(stack)@.len() <= k < final(stack)@.len() ==> {
                let f = #[trigger] final(stack)@[k];
                &&& f.edge < edges.len()
                &&& f.depth == depth
                &&& f.parent_slot == parent_slot
                &&& edges@[f.edge as int].parent == parent
            },
{
    let ghost fuel = (max_depth - depth + 1) as nat;
    let ghost below = pending(edges@, stack@, max_depth as nat);
    let ghost base = stack@;
    let mut j: usize = edges.len();
    proof {
        assert(forest(edges@, parent, j as int, fuel) =~= Seq::empty());
        assert(Seq::<int>::empty() + below =~= below);
    }
    while j > 0
        invariant
            j <= edges.len(),
            1 <= depth <= max_depth,
            fuel == (max_depth - depth + 1) as nat,
            below == pending(edges@, base, max_depth as nat),
            pending(edges@, stack@, max_depth as nat) == forest(edges@, parent, j as int, fuel)
                + below,
            stack@.len() >= base.len(),
            forall|k: int| 0 <= k < base.len() ==> stack@[k] == base[k],
            forall|k: int|
                base.len() <= k < stack@.len() ==> {
                    let f = #[trigger] stack@[k];
                    &&& f.edge < edges.len()
                    &&& f.depth == depth
                    &&& f.parent_slot == parent_slot
                    &&& edges@[f.edge as int].parent == parent
                },
        decreases j,
    {
        j -= 1;
        if same_parent(edges[j].parent, parent) {
            let ghost before = stack@;
            stack.push(Frame { edge: j, depth, parent_slot });
            proof {
                let sub = forest(edges@, Some(edges@[j as int].number), 0, (fuel - 1) as nat);
                let later = forest(edges@, parent, j as int + 1, fuel);
                assert(stack@.drop_last() =~= before);
                assert(stack@.last().edge == j);
                assert((max_depth - depth) as nat == (fuel - 1) as nat);
                assert(pending(edges@, stack@, max_depth as nat) == seq![j as int] + sub + (later
                    + below));
                assert(forest(edges@, parent, j as int, fuel) == seq![j as int] + sub + later);
                assert(seq![j as int] + sub + (later + below) =~= (seq![j as int] + sub + later)
                    + below);
            }
        }
    }
}

/// Packs `edges` in depth-first order into two arrays of `N` slots:
/// `labels` and `nodes`.  Siblings are packed in the order of their
/// positions in `edges`.
///
/// Fails when the tree has more than `N` edges (`TooManyEdges`), when its
/// parent references are unsound (`BadParent`), or when an edge lies deeper
/// than `max_depth` (`TooDeep`).
pub fn build_tree<const N: usize>(edges: Vec<Edge>, max_depth: usize) -> (r: Result<
    ([u8; N], [u8; N]),
    TrieError,
>)
    requires
        N <= 16,
    ensures
        match r {
            Ok((labels, nodes)) => {
                &&& build_error(edges@, max_depth as nat, N as nat) is None
                &&& labels@ == pack(edges@, max_depth as nat, N as nat).labels
                &&& nodes@ == pack(edges@, max_depth as nat, N as nat).nodes
            },
            Err(e) => build_error(edges@, max_depth as nat, N as nat) == Some(e),
        },
{
    match check_edges(&edges, max_depth, N) {
        Err(e) => {
            return Err(e);
        },
        Ok(()) => {},
    }
    let ghost order = dfs_order(edges@, max_depth as nat);
    proof {
        lemma_order_is_permutation(edges@, max_depth as nat);
    }
    let mut packed_edges = [0u8; N];
    let mut packed_nodes = [UNUSED_NODE; N];
    let mut next_dfs: usize = 0;
    let mut stack: Vec<Frame> = Vec::new();
    let ghost mut visited: Seq<int> = Seq::empty();
    if max_depth >= 1 {
        push_children(&edges, None, 1, 0, max_depth, &mut stack);
        proof {
            assert(pending(edges@, Seq::<Frame>::empty(), max_depth as nat) =~= Seq::empty());
            assert(order + Seq::<int>::empty() =~= order);
            assert(visited + order =~= order);
        }
    } else {
        proof {
            assert(order =~= Seq::empty());
            assert(visited + Seq::<int>::empty() =~= order);
        }
    }
    while stack.len() > 0
        invariant
            N <= 16,
            edges.len() <= N,
            distinct_numbers(edges@),
            order == dfs_order(edges@, max_depth as nat),
            order.len() == edges.len(),
            order.no_duplicates(),
            visited + pending(edges@, stack@, max_depth as nat) == order,
            next_dfs == visited.len(),
            forall|s: int|
                0 <= s < visited.len() ==> packed_edges[s] == edges@[visited[s]].label
                    && packed_nodes[s] == node_byte(edges@, order, visited[s]),
            forall|s: int| visited.len() <= s < N ==> packed_edges[s] == 0 && packed_nodes[s] == UNUSED_NODE,
            forall|s: int| 0 <= s < visited.len() ==> 0 <= #[trigger] visited[s] < edges.len(),
            forall|k: int|
                0 <= k < stack@.len() ==> {
                    let f = #[trigger] stack@[k];
                    &&& f.edge < edges.len()
                    &&& 1 <= f.depth <= max_depth
                    &&& edges@[f.edge as int].parent matches Some(p) ==> f.parent_slot
                        < visited.len() && visited[f.parent_slot as int] == number_index(edges@, p)
                },
        decreases order.len() - visited.len(),
    {
        let ghost old_stack = stack@;
        let ghost old_visited = visited;
        let frame = stack.pop().unwrap();
        let edge = edges[frame.edge];
        let ghost below = forest(
            edges@,
            Some(edge.number),
            0,
            (max_depth - frame.depth) as nat,
        );
        let ghost rest = pending(edges@, stack@, max_depth as nat);
        proof {
            assert(old_stack.drop_last() =~= stack@);
            assert(old_stack.last() == frame);
            assert(pending(edges@, old_stack, max_depth as nat) == seq![frame.edge as int] + below
                + rest);
            assert(order.len() == visited.len() + 1 + below.len() + rest.len());
        }
        let slot = next_dfs;
        let base: u8 = match edge.parent {
            Some(_) => frame.parent_slot,
            None => ROOT_FLAG,
        };
        let flags: u8 = (if edge.has_value {
            VALUE_FLAG
        } else {
            0u8
        }) | (if edge.has_branch {
            BRANCH_FLAG
        } else {
            0u8
        });
        packed_nodes[slot] = base | flags;
        packed_edges[slot] = edge.label;
        next_dfs += 1;
        proof {
            visited = visited.push(frame.edge as int);
            assert(visited + (below + rest) =~= old_visited + (seq![frame.edge as int] + below
                + rest));
            assert(flags == flag_bits(edge));
            if let Some(p) = edge.parent {
                let ps = frame.parent_slot as int;
                assert(old_visited[ps] == number_index(edges@, p));
                assert(order[ps] == old_visited[ps]);
                lemma_slot_of(order, ps);
            }
            assert(packed_nodes[slot as int] == node_byte(edges@, order, frame.edge as int));
            lemma_number_index_of(edges@, frame.edge as int);
        }
        if frame.depth < max_depth {
            push_children(
                &edges,
                Some(edge.number),
                frame.depth + 1,
                slot as u8,
                max_depth,
                &mut stack,
            );
            proof {
                assert((max_depth - (frame.depth + 1) + 1) as nat == (max_depth - frame.depth) as nat);
            }
        } else {
            proof {
                assert(below =~= Seq::empty());
                assert(pending(edges@, stack@, max_depth as nat) =~= below + rest);
            }
        }
    }
    proof {
        assert(pending(edges@, stack@, max_depth as nat) =~= Seq::empty());
        assert(visited =~= order);
        assert(packed_edges@ =~= pack(edges@, max_depth as nat, N as nat).labels);
        assert(packed_nodes@ =~= pack(edges@, max_depth as nat, N as nat).nodes);
    }
    Ok((packed_edges, packed_nodes))
}

} // verus!
