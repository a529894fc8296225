use byte_trie::grow::{Ask, TreeGrower};
use byte_trie::{ByteTrie16, Edge, Lookup, TestTree};
use rand::{Rng, SeedableRng};
use rand_distr::{Distribution, Exp};
use rand_isaac::IsaacRng;
use std::collections::{BTreeSet, HashMap};

/// A random tree: the number of children of an edge is exponentially
/// distributed, and two edges in five bear a value.
fn generate(rng: &mut impl Rng) -> TestTree {
    let num_children_dist = Exp::new(0.25).unwrap();
    let mut grower = TreeGrower::new();
    loop {
        match grower.ask() {
            Ask::ChildCount => {
                let num_children: f64 = num_children_dist.sample(rng);
                grower.child_count(num_children.floor() as usize);
            },
            Ask::Label => grower.label(rng.gen()),
            Ask::ValueFlag => {
                let has_value_pr: f64 = rng.gen();
                grower.value_flag(has_value_pr <= 0.4);
            },
            Ask::Done => break,
        }
    }
    let mut tree = grower.into_tree();
    tree.edges.sort();
    tree
}

fn children(edges: &[Edge], parent: Option<usize>) -> Vec<Edge> {
    edges.iter().filter(|e| e.parent == parent).cloned().collect()
}

/// The same edges, numbered in the order in which they are packed.
fn renumbered(edges: &[Edge]) -> Vec<Edge> {
    let mut order = Vec::new();
    let mut stack: Vec<Edge> = children(edges, None).into_iter().rev().collect();
    while let Some(e) = stack.pop() {
        order.push(e.number);
        stack.extend(children(edges, Some(e.number)).into_iter().rev());
    }
    let new_number = |old: usize| order.iter().position(|n| *n == old).unwrap();
    edges
        .iter()
        .map(|e| Edge { parent: e.parent.map(new_number), number: new_number(e.number), ..*e })
        .collect()
}

#[test]
fn isaac_trees_agree_with_reference_walk() {
    let num_iters: usize = 200;
    let mut seeds = IsaacRng::seed_from_u64(0x5eed);
    let mut edges_seen = 0;
    for _ in 0..num_iters {
        let seed: [u8; 32] = seeds.gen();
        println!("Seed: {:02x?}", seed);
        let mut rng = IsaacRng::from_seed(seed);

        let slow = TestTree { edges: renumbered(&generate(&mut rng).edges) };
        let fast = ByteTrie16::new(slow.edges.clone());
        edges_seen += slow.edges.len();

        println!("Edges:");
        for edge in &slow.edges {
            println!("{:?}", edge);
        }

        // First iterate over all of the paths in the tree.
        let mut stack: Vec<(Option<usize>, bool)> = vec![(None, true)];
        let mut query = [0u8; 8];
        let mut query_len = 0;

        let mut labels = HashMap::new();
        for edge in slow.edges.iter() {
            assert!(labels.insert(edge.number, edge.label).is_none());
        }

        let mut keys = BTreeSet::new();

        while let Some((node, first_visit)) = stack.pop() {
            if first_visit {
                if let Some(n) = node {
                    let label = labels[&n];
                    query[query_len] = label;
                    query_len += 1;

                    let slow_query = slow.traverse(&query[..query_len]);
                    let fast_query = fast.traverse(&query, query_len);
                    println!("query: {:?} -> {:?}", &query[..query_len], slow_query);
                    assert_eq!(slow_query, fast_query);
                    keys.insert(query[..query_len].to_owned());
                }

                stack.push((node, false));

                for edge in children(&slow.edges, node) {
                    stack.push((Some(edge.number), true));
                }
            } else {
                if let Some(..) = node {
                    query_len -= 1;
                }
            }
        }
        assert_eq!(keys.len(), slow.edges.len());

        // Try a key that isn't in the tree.
        for query_v in &keys {
            let mut query = [0u8; 8];
            let query_len = query_v.len();
            query[..query_len].copy_from_slice(&query_v[..]);

            for _ in 0..=255 {
                query[query_len - 1] = query[query_len - 1].wrapping_add(1);
                if !keys.contains(&query[..query_len]) {
                    let slow_query = slow.traverse(&query[..query_len]);
                    let fast_query = fast.traverse(&query, query_len);
                    println!("negative query: {:?} -> {:?}", &query[..query_len], slow_query);
                    assert_eq!(slow_query, fast_query);
                    assert_eq!(slow_query, Lookup::Miss);
                    break;
                }
            }
        }
    }
    assert!(edges_seen > 500);
}

#[test]
fn isaac_trees_are_valid() {
    let mut rng = IsaacRng::seed_from_u64(7);
    let mut deepest = 0;
    let mut largest = 0;
    for _ in 0..300 {
        let tree = generate(&mut rng);
        assert!(ByteTrie16::try_new(tree.edges.clone()).is_ok());
        largest = largest.max(tree.edges.len());
        for e in &tree.edges {
            let mut depth = 1;
            let mut up = e.parent;
            while let Some(p) = up {
                depth += 1;
                up = tree.edges.iter().find(|x| x.number == p).unwrap().parent;
            }
            deepest = deepest.max(depth);
        }
    }
    assert_eq!(largest, 16);
    assert!(deepest <= 8);
}
