use byte_trie::lanes::{
    bitmask, first_rank, lanes_and, lanes_eq, lanes_ne, lanes_or, lanes_shl1, select, shuffle,
    splat,
};
use byte_trie::trie::classify;
use byte_trie::{ByteTrie16, Edge, Lookup, TestTree, TrieError};

fn edge(parent: Option<usize>, label: u8, number: usize, has_value: bool, has_branch: bool) -> Edge {
    Edge { parent, label, number, has_value, has_branch }
}

fn query(key: &[u8]) -> [u8; 8] {
    let mut q = [0u8; 8];
    q[..key.len()].copy_from_slice(key);
    q
}

/// Sixteen edges, depth eight: a chain 1..8 with a value at its end, and
/// below each of its first seven edges one more leaf, and a second root.
fn full_tree() -> Vec<Edge> {
    let mut edges = Vec::new();
    for i in 0..8usize {
        edges.push(edge(if i == 0 { None } else { Some(i - 1) }, (i + 1) as u8, i, i == 7, false));
    }
    for i in 0..7usize {
        edges.push(edge(Some(i), 100 + i as u8, 8 + i, i % 2 == 0, i % 2 == 1));
    }
    edges.push(edge(None, 200, 15, false, true));
    edges
}

#[test]
fn full_tree_resolves_its_deepest_paths() {
    let edges = full_tree();
    assert_eq!(edges.len(), 16);
    let t = ByteTrie16::new(edges);
    // Depth-first order: 1, 2, .., 8, then the side leaves from the deepest up, then 200.
    assert_eq!(t.traverse(&[1, 2, 3, 4, 5, 6, 7, 8], 8), Lookup::Value(0));
    assert_eq!(t.traverse(&[1, 2, 3, 4, 5, 6, 7, 106], 8), Lookup::Value(1));
    assert_eq!(t.traverse(&[1, 2, 3, 4, 5, 6, 105, 0], 7), Lookup::Branch(0));
    assert_eq!(t.traverse(&[1, 2, 3, 4, 5, 104, 0, 0], 6), Lookup::Value(2));
    assert_eq!(t.traverse(&[1, 2, 3, 4, 103, 0, 0, 0], 5), Lookup::Branch(1));
    assert_eq!(t.traverse(&[1, 2, 3, 102, 0, 0, 0, 0], 4), Lookup::Value(3));
    assert_eq!(t.traverse(&[1, 2, 101, 0, 0, 0, 0, 0], 3), Lookup::Branch(2));
    assert_eq!(t.traverse(&[1, 100, 0, 0, 0, 0, 0, 0], 2), Lookup::Value(4));
    assert_eq!(t.traverse(&[200, 0, 0, 0, 0, 0, 0, 0], 1), Lookup::Branch(3));
    assert_eq!(t.traverse(&[1, 2, 3, 4, 5, 6, 7, 9], 8), Lookup::Miss);
    assert_eq!(t.traverse(&[1, 2, 3, 4, 5, 6, 7, 8], 7), Lookup::Miss);
}

#[test]
fn trie_is_thirty_two_bytes() {
    assert_eq!(std::mem::size_of::<ByteTrie16>(), 32);
}

#[test]
fn repeated_lookups_agree() {
    let t = ByteTrie16::new(full_tree());
    let q = [1, 2, 3, 4, 5, 6, 105, 0];
    let first = t.traverse(&q, 7);
    for _ in 0..10 {
        assert_eq!(t.traverse(&q, 7), first);
    }
    assert_eq!(first, Lookup::Branch(0));
    // Lookups in between do not disturb it either.
    assert_eq!(t.traverse(&[200, 0, 0, 0, 0, 0, 0, 0], 1), Lookup::Branch(3));
    assert_eq!(t.traverse(&q, 7), first);
}

#[test]
fn bytes_after_the_key_are_ignored() {
    let t = ByteTrie16::new(full_tree());
    assert_eq!(t.traverse(&[1, 100, 0, 0, 0, 0, 0, 0], 2), Lookup::Value(4));
    assert_eq!(t.traverse(&[1, 100, 2, 3, 4, 5, 6, 7], 2), Lookup::Value(4));
    assert_eq!(t.traverse(&[1, 100, 255, 255, 255, 255, 255, 255], 2), Lookup::Value(4));
    assert_eq!(t.traverse(&[200, 200, 200, 200, 200, 200, 200, 200], 1), Lookup::Branch(3));
    assert_eq!(t.traverse(&[1, 2, 3, 4, 5, 6, 7, 8], 1), Lookup::Miss);
}

#[test]
fn zero_bytes_never_match_unused_slots() {
    let t = ByteTrie16::new(vec![
        edge(None, 1, 0, false, false),
        edge(Some(0), 2, 1, true, false),
    ]);
    for len in 1..=8 {
        assert_eq!(t.traverse(&[0; 8], len), Lookup::Miss);
    }
    assert_eq!(t.traverse(&[1, 0, 0, 0, 0, 0, 0, 0], 2), Lookup::Miss);
    assert_eq!(t.traverse(&[1, 2, 0, 0, 0, 0, 0, 0], 3), Lookup::Miss);
    assert_eq!(t.traverse(&[1, 2, 0, 0, 0, 0, 0, 0], 2), Lookup::Value(0));
}

#[test]
fn zero_is_an_ordinary_label() {
    let t = ByteTrie16::new(vec![
        edge(None, 0, 0, false, true),
        edge(Some(0), 0, 1, true, false),
    ]);
    assert_eq!(t.traverse(&[0; 8], 1), Lookup::Branch(0));
    assert_eq!(t.traverse(&[0; 8], 2), Lookup::Value(0));
    assert_eq!(t.traverse(&[0; 8], 3), Lookup::Miss);
}

#[test]
fn root_edges_may_carry_flags() {
    let t = ByteTrie16::new(vec![
        edge(None, 5, 0, true, false),
        edge(None, 6, 1, false, true),
        edge(None, 7, 2, true, false),
    ]);
    assert_eq!(t.traverse(&[5, 0, 0, 0, 0, 0, 0, 0], 1), Lookup::Value(0));
    assert_eq!(t.traverse(&[6, 0, 0, 0, 0, 0, 0, 0], 1), Lookup::Branch(0));
    assert_eq!(t.traverse(&[7, 0, 0, 0, 0, 0, 0, 0], 1), Lookup::Value(1));
}

#[test]
fn a_root_edge_is_not_a_child_of_another() {
    let t = ByteTrie16::new(vec![
        edge(None, 5, 0, true, false),
        edge(None, 6, 1, true, false),
    ]);
    assert_eq!(t.traverse(&[5, 6, 0, 0, 0, 0, 0, 0], 2), Lookup::Miss);
    assert_eq!(t.traverse(&[5, 5, 0, 0, 0, 0, 0, 0], 2), Lookup::Miss);
    assert_eq!(t.traverse(&[6, 5, 0, 0, 0, 0, 0, 0], 2), Lookup::Miss);
    assert_eq!(t.traverse(&[6, 6, 6, 0, 0, 0, 0, 0], 3), Lookup::Miss);
    let sixteen: Vec<Edge> = (0..16).map(|i| edge(None, i as u8, i, true, false)).collect();
    let t = ByteTrie16::new(sixteen);
    for a in 0..16u8 {
        assert_eq!(t.traverse(&[a, 0, 0, 0, 0, 0, 0, 0], 1), Lookup::Value(a));
        for b in 0..16u8 {
            assert_eq!(t.traverse(&[a, b, 0, 0, 0, 0, 0, 0], 2), Lookup::Miss);
        }
    }
}

#[test]
fn branch_wins_over_value() {
    let t = ByteTrie16::new(vec![
        edge(None, 1, 0, true, false),
        edge(None, 2, 1, true, true),
        edge(None, 3, 2, true, false),
    ]);
    assert_eq!(t.traverse(&[2, 0, 0, 0, 0, 0, 0, 0], 1), Lookup::Branch(0));
    // The edge with both flags still counts among the values.
    assert_eq!(t.traverse(&[3, 0, 0, 0, 0, 0, 0, 0], 1), Lookup::Value(2));
}

#[test]
fn key_length_is_checked() {
    let t = ByteTrie16::new(full_tree());
    assert_eq!(t.try_traverse(&[1; 8], 0), Err(TrieError::InvalidQueryLength));
    assert_eq!(t.try_traverse(&[1; 8], 9), Err(TrieError::InvalidQueryLength));
    assert_eq!(t.try_traverse(&[1; 8], usize::MAX), Err(TrieError::InvalidQueryLength));
    assert_eq!(t.try_traverse(&[200, 0, 0, 0, 0, 0, 0, 0], 1), Ok(Lookup::Branch(3)));
    assert_eq!(t.try_traverse(&[1, 2, 3, 4, 5, 6, 7, 8], 8), Ok(Lookup::Value(0)));
}

#[test]
fn every_rank_is_seen_once() {
    let edges = full_tree();
    let t = ByteTrie16::new(edges.clone());
    let mut branches = Vec::new();
    let mut values = Vec::new();
    for e in &edges {
        // The key of `e`: the labels from the root down to it.
        let mut key = vec![e.label];
        let mut up = e.parent;
        while let Some(p) = up {
            let parent = edges.iter().find(|x| x.number == p).unwrap();
            key.insert(0, parent.label);
            up = parent.parent;
        }
        match t.traverse(&query(&key), key.len()) {
            Lookup::Branch(r) => branches.push(r),
            Lookup::Value(r) => values.push(r),
            Lookup::Miss => assert!(!e.has_value && !e.has_branch),
        }
    }
    branches.sort();
    values.sort();
    assert_eq!(branches, vec![0, 1, 2, 3]);
    assert_eq!(values, vec![0, 1, 2, 3, 4]);
}

#[test]
fn keys_off_the_tree_miss() {
    let t = ByteTrie16::new(full_tree());
    assert_eq!(t.traverse(&[2, 0, 0, 0, 0, 0, 0, 0], 1), Lookup::Miss);
    assert_eq!(t.traverse(&[1, 3, 0, 0, 0, 0, 0, 0], 2), Lookup::Miss);
    assert_eq!(t.traverse(&[100, 0, 0, 0, 0, 0, 0, 0], 1), Lookup::Miss);
    assert_eq!(t.traverse(&[200, 1, 0, 0, 0, 0, 0, 0], 2), Lookup::Miss);
    assert_eq!(t.traverse(&[1, 100, 100, 0, 0, 0, 0, 0], 3), Lookup::Miss);
    assert_eq!(t.traverse(&[2, 3, 4, 5, 6, 7, 8, 0], 7), Lookup::Miss);
}

#[test]
fn reference_walk_ranks_by_number() {
    // Numbered level by level, packed depth first: 9 (#0), 7 (#2), 8 (#1).
    let edges = vec![
        edge(None, 9, 0, false, false),
        edge(None, 8, 1, true, false),
        edge(Some(0), 7, 2, true, false),
    ];
    let slow = TestTree { edges: edges.clone() };
    let fast = ByteTrie16::new(edges);
    assert_eq!(slow.traverse(&[8]), Lookup::Value(0));
    assert_eq!(slow.traverse(&[9, 7]), Lookup::Value(1));
    assert_eq!(fast.traverse(&[8, 0, 0, 0, 0, 0, 0, 0], 1), Lookup::Value(1));
    assert_eq!(fast.traverse(&[9, 7, 0, 0, 0, 0, 0, 0], 2), Lookup::Value(0));
    assert_eq!(slow.traverse(&[9]), Lookup::Miss);
    assert_eq!(slow.traverse(&[9, 8]), Lookup::Miss);
    assert_eq!(slow.traverse(&[7]), Lookup::Miss);
    assert_eq!(slow.traverse(&[9, 7, 7]), Lookup::Miss);
}

#[test]
fn reference_walk_prefers_branch() {
    let slow = TestTree {
        edges: vec![
            edge(None, 1, 0, false, true),
            edge(None, 2, 1, true, true),
            edge(None, 3, 2, true, false),
        ],
    };
    assert_eq!(slow.traverse(&[1]), Lookup::Branch(0));
    assert_eq!(slow.traverse(&[2]), Lookup::Branch(1));
    assert_eq!(slow.traverse(&[3]), Lookup::Value(1));
}

#[test]
fn lanes_act_lane_by_lane() {
    let mut a = [0u8; 16];
    let mut b = [0u8; 16];
    for i in 0..16 {
        a[i] = i as u8 * 3;
        b[i] = if i % 2 == 0 { i as u8 * 3 } else { 0xf0 };
    }
    assert_eq!(splat(7), [7u8; 16]);
    let eq = lanes_eq(&a, &b);
    let ne = lanes_ne(&a, &b);
    for i in 0..16 {
        assert_eq!(eq[i], i % 2 == 0);
        assert_eq!(ne[i], i % 2 == 1);
        assert_eq!(lanes_and(&a, &b)[i], a[i] & b[i]);
        assert_eq!(lanes_or(&a, &b)[i], a[i] | b[i]);
        assert_eq!(select(&eq, &a, &splat(1))[i], if i % 2 == 0 { a[i] } else { 1 });
    }
    assert_eq!(lanes_shl1(&splat(0x81)), [0x02u8; 16]);
    assert_eq!(lanes_shl1(&splat(0x05)), [0x0au8; 16]);
}

#[test]
fn shuffle_gathers_by_index() {
    let mut a = [0u8; 16];
    let mut reversed = [0u8; 16];
    for i in 0..16 {
        a[i] = 100 + i as u8;
        reversed[i] = 15 - i as u8;
    }
    let r = shuffle(&a, &reversed);
    for i in 0..16 {
        assert_eq!(r[i], 115 - i as u8);
    }
    assert_eq!(shuffle(&a, &splat(3)), [103u8; 16]);
}

#[test]
fn bitmask_has_one_bit_per_lane() {
    let mut m = [false; 16];
    assert_eq!(bitmask(&m), 0);
    m[0] = true;
    assert_eq!(bitmask(&m), 1);
    m[15] = true;
    assert_eq!(bitmask(&m), 0x8001);
    m[4] = true;
    assert_eq!(bitmask(&m), 0x8011);
    assert_eq!(bitmask(&[true; 16]), 0xffff);
}

#[test]
fn first_rank_counts_flags_below_lowest_hit() {
    assert_eq!(first_rank(0, 0xffff), None);
    assert_eq!(first_rank(0b1000, 0b0111), Some(3));
    assert_eq!(first_rank(0b1000, 0b1111), Some(3));
    assert_eq!(first_rank(0b1000, 0b1000), Some(0));
    assert_eq!(first_rank(0b1010_0000, 0b1011_0101), Some(3));
    assert_eq!(first_rank(1, 0xffff), Some(0));
    assert_eq!(first_rank(0x8000, 0xffff), Some(15));
    assert_eq!(first_rank(0x8000, 0x8000), Some(0));
    assert_eq!(first_rank(0xffff, 0), Some(0));
}

#[test]
fn classify_prefers_branch_and_lowest_slot() {
    assert_eq!(classify(0, 0xffff, 0xffff), Lookup::Miss);
    assert_eq!(classify(0b0100, 0b0011, 0b1000), Lookup::Miss);
    assert_eq!(classify(0b0100, 0b0111, 0b1000), Lookup::Branch(2));
    assert_eq!(classify(0b0100, 0b0011, 0b1100), Lookup::Value(0));
    assert_eq!(classify(0b1100, 0b1000, 0b0111), Lookup::Branch(0));
    assert_eq!(classify(0b1100, 0, 0b1111), Lookup::Value(2));
    assert_eq!(classify(0x8000, 0xffff, 0), Lookup::Branch(15));
    assert_eq!(classify(0x8000, 0, 0xffff), Lookup::Value(15));
}
