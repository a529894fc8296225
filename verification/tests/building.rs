use byte_trie::builder::{
    build_tree, check_edges, edge_depth, find_number, numbers_distinct, same_parent,
    sibling_labels_distinct,
};
use byte_trie::{ByteTrie16, Edge, Lookup, TrieError};

fn edge(parent: Option<usize>, label: u8, number: usize, has_value: bool, has_branch: bool) -> Edge {
    Edge { parent, label, number, has_value, has_branch }
}

/// A chain of `n` edges below the root, labelled 1, 2, ..; the last one has a value.
fn chain(n: usize) -> Vec<Edge> {
    (0..n)
        .map(|i| edge(if i == 0 { None } else { Some(i - 1) }, (i + 1) as u8, i, i + 1 == n, false))
        .collect()
}

#[test]
fn packs_in_depth_first_order() {
    //       .
    //  1  /    \ 2
    //  3 / \ 4 | 5
    //          | 7
    let edges = vec![
        edge(None, 1, 0, false, false),
        edge(None, 2, 1, false, false),
        edge(Some(0), 3, 2, true, false),
        edge(Some(0), 4, 3, true, false),
        edge(Some(1), 5, 4, false, false),
        edge(Some(4), 7, 5, true, false),
    ];
    let (labels, nodes) = build_tree::<16>(edges, 8).unwrap();
    assert_eq!(labels, [1, 3, 4, 2, 5, 7, 0, 0, 0, 0, 0, 0, 0, 0, 0, 0]);
    assert_eq!(
        nodes,
        [
            0x80, 0x40, 0x40, 0x80, 0x03, 0x44, 0x9f, 0x9f, 0x9f, 0x9f, 0x9f, 0x9f, 0x9f, 0x9f,
            0x9f, 0x9f
        ]
    );
}

#[test]
fn packs_flags_of_root_and_child_edges() {
    let edges = vec![
        edge(None, 9, 0, true, false),
        edge(None, 8, 1, false, true),
        edge(Some(1), 7, 2, true, true),
    ];
    let (labels, nodes) = build_tree::<4>(edges, 8).unwrap();
    assert_eq!(labels, [9, 8, 7, 0]);
    assert_eq!(nodes, [0xc0, 0xa0, 0x61, 0x9f]);
}

#[test]
fn siblings_are_packed_in_input_order() {
    let edges = vec![
        edge(None, 20, 0, false, false),
        edge(None, 10, 1, false, false),
        edge(Some(1), 5, 2, false, false),
    ];
    let (labels, nodes) = build_tree::<4>(edges, 8).unwrap();
    assert_eq!(labels, [20, 10, 5, 0]);
    assert_eq!(nodes, [0x80, 0x80, 0x01, 0x9f]);
}

#[test]
fn empty_tree_packs_to_unused_slots() {
    let (labels, nodes) = build_tree::<16>(Vec::new(), 8).unwrap();
    assert_eq!(labels, [0u8; 16]);
    assert_eq!(nodes, [0x9fu8; 16]);
    let t = ByteTrie16::new(Vec::new());
    assert_eq!(t.traverse(&[0; 8], 1), Lookup::Miss);
    assert_eq!(t.traverse(&[0; 8], 8), Lookup::Miss);
}

#[test]
fn too_many_edges_is_rejected() {
    let edges: Vec<Edge> = (0..17).map(|i| edge(None, i as u8, i, true, false)).collect();
    assert_eq!(check_edges(&edges, 8, 16), Err(TrieError::TooManyEdges));
    assert!(matches!(ByteTrie16::try_new(edges), Err(TrieError::TooManyEdges)));
    let three: Vec<Edge> = (0..3).map(|i| edge(None, i as u8, i, true, false)).collect();
    assert_eq!(build_tree::<2>(three.clone(), 8), Err(TrieError::TooManyEdges));
    assert!(build_tree::<3>(three, 8).is_ok());
}

#[test]
fn too_many_edges_is_reported_first() {
    // Seventeen edges that all name a parent that does not exist.
    let edges: Vec<Edge> = (0..17).map(|i| edge(Some(99), i as u8, i, true, false)).collect();
    assert_eq!(check_edges(&edges, 8, 16), Err(TrieError::TooManyEdges));
}

#[test]
fn too_deep_is_rejected() {
    assert!(ByteTrie16::try_new(chain(8)).is_ok());
    assert!(matches!(ByteTrie16::try_new(chain(9)), Err(TrieError::TooDeep)));
    assert_eq!(check_edges(&chain(9), 8, 16), Err(TrieError::TooDeep));
    assert_eq!(check_edges(&chain(9), 9, 16), Ok(()));
    assert_eq!(check_edges(&chain(3), 2, 16), Err(TrieError::TooDeep));
    assert_eq!(check_edges(&chain(1), 0, 16), Err(TrieError::TooDeep));
    assert_eq!(check_edges(&Vec::new(), 0, 16), Ok(()));
}

#[test]
fn missing_parent_is_rejected() {
    let edges = vec![edge(None, 1, 0, false, false), edge(Some(7), 2, 1, true, false)];
    assert!(matches!(ByteTrie16::try_new(edges), Err(TrieError::BadParent)));
}

#[test]
fn parent_cycle_is_rejected() {
    let edges = vec![
        edge(None, 1, 0, false, false),
        edge(Some(2), 2, 1, true, false),
        edge(Some(1), 3, 2, true, false),
    ];
    assert!(matches!(ByteTrie16::try_new(edges), Err(TrieError::BadParent)));
    let own_parent = vec![edge(Some(0), 1, 0, true, false)];
    assert!(matches!(ByteTrie16::try_new(own_parent), Err(TrieError::BadParent)));
}

#[test]
fn shared_number_is_rejected() {
    let edges = vec![edge(None, 1, 0, false, false), edge(None, 2, 0, true, false)];
    assert!(!numbers_distinct(&edges));
    assert!(matches!(ByteTrie16::try_new(edges), Err(TrieError::BadParent)));
}

#[test]
fn shared_sibling_label_is_rejected() {
    let edges = vec![
        edge(None, 1, 0, false, false),
        edge(Some(0), 5, 1, true, false),
        edge(Some(0), 5, 2, true, false),
    ];
    assert!(numbers_distinct(&edges));
    assert!(!sibling_labels_distinct(&edges));
    assert!(matches!(ByteTrie16::try_new(edges), Err(TrieError::BadParent)));
    // The same label under different parents is fine.
    let cousins = vec![
        edge(None, 1, 0, false, false),
        edge(None, 2, 1, false, false),
        edge(Some(0), 5, 2, true, false),
        edge(Some(1), 5, 3, true, false),
    ];
    assert!(sibling_labels_distinct(&cousins));
    assert!(ByteTrie16::try_new(cousins).is_ok());
}

#[test]
fn bad_parent_is_reported_before_too_deep() {
    let mut edges = chain(9);
    edges.push(edge(Some(50), 1, 9, true, false));
    assert_eq!(check_edges(&edges, 8, 16), Err(TrieError::BadParent));
}

#[test]
fn depth_of_each_edge() {
    let edges = chain(5);
    for i in 0..5 {
        assert_eq!(edge_depth(&edges, i), i + 1);
    }
    assert_eq!(edge_depth(&chain(16), 15), 16);
    let dangling = vec![edge(Some(3), 1, 0, false, false)];
    assert_eq!(edge_depth(&dangling, 0), 0);
    let cycle = vec![edge(Some(1), 1, 0, false, false), edge(Some(0), 1, 1, false, false)];
    assert_eq!(edge_depth(&cycle, 0), 0);
    assert_eq!(edge_depth(&cycle, 1), 0);
}

#[test]
fn finds_edges_by_number() {
    let edges = vec![
        edge(None, 1, 40, false, false),
        edge(None, 2, 10, false, false),
        edge(Some(40), 3, 30, true, false),
    ];
    assert_eq!(find_number(&edges, 40), 0);
    assert_eq!(find_number(&edges, 10), 1);
    assert_eq!(find_number(&edges, 30), 2);
    assert_eq!(find_number(&edges, 0), 3);
}

#[test]
fn numbers_need_not_be_dense() {
    let edges = vec![
        edge(None, 1, 40, false, false),
        edge(None, 2, 10, false, false),
        edge(Some(40), 3, 30, true, false),
        edge(Some(10), 3, 20, false, true),
    ];
    let t = ByteTrie16::new(edges);
    assert_eq!(t.traverse(&[1, 3, 0, 0, 0, 0, 0, 0], 2), Lookup::Value(0));
    assert_eq!(t.traverse(&[2, 3, 0, 0, 0, 0, 0, 0], 2), Lookup::Branch(0));
    assert_eq!(t.traverse(&[3, 0, 0, 0, 0, 0, 0, 0], 1), Lookup::Miss);
}

#[test]
fn compares_parent_references() {
    assert!(same_parent(None, None));
    assert!(same_parent(Some(3), Some(3)));
    assert!(!same_parent(Some(3), Some(4)));
    assert!(!same_parent(None, Some(0)));
    assert!(!same_parent(Some(0), None));
}

#[test]
fn bound_is_least_edge_of_parent() {
    let b = Edge::bound(Some(4));
    assert_eq!(b, Edge { parent: Some(4), label: 0, number: 0, has_value: false, has_branch: false });
    assert!(b <= edge(Some(4), 0, 0, false, false));
    assert!(b < edge(Some(4), 0, 0, false, true));
    assert!(b < edge(Some(4), 0, 1, false, false));
    assert!(b < edge(Some(4), 1, 0, false, false));
    assert!(b > edge(Some(3), 255, 9, true, true));
    assert!(b > edge(None, 255, 9, true, true));
    assert!(Edge::bound(None) <= edge(None, 0, 0, false, false));
    assert!(Edge::bound(None) < Edge::bound(Some(0)));
}
