use byte_trie::{ByteTrie16, Edge, Lookup, TestTree};

fn edge(parent: Option<usize>, label: u8, number: usize, has_value: bool) -> Edge {
    Edge { parent, label, number, has_value, has_branch: false }
}

//       .
//  1  /    \ 2
//  3 / \ 4 | 5
//          | 7
fn small_tree() -> Vec<Edge> {
    vec![
        edge(None, 1, 0, false),
        edge(None, 2, 1, false),
        edge(Some(0), 3, 2, true),
        edge(Some(0), 4, 3, true),
        edge(Some(1), 5, 4, false),
        edge(Some(4), 7, 5, true),
    ]
}

#[test]
fn lib_test_tree() {
    //       .
    //  1  /    \ 2
    //  3 / \ 4 | 5
    //          | 7
    let e = &[
        Edge { parent: None,    label: 1, number: 0, has_value: false, has_branch: false },
        Edge { parent: None,    label: 2, number: 1, has_value: false, has_branch: false },
        Edge { parent: Some(0), label: 3, number: 2, has_value: true,  has_branch: false },
        Edge { parent: Some(0), label: 4, number: 3, has_value: true,  has_branch: false },
        Edge { parent: Some(1), label: 5, number: 4, has_value: false, has_branch: false },
        Edge { parent: Some(4), label: 7, number: 5, has_value: true,  has_branch: false },
    ];
    let edges = e.iter().cloned().collect();
    let t = ByteTrie16::new(edges);
    assert_eq!(t.traverse(&[0, 1, 4, 0, 0, 0, 0, 0], 1), Lookup::Miss);
}

#[test]
fn tests_test_tree() {
    //       .
    //  1  /    \ 2
    //  3 / \ 4 | 5
    //          | 7
    let e = &[
        Edge { parent: None,    label: 1, number: 0, has_value: false, has_branch: false },
        Edge { parent: None,    label: 2, number: 1, has_value: false, has_branch: false },
        Edge { parent: Some(0), label: 3, number: 2, has_value: true,  has_branch: false },
        Edge { parent: Some(0), label: 4, number: 3, has_value: true,  has_branch: false },
        Edge { parent: Some(1), label: 5, number: 4, has_value: false, has_branch: false },
        Edge { parent: Some(4), label: 7, number: 5, has_value: true,  has_branch: false },
    ];
    let edges = e.iter().cloned().collect();
    let t = ByteTrie16::new(edges);
    assert_eq!(t.traverse(&[0, 1, 4, 0, 0, 0, 0, 0], 1), Lookup::Miss);
}

#[test]
fn miss_on_unknown_first_byte() {
    let t = ByteTrie16::new(small_tree());
    assert_eq!(t.traverse(&[0, 0, 0, 0, 0, 0, 0, 0], 1), Lookup::Miss);
    assert_eq!(t.traverse(&[9, 0, 0, 0, 0, 0, 0, 0], 1), Lookup::Miss);
}

#[test]
fn values_at_depth_two() {
    let t = ByteTrie16::new(small_tree());
    assert_eq!(t.traverse(&[1, 3, 0, 0, 0, 0, 0, 0], 2), Lookup::Value(0));
    assert_eq!(t.traverse(&[1, 4, 0, 0, 0, 0, 0, 0], 2), Lookup::Value(1));
}

#[test]
fn value_at_depth_three() {
    let t = ByteTrie16::new(small_tree());
    assert_eq!(t.traverse(&[2, 5, 7, 0, 0, 0, 0, 0], 3), Lookup::Value(2));
}

#[test]
fn miss_on_edge_without_flag() {
    let t = ByteTrie16::new(small_tree());
    assert_eq!(t.traverse(&[2, 5, 0, 0, 0, 0, 0, 0], 2), Lookup::Miss);
    assert_eq!(t.traverse(&[1, 0, 0, 0, 0, 0, 0, 0], 1), Lookup::Miss);
}

#[test]
fn single_branch_edge() {
    let t = ByteTrie16::new(vec![Edge {
        parent: None,
        label: 10,
        number: 0,
        has_value: false,
        has_branch: true,
    }]);
    assert_eq!(t.traverse(&[10, 0, 0, 0, 0, 0, 0, 0], 1), Lookup::Branch(0));
    assert_eq!(t.traverse(&[10, 10, 0, 0, 0, 0, 0, 0], 2), Lookup::Miss);
}

#[test]
fn walk_agrees_on_small_tree() {
    let slow = TestTree { edges: small_tree() };
    let fast = ByteTrie16::new(small_tree());
    let keys: [(&[u8], Lookup); 8] = [
        (&[1], Lookup::Miss),
        (&[2], Lookup::Miss),
        (&[1, 3], Lookup::Value(0)),
        (&[1, 4], Lookup::Value(1)),
        (&[2, 5], Lookup::Miss),
        (&[2, 5, 7], Lookup::Value(2)),
        (&[1, 2], Lookup::Miss),
        (&[7], Lookup::Miss),
    ];
    for (key, expected) in keys.iter() {
        let mut query = [0u8; 8];
        query[..key.len()].copy_from_slice(key);
        assert_eq!(slow.traverse(key), *expected);
        assert_eq!(fast.traverse(&query, key.len()), *expected);
    }
}
