use hnapi::domain::{materialize, PayloadStore};
use hnapi::tree::convert;

fn store_of(pairs: Vec<(u32, String)>) -> PayloadStore<String> {
    let mut store = PayloadStore::new();
    for (id, p) in pairs {
        assert!(store.insert(id, p));
    }
    store
}

#[test]
fn store_insert_and_take() {
    let mut store: PayloadStore<String> = PayloadStore::new();
    assert!(store.insert(7, "seven".to_string()));
    assert!(!store.insert(7, "again".to_string()));
    assert!(store.contains(7));
    assert_eq!(store.take(7), Some("seven".to_string()));
    assert!(!store.contains(7));
    assert_eq!(store.take(7), None);
}

#[test]
fn materialize_singleton() {
    let shape = convert(&vec![(0usize, 5u32)]);
    let store = store_of(vec![(5, "five".to_string())]);
    let tree = materialize(&shape, store).unwrap();
    assert_eq!(tree.nodes.len(), 1);
    assert_eq!(tree.roots, vec![0]);
    assert_eq!(tree.nodes[0].id, 5);
    assert_eq!(tree.nodes[0].payload, "five");
    assert_eq!(tree.nodes[0].parent, None);
    assert!(tree.nodes[0].children.is_empty());
}

#[test]
fn materialize_lays_out_preorder_with_back_references() {
    // 1 has children 2 and 4; 2 has child 3; 6 is a second root
    let shape = convert(&vec![
        (0usize, 1u32),
        (1, 2),
        (2, 3),
        (1, 4),
        (0, 6),
    ]);
    let store = store_of(
        vec![1, 2, 3, 4, 6]
            .into_iter()
            .map(|id| (id, format!("payload-{}", id)))
            .collect(),
    );
    let tree = materialize(&shape, store).unwrap();
    assert_eq!(tree.nodes.len(), 5);
    let ids: Vec<u32> = tree.nodes.iter().map(|n| n.id).collect();
    assert_eq!(ids, vec![1, 2, 3, 4, 6]);
    assert_eq!(tree.roots, vec![0, 4]);
    assert_eq!(tree.nodes[0].parent, None);
    assert_eq!(tree.nodes[0].children, vec![1, 3]);
    assert_eq!(tree.nodes[1].parent, Some(0));
    assert_eq!(tree.nodes[1].children, vec![2]);
    assert_eq!(tree.nodes[2].parent, Some(1));
    assert!(tree.nodes[2].children.is_empty());
    assert_eq!(tree.nodes[3].parent, Some(0));
    assert_eq!(tree.nodes[4].parent, None);
    assert_eq!(tree.nodes[4].payload, "payload-6");
}

#[test]
fn ancestors_are_nearest_first_and_parents_own_their_children() {
    let shape = convert(&vec![(0usize, 1u32), (1, 2), (2, 3), (1, 4)]);
    let store = store_of(
        vec![1, 2, 3, 4]
            .into_iter()
            .map(|id| (id, String::new()))
            .collect(),
    );
    let tree = materialize(&shape, store).unwrap();
    // node 2 (id 3) sits under node 1 (id 2) under node 0 (id 1)
    let chain = tree.ancestors_of(2);
    assert_eq!(chain, vec![1, 0]);
    // the nearest ancestor's child list holds the node itself
    for i in 0..tree.nodes.len() {
        if let Some(p) = tree.nodes[i].parent {
            let chain = tree.ancestors_of(i);
            assert_eq!(chain[0], p);
            assert!(tree.nodes[p].children.contains(&i));
        }
    }
    // the walk is restartable: asking again gives the same chain
    assert_eq!(tree.ancestors_of(2), vec![1, 0]);
    // a root has no ancestors
    assert_eq!(tree.ancestors_of(0), Vec::<usize>::new());
}

#[test]
fn back_reference_chains_descend_and_end() {
    // every ancestor chain walks strictly toward the front of the arena, so
    // the back-references cannot keep any part of the tree alive in a cycle
    let shape = convert(&vec![(0usize, 1u32), (1, 2), (2, 3), (3, 4), (0, 5), (1, 6)]);
    let store = store_of(
        vec![1, 2, 3, 4, 5, 6]
            .into_iter()
            .map(|id| (id, String::new()))
            .collect(),
    );
    let tree = materialize(&shape, store).unwrap();
    for i in 0..tree.nodes.len() {
        let chain = tree.ancestors_of(i);
        assert!(chain.len() <= i);
        let mut prev = i;
        for &a in &chain {
            assert!(a < prev);
            prev = a;
        }
    }
}

#[test]
fn materialize_missing_payload_fails_with_that_id() {
    let shape = convert(&vec![(0usize, 1u32), (1, 2), (1, 3)]);
    let store = store_of(vec![(1, String::new()), (3, String::new())]);
    let err = materialize(&shape, store).unwrap_err();
    assert_eq!(err.id, 2);
}

#[test]
fn materialize_duplicate_id_fails() {
    let shape = convert(&vec![(0usize, 1u32), (1, 2), (1, 2)]);
    let store = store_of(vec![(1, String::new()), (2, String::new())]);
    let err = materialize(&shape, store).unwrap_err();
    assert_eq!(err.id, 2);
}

#[test]
fn flatten_tree_rows_carry_ids_of_neighbours() {
    let shape = convert(&vec![(0usize, 10u32), (1, 20), (2, 30), (1, 40)]);
    let store = store_of(
        vec![10, 20, 30, 40]
            .into_iter()
            .map(|id| (id, String::new()))
            .collect(),
    );
    let tree = materialize(&shape, store).unwrap();
    let rows = tree.flatten_tree();
    assert_eq!(rows.len(), 4);
    assert_eq!(rows[0].id, 10);
    assert_eq!(rows[0].parent, None);
    assert_eq!(rows[0].children, vec![20, 40]);
    assert_eq!(rows[1].id, 20);
    assert_eq!(rows[1].parent, Some(10));
    assert_eq!(rows[1].children, vec![30]);
    assert_eq!(rows[2].id, 30);
    assert_eq!(rows[2].parent, Some(20));
    assert!(rows[2].children.is_empty());
    assert_eq!(rows[3].id, 40);
    assert_eq!(rows[3].parent, Some(10));
}
