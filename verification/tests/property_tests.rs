//! Scenarios covering the documented behaviour across heights: fresh-tree
//! shape, round trips, idempotent recomputation, internal-node consistency,
//! invalidation, and the opening queries.

use merkle_tree::{BasicHasher, HashFunction, MerkleTree, MerkleTreeError};

fn basic_hash(input: String) -> String {
    format!("H({})", input)
}

/// The effective hash of a slot: its committed hash if set, else the
/// canonical empty-leaf hash.
fn effective(nodes: &[Option<String>], index: usize) -> String {
    match &nodes[index] {
        Some(h) => h.clone(),
        None => basic_hash("empty node".to_string()),
    }
}

#[test]
fn basic_hasher_wraps_input() {
    assert_eq!("H(abc)", BasicHasher.hash("abc"));
    assert_eq!("H()", BasicHasher.hash(""));
}

#[test]
fn fresh_tree_shape_for_every_valid_height() {
    for height in 1..=10usize {
        let mt = MerkleTree::from_height(BasicHasher, height).unwrap();
        assert_eq!(height, mt.height());
        assert_eq!(0, mt.length());
        assert_eq!(1 << height, mt.first_leaf_node_index());
        assert_eq!(vec![None; 1 << (height + 1)], mt.nodes());
    }
}

#[test]
fn insert_then_get_value_round_trip() {
    let values = ["alpha", "beta", "gamma", "delta", "epsilon"];
    let mut mt = MerkleTree::from_height(BasicHasher, 3).unwrap();

    for value in values.iter() {
        mt.insert(value.to_string()).unwrap();
    }

    assert_eq!(values.len(), mt.length());
    // no recomputation is needed to read leaves back
    for (j, value) in values.iter().enumerate() {
        assert_eq!(basic_hash(value.to_string()), mt.get_value(j).unwrap());
    }
}

#[test]
fn insert_beyond_capacity_changes_nothing() {
    let mut mt = MerkleTree::from_height(BasicHasher, 2).unwrap();
    for k in 0..4 {
        mt.insert(format!("{}", k)).unwrap();
    }
    mt.update_internal_nodes();

    let before = mt.nodes();
    let result = mt.insert("too many".to_string());

    assert_eq!(Some(MerkleTreeError::TreeFull), result.err());
    assert_eq!(4, mt.length());
    assert_eq!(before, mt.nodes());
}

#[test]
fn update_internal_nodes_is_idempotent() {
    let mut mt = MerkleTree::from_height(BasicHasher, 2).unwrap();
    mt.insert("a".to_string()).unwrap();
    mt.insert("b".to_string()).unwrap();
    mt.insert("c".to_string()).unwrap();

    mt.update_internal_nodes();
    let first = mt.nodes();
    mt.update_internal_nodes();
    let second = mt.nodes();

    assert_eq!(first, second);
}

#[test]
fn internal_nodes_agree_with_children_after_update() {
    let mut mt = MerkleTree::from_height(BasicHasher, 2).unwrap();
    mt.insert("1".to_string()).unwrap();
    mt.insert("2".to_string()).unwrap();
    mt.insert("3".to_string()).unwrap();
    mt.update_internal_nodes();

    let nodes = mt.nodes();
    let first_leaf = mt.first_leaf_node_index();
    for i in 1..first_leaf {
        let expected = basic_hash(format!(
            "{} | {}",
            effective(&nodes, 2 * i),
            effective(&nodes, 2 * i + 1)
        ));
        assert_eq!(Some(expected), nodes[i]);
    }
}

#[test]
fn height_one_scenario_full() {
    let mut mt = MerkleTree::from_height(BasicHasher, 1).unwrap();

    mt.insert("1".to_string()).unwrap();
    assert_eq!(vec![None, None, Some("H(1)".to_string()), None], mt.nodes());

    mt.insert("2".to_string()).unwrap();
    assert_eq!(
        vec![
            None,
            None,
            Some("H(1)".to_string()),
            Some("H(2)".to_string())
        ],
        mt.nodes()
    );

    mt.update_internal_nodes();
    assert_eq!(
        Some("H(H(1) | H(2))".to_string()),
        mt.nodes()[1]
    );
    assert_eq!("H(H(1) | H(2))", mt.get_root().unwrap());
}

#[test]
fn height_one_scenario_half_full_root() {
    let mut mt = MerkleTree::from_height(BasicHasher, 1).unwrap();
    mt.insert("1".to_string()).unwrap();
    mt.update_internal_nodes();

    assert_eq!("H(H(1) | H(empty node))", mt.get_root().unwrap());
}

#[test]
fn insert_resets_computed_root() {
    let mut mt = MerkleTree::from_height(BasicHasher, 1).unwrap();
    mt.insert("1".to_string()).unwrap();
    mt.update_internal_nodes();
    assert!(mt.get_root().is_ok());

    mt.insert("2".to_string()).unwrap();
    assert_eq!(None, mt.nodes()[1]);
    assert_eq!(
        Some(MerkleTreeError::UncomputedInternalNode),
        mt.get_root().err()
    );
}

#[test]
fn deep_tree_root_is_rebuilt_consistently() {
    let mut mt = MerkleTree::from_height(BasicHasher, 2).unwrap();
    mt.insert("1".to_string()).unwrap();
    mt.insert("2".to_string()).unwrap();
    mt.insert("3".to_string()).unwrap();
    mt.update_internal_nodes();

    let left = "H(H(1) | H(2))";
    let right = "H(H(3) | H(empty node))";
    assert_eq!(
        format!("H({} | {})", left, right),
        mt.get_root().unwrap()
    );
}

#[test]
fn height_one_get_opening() {
    let mut mt = MerkleTree::from_height(BasicHasher, 1).unwrap();
    mt.insert("1".to_string()).unwrap();
    mt.insert("2".to_string()).unwrap();

    // for height 1 the child of the root is the leaf itself, so no
    // recomputation is needed
    let opening = mt.get_opening(0).unwrap();
    assert_eq!("H(2)", opening.partner_hash);
    assert_eq!("H(1)", opening.root_child_hash);

    let opening = mt.get_opening(1).unwrap();
    assert_eq!("H(1)", opening.partner_hash);
    assert_eq!("H(2)", opening.root_child_hash);
}

#[test]
fn height_two_get_opening_after_update() {
    let mut mt = MerkleTree::from_height(BasicHasher, 2).unwrap();
    mt.insert("1".to_string()).unwrap();
    mt.update_internal_nodes();

    let opening = mt.get_opening(0).unwrap();
    assert_eq!("H(empty node)", opening.partner_hash);
    assert_eq!("H(H(1) | H(empty node))", opening.root_child_hash);
}

#[test]
fn height_two_get_opening_stale_is_uncomputed() {
    let mut mt = MerkleTree::from_height(BasicHasher, 2).unwrap();
    mt.insert("1".to_string()).unwrap();

    let result = mt.get_opening(0);
    assert_eq!(Some(MerkleTreeError::UncomputedInternalNode), result.err());
}

#[test]
fn get_opening_out_of_bounds() {
    let mt = MerkleTree::from_height(BasicHasher, 1).unwrap();

    let result = mt.get_opening(2);
    assert_eq!(Some(MerkleTreeError::OutOfBounds), result.err());
}
