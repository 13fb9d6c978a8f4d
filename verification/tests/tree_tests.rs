//! Construction, insertion, recomputation and query behaviour on small
//! trees, inspected through the public accessors.

use merkle_tree::{BasicHasher, MerkleTree, MerkleTreeError};

fn basic_hash(input: String) -> String {
    format!("H({})", input)
}

#[test]
fn from_height_zero_is_invalid() {
    let result = MerkleTree::from_height(BasicHasher, 0);
    assert_eq!(Some(MerkleTreeError::InvalidHeight), result.err());
}

#[test]
fn from_height_one() {
    let mt = MerkleTree::from_height(BasicHasher, 1).unwrap();

    assert_eq!(1, mt.height());
    assert_eq!(0, mt.length());
    assert_eq!(2, mt.first_leaf_node_index());
    assert_eq!(vec![None; 4], mt.nodes());
}

#[test]
fn from_height_five() {
    let mt = MerkleTree::from_height(BasicHasher, 5).unwrap();

    assert_eq!(5, mt.height());
    assert_eq!(0, mt.length());
    assert_eq!(32, mt.first_leaf_node_index());
    assert_eq!(vec![None; 64], mt.nodes());
}

#[test]
fn from_height_ten() {
    let mt = MerkleTree::from_height(BasicHasher, 10).unwrap();

    assert_eq!(10, mt.height());
    assert_eq!(0, mt.length());
    assert_eq!(1024, mt.first_leaf_node_index());
    assert_eq!(vec![None; 2048], mt.nodes());
}

#[test]
fn from_height_eleven_is_invalid() {
    let result = MerkleTree::from_height(BasicHasher, 11);
    assert_eq!(Some(MerkleTreeError::InvalidHeight), result.err());
}

#[test]
fn height_one_insert() {
    let mut mt = MerkleTree::from_height(BasicHasher, 1).unwrap();

    let value_one = "1".to_string();
    let node_one = basic_hash(value_one.clone());

    mt.insert(value_one).unwrap();
    assert_eq!(1, mt.length());
    assert_eq!(vec![None, None, Some(node_one.clone()), None], mt.nodes());

    let value_two = "2".to_string();
    let node_two = basic_hash(value_two.clone());

    mt.insert(value_two).unwrap();
    assert_eq!(2, mt.length());
    assert_eq!(vec![None, None, Some(node_one), Some(node_two)], mt.nodes());
}

#[test]
fn height_one_insert_full_is_rejected() {
    let mut full_mt = MerkleTree::from_height(BasicHasher, 1).unwrap();
    full_mt.insert("1".to_string()).unwrap();
    full_mt.insert("2".to_string()).unwrap();

    let before = full_mt.nodes();
    let result = full_mt.insert("3".to_string());

    assert_eq!(Some(MerkleTreeError::TreeFull), result.err());
    // a rejected insertion changes nothing
    assert_eq!(2, full_mt.length());
    assert_eq!(before, full_mt.nodes());
}

#[test]
fn height_one_insert_two_set_root_to_none() {
    let root = basic_hash("H(1) | H(empty node)".to_string());
    let node_one = basic_hash("1".to_string());

    let mut mt = MerkleTree::from_height(BasicHasher, 1).unwrap();
    mt.insert("1".to_string()).unwrap();
    mt.update_internal_nodes();
    assert_eq!(
        vec![None, Some(root), Some(node_one.clone()), None],
        mt.nodes()
    );

    let value_two = "2".to_string();
    let node_two = basic_hash(value_two.clone());

    mt.insert(value_two).unwrap();
    assert_eq!(2, mt.length());
    assert_eq!(vec![None, None, Some(node_one), Some(node_two)], mt.nodes());
}

#[test]
fn height_one_empty_update_internal_node() {
    let mut mt = MerkleTree::from_height(BasicHasher, 1).unwrap();

    mt.update_internal_nodes();

    let root = "H(H(empty node) | H(empty node))".to_string();

    assert_eq!(vec![None, Some(root), None, None], mt.nodes());
}

#[test]
fn height_one_half_full_update_internal_node() {
    let node_one = "H(1)".to_string();

    let mut mt = MerkleTree::from_height(BasicHasher, 1).unwrap();
    mt.insert("1".to_string()).unwrap();

    mt.update_internal_nodes();

    let root = "H(H(1) | H(empty node))".to_string();

    assert_eq!(vec![None, Some(root), Some(node_one), None], mt.nodes());
}

#[test]
fn height_one_full_update_internal_node() {
    let node_one = "H(1)".to_string();
    let node_two = "H(2)".to_string();

    let mut mt = MerkleTree::from_height(BasicHasher, 1).unwrap();
    mt.insert("1".to_string()).unwrap();
    mt.insert("2".to_string()).unwrap();

    mt.update_internal_nodes();

    let root = "H(H(1) | H(2))".to_string();

    assert_eq!(
        vec![None, Some(root), Some(node_one), Some(node_two)],
        mt.nodes()
    );
}

#[test]
fn height_one_get_root_none_is_uncomputed() {
    let mt = MerkleTree::from_height(BasicHasher, 1).unwrap();

    let result = mt.get_root();
    assert_eq!(Some(MerkleTreeError::UncomputedInternalNode), result.err());
}

#[test]
fn height_one_get_root_some() {
    let mut mt = MerkleTree::from_height(BasicHasher, 1).unwrap();
    mt.insert("1".to_string()).unwrap();
    mt.insert("2".to_string()).unwrap();
    mt.update_internal_nodes();

    assert_eq!("H(H(1) | H(2))", mt.get_root().unwrap());
}

#[test]
fn height_one_half_full_get_value() {
    let mut mt = MerkleTree::from_height(BasicHasher, 1).unwrap();
    mt.insert("1".to_string()).unwrap();

    assert_eq!("H(1)", mt.get_value(0).unwrap());
    assert_eq!("H(empty node)", mt.get_value(1).unwrap());
}

#[test]
fn height_one_get_value_out_of_bounds() {
    let mt = MerkleTree::from_height(BasicHasher, 1).unwrap();

    let result = mt.get_value(2);
    assert_eq!(Some(MerkleTreeError::OutOfBounds), result.err());
}
