use ethers::utils::keccak256;
use summa_solvency::encoding::push_be_bytes;
use summa_solvency::entry::Entry;
use summa_solvency::hash::{hash_leaf, hash_node};
use summa_solvency::merkle_sum_tree::{BuildMode, MerkleSumTree, TreeError};
use summa_solvency::node::Node;
use summa_solvency::shape::Shape;
use summa_solvency::sorting::{id_le, sort_entries};

fn entry(id: &str, balances: &[u128]) -> Entry {
    Entry::new(id.to_string(), balances.to_vec())
}

fn two_users() -> Vec<Entry> {
    vec![
        entry("userA", &[300000, 300000]),
        entry("userB", &[256863, 256863]),
    ]
}

fn word16(value: u128) -> Vec<u8> {
    value.to_be_bytes().to_vec()
}

fn expected_leaf_hash(id: &str, balances: &[u128]) -> Vec<u8> {
    let mut preimage = vec![0u8];
    for balance in balances {
        preimage.extend(word16(*balance));
    }
    preimage.extend(id.as_bytes());
    keccak256(preimage).to_vec()
}

fn expected_node_hash(left: &Node, right: &Node) -> Vec<u8> {
    let mut preimage = vec![1u8];
    preimage.extend(&left.hash);
    preimage.extend(&right.hash);
    for sum in &left.sums {
        preimage.extend(word16(*sum));
    }
    for sum in &right.sums {
        preimage.extend(word16(*sum));
    }
    keccak256(preimage).to_vec()
}

#[test]
fn root_sums_of_two_users() {
    let tree = MerkleSumTree::build(Shape::new(1, 2, 8), two_users(), BuildMode::Natural).unwrap();
    assert_eq!(tree.root().sums, vec![556863, 556863]);
}

#[test]
fn root_hash_binds_both_leaves_and_their_sums() {
    let tree = MerkleSumTree::build(Shape::new(1, 2, 8), two_users(), BuildMode::Natural).unwrap();
    let left = Node {
        hash: expected_leaf_hash("userA", &[300000, 300000]),
        sums: vec![300000, 300000],
    };
    let right = Node {
        hash: expected_leaf_hash("userB", &[256863, 256863]),
        sums: vec![256863, 256863],
    };
    assert_eq!(tree.root().hash, expected_node_hash(&left, &right));
    let children = tree.root_children();
    assert_eq!(children.0.hash, left.hash);
    assert_eq!(children.0.sums, left.sums);
    assert_eq!(children.1.hash, right.hash);
    assert_eq!(children.1.sums, right.sums);
}

#[test]
fn leaf_hash_is_keccak_of_tag_balances_and_id() {
    let digest = hash_leaf("userA", &vec![300000, 300000]);
    assert_eq!(digest, expected_leaf_hash("userA", &[300000, 300000]));
    assert_eq!(digest.len(), 32);
}

#[test]
fn hash_of_the_empty_leaf_is_keccak_of_the_tag() {
    let digest = hash_leaf("", &Vec::new());
    let expected: [u8; 32] = [
        0xbc, 0x36, 0x78, 0x9e, 0x7a, 0x1e, 0x28, 0x14, 0x36, 0x46, 0x42, 0x29, 0x82, 0x8f, 0x81,
        0x7d, 0x66, 0x12, 0xf7, 0xb4, 0x77, 0xd6, 0x65, 0x91, 0xff, 0x96, 0xa9, 0xe0, 0x64, 0xbc,
        0xc9, 0x8a,
    ];
    assert_eq!(digest, expected.to_vec());
}

#[test]
fn node_hash_is_keccak_of_tag_digests_and_sums() {
    let left = Node { hash: vec![1u8; 32], sums: vec![5, 6] };
    let right = Node { hash: vec![2u8; 32], sums: vec![7, 8] };
    let digest = hash_node(&left.hash, &left.sums, &right.hash, &right.sums);
    assert_eq!(digest, expected_node_hash(&left, &right));
}

#[test]
fn leaf_and_node_hashes_are_separated() {
    let leaf = hash_leaf("", &Vec::new());
    let node = hash_node(&Vec::new(), &Vec::new(), &Vec::new(), &Vec::new());
    assert_ne!(leaf, node);
}

#[test]
fn parent_adds_the_sums() {
    let left = Node { hash: vec![1u8; 32], sums: vec![5, 6] };
    let right = Node { hash: vec![2u8; 32], sums: vec![7, 8] };
    let parent = Node::parent(&left, &right, 14).unwrap();
    assert_eq!(parent.sums, vec![12, 14]);
    assert_eq!(parent.hash, expected_node_hash(&left, &right));
    assert!(Node::parent(&left, &right, 13).is_none());
}

#[test]
fn building_twice_gives_the_same_root() {
    for mode in [BuildMode::Natural, BuildMode::Sorted] {
        let first = MerkleSumTree::build(Shape::new(2, 2, 8), two_users(), mode).unwrap();
        let second = MerkleSumTree::build(Shape::new(2, 2, 8), two_users(), mode).unwrap();
        assert_eq!(first.root().hash, second.root().hash);
        assert_eq!(first.root().sums, second.root().sums);
    }
}

#[test]
fn root_sums_are_the_totals_of_all_balances() {
    let entries = vec![
        entry("a", &[1, 10, 100]),
        entry("b", &[2, 20, 200]),
        entry("c", &[3, 30, 300]),
        entry("d", &[4, 40, 400]),
    ];
    let tree = MerkleSumTree::build(Shape::new(2, 3, 2), entries, BuildMode::Natural).unwrap();
    assert_eq!(tree.root().sums, vec![10, 100, 1000]);
}

#[test]
fn unused_leaves_hold_sentinels_that_add_nothing() {
    let entries = vec![entry("a", &[1, 10]), entry("b", &[2, 20]), entry("c", &[3, 30])];
    let tree = MerkleSumTree::build(Shape::new(3, 2, 2), entries, BuildMode::Natural).unwrap();
    assert_eq!(tree.root().sums, vec![6, 60]);
    assert_eq!(tree.entry(0).id, "a");
    assert_eq!(tree.entry(2).id, "c");
    for index in 3..8 {
        assert_eq!(tree.entry(index).id, "0");
        assert_eq!(tree.entry(index).balances, vec![0, 0]);
    }
}

#[test]
fn tree_of_no_entries_is_all_sentinels() {
    let tree = MerkleSumTree::build(Shape::new(1, 1, 1), Vec::new(), BuildMode::Natural).unwrap();
    assert_eq!(tree.root().sums, vec![0]);
    assert_eq!(tree.entry(0).id, "0");
    assert_eq!(tree.entry(1).id, "0");
    let sentinel = Entry::sentinel(1);
    assert_eq!(sentinel.id, "0");
    assert_eq!(sentinel.balances, vec![0]);
}

#[test]
fn sorted_mode_orders_by_identifier_and_keeps_the_sums() {
    let entries = || vec![entry("carol", &[3]), entry("alice", &[1]), entry("bob", &[2])];
    let natural = MerkleSumTree::build(Shape::new(2, 1, 1), entries(), BuildMode::Natural).unwrap();
    let sorted = MerkleSumTree::build(Shape::new(2, 1, 1), entries(), BuildMode::Sorted).unwrap();
    assert_eq!(sorted.entry(0).id, "alice");
    assert_eq!(sorted.entry(1).id, "bob");
    assert_eq!(sorted.entry(2).id, "carol");
    assert_eq!(sorted.entry(3).id, "0");
    assert_eq!(natural.entry(0).id, "carol");
    assert_eq!(natural.root().sums, sorted.root().sums);
    assert_ne!(natural.root().hash, sorted.root().hash);
}

#[test]
fn sorting_keeps_equal_identifiers_in_the_order_given() {
    let sorted = sort_entries(vec![
        entry("b", &[1]),
        entry("a", &[2]),
        entry("b", &[3]),
        entry("a", &[4]),
    ]);
    let seen: Vec<(String, u128)> =
        sorted.iter().map(|e| (e.id.clone(), e.balances[0])).collect();
    assert_eq!(
        seen,
        vec![
            ("a".to_string(), 2),
            ("a".to_string(), 4),
            ("b".to_string(), 1),
            ("b".to_string(), 3)
        ]
    );
}

#[test]
fn identifiers_compare_byte_by_byte() {
    assert!(id_le("", ""));
    assert!(id_le("", "a"));
    assert!(!id_le("a", ""));
    assert!(id_le("a", "a"));
    assert!(id_le("a", "ab"));
    assert!(!id_le("ab", "a"));
    assert!(id_le("ab", "b"));
    assert!(!id_le("b", "ab"));
    assert!(id_le("Z", "a"));
    assert!(id_le("z", "é"));
}

#[test]
fn more_entries_than_leaves_are_rejected() {
    let entries = vec![entry("a", &[1]), entry("b", &[2]), entry("c", &[3])];
    let result = MerkleSumTree::build(Shape::new(1, 1, 1), entries, BuildMode::Natural);
    assert_eq!(result.err(), Some(TreeError::TooManyEntries));
}

#[test]
fn wrong_number_of_balances_is_rejected() {
    let entries = vec![entry("a", &[1, 2]), entry("b", &[2])];
    let result = MerkleSumTree::build(Shape::new(1, 2, 1), entries, BuildMode::Natural);
    assert_eq!(result.err(), Some(TreeError::AssetCountMismatch));
}

#[test]
fn balance_beyond_the_byte_width_is_rejected() {
    let entries = vec![entry("a", &[255]), entry("b", &[256])];
    let result = MerkleSumTree::build(Shape::new(1, 1, 1), entries, BuildMode::Sorted);
    assert_eq!(result.err(), Some(TreeError::BalanceOutOfRange));
    let entries = vec![entry("a", &[255]), entry("b", &[0])];
    assert!(MerkleSumTree::build(Shape::new(1, 1, 1), entries, BuildMode::Sorted).is_ok());
}

#[test]
fn total_beyond_the_byte_width_is_rejected() {
    let entries = vec![entry("a", &[200]), entry("b", &[56])];
    let result = MerkleSumTree::build(Shape::new(1, 1, 1), entries, BuildMode::Natural);
    assert_eq!(result.err(), Some(TreeError::SumOutOfRange));
    let entries = vec![entry("a", &[u128::MAX]), entry("b", &[1])];
    let result = MerkleSumTree::build(Shape::new(1, 1, 16), entries, BuildMode::Natural);
    assert_eq!(result.err(), Some(TreeError::SumOutOfRange));
    let entries = vec![entry("a", &[200]), entry("b", &[55])];
    let tree = MerkleSumTree::build(Shape::new(1, 1, 1), entries, BuildMode::Natural).unwrap();
    assert_eq!(tree.root().sums, vec![255]);
}

#[test]
fn checks_are_made_in_a_fixed_order() {
    let entries = vec![entry("a", &[999]), entry("b", &[1, 2]), entry("c", &[3])];
    let result = MerkleSumTree::build(Shape::new(1, 1, 1), entries, BuildMode::Natural);
    assert_eq!(result.err(), Some(TreeError::TooManyEntries));
    let entries = vec![entry("a", &[999]), entry("b", &[1, 2])];
    let result = MerkleSumTree::build(Shape::new(1, 1, 1), entries, BuildMode::Natural);
    assert_eq!(result.err(), Some(TreeError::AssetCountMismatch));
    let result = MerkleSumTree::build(Shape::new(0, 1, 1), Vec::new(), BuildMode::Natural);
    assert_eq!(result.err(), Some(TreeError::InvalidShape));
}

#[test]
fn shapes_out_of_bounds_are_rejected() {
    for shape in [
        Shape::new(0, 1, 1),
        Shape::new(32, 1, 1),
        Shape::new(1, 1, 0),
        Shape::new(1, 1, 17),
    ] {
        assert!(!shape.is_valid());
        let result = MerkleSumTree::build(shape, Vec::new(), BuildMode::Natural);
        assert_eq!(result.err(), Some(TreeError::InvalidShape));
    }
    assert!(Shape::new(1, 0, 1).is_valid());
    assert!(Shape::new(31, 1, 16).is_valid());
}

#[test]
fn capacity_is_two_to_the_levels() {
    assert_eq!(Shape::new(1, 1, 1).capacity(), 2);
    assert_eq!(Shape::new(3, 1, 1).capacity(), 8);
    assert_eq!(Shape::new(15, 1, 1).capacity(), 32768);
    assert_eq!(Shape::new(31, 1, 1).capacity(), 2147483648);
}

#[test]
fn max_amount_is_the_greatest_number_of_the_byte_width() {
    assert_eq!(Shape::new(1, 1, 1).max_amount(), 255);
    assert_eq!(Shape::new(1, 1, 2).max_amount(), 65535);
    assert_eq!(Shape::new(1, 1, 14).max_amount(), (1u128 << 112) - 1);
    assert_eq!(Shape::new(1, 1, 16).max_amount(), u128::MAX);
}

#[test]
fn entry_fits_its_shape() {
    let shape = Shape::new(1, 2, 1);
    assert!(entry("a", &[0, 255]).fits(&shape));
    assert!(!entry("a", &[0, 256]).fits(&shape));
    assert!(!entry("a", &[0]).fits(&shape));
}

#[test]
fn amounts_are_encoded_most_significant_byte_first() {
    let mut out = vec![9u8];
    push_be_bytes(&mut out, 0x0102_0304, 6);
    assert_eq!(out, vec![9, 0, 0, 1, 2, 3, 4]);
    let mut out = Vec::new();
    push_be_bytes(&mut out, 0x0102_0304, 2);
    assert_eq!(out, vec![3, 4]);
    let mut out = Vec::new();
    push_be_bytes(&mut out, u128::MAX, 17);
    assert_eq!(out[0], 0);
    assert_eq!(out[1..], [255u8; 16]);
}

#[test]
fn path_holds_the_sibling_of_every_level() {
    let entries = vec![
        entry("a", &[1]),
        entry("b", &[2]),
        entry("c", &[4]),
        entry("d", &[8]),
    ];
    let tree = MerkleSumTree::build(Shape::new(2, 1, 1), entries, BuildMode::Natural).unwrap();
    let path = tree.path(2).unwrap();
    assert_eq!(path.len(), 2);
    assert_eq!(path[0].direction, 0);
    assert_eq!(path[0].sibling.sums, vec![8]);
    assert_eq!(path[0].sibling.hash, expected_leaf_hash("d", &[8]));
    assert_eq!(path[1].direction, 1);
    assert_eq!(path[1].sibling.sums, vec![3]);
    let path = tree.path(1).unwrap();
    assert_eq!(path[0].direction, 1);
    assert_eq!(path[0].sibling.sums, vec![1]);
    assert_eq!(path[1].direction, 0);
    assert_eq!(path[1].sibling.sums, vec![12]);
}

#[test]
fn path_of_a_missing_leaf_is_an_error() {
    let tree = MerkleSumTree::build(Shape::new(1, 2, 8), two_users(), BuildMode::Natural).unwrap();
    assert!(tree.path(1).is_ok());
    assert_eq!(tree.path(2).err(), Some(TreeError::IndexOutOfRange));
}

#[test]
fn tree_keeps_its_shape_and_entries() {
    let tree = MerkleSumTree::build(Shape::new(1, 2, 8), two_users(), BuildMode::Natural).unwrap();
    assert_eq!(tree.shape(), Shape::new(1, 2, 8));
    assert_eq!(tree.entry(0).id(), "userA");
    assert_eq!(tree.entry(1).balances(), &vec![256863, 256863]);
    let copy = tree.entry(1).duplicate();
    assert_eq!(copy.id, "userB");
    assert_eq!(copy.balances, vec![256863, 256863]);
}

#[test]
fn larger_tree_in_both_modes() {
    let entries = || -> Vec<Entry> {
        (0..3000u128)
            .map(|i| entry(&format!("user{}", (i * 7919) % 3000), &[i, 2 * i]))
            .collect()
    };
    let shape = Shape::new(12, 2, 4);
    let natural = MerkleSumTree::build(shape, entries(), BuildMode::Natural).unwrap();
    let sorted = MerkleSumTree::build(shape, entries(), BuildMode::Sorted).unwrap();
    let total: u128 = (0..3000u128).sum();
    assert_eq!(natural.root().sums, vec![total, 2 * total]);
    assert_eq!(sorted.root().sums, vec![total, 2 * total]);
    for index in 1..3000 {
        assert!(sorted.entry(index - 1).id <= sorted.entry(index).id);
    }
    assert_eq!(sorted.entry(0).id, "user0");
    assert_eq!(sorted.entry(2999).id, "user999");
    assert_eq!(sorted.entry(3000).id, "0");
    assert_eq!(natural.entry(1).id, "user1919");
    assert_eq!(natural.path(4095).unwrap().len(), 12);
}
