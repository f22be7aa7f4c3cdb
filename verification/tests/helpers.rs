use summa_solvency::circuits::solvency::{covers, node_is_fit};
use summa_solvency::circuits::{zero_amounts, zero_digest};
use summa_solvency::encoding::{amounts_equal, bytes_equal, encode_instance, push_amounts};
use summa_solvency::entry::{all_within, copy_amounts, copy_bytes, Entry};
use summa_solvency::layers::{leaf_layer, next_layer, pad_entries};
use summa_solvency::merkle_sum_tree::{all_have_assets, all_in_range};
use summa_solvency::node::{checked_add_sums, Node};
use summa_solvency::path::PathStep;
use summa_solvency::shape::Shape;
use summa_solvency::sorting::merge_entries;

fn entry(id: &str, balances: &[u128]) -> Entry {
    Entry::new(id.to_string(), balances.to_vec())
}

#[test]
fn amounts_are_pushed_in_sixteen_bytes_each() {
    let mut out = vec![7u8];
    push_amounts(&mut out, &vec![1, 0x0102]);
    let mut expected = vec![7u8];
    expected.extend(vec![0u8; 15]);
    expected.push(1);
    expected.extend(vec![0u8; 14]);
    expected.extend([1, 2]);
    assert_eq!(out, expected);
}

#[test]
fn vectors_are_compared_by_content() {
    assert!(bytes_equal(&vec![1, 2], &vec![1, 2]));
    assert!(!bytes_equal(&vec![1, 2], &vec![1, 3]));
    assert!(!bytes_equal(&vec![1, 2], &vec![1]));
    assert!(bytes_equal(&Vec::new(), &Vec::new()));
    assert!(amounts_equal(&vec![1, 2], &vec![1, 2]));
    assert!(!amounts_equal(&vec![1, 2], &vec![2, 1]));
    assert!(!amounts_equal(&vec![1], &vec![1, 0]));
}

#[test]
fn copies_hold_the_same_content() {
    assert_eq!(copy_amounts(&vec![3, 1, 2]), vec![3, 1, 2]);
    assert_eq!(copy_bytes(&vec![3, 1, 2]), vec![3, 1, 2]);
    let node = Node { hash: vec![1, 2], sums: vec![3] };
    assert_eq!(node.duplicate(), node);
    let step = PathStep { sibling: node, direction: 1 };
    assert_eq!(step.duplicate(), step);
}

#[test]
fn bounds_are_inclusive() {
    assert!(all_within(&vec![0, 5, 10], 10));
    assert!(!all_within(&vec![0, 11, 10], 10));
    assert!(all_within(&Vec::new(), 0));
    assert!(all_in_range(&vec![entry("a", &[10]), entry("b", &[])], 10));
    assert!(!all_in_range(&vec![entry("a", &[10]), entry("b", &[1, 11])], 10));
    assert!(all_have_assets(&vec![entry("a", &[1, 2]), entry("b", &[3, 4])], 2));
    assert!(!all_have_assets(&vec![entry("a", &[1, 2]), entry("b", &[3])], 2));
    assert!(all_have_assets(&Vec::new(), 2));
}

#[test]
fn sums_are_added_unless_one_exceeds_the_bound() {
    assert_eq!(checked_add_sums(&vec![1, 2], &vec![10, 20], 22), Some(vec![11, 22]));
    assert_eq!(checked_add_sums(&vec![1, 2], &vec![10, 20], 21), None);
    assert_eq!(checked_add_sums(&vec![u128::MAX], &vec![1], u128::MAX), None);
    assert_eq!(checked_add_sums(&vec![u128::MAX], &vec![0], u128::MAX), Some(vec![u128::MAX]));
    assert_eq!(checked_add_sums(&Vec::new(), &Vec::new(), 0), Some(Vec::new()));
}

#[test]
fn entries_are_padded_with_sentinels() {
    let all = pad_entries(vec![entry("a", &[1, 2])], 4, 2);
    assert_eq!(all.len(), 4);
    assert_eq!(all[0], entry("a", &[1, 2]));
    for padding in &all[1..] {
        assert_eq!(*padding, entry("0", &[0, 0]));
    }
    assert_eq!(pad_entries(vec![entry("a", &[1])], 1, 1), vec![entry("a", &[1])]);
}

#[test]
fn levels_are_built_from_the_level_below() {
    let entries = vec![entry("a", &[1]), entry("b", &[2]), entry("c", &[3]), entry("d", &[4])];
    let leaves = leaf_layer(&entries);
    assert_eq!(leaves.len(), 4);
    for (leaf, entry) in leaves.iter().zip(&entries) {
        assert_eq!(*leaf, Node::leaf(entry));
        assert_eq!(leaf.sums, entry.balances);
    }
    let above = next_layer(&leaves, 1, 7).unwrap();
    assert_eq!(above.len(), 2);
    assert_eq!(above[0], Node::parent(&leaves[0], &leaves[1], 7).unwrap());
    assert_eq!(above[1], Node::parent(&leaves[2], &leaves[3], 7).unwrap());
    assert_eq!(above[0].sums, vec![3]);
    assert_eq!(above[1].sums, vec![7]);
    assert!(next_layer(&leaves, 1, 6).is_none());
    assert_eq!(next_layer(&Vec::new(), 1, 6), Some(Vec::new()));
}

#[test]
fn merging_takes_the_left_first_among_equals() {
    let left = vec![entry("a", &[1]), entry("c", &[2]), entry("c", &[3])];
    let right = vec![entry("b", &[4]), entry("c", &[5]), entry("d", &[6])];
    let merged: Vec<u128> = merge_entries(left, right).iter().map(|e| e.balances[0]).collect();
    assert_eq!(merged, vec![1, 4, 2, 3, 5, 6]);
    assert_eq!(merge_entries(Vec::new(), vec![entry("a", &[1])]), vec![entry("a", &[1])]);
    assert_eq!(merge_entries(vec![entry("a", &[1])], Vec::new()), vec![entry("a", &[1])]);
    assert!(merge_entries(Vec::new(), Vec::new()).is_empty());
}

#[test]
fn reserves_cover_within_the_byte_width() {
    assert!(covers(&vec![10, 20], &vec![10, 275], 255));
    assert!(!covers(&vec![10, 20], &vec![10, 276], 255));
    assert!(!covers(&vec![10, 20], &vec![9, 20], 255));
    assert!(!covers(&vec![10, 20], &vec![10], 255));
    assert!(covers(&Vec::new(), &Vec::new(), 0));
    assert!(covers(&vec![0], &vec![u128::MAX], u128::MAX));
}

#[test]
fn node_fits_a_shape() {
    let shape = Shape::new(1, 2, 1);
    assert!(node_is_fit(&Node { hash: vec![0; 32], sums: vec![255, 0] }, &shape));
    assert!(!node_is_fit(&Node { hash: vec![0; 32], sums: vec![256, 0] }, &shape));
    assert!(!node_is_fit(&Node { hash: vec![0; 31], sums: vec![255, 0] }, &shape));
    assert!(!node_is_fit(&Node { hash: vec![0; 32], sums: vec![255] }, &shape));
}

#[test]
fn zeros_have_the_length_asked_for() {
    assert_eq!(zero_amounts(3), vec![0, 0, 0]);
    assert!(zero_amounts(0).is_empty());
    assert_eq!(zero_digest(), vec![0u8; 32]);
}

#[test]
fn instance_starts_with_the_digest_as_it_is() {
    let words = encode_instance(&vec![9, 8, 7], &vec![1]);
    assert_eq!(words.len(), 2);
    assert_eq!(words[0], vec![9, 8, 7]);
    let mut one = vec![0u8; 32];
    one[31] = 1;
    assert_eq!(words[1], one);
    assert_eq!(encode_instance(&Vec::new(), &Vec::new()), vec![Vec::<u8>::new()]);
}
