use binary_tree::binary_tree::BinaryTree;
use binary_tree::shape::SNAPSHOT_SLOTS;

fn slots_of<T: Copy>(tree: &BinaryTree<T>) -> Vec<Option<T>> {
    tree.breadth_first_snapshot().into_iter().map(|slot| slot.copied()).collect()
}

#[test]
fn snapshot_has_sixty_three_slots() {
    assert_eq!(SNAPSHOT_SLOTS, 63);
}

#[test]
fn snapshot_of_empty_tree_is_all_absent() {
    let tree: BinaryTree<u8> = BinaryTree::from_array(&[]);
    let slots = tree.breadth_first_snapshot();
    assert_eq!(slots.len(), 63);
    assert!(slots.iter().all(|slot| slot.is_none()));
}

#[test]
fn snapshot_length_does_not_depend_on_the_tree() {
    let inputs: Vec<Vec<u8>> = vec![
        vec![],
        vec![7],
        vec![5, 3, 8, 3],
        (0..100).collect(),
        (0..100).rev().collect(),
        vec![32, 16, 48, 8, 24, 40, 56, 4, 12, 20, 28, 36, 44, 52, 60],
    ];
    for input in inputs {
        let tree = BinaryTree::from_array(&input);
        assert_eq!(tree.breadth_first_snapshot().len(), 63);
    }
}

#[test]
fn snapshot_of_five_three_eight_three() {
    let tree = BinaryTree::from_array(&[5u8, 3, 8, 3]);
    let mut expected: Vec<Option<u8>> = vec![None; 63];
    expected[0] = Some(5);
    expected[1] = Some(3);
    expected[2] = Some(8);
    expected[4] = Some(3);
    assert_eq!(slots_of(&tree), expected);
}

#[test]
fn snapshot_of_a_full_tree_reads_level_by_level() {
    let input: Vec<u8> = vec![4, 2, 6, 1, 3, 5, 7];
    let tree = BinaryTree::from_array(&input);
    let slots = slots_of(&tree);
    assert_eq!(&slots[..7], &[Some(4), Some(2), Some(6), Some(1), Some(3), Some(5), Some(7)]);
    assert!(slots[7..].iter().all(|slot| slot.is_none()));
}

#[test]
fn snapshot_leaves_out_what_lies_deeper() {
    let input: Vec<u8> = (1..=10).collect();
    let tree = BinaryTree::from_array(&input);
    let mut expected: Vec<Option<u8>> = vec![None; 63];
    expected[0] = Some(1);
    expected[2] = Some(2);
    expected[6] = Some(3);
    expected[14] = Some(4);
    expected[30] = Some(5);
    expected[62] = Some(6);
    assert_eq!(slots_of(&tree), expected);
    assert_eq!(tree.inorder_traversal().len(), 10);
}

#[test]
fn snapshot_of_a_left_chain() {
    let input: Vec<u8> = (1..=8).rev().collect();
    let tree = BinaryTree::from_array(&input);
    let mut expected: Vec<Option<u8>> = vec![None; 63];
    expected[0] = Some(8);
    expected[1] = Some(7);
    expected[3] = Some(6);
    expected[7] = Some(5);
    expected[15] = Some(4);
    expected[31] = Some(3);
    assert_eq!(slots_of(&tree), expected);
}

#[test]
fn snapshot_places_an_equal_value_to_the_right() {
    let tree = BinaryTree::from_array(&[5u8, 5]);
    let slots = slots_of(&tree);
    assert_eq!(slots[0], Some(5));
    assert_eq!(slots[1], None);
    assert_eq!(slots[2], Some(5));
}
