use binary_tree::binary_tree::BinaryTree;

#[derive(Clone, Copy, Debug, PartialEq)]
struct Keyed {
    key: u8,
    tag: char,
}

impl PartialOrd for Keyed {
    fn partial_cmp(&self, other: &Keyed) -> Option<std::cmp::Ordering> {
        self.key.partial_cmp(&other.key)
    }
}

fn values_of<T: Copy>(tree: &BinaryTree<T>) -> Vec<T> {
    tree.inorder_traversal().into_iter().copied().collect()
}

#[test]
fn inorder_of_empty_input_is_empty() {
    let tree: BinaryTree<u8> = BinaryTree::from_array(&[]);
    assert!(tree.inorder_traversal().is_empty());
}

#[test]
fn single_value_is_its_own_inorder() {
    for value in [0u8, 1, 127, 255] {
        let tree = BinaryTree::from_array(&[value]);
        assert_eq!(tree.inorder_traversal(), vec![&value]);
    }
}

#[test]
fn inorder_of_five_three_eight_three() {
    let tree = BinaryTree::from_array(&[5, 3, 8, 3]);
    assert_eq!(tree.inorder_traversal(), vec![&3, &3, &5, &8]);
}

#[test]
fn inorder_keeps_every_value() {
    let input: Vec<u32> = vec![9, 1, 9, 4, 4, 4, 0, 7, 2, 9, 1];
    let tree = BinaryTree::from_array(&input);
    let output = values_of(&tree);
    assert_eq!(output.len(), input.len());
    let mut sorted = input.clone();
    sorted.sort();
    assert_eq!(output, sorted);
}

#[test]
fn inorder_is_ascending() {
    let input: Vec<i64> = vec![12, -3, 22, 4, 5, 9, -3, 0, 100, -50, 12];
    let tree = BinaryTree::from_array(&input);
    let output = values_of(&tree);
    for pair in output.windows(2) {
        assert!(!(pair[0] > pair[1]));
    }
    assert_eq!(output, vec![-50, -3, -3, 0, 4, 5, 9, 12, 12, 22, 100]);
}

#[test]
fn inorder_of_rising_input_is_the_input() {
    let input: Vec<u16> = (0..200).collect();
    let tree = BinaryTree::from_array(&input);
    assert_eq!(values_of(&tree), input);
}

#[test]
fn inorder_of_falling_input_is_the_reverse() {
    let input: Vec<u16> = (0..200).rev().collect();
    let tree = BinaryTree::from_array(&input);
    let expected: Vec<u16> = (0..200).collect();
    assert_eq!(values_of(&tree), expected);
}

#[test]
fn equal_keys_stay_in_the_order_of_insertion() {
    let input = [
        Keyed { key: 3, tag: 'a' },
        Keyed { key: 5, tag: 'b' },
        Keyed { key: 3, tag: 'c' },
        Keyed { key: 1, tag: 'd' },
        Keyed { key: 5, tag: 'e' },
        Keyed { key: 3, tag: 'f' },
    ];
    let tree = BinaryTree::from_array(&input);
    let tags: Vec<char> = values_of(&tree).iter().map(|item| item.tag).collect();
    assert_eq!(tags, vec!['d', 'a', 'c', 'f', 'b', 'e']);
}

#[test]
fn traversal_can_be_repeated() {
    let tree = BinaryTree::from_array(&[2u8, 1, 3]);
    assert_eq!(tree.inorder_traversal(), tree.inorder_traversal());
    assert_eq!(tree.inorder_traversal(), vec![&1, &2, &3]);
}

#[test]
fn inorder_works_without_a_total_order() {
    let input = [2.5f64, -1.0, 7.25, 2.5, 0.0];
    let tree = BinaryTree::from_array(&input);
    assert_eq!(values_of(&tree), vec![-1.0, 0.0, 2.5, 2.5, 7.25]);
}
