//! The tree itself: nodes that own their children, insertion, and the
//! traversals.

use vstd::prelude::*;
use crate::order::comparison_is_specified;
use crate::order::is_strict_order;
use crate::shape::is_ascending;
use crate::shape::Shape;
use crate::shape::SNAPSHOT_SLOTS;

verus! {

/// One value and the two subtrees below it. A node owns its children; there
/// is no way back up.
#[derive(Debug)]
pub struct Node<T> {
    value: T,
    left: Option<Box<Node<T>>>,
    right: Option<Box<Node<T>>>,
}

/// An unbalanced binary search tree. It owns all of its nodes and hands out
/// values only, never nodes.
#[derive(Debug)]
pub struct BinaryTree<T> {
    root: Option<Box<Node<T>>>,
}

/// The values that a sequence of references points to.
pub open spec fn pointees<T>(references: Seq<&T>) -> Seq<T> {
    references.map_values(|reference: &T| *reference)
}

/// What an optional reference points to, if it is there.
pub open spec fn slot_pointee<T>(reference: Option<&T>) -> Option<T> {
    match reference {
        Some(value) => Some(*value),
        None => None,
    }
}

/// What a sequence of optional references points to, slot by slot.
pub open spec fn slot_pointees<T>(references: Seq<Option<&T>>) -> Seq<Option<T>> {
    references.map_values(|reference: Option<&T>| slot_pointee(reference))
}

impl<T> Node<T> {
    /// The shape of the subtree that starts at this node.
    pub closed spec fn shape(self) -> Shape<T>
        decreases self,
    {
        Shape::Fork {
            left: Box::new(
                match self.left {
                    Some(child) => child.shape(),
                    None => Shape::Empty,
                },
            ),
            value: self.value,
            right: Box::new(
                match self.right {
                    Some(child) => child.shape(),
                    None => Shape::Empty,
                },
            ),
        }
    }
}

impl<T> View for Node<T> {
    type V = Shape<T>;

    open spec fn view(&self) -> Shape<T> {
        self.shape()
    }
}

impl<T> View for BinaryTree<T> {
    type V = Shape<T>;

    closed spec fn view(&self) -> Shape<T> {
        Self::shape_of(self.root)
    }
}

impl<T> BinaryTree<T> {
    /// The shape below an owned link.
    pub closed spec fn shape_of(link: Option<Box<Node<T>>>) -> Shape<T> {
        match link {
            Some(node) => node.shape(),
            None => Shape::Empty,
        }
    }

    /// The shape below a borrowed link.
    pub closed spec fn shape_at(link: Option<&Box<Node<T>>>) -> Shape<T> {
        match link {
            Some(node) => node.shape(),
            None => Shape::Empty,
        }
    }

    /// Builds a tree by inserting the values of `array` one at a time, in the
    /// order given, into an empty tree.
    ///
    /// The tree holds each value as often as `array` does. Where the
    /// comparison of `T` is specified, the tree is exactly `Shape::build` of
    /// the values, and it is in search-tree order; where `>` is moreover a
    /// strict order, its in-order sequence is ascending.
    pub fn from_array(array: &[T]) -> (tree: BinaryTree<T>) where T: Copy + PartialOrd
        ensures
            tree@.size() == array@.len(),
            tree@.inorder().len() == array@.len(),
            tree@.inorder().to_multiset() == array@.to_multiset(),
            comparison_is_specified::<T>() ==> tree@ == Shape::build(array@),
            comparison_is_specified::<T>() ==> tree@.is_search_tree(),
            comparison_is_specified::<T>() && is_strict_order::<T>() ==> is_ascending(
                tree@.inorder(),
            ),
    {
        let mut binary_tree = BinaryTree { root: None };
        let mut done: usize = 0;
        proof {
            assert(Shape::<T>::Empty.inorder() =~= array@.take(0));
        }
        while done < array.len()
            invariant
                done <= array@.len(),
                Self::shape_of(binary_tree.root).inorder().to_multiset() == array@.take(
                    done as int,
                ).to_multiset(),
                comparison_is_specified::<T>() ==> Self::shape_of(binary_tree.root) == Shape::build(
                    array@.take(done as int),
                ),
            decreases array@.len() - done,
        {
            proof {
                let next = array@.take(done + 1);
                assert(next.drop_last() =~= array@.take(done as int));
                assert(next.last() == array@[done as int]);
                vstd::seq_lib::to_multiset_build(array@.take(done as int), array@[done as int]);
                assert(array@.take(done as int).push(array@[done as int]) =~= next);
            }
            Self::insert_node_recursion(&mut binary_tree.root, &array[done]);
            done += 1;
        }
        proof {
            assert(array@.take(done as int) =~= array@);
            binary_tree@.lemma_inorder_len();
            array@.to_multiset_ensures();
            binary_tree@.inorder().to_multiset_ensures();
            if comparison_is_specified::<T>() {
                Shape::lemma_build_is_search_tree(array@);
                if is_strict_order::<T>() {
                    Shape::lemma_build_is_ascending(array@);
                }
            }
        }
        binary_tree
    }

    /// Puts `value` below `current`: a new leaf where the link is empty; else
    /// into the left subtree where the node's value is greater than `value`,
    /// and into the right subtree otherwise, equal values included.
    fn insert_node_recursion(current: &mut Option<Box<Node<T>>>, value: &T) where
        T: Copy + PartialOrd,

        ensures
            Self::shape_of(*final(current)).inorder().to_multiset() == Self::shape_of(
                *old(current),
            ).inorder().to_multiset().insert(*value),
            comparison_is_specified::<T>() ==> Self::shape_of(*final(current)) == Self::shape_of(
                *old(current),
            ).insert(*value),
        decreases *old(current),
    {
        match current {
            Some(node) => {
                let ghost before = node.shape();
                if node.value > *value {
                    Self::insert_node_recursion(&mut node.left, value);
                } else {
                    Self::insert_node_recursion(&mut node.right, value);
                }
                proof {
                    before.lemma_fork_values();
                    node.shape().lemma_fork_values();
                    assert(node.shape().inorder().to_multiset() =~= before.inorder().to_multiset().insert(
                        *value,
                    ));
                }
            },
            None => {
                let new_node = Node { value: *value, left: None, right: None };
                proof {
                    Shape::<T>::lemma_insert_into_empty(*value);
                    Shape::<T>::Empty.lemma_insert_inorder(*value);
                    assert(new_node.shape() == Shape::leaf(*value));
                }
                *current = Some(Box::new(new_node));
            },
        }
    }

    /// Appends to `result` a reference to every value below `current`: the
    /// left subtree, then the node's own value, then the right subtree.
    fn inorder_traverse<'a>(current: Option<&'a Box<Node<T>>>, result: &mut Vec<&'a T>)
        ensures
            pointees(final(result)@) == pointees(old(result)@) + Self::shape_at(current).inorder(),
        decreases current,
    {
        if let Some(node) = current {
            Self::inorder_traverse(node.left.as_ref(), result);
            let ghost left_done = result@;
            result.push(&node.value);
            proof {
                assert(pointees(result@) =~= pointees(left_done).push(node.value));
            }
            Self::inorder_traverse(node.right.as_ref(), result);
            proof {
                assert(pointees(result@) =~= pointees(old(result)@) + Self::shape_at(
                    current,
                ).inorder());
            }
        } else {
            proof {
                assert(pointees(result@) =~= pointees(old(result)@) + Self::shape_at(
                    current,
                ).inorder());
            }
        }
    }

    /// Appends to `result` a reference to the node's own value first, then to
    /// the values of its left subtree in order, then to those of its right
    /// subtree in order.
    #[allow(dead_code)]
    fn traverse<'a>(current: Option<&'a Box<Node<T>>>, result: &mut Vec<&'a T>)
        ensures
            pointees(final(result)@) == pointees(old(result)@) + Self::root_first(
                Self::shape_at(current),
            ),
    {
        if let Some(node) = current {
            result.push(&node.value);
            proof {
                assert(pointees(result@) =~= pointees(old(result)@).push(node.value));
            }
            Self::inorder_traverse(node.left.as_ref(), result);
            Self::inorder_traverse(node.right.as_ref(), result);
            proof {
                assert(pointees(result@) =~= pointees(old(result)@) + Self::root_first(
                    Self::shape_at(current),
                ));
            }
        } else {
            proof {
                assert(pointees(result@) =~= pointees(old(result)@) + Self::root_first(
                    Self::shape_at(current),
                ));
            }
        }
    }

    /// The root's value, then the left subtree in order, then the right
    /// subtree in order.
    pub open spec fn root_first(shape: Shape<T>) -> Seq<T> {
        match shape {
            Shape::Empty => Seq::empty(),
            Shape::Fork { left, value, right } => seq![value] + left.inorder() + right.inorder(),
        }
    }

    /// Appends to `result` the six upper levels below `current`, level by
    /// level and left to right: a reference to the value where a node
    /// stands, an absent marker where none does. An empty position counts as
    /// having two empty children, so every level is complete. The walk ends
    /// when the counter reaches 63, one less than `2^6`; nodes further down
    /// are left out.
    fn breadth_first_traversal<'a>(
        current: Option<&'a Box<Node<T>>>,
        result: &mut Vec<Option<&'a T>>,
    )
        ensures
            slot_pointees(final(result)@) == slot_pointees(old(result)@) + Self::shape_at(
                current,
            ).snapshot(),
    {
        let ghost whole = Self::shape_at(current);
        let mut queue: Vec<Option<&Box<Node<T>>>> = Vec::new();

        queue.insert(0, current);

        let max_depth: i32 = 64;
        let mut i: i32 = 0;

        loop
            invariant_except_break
                queue@.len() == i + 1,
                forall|k: int|
                    0 <= k <= i ==> Self::shape_at(#[trigger] queue@[k]) == whole.subtree(
                        (2 * i - k) as nat,
                    ),
            invariant
                0 <= i <= max_depth - 1,
                max_depth == 64,
                result@.len() == old(result)@.len() + i,
                forall|k: int|
                    0 <= k < old(result)@.len() ==> #[trigger] result@[k] == old(result)@[k],
                forall|k: int|
                    old(result)@.len() <= k < result@.len() ==> slot_pointee(#[trigger] result@[k])
                        == whole.slot((k - old(result)@.len()) as nat),
            ensures
                i == max_depth - 1,
                result@.len() == old(result)@.len() + i,
                forall|k: int|
                    0 <= k < old(result)@.len() ==> #[trigger] result@[k] == old(result)@[k],
                forall|k: int|
                    old(result)@.len() <= k < result@.len() ==> slot_pointee(#[trigger] result@[k])
                        == whole.slot((k - old(result)@.len()) as nat),
            decreases max_depth - 1 - i,
        {
            let element = match queue.pop() {
                Some(element) => element,
                None => {
                    break ;
                },
            };
            if i >= max_depth - 1 {
                break ;
            }
            let ghost rest = queue@;
            let ghost taken = result@;

            let value: Option<&T> = match element {
                Some(node) => {
                    queue.insert(0, node.left.as_ref());
                    queue.insert(0, node.right.as_ref());
                    Some(&node.value)
                },
                None => {
                    queue.insert(0, None);
                    queue.insert(0, None);
                    None
                },
            };

            result.push(value);

            proof {
                assert(Self::shape_at(element) == whole.subtree(i as nat));
                assert(Self::shape_at(queue@[1]) == whole.subtree((2 * i + 1) as nat));
                assert(Self::shape_at(queue@[0]) == whole.subtree((2 * i + 2) as nat));
                assert forall|k: int| 0 <= k <= i + 1 implies Self::shape_at(#[trigger] queue@[k])
                    == whole.subtree((2 * (i + 1) - k) as nat) by {
                    if k >= 2 {
                        assert(queue@[k] == rest[k - 2]);
                    }
                }
                assert forall|k: int| old(result)@.len() <= k < result@.len() implies slot_pointee(
                    #[trigger] result@[k],
                ) == whole.slot((k - old(result)@.len()) as nat) by {
                    if k < taken.len() {
                        assert(result@[k] == taken[k]);
                    }
                }
            }

            i += 1;
        }
        proof {
            assert(slot_pointees(result@) =~= slot_pointees(old(result)@) + whole.snapshot());
        }
    }

    /// The values of the tree in ascending order, as references: the left
    /// subtree, then the node, then the right subtree, at every node.
    pub fn inorder_traversal(&self) -> (result: Vec<&T>)
        ensures
            pointees(result@) == self@.inorder(),
            result@.len() == self@.inorder().len(),
            result@.len() == self@.size(),
            forall|i: int| 0 <= i < result@.len() ==> *#[trigger] result@[i] == self@.inorder()[i],
    {
        let mut result: Vec<&T> = Vec::new();

        Self::inorder_traverse(self.root.as_ref(), &mut result);

        proof {
            assert(pointees(result@) =~= self@.inorder());
            self@.lemma_inorder_len();
            assert forall|i: int| 0 <= i < result@.len() implies *#[trigger] result@[i]
                == self@.inorder()[i] by {
                assert(pointees(result@)[i] == *result@[i]);
            }
        }
        result
    }

    /// The six upper levels of the tree as a complete layout of 63 slots,
    /// level by level and left to right. The length does not depend on the
    /// tree; a slot holds a reference to the value where a node stands and an
    /// absent marker where none does.
    pub fn breadth_first_snapshot(&self) -> (result: Vec<Option<&T>>)
        ensures
            slot_pointees(result@) == self@.snapshot(),
            result@.len() == SNAPSHOT_SLOTS,
            forall|position: int|
                0 <= position < SNAPSHOT_SLOTS ==> slot_pointee(#[trigger] result@[position])
                    == self@.slot(position as nat),
    {
        let mut result: Vec<Option<&T>> = Vec::new();

        Self::breadth_first_traversal(self.root.as_ref(), &mut result);

        proof {
            assert(slot_pointees(result@) =~= self@.snapshot());
            assert forall|position: int| 0 <= position < SNAPSHOT_SLOTS implies slot_pointee(
                #[trigger] result@[position],
            ) == self@.slot(position as nat) by {
                assert(slot_pointees(result@)[position] == slot_pointee(result@[position]));
            }
        }
        result
    }
}

} // verus!
