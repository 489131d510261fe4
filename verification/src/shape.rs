//! The mathematical model of a tree: its shape, what its traversals yield,
//! and where an insertion puts a value.

use vstd::prelude::*;
use vstd::seq_lib::lemma_multiset_commutative;
use vstd::seq_lib::to_multiset_build;
use vstd::seq_lib::to_multiset_insert;
use crate::order::exceeds;
use crate::order::is_strict_order;
use crate::order::is_weak_order;

verus! {

/// Number of slots in a breadth-first snapshot: the six upper levels of a
/// complete binary tree, `1 + 2 + 4 + 8 + 16 + 32`.
pub const SNAPSHOT_SLOTS: usize = 63;

/// A binary tree as a value: either nothing, or a value with a left and a
/// right subtree.
pub enum Shape<T> {
    Empty,
    Fork { left: Box<Shape<T>>, value: T, right: Box<Shape<T>> },
}

/// No element is greater than one that follows it.
pub open spec fn is_ascending<T: PartialOrd>(values: Seq<T>) -> bool {
    forall|i: int, j: int| 0 <= i < j < values.len() ==> !exceeds(values[i], values[j])
}

impl<T> Shape<T> {
    /// The tree with one value and no children.
    pub open spec fn leaf(value: T) -> Shape<T> {
        Shape::Fork { left: Box::new(Shape::Empty), value, right: Box::new(Shape::Empty) }
    }

    /// Number of values in the tree.
    pub open spec fn size(self) -> nat
        decreases self,
    {
        match self {
            Shape::Empty => 0,
            Shape::Fork { left, value, right } => left.size() + 1 + right.size(),
        }
    }

    /// The values from left to right: left subtree, then the value, then the
    /// right subtree.
    pub open spec fn inorder(self) -> Seq<T>
        decreases self,
    {
        match self {
            Shape::Empty => Seq::empty(),
            Shape::Fork { left, value, right } => left.inorder().push(value) + right.inorder(),
        }
    }

    /// The subtree at a position of the level-order numbering: the root is
    /// position 0 and the children of position `p` are `2p + 1` (left) and
    /// `2p + 2` (right). Below an empty position everything is empty.
    pub open spec fn subtree(self, position: nat) -> Shape<T>
        decreases position,
    {
        if position == 0 {
            self
        } else {
            match self.subtree(((position - 1) / 2) as nat) {
                Shape::Empty => Shape::Empty,
                Shape::Fork { left, value, right } => if position % 2 == 1 {
                    *left
                } else {
                    *right
                },
            }
        }
    }

    /// The value at a position of the level-order numbering, if a node stands
    /// there.
    pub open spec fn slot(self, position: nat) -> Option<T> {
        match self.subtree(position) {
            Shape::Empty => None,
            Shape::Fork { left, value, right } => Some(value),
        }
    }

    /// The six upper levels, level by level and left to right, an absent
    /// marker wherever the tree has no node. Deeper nodes do not appear.
    pub open spec fn snapshot(self) -> Seq<Option<T>> {
        Seq::new(SNAPSHOT_SLOTS as nat, |position: int| self.slot(position as nat))
    }

    /// The size of a tree is the length of its in-order sequence.
    pub proof fn lemma_inorder_len(self)
        ensures
            self.inorder().len() == self.size(),
        decreases self,
    {
        match self {
            Shape::Empty => {},
            Shape::Fork { left, value, right } => {
                left.lemma_inorder_len();
                right.lemma_inorder_len();
            },
        }
    }

    /// The values of a tree are those of its two subtrees and its own.
    pub proof fn lemma_fork_values(self)
        requires
            self is Fork,
        ensures
            self.inorder().to_multiset() == self->left.inorder().to_multiset().add(
                self->right.inorder().to_multiset(),
            ).insert(self->value),
    {
        let low = self->left.inorder();
        let high = self->right.inorder();
        to_multiset_build(low, self->value);
        lemma_multiset_commutative(low.push(self->value), high);
        assert(self.inorder().to_multiset() =~= low.to_multiset().add(high.to_multiset()).insert(
            self->value,
        ));
    }

    /// Every position of the empty tree is empty, so each slot of its
    /// snapshot is absent.
    pub proof fn lemma_empty_has_no_slots(position: nat)
        ensures
            Shape::<T>::Empty.subtree(position) == Shape::<T>::Empty,
            Shape::<T>::Empty.slot(position) == None::<T>,
        decreases position,
    {
        if position > 0 {
            Self::lemma_empty_has_no_slots(((position - 1) / 2) as nat);
        }
    }

    /// A snapshot has the same length whatever the tree, and each of its
    /// entries is the slot of its position.
    pub proof fn lemma_snapshot_is_complete(self)
        ensures
            self.snapshot().len() == SNAPSHOT_SLOTS,
            forall|position: int|
                0 <= position < SNAPSHOT_SLOTS ==> #[trigger] self.snapshot()[position]
                    == self.slot(position as nat),
    {
    }
}

impl<T: PartialOrd> Shape<T> {
    /// The tree after one insertion: the value descends left where the node's
    /// value is greater than it, right otherwise (so also where the two are
    /// equal), and becomes a leaf at the first empty position.
    pub open spec fn insert(self, new: T) -> Shape<T>
        decreases self,
    {
        match self {
            Shape::Empty => Shape::leaf(new),
            Shape::Fork { left, value, right } => if exceeds(value, new) {
                Shape::Fork { left: Box::new(left.insert(new)), value, right }
            } else {
                Shape::Fork { left, value, right: Box::new(right.insert(new)) }
            },
        }
    }

    /// The tree that holds `values`, inserted one by one from the first to
    /// the last into the empty tree.
    pub open spec fn build(values: Seq<T>) -> Shape<T>
        decreases values.len(),
    {
        if values.len() == 0 {
            Shape::Empty
        } else {
            Self::build(values.drop_last()).insert(values.last())
        }
    }

    /// The index in the in-order sequence at which an inserted value comes to
    /// stand.
    pub open spec fn insert_position(self, new: T) -> int
        decreases self,
    {
        match self {
            Shape::Empty => 0,
            Shape::Fork { left, value, right } => if exceeds(value, new) {
                left.insert_position(new)
            } else {
                left.inorder().len() + 1 + right.insert_position(new)
            },
        }
    }

    /// Search-tree order: each node's value is greater than every value of its
    /// left subtree and greater than none of its right subtree.
    pub open spec fn is_search_tree(self) -> bool
        decreases self,
    {
        match self {
            Shape::Empty => true,
            Shape::Fork { left, value, right } => {
                &&& left.is_search_tree()
                &&& right.is_search_tree()
                &&& forall|i: int|
                    0 <= i < left.inorder().len() ==> exceeds(value, #[trigger] left.inorder()[i])
                &&& forall|i: int|
                    0 <= i < right.inorder().len() ==> !exceeds(
                        value,
                        #[trigger] right.inorder()[i],
                    )
            },
        }
    }

    /// Building from no values gives the empty tree: nothing in order, and
    /// an absent marker in every slot of the snapshot.
    pub proof fn lemma_build_of_nothing()
        ensures
            Self::build(Seq::empty()) == Shape::<T>::Empty,
            Self::build(Seq::empty()).inorder() == Seq::<T>::empty(),
            Self::build(Seq::empty()).snapshot() == Seq::new(
                SNAPSHOT_SLOTS as nat,
                |position: int| None::<T>,
            ),
    {
        let nothing = Self::build(Seq::empty());
        assert forall|position: int| 0 <= position < SNAPSHOT_SLOTS implies nothing.snapshot()[position]
            == None::<T> by {
            Self::lemma_empty_has_no_slots(position as nat);
        }
        assert(nothing.snapshot() =~= Seq::new(SNAPSHOT_SLOTS as nat, |position: int| None::<T>));
    }

    /// Inserting into the empty tree gives a single node, whose in-order
    /// sequence is the value alone.
    pub proof fn lemma_insert_into_empty(new: T)
        ensures
            Shape::<T>::Empty.insert(new) == Shape::leaf(new),
            Shape::<T>::Empty.insert(new).size() == 1,
            Shape::<T>::Empty.insert(new).inorder() == seq![new],
    {
        reveal_with_fuel(Shape::inorder, 2);
        reveal_with_fuel(Shape::size, 2);
        assert(Shape::<T>::Empty.insert(new).inorder() =~= seq![new]);
    }

    /// An insertion adds the value to the in-order sequence at
    /// `insert_position` and leaves the other values where they were: none is
    /// lost, none is repeated.
    pub proof fn lemma_insert_inorder(self, new: T)
        ensures
            0 <= self.insert_position(new) <= self.inorder().len(),
            self.insert(new).inorder() == self.inorder().insert(self.insert_position(new), new),
            self.insert(new).inorder().len() == self.inorder().len() + 1,
            self.insert(new).inorder().to_multiset() == self.inorder().to_multiset().insert(new),
        decreases self,
    {
        match self {
            Shape::Empty => {
                Self::lemma_insert_into_empty(new);
                assert(seq![new] =~= Seq::<T>::empty().insert(0, new));
            },
            Shape::Fork { left, value, right } => {
                left.lemma_insert_inorder(new);
                right.lemma_insert_inorder(new);
                if exceeds(value, new) {
                    let at = left.insert_position(new);
                    assert(left.inorder().insert(at, new).push(value) + right.inorder()
                        =~= (left.inorder().push(value) + right.inorder()).insert(at, new));
                } else {
                    let at = right.insert_position(new);
                    let before = left.inorder().push(value);
                    assert(before + right.inorder().insert(at, new) =~= (before
                        + right.inorder()).insert(before.len() + at, new));
                }
            },
        }
        to_multiset_insert(self.inorder(), self.insert_position(new), new);
    }

    /// An insertion keeps search-tree order, whatever the comparison is.
    pub proof fn lemma_insert_keeps_order(self, new: T)
        requires
            self.is_search_tree(),
        ensures
            self.insert(new).is_search_tree(),
        decreases self,
    {
        match self {
            Shape::Empty => {
                Self::lemma_insert_into_empty(new);
                assert(Shape::<T>::Empty.inorder().len() == 0);
            },
            Shape::Fork { left, value, right } => {
                if exceeds(value, new) {
                    left.lemma_insert_keeps_order(new);
                    left.lemma_insert_inorder(new);
                } else {
                    right.lemma_insert_keeps_order(new);
                    right.lemma_insert_inorder(new);
                }
            },
        }
    }

    /// A tree built from a sequence holds exactly the values of the sequence,
    /// each as often as the sequence does; in particular as many.
    pub proof fn lemma_build_keeps_values(values: Seq<T>)
        ensures
            Self::build(values).inorder().len() == values.len(),
            Self::build(values).size() == values.len(),
            Self::build(values).inorder().to_multiset() == values.to_multiset(),
        decreases values.len(),
    {
        broadcast use vstd::seq_lib::group_to_multiset_ensures;

        Self::build(values).lemma_inorder_len();
        if values.len() == 0 {
            assert(Self::build(values).inorder() =~= values);
        } else {
            let front = values.drop_last();
            Self::lemma_build_keeps_values(front);
            Self::build(front).lemma_insert_inorder(values.last());
            assert(front.push(values.last()) =~= values);
        }
    }

    /// A tree built from a sequence is in search-tree order.
    pub proof fn lemma_build_is_search_tree(values: Seq<T>)
        ensures
            Self::build(values).is_search_tree(),
        decreases values.len(),
    {
        if values.len() > 0 {
            Self::lemma_build_is_search_tree(values.drop_last());
            Self::build(values.drop_last()).lemma_insert_keeps_order(values.last());
        }
    }

    /// Where `>` is a strict order, the in-order sequence of a tree in
    /// search-tree order is ascending.
    pub proof fn lemma_search_tree_is_ascending(self)
        requires
            is_strict_order::<T>(),
            self.is_search_tree(),
        ensures
            is_ascending(self.inorder()),
        decreases self,
    {
        match self {
            Shape::Empty => {},
            Shape::Fork { left, value, right } => {
                left.lemma_search_tree_is_ascending();
                right.lemma_search_tree_is_ascending();
                let low = left.inorder();
                let high = right.inorder();
                let all = self.inorder();
                assert forall|i: int, j: int| 0 <= i < j < all.len() implies !exceeds(
                    all[i],
                    all[j],
                ) by {
                    if j < low.len() {
                        assert(all[i] == low[i] && all[j] == low[j]);
                    } else if i < low.len() {
                        assert(all[i] == low[i]);
                        assert(exceeds(value, low[i]));
                        if j > low.len() {
                            assert(all[j] == high[j - low.len() - 1]);
                            assert(!exceeds(value, high[j - low.len() - 1]));
                        } else {
                            assert(all[j] == value);
                        }
                    } else if i == low.len() {
                        assert(all[i] == value);
                        assert(all[j] == high[j - low.len() - 1]);
                    } else {
                        assert(all[i] == high[i - low.len() - 1]);
                        assert(all[j] == high[j - low.len() - 1]);
                    }
                }
            },
        }
    }

    /// Where `>` is a strict order, the in-order sequence of a tree built from
    /// any sequence is ascending.
    pub proof fn lemma_build_is_ascending(values: Seq<T>)
        requires
            is_strict_order::<T>(),
        ensures
            is_ascending(Self::build(values).inorder()),
    {
        Self::lemma_build_is_search_tree(values);
        Self::build(values).lemma_search_tree_is_ascending();
    }

    /// The tie-break. Where `>` is a strict weak order, a value inserted into
    /// a tree in search-tree order comes to stand behind every value that is
    /// not greater than it, its equals among them, and before every value
    /// that is greater.
    pub proof fn lemma_insert_lands_behind_equals(self, new: T)
        requires
            is_weak_order::<T>(),
            self.is_search_tree(),
        ensures
            forall|i: int|
                0 <= i < self.insert_position(new) ==> !exceeds(#[trigger] self.inorder()[i], new),
            forall|i: int|
                self.insert_position(new) <= i < self.inorder().len() ==> exceeds(
                    #[trigger] self.inorder()[i],
                    new,
                ),
        decreases self,
    {
        match self {
            Shape::Empty => {},
            Shape::Fork { left, value, right } => {
                left.lemma_insert_lands_behind_equals(new);
                right.lemma_insert_lands_behind_equals(new);
                left.lemma_insert_inorder(new);
                right.lemma_insert_inorder(new);
                let low = left.inorder();
                let high = right.inorder();
                let all = self.inorder();
                let at = self.insert_position(new);
                assert forall|i: int| 0 <= i < at implies !exceeds(#[trigger] all[i], new) by {
                    if i < low.len() {
                        assert(all[i] == low[i]);
                        assert(exceeds(value, low[i]));
                    } else if i == low.len() {
                        assert(all[i] == value);
                    } else {
                        assert(all[i] == high[i - low.len() - 1]);
                    }
                }
                assert forall|i: int| at <= i < all.len() implies exceeds(#[trigger] all[i], new) by {
                    if i < low.len() {
                        assert(all[i] == low[i]);
                    } else if i == low.len() {
                        assert(all[i] == value);
                    } else {
                        assert(all[i] == high[i - low.len() - 1]);
                        assert(!exceeds(value, high[i - low.len() - 1]));
                    }
                }
            },
        }
    }
}

} // verus!
