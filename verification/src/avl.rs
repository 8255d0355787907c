//! Height-balanced trees: every node records how much deeper its right
//! subtree is than its left one, and that difference never exceeds one.
use vstd::prelude::*;

use crate::count;
use crate::depth;
use crate::is_least;
use crate::is_left_rotation;
use crate::is_right_rotation;
use crate::lemma_count;
use crate::lemma_left_rotation;
use crate::lemma_right_rotation;
use crate::lemma_same_shape_reflexive;
use crate::lemma_tree_map_finite;
use crate::order::compare;
use crate::order::key_lt;
use crate::order::lemma_strict_order;
use crate::order::strict_order;
use crate::order::Rank;
use crate::ordered;
use crate::same_shape;
use crate::tree_map;
use crate::Side;

verus! {

/// What an operation did to the depth of the subtree it worked on.
#[derive(Debug, Clone, Copy, PartialEq, Eq, Structural)]
pub(crate) enum HeightChange {
    Increased,
    Decreased,
    Unchanged,
}

impl HeightChange {
    /// The change as a number of levels.
    spec fn shift(self) -> int {
        match self {
            HeightChange::Increased => 1,
            HeightChange::Decreased => -1,
            HeightChange::Unchanged => 0,
        }
    }
}

// metadata < 0: the left subtree is deeper
// metadata > 0: the right subtree is deeper
type Node<K, V> = crate::Node<K, V, i8>;

type BoxedNode<K, V> = Box<Node<K, V>>;

type Child<K, V> = crate::Child<K, V, i8>;

/// Every node records the depth of its right subtree less that of its left
/// one, and the two differ by one at most.
spec fn balanced<K: Ord, V>(c: Child<K, V>) -> bool
    decreases c,
{
    match c {
        None => true,
        Some(n) => {
            &&& balanced(n.left_child)
            &&& balanced(n.right_child)
            &&& n.metadata == depth(n.right_child) - depth(n.left_child)
            &&& -1 <= n.metadata <= 1
        },
    }
}

fn new_node<K: Ord, V>(key: K, value: V) -> (r: Child<K, V>)
    ensures
        r.is_some(),
        r.unwrap().key == key,
        r.unwrap().value == value,
        r.unwrap().left_child.is_none(),
        r.unwrap().right_child.is_none(),
        r.unwrap().metadata == 0,
{
    Some(Box::new(Node { key, value, left_child: None, right_child: None, metadata: 0 }))
}

fn abs(value: i8) -> (r: i8)
    requires
        value > i8::MIN,
    ensures
        r >= 0,
        r == value || r == -value,
{
    if value < -value {
        return -value;
    }
    value
}

impl<K: Ord, V> Node<K, V> {
    /// The subtree under this node is balanced.
    spec fn fit(&self) -> bool {
        &&& balanced(self.left_child)
        &&& balanced(self.right_child)
        &&& self.metadata == depth(self.right_child) - depth(self.left_child)
        &&& -1 <= self.metadata <= 1
    }

    /// The child under which the subtree is deeper.
    spec fn heavy_child(&self) -> Child<K, V> {
        if self.metadata < 0 {
            self.left_child
        } else {
            self.right_child
        }
    }

    /// This node with `factor` for its balance factor.
    spec fn with_factor(&self, factor: i8) -> Node<K, V> {
        Node {
            key: self.key,
            value: self.value,
            left_child: self.left_child,
            right_child: self.right_child,
            metadata: factor,
        }
    }

    /// `r` is this node after one rotation to the left. Where the child
    /// that comes to the top was level, it now leans left and this node
    /// right; else both are level.
    spec fn single_left(&self, r: Node<K, V>) -> bool {
        let level = self.right_child.unwrap().metadata == 0;
        &&& is_left_rotation(*self, r)
        &&& r.metadata == (if level {
            -1i8
        } else {
            0i8
        })
        &&& r.left_child.unwrap().metadata == (if level {
            1i8
        } else {
            0i8
        })
    }

    /// `r` is this node after one rotation to the right, the mirror image
    /// of `single_left`.
    spec fn single_right(&self, r: Node<K, V>) -> bool {
        let level = self.left_child.unwrap().metadata == 0;
        &&& is_right_rotation(*self, r)
        &&& r.metadata == (if level {
            1i8
        } else {
            0i8
        })
        &&& r.right_child.unwrap().metadata == (if level {
            -1i8
        } else {
            0i8
        })
    }

    /// `r` is this node after a double rotation: the left child of the
    /// right child is on top and level, this node hangs to its left with
    /// the former left subtree of the new top as its right one, and the
    /// former right child hangs to its right with the former right subtree
    /// of the new top as its left one. Where the new top leant to one
    /// side, the child on the other side now leans the other way.
    spec fn double_right_left(&self, r: Node<K, V>) -> bool {
        let b = self.right_child.unwrap();
        let c = b.left_child.unwrap();
        &&& self.right_child.is_some()
        &&& b.left_child.is_some()
        &&& r.key == c.key
        &&& r.value == c.value
        &&& r.metadata == 0
        &&& r.left_child == Some(
            Box::new(
                Node {
                    key: self.key,
                    value: self.value,
                    left_child: self.left_child,
                    right_child: c.left_child,
                    metadata: if c.metadata == 1 {
                        -1i8
                    } else {
                        0i8
                    },
                },
            ),
        )
        &&& r.right_child == Some(
            Box::new(
                Node {
                    key: b.key,
                    value: b.value,
                    left_child: c.right_child,
                    right_child: b.right_child,
                    metadata: if c.metadata == -1 {
                        1i8
                    } else {
                        0i8
                    },
                },
            ),
        )
    }

    /// `r` is this node after a double rotation, the mirror image of
    /// `double_right_left`.
    spec fn double_left_right(&self, r: Node<K, V>) -> bool {
        let b = self.left_child.unwrap();
        let c = b.right_child.unwrap();
        &&& self.left_child.is_some()
        &&& b.right_child.is_some()
        &&& r.key == c.key
        &&& r.value == c.value
        &&& r.metadata == 0
        &&& r.left_child == Some(
            Box::new(
                Node {
                    key: b.key,
                    value: b.value,
                    left_child: b.left_child,
                    right_child: c.left_child,
                    metadata: if c.metadata == 1 {
                        -1i8
                    } else {
                        0i8
                    },
                },
            ),
        )
        &&& r.right_child == Some(
            Box::new(
                Node {
                    key: self.key,
                    value: self.value,
                    left_child: c.right_child,
                    right_child: self.right_child,
                    metadata: if c.metadata == -1 {
                        1i8
                    } else {
                        0i8
                    },
                },
            ),
        )
    }

    /// `r` is what rebalancing makes of this node, whose subtrees differ by
    /// two levels: one rotation towards the shallower side where the child
    /// on the deeper side is level or leans the same way, a double rotation
    /// where it leans the other way.
    spec fn rebalances(&self, r: Node<K, V>) -> bool {
        if self.metadata < 0 {
            if self.left_child.unwrap().metadata <= 0 {
                self.single_right(r)
            } else {
                self.double_left_right(r)
            }
        } else {
            if self.right_child.unwrap().metadata >= 0 {
                self.single_left(r)
            } else {
                self.double_right_left(r)
            }
        }
    }

    /// Both subtrees are balanced and the recorded difference is right, but
    /// it may be as large as two.
    spec fn leaning(&self) -> bool {
        &&& balanced(self.left_child)
        &&& balanced(self.right_child)
        &&& self.metadata == depth(self.right_child) - depth(self.left_child)
    }

    // Rotates right-heavy tree with balanced or right-leaning right child
    //        a                b
    //       / \              / \
    //      X   b            a   Y
    //         / \    =>    / \
    //        Z   Y        X  Z
    fn rotate_left(mut node: BoxedNode<K, V>) -> (res: BoxedNode<K, V>)
        requires
            strict_order::<K>(),
            node.sorted(),
            node.leaning(),
            node.metadata == 2,
            node.right_child.unwrap().metadata >= 0,
        ensures
            node.single_left(*res),
            res.sorted(),
            res.contents() == node.contents(),
            res.fit(),
            (res.metadata == 0) == (node.right_child.unwrap().metadata != 0),
            res.levels() == node.levels() - (if res.metadata == 0 {
                1int
            } else {
                0int
            }),
    {
        let ghost before = *node;
        let mut new_root = node.right_child.take().unwrap();
        node.right_child = new_root.left_child.take();
        if new_root.metadata == 0 {
            // Z and Y are equally deep: a will lean right and b left
            new_root.metadata = -1;
            node.metadata = 1;
        } else {
            // Y is one deeper than Z, which is as deep as X: both are level
            new_root.metadata = 0;
            node.metadata = 0;
        }
        new_root.left_child = Some(node);
        proof {
            lemma_left_rotation(before, *new_root);
        }
        new_root
    }

    // Rotates left-heavy tree with balanced or left-leaning left child
    //        a            b
    //       / \          / \
    //      b   X        Z   a
    //     / \      =>      / \
    //    Z   Y            Y   X
    fn rotate_right(mut node: BoxedNode<K, V>) -> (res: BoxedNode<K, V>)
        requires
            strict_order::<K>(),
            node.sorted(),
            node.leaning(),
            node.metadata == -2,
            node.left_child.unwrap().metadata <= 0,
        ensures
            node.single_right(*res),
            res.sorted(),
            res.contents() == node.contents(),
            res.fit(),
            (res.metadata == 0) == (node.left_child.unwrap().metadata != 0),
            res.levels() == node.levels() - (if res.metadata == 0 {
                1int
            } else {
                0int
            }),
    {
        let ghost before = *node;
        let mut new_root = node.left_child.take().unwrap();
        node.left_child = new_root.right_child.take();
        if new_root.metadata == 0 {
            // Z and Y are equally deep: a will lean left and b right
            new_root.metadata = 1;
            node.metadata = -1;
        } else {
            // Z is one deeper than Y, which is as deep as X: both are level
            new_root.metadata = 0;
            node.metadata = 0;
        }
        new_root.right_child = Some(node);
        proof {
            lemma_right_rotation(before, *new_root);
        }
        new_root
    }

    // Rotates right-heavy tree with left-leaning right child
    //     a               c
    //    / \             / \
    //   W   b           a   b
    //      / \    =>   / \ / \
    //     c   X       W  Y Z  X
    //    / \
    //   Y   Z
    fn rotate_right_left(mut node: BoxedNode<K, V>) -> (res: BoxedNode<K, V>)
        requires
            strict_order::<K>(),
            node.sorted(),
            node.leaning(),
            node.metadata == 2,
            node.right_child.unwrap().metadata < 0,
        ensures
            node.double_right_left(*res),
            res.sorted(),
            res.contents() == node.contents(),
            res.fit(),
            res.metadata == 0,
            res.levels() == node.levels() - 1,
    {
        let ghost before = *node;
        let ghost b = *node.right_child.unwrap();
        proof {
            node.lemma_right();
            assert(b.fit());
        }
        let mut right = node.right_child.take().unwrap();  // b
        let mut new_root = right.left_child.take().unwrap();  // c
        right.left_child = new_root.right_child.take();  // reassign Z
        node.right_child = new_root.left_child.take();  // reassign Y
        // if c was not level, the new parents of Y and Z take that over:
        // W and X are as deep as the deeper of Y and Z
        let mut left_child_balance_factor: i8 = 0;
        let mut right_child_balance_factor: i8 = 0;
        if new_root.metadata == 1 {
            // Z is deeper than Y, so W is deeper than Y
            left_child_balance_factor = -1;
        } else if new_root.metadata == -1 {
            // Y is deeper than Z, so X is deeper than Z
            right_child_balance_factor = 1;
        }
        right.metadata = right_child_balance_factor;
        node.metadata = left_child_balance_factor;
        new_root.left_child = Some(node);  // reassign a to c
        new_root.right_child = Some(right);  // reassign b to c
        new_root.metadata = 0;
        proof {
            let turned = Node {
                key: new_root.key,
                value: new_root.value,
                left_child: new_root.left_child.unwrap().right_child,
                right_child: new_root.right_child,
                metadata: new_root.metadata,
            };
            lemma_right_rotation(b, turned);
            let mid = Node {
                key: before.key,
                value: before.value,
                left_child: before.left_child,
                right_child: Some(Box::new(turned)),
                metadata: before.metadata,
            };
            lemma_left_rotation(mid, *new_root);
        }
        new_root
    }

    // Rotates left-heavy tree with right-leaning left child
    //        a              c
    //       / \            / \
    //      b   W          b   a
    //     / \      =>    / \ / \
    //    X   c          X  Y Z  W
    //       / \
    //      Y   Z
    fn rotate_left_right(mut node: BoxedNode<K, V>) -> (res: BoxedNode<K, V>)
        requires
            strict_order::<K>(),
            node.sorted(),
            node.leaning(),
            node.metadata == -2,
            node.left_child.unwrap().metadata > 0,
        ensures
            node.double_left_right(*res),
            res.sorted(),
            res.contents() == node.contents(),
            res.fit(),
            res.metadata == 0,
            res.levels() == node.levels() - 1,
    {
        let ghost before = *node;
        let ghost b = *node.left_child.unwrap();
        proof {
            node.lemma_left();
            assert(b.fit());
        }
        let mut left = node.left_child.take().unwrap();  // b
        let mut new_root = left.right_child.take().unwrap();  // c
        node.left_child = new_root.right_child.take();  // reassign Z
        left.right_child = new_root.left_child.take();  // reassign Y
        // if c was not level, the new parents of Y and Z take that over:
        // W and X are as deep as the deeper of Y and Z
        let mut left_child_balance_factor: i8 = 0;
        let mut right_child_balance_factor: i8 = 0;
        if new_root.metadata == 1 {
            left_child_balance_factor = -1;
        } else if new_root.metadata == -1 {
            right_child_balance_factor = 1;
        }
        node.metadata = right_child_balance_factor;
        left.metadata = left_child_balance_factor;
        new_root.right_child = Some(node);  // reassign a to c
        new_root.left_child = Some(left);  // reassign b to c
        new_root.metadata = 0;
        proof {
            let turned = Node {
                key: new_root.key,
                value: new_root.value,
                left_child: new_root.left_child,
                right_child: new_root.right_child.unwrap().left_child,
                metadata: new_root.metadata,
            };
            lemma_left_rotation(b, turned);
            let mid = Node {
                key: before.key,
                value: before.value,
                left_child: Some(Box::new(turned)),
                right_child: before.right_child,
                metadata: before.metadata,
            };
            lemma_right_rotation(mid, *new_root);
        }
        new_root
    }

    /// Restores the balance of a node whose subtrees differ by two levels.
    fn balance(node: BoxedNode<K, V>) -> (res: BoxedNode<K, V>)
        requires
            strict_order::<K>(),
            node.sorted(),
            node.leaning(),
            node.metadata == 2 || node.metadata == -2,
        ensures
            node.rebalances(*res),
            res.sorted(),
            res.contents() == node.contents(),
            res.fit(),
            (res.metadata == 0) == (node.heavy_child().unwrap().metadata != 0),
            res.levels() == node.levels() - (if res.metadata == 0 {
                1int
            } else {
                0int
            }),
    {
        if node.metadata == -2 {
            // the tree leans left
            if node.left_child.as_ref().unwrap().metadata <= 0 {
                // one rotation to the right is enough
                Self::rotate_right(node)
            } else {
                Self::rotate_left_right(node)
            }
        } else {
            // the tree leans right
            if node.right_child.as_ref().unwrap().metadata >= 0 {
                // one rotation to the left is enough
                Self::rotate_left(node)
            } else {
                Self::rotate_right_left(node)
            }
        }
    }

    /// Depth of the left subtree before the child on `side` changed by
    /// `change`.
    spec fn prior_left(&self, change: HeightChange, side: Side) -> int {
        depth(self.left_child) - (if side == Side::Left {
            change.shift()
        } else {
            0
        })
    }

    /// Depth of the right subtree before the child on `side` changed by
    /// `change`.
    spec fn prior_right(&self, change: HeightChange, side: Side) -> int {
        depth(self.right_child) - (if side == Side::Right {
            change.shift()
        } else {
            0
        })
    }

    /// Depth of the subtree under this node before the child on `side`
    /// changed by `change`.
    spec fn prior_levels(&self, change: HeightChange, side: Side) -> int {
        let l = self.prior_left(change, side);
        let r = self.prior_right(change, side);
        if l >= r {
            l + 1
        } else {
            r + 1
        }
    }

    /// The balance factor of this node brought up to date, after the child
    /// on `side` changed by `change`.
    spec fn adjusted(&self, change: HeightChange, side: Side) -> int {
        self.metadata + (if side == Side::Right {
            change.shift()
        } else {
            -change.shift()
        })
    }

    /// `r` with `signal` is the answer of this node to a change of depth
    /// by `change` of its child on `side`.
    ///
    /// No change below changes nothing. Else the factor is brought up to
    /// date. At 0 after growth the growth is taken up, after shrinking the
    /// whole has shrunk. At 1 or -1 after growth the whole has grown, after
    /// shrinking the shrinking is taken up. At 2 or -2 the node is
    /// rebalanced: that takes up growth, and passes shrinking on where the
    /// new top is level.
    spec fn settles(
        &self,
        change: HeightChange,
        side: Side,
        r: Node<K, V>,
        signal: HeightChange,
    ) -> bool {
        let factor = self.adjusted(change, side);
        if change == HeightChange::Unchanged {
            r == *self && signal == HeightChange::Unchanged
        } else if factor == 0 {
            r == self.with_factor(0) && signal == (if change == HeightChange::Increased {
                HeightChange::Unchanged
            } else {
                HeightChange::Decreased
            })
        } else if factor == 1 || factor == -1 {
            r == self.with_factor(factor as i8) && signal == (if change
                == HeightChange::Increased {
                HeightChange::Increased
            } else {
                HeightChange::Unchanged
            })
        } else {
            self.with_factor(factor as i8).rebalances(r) && signal == (if change
                == HeightChange::Decreased && r.metadata == 0 {
                HeightChange::Decreased
            } else {
                HeightChange::Unchanged
            })
        }
    }

    /// `r` with `signal` is what a change below this node on `side` makes
    /// of it: the subtree there has given way to a balanced one that
    /// stands for `below`, and the node has answered to the change of
    /// depth that this has brought.
    spec fn follows(
        &self,
        side: Side,
        below: Map<K, V>,
        r: Node<K, V>,
        signal: HeightChange,
    ) -> bool {
        exists|rest: Child<K, V>, change: HeightChange|
            {
                &&& tree_map(rest) == below
                &&& ordered(rest)
                &&& balanced(rest)
                &&& depth(rest) == depth(self.kid(side)) + change.shift()
                &&& #[trigger] self.with_kid(side, rest).settles(change, side, r, signal)
            }
    }

    /// `r` with `signal` is what remains when the entry of this node, which
    /// has two children, is removed: the least entry of the right subtree
    /// stands in its place, over the same left subtree and over a subtree
    /// that holds what else the right subtree held, and the node has
    /// answered to the change of depth on its right.
    spec fn succeeded(&self, r: Node<K, V>, signal: HeightChange) -> bool {
        exists|k: K, rest: Child<K, V>, change: HeightChange|
            {
                &&& is_least(tree_map(self.right_child), k)
                &&& tree_map(rest) == tree_map(self.right_child).remove(k)
                &&& change != HeightChange::Increased
                &&& #[trigger] self.succeeded_by(k, tree_map(self.right_child)[k], rest).settles(
                    change,
                    Side::Right,
                    r,
                    signal,
                )
            }
    }

    /// This node with the entry of its right child in place of its own,
    /// and with the right subtree of that child for its right subtree.
    spec fn promoted(&self) -> Node<K, V> {
        Node {
            key: self.right_child.unwrap().key,
            value: self.right_child.unwrap().value,
            left_child: self.left_child,
            right_child: self.right_child.unwrap().right_child,
            metadata: self.metadata,
        }
    }

    /// The subtrees are balanced, and the node still records the difference
    /// from before the child on `side` changed by `change`. A child that
    /// grew is either a single node or no longer level.
    spec fn stale(&self, change: HeightChange, side: Side) -> bool {
        &&& balanced(self.left_child)
        &&& balanced(self.right_child)
        &&& -1 <= self.metadata <= 1
        &&& self.prior_left(change, side) >= 0
        &&& self.prior_right(change, side) >= 0
        &&& self.metadata == self.prior_right(change, side) - self.prior_left(change, side)
        &&& change == HeightChange::Increased ==> {
            let c = if side == Side::Left {
                self.left_child
            } else {
                self.right_child
            };
            c.is_some() && (c.unwrap().metadata != 0 || depth(c) == 1)
        }
    }

    /// Brings the recorded difference up to date after the child on
    /// `affected_child_side` changed its depth, rebalances where the
    /// difference has reached two, and reports what became of the depth of
    /// the whole subtree.
    fn handle_child_change(
        mut node: BoxedNode<K, V>,
        affected_child_change: HeightChange,
        affected_child_side: Side,
    ) -> (r: (BoxedNode<K, V>, HeightChange))
        requires
            strict_order::<K>(),
            node.sorted(),
            node.stale(affected_child_change, affected_child_side),
        ensures
            node.settles(affected_child_change, affected_child_side, *r.0, r.1),
            r.0.sorted(),
            r.0.contents() == node.contents(),
            r.0.fit(),
            r.0.levels() == node.prior_levels(affected_child_change, affected_child_side)
                + r.1.shift(),
    {
        match affected_child_change {
            HeightChange::Unchanged => {
                return (node, HeightChange::Unchanged);
            },
            HeightChange::Increased => {
                node.metadata = node.metadata + match affected_child_side {
                    Side::Left => -1,
                    Side::Right => 1,
                };
                // the other subtree was deeper, now the two are level
                if node.metadata == 0 {
                    return (node, HeightChange::Unchanged);
                }
                // the subtrees were level, so the whole has grown
                if abs(node.metadata) == 1 {
                    return (node, HeightChange::Increased);
                }
            },
            HeightChange::Decreased => {
                node.metadata = node.metadata + match affected_child_side {
                    Side::Left => 1,
                    Side::Right => -1,
                };
                // the shrunk subtree was the deeper one, so the whole has shrunk
                if node.metadata == 0 {
                    return (node, HeightChange::Decreased);
                }
                // the subtrees were level: the other one keeps the depth
                if abs(node.metadata) == 1 {
                    return (node, HeightChange::Unchanged);
                }
            },
        }
        // the difference is two, the tree must be rebalanced
        let node = Self::balance(node);
        if affected_child_change == HeightChange::Decreased && node.metadata == 0 {
            (node, HeightChange::Decreased)
        } else {
            // the rotations made up for the change
            (node, HeightChange::Unchanged)
        }
    }

    #[verifier::rlimit(50)]
    fn insert(mut node: BoxedNode<K, V>, key: K, value: V) -> (r: (BoxedNode<K, V>, HeightChange))
        requires
            strict_order::<K>(),
            node.sorted(),
            node.fit(),
        ensures
            r.0.sorted(),
            r.0.fit(),
            r.0.contents() == node.contents().insert(key, value),
            r.1 != HeightChange::Decreased,
            r.0.levels() == node.levels() + r.1.shift(),
            r.1 == HeightChange::Increased ==> r.0.metadata != 0,
            node.contents().dom().contains(key) ==> r.1 == HeightChange::Unchanged && same_shape(
                Some(node),
                Some(r.0),
            ),
            // a key that is there keeps its place: the value alone changes
            key == node.key ==> *r.0 == node.with_value(value) && r.1 == HeightChange::Unchanged,
            // a key that belongs further down goes into the subtree on its
            // side, and the node answers
            key_lt(key, node.key) ==> node.follows(
                Side::Left,
                tree_map(node.left_child).insert(key, value),
                *r.0,
                r.1,
            ),
            key_lt(node.key, key) ==> node.follows(
                Side::Right,
                tree_map(node.right_child).insert(key, value),
                *r.0,
                r.1,
            ),
            // a key that belongs where no child is comes in as a level leaf
            key_lt(key, node.key) && node.left_child.is_none() ==> node.with_leaf(
                Side::Left,
                key,
                value,
                0,
            ).settles(HeightChange::Increased, Side::Left, *r.0, r.1),
            key_lt(node.key, key) && node.right_child.is_none() ==> node.with_leaf(
                Side::Right,
                key,
                value,
                0,
            ).settles(HeightChange::Increased, Side::Right, *r.0, r.1),
            // an insertion below that brings no rotation at this node
            // leaves the entry of this node and its other subtree as they
            // are
            key_lt(key, node.key) && node.metadata >= 0 ==> r.0.key == node.key && r.0.value
                == node.value && r.0.right_child == node.right_child,
            key_lt(node.key, key) && node.metadata <= 0 ==> r.0.key == node.key && r.0.value
                == node.value && r.0.left_child == node.left_child,
        decreases node,
    {
        proof {
            lemma_strict_order::<K>();
            lemma_same_shape_reflexive(node.left_child);
            lemma_same_shape_reflexive(node.right_child);
        }
        let ghost before = *node;
        let affected_child_side: Side;
        let mut affected_child_change = HeightChange::Increased;
        match compare(&key, &node.key) {
            Rank::Same => {
                node.key = key;
                node.value = value;
                return (node, HeightChange::Unchanged);
            },
            Rank::Below => {
                affected_child_side = Side::Left;
                match node.left_child.take() {
                    None => {
                        node.left_child = new_node(key, value);
                    },
                    Some(child) => {
                        let (child, change) = Self::insert(child, key, value);
                        affected_child_change = change;
                        node.left_child = Some(child);
                    },
                };
                proof {
                    assert(node.contents() =~= before.contents().insert(key, value));
                }
            },
            Rank::Above => {
                affected_child_side = Side::Right;
                match node.right_child.take() {
                    None => {
                        node.right_child = new_node(key, value);
                    },
                    Some(child) => {
                        let (child, change) = Self::insert(child, key, value);
                        affected_child_change = change;
                        node.right_child = Some(child);
                    },
                };
                proof {
                    assert(node.contents() =~= before.contents().insert(key, value));
                }
            },
        }
        let ghost below = *node;
        let answer = Self::handle_child_change(node, affected_child_change, affected_child_side);
        proof {
            let rest = below.kid(affected_child_side);
            assert(tree_map(rest) =~= tree_map(before.kid(affected_child_side)).insert(key, value));
            assert(ordered(rest));
            assert(balanced(rest));
            assert(depth(rest) == depth(before.kid(affected_child_side))
                + affected_child_change.shift());
            assert(before.with_kid(affected_child_side, rest).settles(
                affected_child_change,
                affected_child_side,
                *answer.0,
                answer.1,
            ));
        }
        answer
    }

    /// Takes the node with the least key out of the subtree under `node`.
    fn pop_smallest_node(mut node: BoxedNode<K, V>) -> (r: (
        Child<K, V>,
        BoxedNode<K, V>,
        HeightChange,
    ))
        requires
            strict_order::<K>(),
            node.sorted(),
            node.fit(),
        ensures
            is_least(node.contents(), r.1.key),
            r.1.value == node.contents()[r.1.key],
            tree_map(r.0) == node.contents().remove(r.1.key),
            ordered(r.0),
            balanced(r.0),
            r.2 != HeightChange::Increased,
            depth(r.0) == node.levels() + r.2.shift(),
            r.1.left_child.is_none() && r.1.right_child.is_none(),
            node.left_child.is_none() ==> r.1.key == node.key && r.1.value == node.value && r.0
                == node.right_child && r.2 == HeightChange::Decreased,
            // else the least entry leaves the left subtree, and the node
            // answers
            node.left_child.is_some() ==> r.0.is_some() && node.follows(
                Side::Left,
                tree_map(node.left_child).remove(r.1.key),
                *r.0.unwrap(),
                r.2,
            ),
            // without a rotation at this node, only its left subtree changes
            node.left_child.is_some() && node.metadata <= 0 ==> r.0.is_some() && r.0.unwrap().key
                == node.key && r.0.unwrap().value == node.value && r.0.unwrap().right_child
                == node.right_child,
        decreases node,
    {
        proof {
            lemma_strict_order::<K>();
        }
        let ghost before = *node;
        match node.left_child.take() {
            // cannot go on, this node is the one
            None => {
                // what hangs to the right stays in the tree
                let right_child = node.right_child.take();
                proof {
                    before.lemma_leftmost();
                }
                (right_child, node, HeightChange::Decreased)
            },
            // node has a left child and therefore is not the smallest
            Some(child) => {
                proof {
                    before.lemma_left();
                }
                let (left, popped, shrunk) = Self::pop_smallest_node(child);
                node.left_child = left;
                // the removal below may have changed the depth
                let (node, height_change) = Self::handle_child_change(node, shrunk, Side::Left);
                proof {
                    assert(before.with_kid(Side::Left, left).settles(
                        shrunk,
                        Side::Left,
                        *node,
                        height_change,
                    ));
                }
                (Some(node), popped, height_change)
            },
        }
    }

    #[verifier::rlimit(100)]
    fn remove(mut node: BoxedNode<K, V>, key: &K) -> (r: (
        Child<K, V>,
        HeightChange,
        Option<(K, V)>,
    ))
        requires
            strict_order::<K>(),
            node.sorted(),
            node.fit(),
        ensures
            tree_map(r.0) == node.contents().remove(*key),
            r.2 == (if node.contents().dom().contains(*key) {
                Some((*key, node.contents()[*key]))
            } else {
                None
            }),
            ordered(r.0),
            balanced(r.0),
            r.1 != HeightChange::Increased,
            depth(r.0) == node.levels() + r.1.shift(),
            // a key that is not there leaves everything as it is
            !node.contents().dom().contains(*key) ==> r.0 == Some(node) && r.1
                == HeightChange::Unchanged,
            // a node with one child at most is spliced out
            *key == node.key && node.left_child.is_none() ==> r.0 == node.right_child && r.1
                == HeightChange::Decreased,
            *key == node.key && node.right_child.is_none() ==> r.0 == node.left_child && r.1
                == HeightChange::Decreased,
            // with two children the least entry of the right subtree takes
            // the place;
            *key == node.key && node.left_child.is_some() && node.right_child.is_some()
                ==> r.0.is_some() && node.succeeded(*r.0.unwrap(), r.1),
            // where the right child holds it, that child is spliced out,
            *key == node.key && node.left_child.is_some() && node.right_child.is_some()
                && node.right_child.unwrap().left_child.is_none() ==> r.0.is_some()
                && node.promoted().settles(
                HeightChange::Decreased,
                Side::Right,
                *r.0.unwrap(),
                r.1,
            ),
            // and where no rotation follows at this node, the entry stands
            // at the top over the same left subtree
            *key == node.key && node.left_child.is_some() && node.right_child.is_some()
                && node.metadata >= 0 ==> r.0.is_some() && is_least(
                tree_map(node.right_child),
                r.0.unwrap().key,
            ) && r.0.unwrap().value == tree_map(node.right_child)[r.0.unwrap().key]
                && r.0.unwrap().left_child == node.left_child && tree_map(
                r.0.unwrap().right_child,
            ) == tree_map(node.right_child).remove(r.0.unwrap().key),
            // a key that belongs further down leaves the subtree on its
            // side, and the node answers
            key_lt(*key, node.key) ==> r.0.is_some() && node.follows(
                Side::Left,
                tree_map(node.left_child).remove(*key),
                *r.0.unwrap(),
                r.1,
            ),
            key_lt(node.key, *key) ==> r.0.is_some() && node.follows(
                Side::Right,
                tree_map(node.right_child).remove(*key),
                *r.0.unwrap(),
                r.1,
            ),
            // a removal below that brings no rotation at this node leaves
            // the entry of this node and its other subtree as they are
            key_lt(*key, node.key) && node.metadata <= 0 ==> r.0.is_some() && r.0.unwrap().key
                == node.key && r.0.unwrap().value == node.value && r.0.unwrap().right_child
                == node.right_child,
            key_lt(node.key, *key) && node.metadata >= 0 ==> r.0.is_some() && r.0.unwrap().key
                == node.key && r.0.unwrap().value == node.value && r.0.unwrap().left_child
                == node.left_child,
        decreases node,
    {
        proof {
            lemma_strict_order::<K>();
        }
        let ghost before = *node;
        match compare(key, &node.key) {
            Rank::Same => {
                let has_left_child = node.left_child.is_some();
                let has_right_child = node.right_child.is_some();
                // with two children, the next node in order takes the place
                if has_right_child && has_left_child {
                    proof {
                        before.lemma_right();
                    }
                    let (right_child, mut replacement, change) = Self::pop_smallest_node(
                        node.right_child.take().unwrap(),
                    );
                    node.right_child = right_child;

                    std::mem::swap(&mut replacement.key, &mut node.key);
                    std::mem::swap(&mut replacement.value, &mut node.value);
                    proof {
                        assert(!tree_map(before.left_child).dom().contains(node.key)) by {
                            if tree_map(before.left_child).dom().contains(node.key) {
                                assert(key_lt(node.key, before.key));
                            }
                        }
                        assert forall|k: K| #[trigger]
                            tree_map(node.left_child).dom().contains(k) implies key_lt(
                            k,
                            node.key,
                        ) by {
                            assert(key_lt(k, before.key));
                        }
                        assert(node.contents() =~= before.contents().remove(*key));
                    }
                    let ghost promoted = *node;
                    let ghost shrunk = change;
                    let (node, change) = Self::handle_child_change(node, change, Side::Right);
                    proof {
                        assert(promoted == before.succeeded_by(
                            promoted.key,
                            tree_map(before.right_child)[promoted.key],
                            promoted.right_child,
                        ));
                        assert(before.succeeded_by(
                            promoted.key,
                            tree_map(before.right_child)[promoted.key],
                            promoted.right_child,
                        ).settles(shrunk, Side::Right, *node, change));
                    }
                    let removed = *replacement;
                    (Some(node), change, Some((removed.key, removed.value)))
                } else if has_right_child {
                    // with one child, that child takes the place
                    let child = node.right_child.take();
                    let removed = *node;
                    (child, HeightChange::Decreased, Some((removed.key, removed.value)))
                } else if has_left_child {
                    let child = node.left_child.take();
                    let removed = *node;
                    (child, HeightChange::Decreased, Some((removed.key, removed.value)))
                } else {
                    // without children, nothing is left
                    let removed = *node;
                    (None, HeightChange::Decreased, Some((removed.key, removed.value)))
                }
            },
            // the key is not here: look for it under the child on its side
            Rank::Above => {
                match node.right_child.take() {
                    Some(child) => {
                        proof {
                            before.lemma_right();
                        }
                        let (child, shrunk, value) = Self::remove(child, key);
                        node.right_child = child;
                        let (node, change) = Self::handle_child_change(node, shrunk, Side::Right);
                        proof {
                            assert(tree_map(child) =~= tree_map(before.kid(Side::Right)).remove(*key));
                            assert(before.with_kid(Side::Right, child).settles(
                                shrunk,
                                Side::Right,
                                *node,
                                change,
                            ));
                        }
                        (Some(node), change, value)
                    },
                    None => {
                        proof {
                            assert(tree_map(before.kid(Side::Right)).remove(*key) =~= Map::<
                                K,
                                V,
                            >::empty());
                            assert(before.with_kid(Side::Right, None).settles(
                                HeightChange::Unchanged,
                                Side::Right,
                                *node,
                                HeightChange::Unchanged,
                            ));
                        }
                        (Some(node), HeightChange::Unchanged, None)
                    },
                }
            },
            Rank::Below => {
                match node.left_child.take() {
                    Some(child) => {
                        proof {
                            before.lemma_left();
                        }
                        let (child, shrunk, value) = Self::remove(child, key);
                        node.left_child = child;
                        let (node, change) = Self::handle_child_change(node, shrunk, Side::Left);
                        proof {
                            assert(tree_map(child) =~= tree_map(before.kid(Side::Left)).remove(*key));
                            assert(before.with_kid(Side::Left, child).settles(
                                shrunk,
                                Side::Left,
                                *node,
                                change,
                            ));
                        }
                        (Some(node), change, value)
                    },
                    None => {
                        proof {
                            assert(tree_map(before.kid(Side::Left)).remove(*key) =~= Map::<
                                K,
                                V,
                            >::empty());
                            assert(before.with_kid(Side::Left, None).settles(
                                HeightChange::Unchanged,
                                Side::Left,
                                *node,
                                HeightChange::Unchanged,
                            ));
                        }
                        (Some(node), HeightChange::Unchanged, None)
                    },
                }
            },
        }
    }
}

/// The Fibonacci numbers 0, 1, 1, 2, 3, 5, 8 and so on.
pub open spec fn fibonacci(n: nat) -> nat
    decreases n,
{
    if n == 0 {
        0
    } else if n == 1 {
        1
    } else {
        fibonacci((n - 1) as nat) + fibonacci((n - 2) as nat)
    }
}

proof fn lemma_fibonacci_grows(n: nat)
    ensures
        fibonacci(n) <= fibonacci(n + 1),
    decreases n,
{
    if n >= 2 {
        lemma_fibonacci_grows((n - 1) as nat);
    }
}

/// A balanced subtree of a given depth has at least as many nodes as the
/// Fibonacci number two places further on, less one.
proof fn lemma_fewest_nodes<K: Ord, V>(c: Child<K, V>)
    requires
        balanced(c),
    ensures
        fibonacci(depth(c) + 2) <= count(c) + 1,
    decreases c,
{
    match c {
        None => {
            assert(fibonacci(2) == fibonacci(1) + fibonacci(0));
        },
        Some(n) => {
            lemma_fewest_nodes(n.left_child);
            lemma_fewest_nodes(n.right_child);
            let l = depth(n.left_child);
            let r = depth(n.right_child);
            lemma_fibonacci_grows(l + 2);
            lemma_fibonacci_grows(r + 2);
        },
    }
}

/// The depth of a subtree where it is balanced and the depth fits.
fn measure<K: Ord, V>(c: &Child<K, V>) -> (r: Option<usize>)
    ensures
        r.is_some() == (balanced(*c) && depth(*c) <= usize::MAX),
        r.is_some() ==> r.unwrap() == depth(*c),
    decreases *c,
{
    match c {
        None => Some(0),
        Some(n) => {
            let l = match measure(&n.left_child) {
                None => {
                    return None;
                },
                Some(l) => l,
            };
            let r = match measure(&n.right_child) {
                None => {
                    return None;
                },
                Some(r) => r,
            };
            let fits = if l == r {
                n.metadata == 0
            } else if l < r {
                r - l == 1 && n.metadata == 1
            } else {
                l - r == 1 && n.metadata == -1
            };
            let deeper = if l >= r {
                l
            } else {
                r
            };
            if fits && deeper < usize::MAX {
                Some(deeper + 1)
            } else {
                None
            }
        },
    }
}

/// A height-balanced ordered map.
pub type AVL<K, V> = crate::Tree<K, V, i8>;

impl<K: Ord, V> AVL<K, V> {
    /// Every node records the depth of its right subtree less that of its
    /// left one, and the two differ by one at most.
    pub closed spec fn is_balanced(&self) -> bool {
        balanced(self.root)
    }

    /// The tree is a search tree and is height-balanced.
    pub open spec fn is_avl(&self) -> bool {
        self.is_bst() && self.is_balanced()
    }

    /// Goes through the whole tree and tells whether every node records
    /// the difference in depth of its subtrees and no difference exceeds
    /// one. A tree too deep for its depth to be counted is reported as not
    /// balanced.
    pub fn check_balance(&self) -> (r: bool)
        ensures
            r == (self.is_balanced() && self.levels() <= usize::MAX),
    {
        measure(&self.root).is_some()
    }

    /// A height-balanced tree is shallow: a tree of a given depth holds at
    /// least as many entries as the Fibonacci number two places further on,
    /// less one, so that the depth grows with the logarithm of the number
    /// of entries.
    pub proof fn lemma_depth_bound(&self)
        requires
            strict_order::<K>(),
            self.is_avl(),
        ensures
            fibonacci(self.levels() + 2) <= self@.len() + 1,
    {
        lemma_fewest_nodes(self.root);
        lemma_count(self.root);
    }

    /// An empty tree.
    pub fn new() -> (t: Self)
        ensures
            t.is_avl(),
            t@ == Map::<K, V>::empty(),
    {
        AVL { root: None }
    }

    /// Takes the entry of `key` out of the tree and returns it, or returns
    /// `None` and leaves the tree as it is where there is none.
    pub fn remove(&mut self, key: &K) -> (r: Option<(K, V)>)
        requires
            strict_order::<K>(),
            old(self).is_avl(),
        ensures
            final(self).is_avl(),
            final(self)@ == old(self)@.remove(*key),
            r == (if old(self)@.dom().contains(*key) {
                Some((*key, old(self)@[*key]))
            } else {
                None
            }),
            final(self)@.len() == old(self)@.len() - (if old(self)@.dom().contains(*key) {
                1int
            } else {
                0int
            }),
            !old(self)@.dom().contains(*key) ==> *final(self) == *old(self),
            !old(self)@.dom().contains(*key) ==> final(self).same_shape(old(self)),
    {
        proof {
            lemma_tree_map_finite(self.root);
            lemma_same_shape_reflexive(self.root);
        }
        match self.root.take() {
            None => {
                None
            },
            Some(node) => {
                let (root, _, returned_value) = Node::remove(node, key);
                self.root = root;
                returned_value
            },
        }
    }

    /// Maps `key` to `value`. Where the tree holds `key` already, only the
    /// value changes: every node stays where it is.
    pub fn insert(&mut self, key: K, value: V)
        requires
            strict_order::<K>(),
            old(self).is_avl(),
        ensures
            final(self).is_avl(),
            final(self)@ == old(self)@.insert(key, value),
            final(self)@.len() == old(self)@.len() + (if old(self)@.dom().contains(key) {
                0int
            } else {
                1int
            }),
            old(self)@.dom().contains(key) ==> final(self).same_shape(old(self)),
    {
        proof {
            lemma_tree_map_finite(self.root);
        }
        match self.root.take() {
            None => {
                self.root = new_node(key, value);
                proof {
                    assert(self@ =~= old(self)@.insert(key, value));
                }
            },
            Some(node) => {
                let (node, _) = Node::insert(node, key, value);
                self.root = Some(node);
            },
        }
    }
}

} // verus!
