//! Colour-balanced trees: every node is red or black, no red node has a red
//! child, and every path from a node down to a missing child passes the same
//! number of black nodes.
use vstd::prelude::*;

use crate::count;
use crate::depth;
use crate::is_least;
use crate::lemma_count;
use crate::lemma_left_rotation;
use crate::lemma_right_rotation;
use crate::lemma_same_shape_reflexive;
use crate::lemma_tree_map_finite;
use crate::order::compare;
use crate::order::key_lt;
use crate::order::lemma_strict_order;
use crate::order::strict_order;
use crate::order::Rank;
use crate::ordered;
use crate::same_shape;
use crate::tree_map;
use crate::Side;

verus! {

#[derive(Debug, Clone, Copy, PartialEq, Eq, Structural)]
pub enum Color {
    Black,
    Red,
}

/// After an insertion below a node: the side of that node's red child, where
/// the node is red itself.
type InsertRotation = Option<Side>;

type Node<K, V> = crate::Node<K, V, Color>;

type BoxedNode<K, V> = Box<Node<K, V>>;

type Child<K, V> = crate::Child<K, V, Color>;

/// A colour-balanced ordered map.
pub type RedBlack<K, V> = crate::Tree<K, V, Color>;

/// The subtree has a red node at its top.
spec fn red<K: Ord, V>(c: Child<K, V>) -> bool {
    c.is_some() && c.unwrap().metadata == Color::Red
}

/// Number of black nodes on the leftmost path down a subtree.
spec fn black_height<K: Ord, V>(c: Child<K, V>) -> nat
    decreases c,
{
    match c {
        None => 0,
        Some(n) => black_height(n.left_child) + (if n.metadata == Color::Black {
            1nat
        } else {
            0nat
        }),
    }
}

/// No red node has a red child, and at every node the two subtrees have
/// the same number of black nodes on every path down.
spec fn colored<K: Ord, V>(c: Child<K, V>) -> bool
    decreases c,
{
    match c {
        None => true,
        Some(n) => {
            &&& colored(n.left_child)
            &&& colored(n.right_child)
            &&& black_height(n.left_child) == black_height(n.right_child)
            &&& n.metadata == Color::Red ==> !red(n.left_child) && !red(n.right_child)
        },
    }
}

/// The subtree with its top in black.
spec fn blackened<K: Ord, V>(c: Child<K, V>) -> Child<K, V> {
    match c {
        None => None,
        Some(n) => Some(Box::new(n.painted(Color::Black))),
    }
}

fn new_node<K: Ord, V>(key: K, value: V, color: Color) -> (r: Child<K, V>)
    ensures
        r.is_some(),
        r.unwrap().key == key,
        r.unwrap().value == value,
        r.unwrap().left_child.is_none(),
        r.unwrap().right_child.is_none(),
        r.unwrap().metadata == color,
{
    Some(Box::new(Node { key, value, left_child: None, right_child: None, metadata: color }))
}

impl<K: Ord, V> Node<K, V> {
    /// Number of black nodes on the leftmost path down from this node.
    spec fn black_levels(&self) -> nat {
        black_height(self.left_child) + (if self.metadata == Color::Black {
            1nat
        } else {
            0nat
        })
    }

    /// Both subtrees are well coloured and have the same black height.
    spec fn even(&self) -> bool {
        &&& colored(self.left_child)
        &&& colored(self.right_child)
        &&& black_height(self.left_child) == black_height(self.right_child)
    }

    /// The subtree under this node is well coloured.
    spec fn valid(&self) -> bool {
        &&& self.even()
        &&& self.metadata == Color::Red ==> !red(self.left_child) && !red(self.right_child)
    }

    /// This node in the colour `color`.
    spec fn painted(&self, color: Color) -> Node<K, V> {
        Node {
            key: self.key,
            value: self.value,
            left_child: self.left_child,
            right_child: self.right_child,
            metadata: color,
        }
    }

    /// This node with its child on `side` in the colour `color`.
    spec fn paint_kid(&self, side: Side, color: Color) -> Node<K, V> {
        self.with_kid(side, Some(Box::new(self.kid(side).unwrap().painted(color))))
    }

    /// This node turned towards `side`: its child on the other side is on
    /// top, this node hangs below it on `side` and has taken over the
    /// subtree that the new top had there. Every node keeps its colour.
    spec fn turn(&self, side: Side) -> Node<K, V> {
        let top = self.kid(side.flip()).unwrap();
        top.with_kid(side, Some(Box::new(self.with_kid(side.flip(), top.kid(side)))))
    }

    fn is_black(node: &Child<K, V>) -> (r: bool)
        ensures
            r == !red(*node),
    {
        !Self::is_red(node)
    }

    fn is_red(node: &Child<K, V>) -> (r: bool)
        ensures
            r == red(*node),
    {
        match node {
            None => false,
            Some(x) => x.metadata == Color::Red,
        }
    }

    fn another_child(&self, child_side: Side) -> (r: &Child<K, V>)
        ensures
            *r == self.kid(child_side.flip()),
    {
        self.child(child_side.other())
    }

    fn child(&self, child_side: Side) -> (r: &Child<K, V>)
        ensures
            *r == self.kid(child_side),
    {
        match child_side {
            Side::Left => &self.left_child,
            Side::Right => &self.right_child,
        }
    }

    /// Takes the child on `side` out of the node.
    fn detach(&mut self, side: Side) -> (r: Child<K, V>)
        ensures
            r == old(self).kid(side),
            *final(self) == old(self).with_kid(side, None),
            final(self).kid(side).is_none(),
            final(self).kid(side.flip()) == old(self).kid(side.flip()),
            final(self).key == old(self).key,
            final(self).value == old(self).value,
            final(self).metadata == old(self).metadata,
    {
        match side {
            Side::Left => self.left_child.take(),
            Side::Right => self.right_child.take(),
        }
    }

    /// Hangs `child` under the node on `side`, in place of what was there.
    fn attach(&mut self, side: Side, child: Child<K, V>)
        ensures
            *final(self) == old(self).with_kid(side, child),
            final(self).kid(side) == child,
            final(self).kid(side.flip()) == old(self).kid(side.flip()),
            final(self).key == old(self).key,
            final(self).value == old(self).value,
            final(self).metadata == old(self).metadata,
    {
        match side {
            Side::Left => {
                self.left_child = child;
            },
            Side::Right => {
                self.right_child = child;
            },
        }
    }

    /// Gives the child on `side` the colour `color`.
    fn paint_child(&mut self, side: Side, color: Color)
        requires
            old(self).kid(side).is_some(),
        ensures
            *final(self) == old(self).paint_kid(side, color),
            final(self).kid(side).is_some(),
            final(self).kid(side).unwrap().metadata == color,
            final(self).kid(side).unwrap().key == old(self).kid(side).unwrap().key,
            final(self).kid(side).unwrap().value == old(self).kid(side).unwrap().value,
            final(self).kid(side).unwrap().left_child == old(self).kid(side).unwrap().left_child,
            final(self).kid(side).unwrap().right_child == old(self).kid(
                side,
            ).unwrap().right_child,
            final(self).kid(side.flip()) == old(self).kid(side.flip()),
            final(self).key == old(self).key,
            final(self).value == old(self).value,
            final(self).metadata == old(self).metadata,
    {
        let mut child = self.detach(side).unwrap();
        child.metadata = color;
        self.attach(side, Some(child));
    }

    // Rotates tree to the left
    //        a                b
    //       / \              / \
    //      W   b            a   Y
    //         / \    =>    / \
    //        Z   Y        W   Z
    fn rotate_left(mut node: BoxedNode<K, V>) -> (res: BoxedNode<K, V>)
        requires
            strict_order::<K>(),
            node.sorted(),
            node.right_child.is_some(),
        ensures
            *res == node.turn(Side::Left),
            res.sorted(),
            res.contents() == node.contents(),
    {
        let ghost before = *node;
        let mut new_self = node.right_child.take().unwrap();  // takes b
        node.right_child = new_self.left_child.take();  // reassign Z
        new_self.left_child = Some(node);  // takes a to b
        proof {
            lemma_left_rotation(before, *new_self);
        }
        new_self
    }

    // Rotates tree to the right
    //        a            b
    //       / \          / \
    //      b   X        Z   a
    //     / \      =>      / \
    //    Z   Y            Y   X
    fn rotate_right(mut node: BoxedNode<K, V>) -> (res: BoxedNode<K, V>)
        requires
            strict_order::<K>(),
            node.sorted(),
            node.left_child.is_some(),
        ensures
            *res == node.turn(Side::Right),
            res.sorted(),
            res.contents() == node.contents(),
    {
        let ghost before = *node;
        let mut new_self = node.left_child.take().unwrap();  // takes b
        node.left_child = new_self.right_child.take();  // reassign Y
        new_self.right_child = Some(node);  // takes a to b
        proof {
            lemma_right_rotation(before, *new_self);
        }
        new_self
    }

    /// Turns the tree away from `side`: the child on `side` comes to the top.
    fn rotate_from(node: BoxedNode<K, V>, side: Side) -> (res: BoxedNode<K, V>)
        requires
            strict_order::<K>(),
            node.sorted(),
            node.kid(side).is_some(),
        ensures
            *res == node.turn(side.flip()),
            res.sorted(),
            res.contents() == node.contents(),
    {
        match side {
            Side::Left => Self::rotate_right(node),
            Side::Right => Self::rotate_left(node),
        }
    }

    /// Turns the tree towards `side`: the child on the other side comes to
    /// the top.
    fn rotate_to(node: BoxedNode<K, V>, side: Side) -> (res: BoxedNode<K, V>)
        requires
            strict_order::<K>(),
            node.sorted(),
            node.kid(side.flip()).is_some(),
        ensures
            *res == node.turn(side),
            res.sorted(),
            res.contents() == node.contents(),
    {
        match side {
            Side::Left => Self::rotate_left(node),
            Side::Right => Self::rotate_right(node),
        }
    }

    /// What an insertion below the child on `side` reports upwards.
    spec fn signals(&self, rotation: InsertRotation) -> bool {
        match rotation {
            None => self.valid(),
            Some(side) => self.even() && self.metadata == Color::Red && red(self.kid(side))
                && !red(self.kid(side.flip())),
        }
    }

    /// The state of a node after an insertion below its child on `side`
    /// that reported `rotation`.
    spec fn awaits_insert_fixup(&self, rotation: InsertRotation, side: Side) -> bool {
        &&& self.kid(side).is_some()
        &&& self.kid(side).unwrap().signals(rotation)
        &&& colored(self.kid(side.flip()))
        &&& black_height(self.kid(side)) == black_height(self.kid(side.flip()))
        &&& self.metadata == Color::Red ==> !red(self.kid(side.flip()))
        &&& rotation.is_some() ==> self.metadata == Color::Black
    }

    /// What mends a red child on `child_side` that has a red child of its
    /// own on `grandchild_side`, under a node whose other child is not red:
    /// the one of the three nodes whose key lies between the other two is
    /// on top in black, the other two hang below it in red, and the
    /// subtrees hang below these in their order.
    spec fn mended(&self, child_side: Side, grandchild_side: Side) -> Node<K, V> {
        let straight = if grandchild_side == child_side {
            *self
        } else {
            self.with_kid(
                child_side,
                Some(Box::new(self.kid(child_side).unwrap().turn(child_side))),
            )
        };
        straight.paint_kid(child_side, Color::Black).painted(Color::Red).turn(child_side.flip())
    }

    /// What a red child with a red child of its own and a red sibling
    /// brings about: both children are painted black and this node red,
    /// and nothing moves.
    spec fn repainted(&self) -> Node<K, V> {
        self.paint_kid(Side::Left, Color::Black).paint_kid(Side::Right, Color::Black).painted(
            Color::Red,
        )
    }

    /// `r` with `signal` is the answer of this node to what the child on
    /// `side` reports after an insertion below it.
    ///
    /// With no red pair below nothing changes, and a red pair of this node
    /// and its child is reported. With a red pair below and a red sibling
    /// the node is repainted. With a red pair below and no red sibling it
    /// is mended by rotation.
    spec fn answers(
        &self,
        rotation: InsertRotation,
        side: Side,
        r: Node<K, V>,
        signal: InsertRotation,
    ) -> bool {
        if rotation.is_none() {
            r == *self && signal == (if red(self.kid(side)) && self.metadata == Color::Red {
                Some(side)
            } else {
                None
            })
        } else if red(self.kid(side.flip())) {
            r == self.repainted() && signal.is_none()
        } else {
            r == self.mended(side, rotation.unwrap()) && signal.is_none()
        }
    }

    /// `r` with `signal` is what an insertion below this node on `side`
    /// makes of it: the subtree there has given way to one of the same
    /// black height that stands for `below`, and the node has answered to
    /// what that one reports.
    spec fn grows(
        &self,
        side: Side,
        below: Map<K, V>,
        r: Node<K, V>,
        signal: InsertRotation,
    ) -> bool {
        exists|rest: Child<K, V>, rotation: InsertRotation|
            {
                &&& rest.is_some()
                &&& tree_map(rest) == below
                &&& ordered(rest)
                &&& rest.unwrap().signals(rotation)
                &&& black_height(rest) == black_height(self.kid(side))
                &&& #[trigger] self.with_kid(side, rest).answers(rotation, side, r, signal)
            }
    }

    /// A red node with a red child breaks the rules: the child's side is
    /// reported so that the node above can mend it.
    fn resolve_rotation(&self, child_color: Color, child_side: Side) -> (r: InsertRotation)
        ensures
            r == (if child_color == Color::Red && self.metadata == Color::Red {
                Some(child_side)
            } else {
                None
            }),
    {
        if child_color == Color::Red && self.metadata == Color::Red {
            Some(child_side)
        } else {
            None
        }
    }

    /// Mends a red child with a red child of its own below a node whose
    /// other child is not red: the middle one of the three comes to the top
    /// in black, with the other two below it in red.
    fn rotate(mut node: BoxedNode<K, V>, child_side: Side, grandchild_side: Side) -> (res:
        BoxedNode<K, V>)
        requires
            strict_order::<K>(),
            node.sorted(),
            node.awaits_insert_fixup(Some(grandchild_side), child_side),
            !red(node.kid(child_side.flip())),
        ensures
            *res == node.mended(child_side, grandchild_side),
            res.sorted(),
            res.contents() == node.contents(),
            res.valid(),
            res.metadata == Color::Black,
            res.black_levels() == node.black_levels(),
    {
        proof {
            lemma_strict_order::<K>();
        }
        let ghost before = *node;
        if grandchild_side != child_side {
            // the grandchild sorts between the two: it takes the child's
            // place first
            let child = node.detach(child_side).unwrap();
            proof {
                if child_side == Side::Left {
                    before.lemma_left();
                } else {
                    before.lemma_right();
                }
            }
            let child = Self::rotate_from(child, grandchild_side);
            node.attach(child_side, Some(child));
        }
        node.paint_child(child_side, Color::Black);
        node.metadata = Color::Red;
        proof {
            assert(tree_map(node.kid(child_side)) == tree_map(before.kid(child_side)));
        }
        Self::rotate_from(node, child_side)
    }

    /// Restores the colouring at a node after an insertion below its child
    /// on `child_side`.
    fn handle_insert_rotation(
        mut node: BoxedNode<K, V>,
        rotation: InsertRotation,
        child_side: Side,
    ) -> (r: (BoxedNode<K, V>, InsertRotation))
        requires
            strict_order::<K>(),
            node.sorted(),
            node.awaits_insert_fixup(rotation, child_side),
        ensures
            r.0.sorted(),
            r.0.contents() == node.contents(),
            r.0.signals(r.1),
            r.0.black_levels() == node.black_levels(),
            r.1.is_some() ==> node.metadata == Color::Red,
            node.answers(rotation, child_side, *r.0, r.1),
    {
        let ghost before = *node;
        if let Some(grand_child_side) = rotation {
            // a red sibling can be painted black together with the child,
            // and this node red: the black heights stay as they are
            if Self::is_red(node.another_child(child_side)) {
                node.paint_child(child_side.other(), Color::Black);
                node.paint_child(child_side, Color::Black);
                node.metadata = Color::Red;
                proof {
                    assert(tree_map(node.left_child) == tree_map(before.left_child));
                    assert(tree_map(node.right_child) == tree_map(before.right_child));
                }
                (node, None)
            } else {
                (Self::rotate(node, child_side, grand_child_side), None)
            }
        } else {
            // the child may have turned red
            let child_color = match node.child(child_side) {
                Some(child) => child.metadata,
                None => Color::Black,
            };
            let rotation = node.resolve_rotation(child_color, child_side);
            (node, rotation)
        }
    }

    fn insert_recursively(mut node: BoxedNode<K, V>, key: K, value: V) -> (r: (
        BoxedNode<K, V>,
        InsertRotation,
    ))
        requires
            strict_order::<K>(),
            node.sorted(),
            node.valid(),
        ensures
            r.0.sorted(),
            r.0.contents() == node.contents().insert(key, value),
            r.0.signals(r.1),
            r.0.black_levels() == node.black_levels(),
            r.1.is_some() ==> node.metadata == Color::Red,
            node.contents().dom().contains(key) ==> r.1.is_none() && same_shape(
                Some(node),
                Some(r.0),
            ),
            // a key that is there keeps its place: the value alone changes
            key == node.key ==> *r.0 == node.with_value(value) && r.1.is_none(),
            // a key that belongs further down goes into the subtree on its
            // side, and the node answers
            key_lt(key, node.key) ==> node.grows(
                Side::Left,
                tree_map(node.left_child).insert(key, value),
                *r.0,
                r.1,
            ),
            key_lt(node.key, key) ==> node.grows(
                Side::Right,
                tree_map(node.right_child).insert(key, value),
                *r.0,
                r.1,
            ),
            // a key that belongs where no child is comes in as a red leaf,
            // and a red pair of this node and the leaf is reported
            key_lt(key, node.key) && node.left_child.is_none() ==> *r.0 == node.with_leaf(
                Side::Left,
                key,
                value,
                Color::Red,
            ) && r.1 == (if node.metadata == Color::Red {
                Some(Side::Left)
            } else {
                None
            }),
            key_lt(node.key, key) && node.right_child.is_none() ==> *r.0 == node.with_leaf(
                Side::Right,
                key,
                value,
                Color::Red,
            ) && r.1 == (if node.metadata == Color::Red {
                Some(Side::Right)
            } else {
                None
            }),
            // an insertion below a black child leaves this node, its entry
            // and its other subtree as they are
            key_lt(key, node.key) && node.left_child.is_some() && !red(node.left_child)
                ==> r.0.key == node.key && r.0.value == node.value && r.0.metadata
                == node.metadata && r.0.right_child == node.right_child,
            key_lt(node.key, key) && node.right_child.is_some() && !red(node.right_child)
                ==> r.0.key == node.key && r.0.value == node.value && r.0.metadata
                == node.metadata && r.0.left_child == node.left_child,
        decreases node,
    {
        proof {
            lemma_strict_order::<K>();
            lemma_same_shape_reflexive(node.left_child);
            lemma_same_shape_reflexive(node.right_child);
        }
        let ghost before = *node;
        let rotation: InsertRotation;
        match compare(&key, &node.key) {
            Rank::Same => {
                node.key = key;
                node.value = value;
                (node, None)
            },
            Rank::Below => {
                match node.left_child.take() {
                    None => {
                        node.left_child = new_node(key, value, Color::Red);
                        proof {
                            assert(node.contents() =~= before.contents().insert(key, value));
                        }
                        let r = node.resolve_rotation(Color::Red, Side::Left);
                        proof {
                            let rest = node.left_child;
                            assert(tree_map(rest) =~= tree_map(before.left_child).insert(key, value));
                            assert(before.with_kid(Side::Left, rest).answers(
                                None,
                                Side::Left,
                                *node,
                                r,
                            ));
                        }
                        return (node, r);
                    },
                    Some(child) => {
                        let (child, r) = Self::insert_recursively(child, key, value);
                        rotation = r;
                        node.left_child = Some(child);
                    },
                };
                proof {
                    assert(node.contents() =~= before.contents().insert(key, value));
                }
                let ghost rest = node.left_child;
                let answer = Self::handle_insert_rotation(node, rotation, Side::Left);
                proof {
                    assert(tree_map(rest) =~= tree_map(before.left_child).insert(key, value));
                    assert(before.with_kid(Side::Left, rest).answers(
                        rotation,
                        Side::Left,
                        *answer.0,
                        answer.1,
                    ));
                }
                answer
            },
            Rank::Above => {
                match node.right_child.take() {
                    None => {
                        node.right_child = new_node(key, value, Color::Red);
                        proof {
                            assert(node.contents() =~= before.contents().insert(key, value));
                        }
                        let r = node.resolve_rotation(Color::Red, Side::Right);
                        proof {
                            let rest = node.right_child;
                            assert(tree_map(rest) =~= tree_map(before.right_child).insert(key, value));
                            assert(before.with_kid(Side::Right, rest).answers(
                                None,
                                Side::Right,
                                *node,
                                r,
                            ));
                        }
                        return (node, r);
                    },
                    Some(child) => {
                        let (child, r) = Self::insert_recursively(child, key, value);
                        rotation = r;
                        node.right_child = Some(child);
                    },
                }
                proof {
                    assert(node.contents() =~= before.contents().insert(key, value));
                }
                let ghost rest = node.right_child;
                let answer = Self::handle_insert_rotation(node, rotation, Side::Right);
                proof {
                    assert(tree_map(rest) =~= tree_map(before.right_child).insert(key, value));
                    assert(before.with_kid(Side::Right, rest).answers(
                        rotation,
                        Side::Right,
                        *answer.0,
                        answer.1,
                    ));
                }
                answer
            },
        }
    }

    fn insert(node: BoxedNode<K, V>, key: K, value: V) -> (res: BoxedNode<K, V>)
        requires
            strict_order::<K>(),
            node.sorted(),
            node.valid(),
        ensures
            res.sorted(),
            res.contents() == node.contents().insert(key, value),
            res.valid(),
            res.metadata == Color::Black,
            node.contents().dom().contains(key) && node.metadata == Color::Black ==> same_shape(
                Some(node),
                Some(res),
            ),
    {
        let (mut res, _) = Self::insert_recursively(node, key, value);
        // the top may have come out red, with a red child even: painting it
        // black mends both
        res.metadata = Color::Black;
        res
    }

    /// The paths down through the child on `side` pass one black node less
    /// than those through the other child; apart from that the colouring
    /// below this node is in order, and the child on `side` is not red.
    spec fn short_on(&self, side: Side) -> bool {
        &&& colored(self.kid(side))
        &&& colored(self.kid(side.flip()))
        &&& black_height(self.kid(side)) + 1 == black_height(self.kid(side.flip()))
        &&& !red(self.kid(side))
        &&& self.metadata == Color::Red ==> !red(self.kid(side.flip()))
    }

    /// Black height of the subtree before it came to be short on `side`.
    spec fn full_levels(&self, side: Side) -> nat {
        black_height(self.kid(side.flip())) + (if self.metadata == Color::Black {
            1nat
        } else {
            0nat
        })
    }

    /// The sibling of the short child is black and has a red child on the
    /// far side.
    spec fn far_nephew_red(&self, side: Side) -> bool {
        &&& !red(self.kid(side.flip()))
        &&& red(self.kid(side.flip()).unwrap().kid(side.flip()))
    }

    /// The sibling of the short child is black, its child on the near side
    /// is red and the one on the far side is not.
    spec fn near_nephew_red(&self, side: Side) -> bool {
        &&& !red(self.kid(side.flip()))
        &&& red(self.kid(side.flip()).unwrap().kid(side))
        &&& !red(self.kid(side.flip()).unwrap().kid(side.flip()))
    }

    /// The sibling of the short child is black and has no red child.
    spec fn nephews_black(&self, side: Side) -> bool {
        &&& !red(self.kid(side.flip()))
        &&& !red(self.kid(side.flip()).unwrap().kid(side))
        &&& !red(self.kid(side.flip()).unwrap().kid(side.flip()))
    }

    /// What evens out a node short on `side` whose sibling there is black
    /// with a red child on the far side: the node turned towards `side`,
    /// with the new top in the colour of the old one and both children of
    /// the new top in black.
    spec fn far_mended(&self, side: Side) -> Node<K, V> {
        self.turn(side).painted(self.metadata).paint_kid(side, Color::Black).paint_kid(
            side.flip(),
            Color::Black,
        )
    }

    /// What evens out a node short on `side` whose sibling there is black
    /// with a red child on the near side only: the sibling turned away
    /// from `side`, with the nephew in black above the sibling in red, and
    /// then the node mended as for a red far nephew.
    spec fn near_mended(&self, side: Side) -> Node<K, V> {
        let sibling = self.kid(side.flip()).unwrap();
        self.with_kid(
            side.flip(),
            Some(Box::new(sibling.painted(Color::Red).turn(side.flip()).painted(Color::Black))),
        ).far_mended(side)
    }

    /// What evens out a red node short on `side` whose sibling there is
    /// black without a red child: the node in black, the sibling in red.
    spec fn swapped(&self, side: Side) -> Node<K, V> {
        self.painted(Color::Black).paint_kid(side.flip(), Color::Red)
    }

    /// What is made of a node short on `side` whose sibling is black. Only
    /// where the node and both nephews are black as well the shortage
    /// stays: then the sibling alone changes, to red.
    spec fn evened_by_black_sibling(&self, side: Side) -> Node<K, V> {
        let sibling = self.kid(side.flip()).unwrap();
        if red(sibling.kid(side.flip())) {
            self.far_mended(side)
        } else if red(sibling.kid(side)) {
            self.near_mended(side)
        } else if self.metadata == Color::Red {
            self.swapped(side)
        } else {
            self.paint_kid(side.flip(), Color::Red)
        }
    }

    /// What evens out a node short on `side` whose sibling is red: the
    /// node turned towards `side`, the former sibling on top in black, and
    /// this node below it in red, evened out against its new, black
    /// sibling.
    spec fn sibling_mended(&self, side: Side) -> Node<K, V> {
        let top = self.turn(side).painted(Color::Black);
        let below = top.kid(side).unwrap().painted(Color::Red);
        top.with_kid(side, Some(Box::new(below.evened_by_black_sibling(side))))
    }

    /// What is made of a node short on `side`.
    spec fn evened(&self, side: Side) -> Node<K, V> {
        if red(self.kid(side.flip())) {
            self.sibling_mended(side)
        } else {
            self.evened_by_black_sibling(side)
        }
    }

    /// The shortage on `side` cannot be made up for at this node: the
    /// node, its other child and the children of that one are black.
    spec fn stays_short(&self, side: Side) -> bool {
        self.metadata == Color::Black && self.nephews_black(side)
    }

    // The paths on the changed side pass one black node less than the
    // others: repaint and rotate to make up for it, or report it upwards.
    fn check_imbalance_after_delete(mut node: BoxedNode<K, V>, changed_child_side: Side) -> (r: (
        BoxedNode<K, V>,
        bool,
    ))
        requires
            strict_order::<K>(),
            node.sorted(),
            node.short_on(changed_child_side),
        ensures
            *r.0 == node.evened(changed_child_side),
            r.1 == node.stays_short(changed_child_side),
            r.1 ==> *r.0 == node.paint_kid(changed_child_side.flip(), Color::Red),
            r.0.sorted(),
            r.0.contents() == node.contents(),
            r.0.valid(),
            node.metadata == Color::Black ==> r.0.metadata == Color::Black,
            !r.1 ==> r.0.black_levels() == node.full_levels(changed_child_side),
            r.1 ==> r.0.black_levels() + 1 == node.full_levels(changed_child_side)
                && r.0.metadata == Color::Black,
    {
        let ghost before = *node;
        let is_red = node.metadata == Color::Red;
        let sibling = node.another_child(changed_child_side).as_ref().unwrap();
        if sibling.metadata == Color::Red {
            // a red sibling has black children, and this node is black
            (Self::balance_red_sibling(node, changed_child_side), false)
        } else {
            let same_side_nephew_is_red = !Self::is_black(sibling.child(changed_child_side));
            let other_side_nephew_is_red = !Self::is_black(
                sibling.another_child(changed_child_side),
            );
            if other_side_nephew_is_red {
                (Self::balance_other_side_nephew_is_red(node, changed_child_side), false)
            } else if same_side_nephew_is_red {
                // the far nephew is black: the sibling is rotated first
                (Self::balance_same_side_nephew_is_red(node, changed_child_side), false)
            } else if is_red {
                (Self::balance_red_node(node, changed_child_side), false)
            } else {
                // this node, its children and the sibling's children are
                // black: a red sibling evens out the two sides, and the
                // nodes above have to make up for the missing black node
                node.paint_child(changed_child_side.other(), Color::Red);
                proof {
                    assert(tree_map(node.left_child) == tree_map(before.left_child));
                    assert(tree_map(node.right_child) == tree_map(before.right_child));
                }
                (node, true)
            }
        }
    }

    fn balance_red_sibling(node: BoxedNode<K, V>, changed_child_side: Side) -> (res: BoxedNode<
        K,
        V,
    >)
        requires
            strict_order::<K>(),
            node.sorted(),
            node.short_on(changed_child_side),
            red(node.kid(changed_child_side.flip())),
        ensures
            *res == node.sibling_mended(changed_child_side),
            res.sorted(),
            res.contents() == node.contents(),
            res.valid(),
            res.metadata == Color::Black,
            res.black_levels() == node.full_levels(changed_child_side),
    {
        // turning towards the changed side, with the former sibling on top
        // in black and this node below it in red, keeps the black heights
        // on the other side
        let mut node = Self::rotate_to(node, changed_child_side);
        node.metadata = Color::Black;
        let ghost turned = *node;
        let mut previous_self = node.detach(changed_child_side).unwrap();
        previous_self.metadata = Color::Red;
        proof {
            if changed_child_side == Side::Left {
                turned.lemma_left();
            } else {
                turned.lemma_right();
            }
        }
        // the changed side below previous_self still lacks one black node,
        // and previous_self is red with a black sibling below it
        let sibling = previous_self.another_child(changed_child_side).as_ref().unwrap();
        let previous_self = if Self::is_red(sibling.another_child(changed_child_side)) {
            Self::balance_other_side_nephew_is_red(previous_self, changed_child_side)
        } else if Self::is_red(sibling.child(changed_child_side)) {
            Self::balance_same_side_nephew_is_red(previous_self, changed_child_side)
        } else {
            Self::balance_red_node(previous_self, changed_child_side)
        };
        node.attach(changed_child_side, Some(previous_self));
        node
    }

    // big B stands for subtrees with the same number of black nodes;
    // swapping the colours of the top and of the sibling b of the changed
    // child evens out the two sides
    //        R                B
    //       / \              / \
    //      B   b            B   r
    //         / \    =>        / \
    //        B   B            B   B
    fn balance_red_node(mut node: BoxedNode<K, V>, changed_child_side: Side) -> (res: BoxedNode<
        K,
        V,
    >)
        requires
            strict_order::<K>(),
            node.sorted(),
            node.short_on(changed_child_side),
            node.metadata == Color::Red,
            node.nephews_black(changed_child_side),
        ensures
            *res == node.swapped(changed_child_side),
            res.sorted(),
            res.contents() == node.contents(),
            res.valid(),
            res.metadata == Color::Black,
            res.black_levels() == node.full_levels(changed_child_side),
    {
        let ghost before = *node;
        node.metadata = Color::Black;
        node.paint_child(changed_child_side.other(), Color::Red);
        proof {
            assert(tree_map(node.left_child) == tree_map(before.left_child));
            assert(tree_map(node.right_child) == tree_map(before.right_child));
        }
        node
    }

    // C/c is either colour, b the sibling of the changed child, the changed
    // child and R have the same number of black nodes; one rotation and
    // repainting evens out the two sides
    //        C                c
    //       / \              / \
    //      B   b            B   B
    //         / \    =>    / \
    //        R   B        B   B
    fn balance_other_side_nephew_is_red(mut node: BoxedNode<K, V>, side: Side) -> (res: BoxedNode<
        K,
        V,
    >)
        requires
            strict_order::<K>(),
            node.sorted(),
            node.short_on(side),
            node.far_nephew_red(side),
        ensures
            *res == node.far_mended(side),
            res.sorted(),
            res.contents() == node.contents(),
            res.valid(),
            res.metadata == node.metadata,
            res.black_levels() == node.full_levels(side),
    {
        let ghost before = *node;
        proof {
            let sibling = before.kid(side.flip()).unwrap();
            assert(sibling.valid());
        }
        let color = node.metadata;
        node.metadata = Color::Black;
        let mut node = Self::rotate_to(node, side);
        node.metadata = color;
        node.paint_child(side.other(), Color::Black);
        node
    }

    fn balance_same_side_nephew_is_red(mut node: BoxedNode<K, V>, side: Side) -> (res: BoxedNode<
        K,
        V,
    >)
        requires
            strict_order::<K>(),
            node.sorted(),
            node.short_on(side),
            node.near_nephew_red(side),
        ensures
            *res == node.near_mended(side),
            res.sorted(),
            res.contents() == node.contents(),
            res.valid(),
            res.metadata == node.metadata,
            res.black_levels() == node.full_levels(side),
    {
        let ghost before = *node;
        proof {
            if side == Side::Left {
                before.lemma_right();
            } else {
                before.lemma_left();
            }
            let sibling = before.kid(side.flip()).unwrap();
            assert(sibling.valid());
        }
        // this rotation and repainting even out nothing yet: they bring the
        // red nephew to the far side
        let mut sibling = node.detach(side.other()).unwrap();
        sibling.metadata = Color::Red;
        let mut sibling = Self::rotate_to(sibling, side.other());
        sibling.metadata = Color::Black;
        proof {
            assert(sibling.valid());
        }
        node.attach(side.other(), Some(sibling));
        Self::balance_other_side_nephew_is_red(node, side)
    }

    /// `r` with `short` is the answer of this node to a removal below it
    /// on `side` that has left that side short or not: evened out where it
    /// has, as it is where it has not.
    spec fn evens(&self, lacking: bool, side: Side, r: Node<K, V>, short: bool) -> bool {
        if lacking {
            r == self.evened(side) && short == self.stays_short(side)
        } else {
            r == *self && !short
        }
    }

    /// `r` with `short` is what a removal below this node on `side` makes
    /// of it: the subtree there has given way to a well-coloured one that
    /// stands for `below`, of the same black height or one short, and the
    /// node has answered to that.
    spec fn shrinks(&self, side: Side, below: Map<K, V>, r: Node<K, V>, short: bool) -> bool {
        exists|rest: Child<K, V>, lacking: bool|
            {
                &&& tree_map(rest) == below
                &&& ordered(rest)
                &&& colored(rest)
                &&& black_height(rest) + (if lacking {
                    1nat
                } else {
                    0nat
                }) == black_height(self.kid(side))
                &&& #[trigger] self.with_kid(side, rest).evens(lacking, side, r, short)
            }
    }

    /// `r` with `short` is what remains when the entry of this node, which
    /// has two children, is removed: the least entry of the right subtree
    /// stands in its place, over the same left subtree and over a subtree
    /// that holds what else the right subtree held; where that has left
    /// the right side short, the node is evened out.
    spec fn succeeded(&self, r: Node<K, V>, short: bool) -> bool {
        exists|k: K, rest: Child<K, V>|
            {
                let top = #[trigger] self.succeeded_by(k, tree_map(self.right_child)[k], rest);
                &&& is_least(tree_map(self.right_child), k)
                &&& tree_map(rest) == tree_map(self.right_child).remove(k)
                &&& (r == top && !short) || (r == top.evened(Side::Right) && short
                    == top.stays_short(Side::Right))
            }
    }

    /// This node with the entry of its right child in place of its own,
    /// and with the right subtree of that child, in black, for its right
    /// subtree.
    spec fn promoted(&self) -> Node<K, V> {
        Node {
            key: self.right_child.unwrap().key,
            value: self.right_child.unwrap().value,
            left_child: self.left_child,
            right_child: blackened(self.right_child.unwrap().right_child),
            metadata: self.metadata,
        }
    }

    /// Splicing out the right child leaves the right side short: that
    /// child is black and has no child to take its place.
    spec fn promoted_leaves_short(&self) -> bool {
        self.right_child.unwrap().right_child.is_none() && self.right_child.unwrap().metadata
            == Color::Black
    }

    /// What a removal from a well-coloured subtree leaves behind: a
    /// well-coloured subtree whose top has not turned red, and which either
    /// has kept its black height, or has lost one black node on every path,
    /// has a black top or none, and reports that.
    spec fn left_behind(&self, rest: Child<K, V>, check_needed: bool) -> bool {
        &&& colored(rest)
        &&& self.metadata == Color::Black ==> !red(rest)
        &&& !check_needed ==> black_height(rest) == self.black_levels()
        &&& check_needed ==> black_height(rest) + 1 == self.black_levels() && !red(rest)
    }

    /// Takes the node with the least key out of the subtree under `node`.
    fn pop_smallest_node(mut node: BoxedNode<K, V>) -> (r: (Child<K, V>, BoxedNode<K, V>, bool))
        requires
            strict_order::<K>(),
            node.sorted(),
            node.valid(),
        ensures
            is_least(node.contents(), r.1.key),
            r.1.value == node.contents()[r.1.key],
            tree_map(r.0) == node.contents().remove(r.1.key),
            ordered(r.0),
            node.left_behind(r.0, r.2),
            r.1.left_child.is_none() && r.1.right_child.is_none(),
            // a node without a left child is spliced out itself; only a
            // black node without children leaves its place short
            node.left_child.is_none() ==> r.1.key == node.key && r.1.value == node.value
                && r.1.metadata == node.metadata && r.0 == blackened(node.right_child) && r.2
                == (node.right_child.is_none() && node.metadata == Color::Black),
            // else the least entry leaves the left subtree, and the node
            // answers
            node.left_child.is_some() ==> r.0.is_some() && node.shrinks(
                Side::Left,
                tree_map(node.left_child).remove(r.1.key),
                *r.0.unwrap(),
                r.2,
            ),
            // where a shortage below could only be passed on or made up
            // for by repainting, the entry of this node stays on top
            node.left_child.is_some() && node.nephews_black(Side::Left) ==> r.0.unwrap().key
                == node.key && r.0.unwrap().value == node.value,
        decreases node,
    {
        proof {
            lemma_strict_order::<K>();
        }
        let ghost before = *node;
        match node.left_child.take() {
            None => {
                proof {
                    before.lemma_leftmost();
                }
                match node.right_child.take() {
                    None => {
                        match node.metadata {
                            Color::Red => (None, node, false),
                            Color::Black => (None, node, true),
                        }
                    },
                    Some(mut right_child) => {
                        right_child.metadata = Color::Black;
                        (Some(right_child), node, false)
                    },
                }
            },
            Some(child) => {
                proof {
                    before.lemma_left();
                }
                let (left, popped, lacking) = Self::pop_smallest_node(child);
                node.left_child = left;
                if lacking {
                    let (node, check_needed) = Self::check_imbalance_after_delete(
                        node,
                        Side::Left,
                    );
                    proof {
                        assert(before.with_kid(Side::Left, left).evens(
                            true,
                            Side::Left,
                            *node,
                            check_needed,
                        ));
                    }
                    (Some(node), popped, check_needed)
                } else {
                    proof {
                        assert(before.with_kid(Side::Left, left).evens(
                            false,
                            Side::Left,
                            *node,
                            false,
                        ));
                    }
                    (Some(node), popped, false)
                }
            },
        }
    }

    fn remove(node: BoxedNode<K, V>, value: &K) -> (r: (Child<K, V>, Option<(K, V)>))
        requires
            strict_order::<K>(),
            node.sorted(),
            node.valid(),
        ensures
            tree_map(r.0) == node.contents().remove(*value),
            r.1 == (if node.contents().dom().contains(*value) {
                Some((*value, node.contents()[*value]))
            } else {
                None
            }),
            ordered(r.0),
            colored(r.0),
            !red(r.0),
            !node.contents().dom().contains(*value) && node.metadata == Color::Black ==> r.0
                == Some(node),
    {
        let (node, removed, _) = Self::remove_recursively(node, value);
        match node {
            None => (None, removed),
            Some(mut node) => {
                // the top may have been left red: painting it black is
                // always in order
                node.metadata = Color::Black;
                (Some(node), removed)
            },
        }
    }

    #[verifier::rlimit(50)]
    fn remove_recursively(mut node: BoxedNode<K, V>, key: &K) -> (r: (
        Child<K, V>,
        Option<(K, V)>,
        bool,
    ))
        requires
            strict_order::<K>(),
            node.sorted(),
            node.valid(),
        ensures
            tree_map(r.0) == node.contents().remove(*key),
            r.1 == (if node.contents().dom().contains(*key) {
                Some((*key, node.contents()[*key]))
            } else {
                None
            }),
            ordered(r.0),
            node.left_behind(r.0, r.2),
            // a key that is not there leaves everything as it is
            !node.contents().dom().contains(*key) ==> r.0 == Some(node) && !r.2,
            // a node with one child at most is spliced out: the child
            // takes its place in black, and only a black node without
            // children leaves its place short
            *key == node.key && node.left_child.is_none() ==> r.0 == blackened(node.right_child)
                && r.2 == (node.right_child.is_none() && node.metadata == Color::Black),
            *key == node.key && node.right_child.is_none() ==> r.0 == blackened(node.left_child)
                && r.2 == (node.left_child.is_none() && node.metadata == Color::Black),
            // with two children the least entry of the right subtree takes
            // the place;
            *key == node.key && node.left_child.is_some() && node.right_child.is_some()
                ==> r.0.is_some() && node.succeeded(*r.0.unwrap(), r.2),
            // where the right child holds it, that child is spliced out,
            // and the node is evened out where that leaves it short,
            *key == node.key && node.left_child.is_some() && node.right_child.is_some()
                && node.right_child.unwrap().left_child.is_none() ==> r.0.is_some()
                && *r.0.unwrap() == (if node.promoted_leaves_short() {
                node.promoted().evened(Side::Right)
            } else {
                node.promoted()
            }) && r.2 == (node.promoted_leaves_short() && node.promoted().stays_short(
                Side::Right,
            )),
            // and where a shortage could only be passed on or made up for
            // by repainting, the entry stands at the top
            *key == node.key && node.left_child.is_some() && node.right_child.is_some()
                && node.nephews_black(Side::Right) ==> r.0.is_some() && is_least(
                tree_map(node.right_child),
                r.0.unwrap().key,
            ) && r.0.unwrap().value == tree_map(node.right_child)[r.0.unwrap().key],
            // a key that belongs further down leaves the subtree on its
            // side, and the node answers
            key_lt(*key, node.key) ==> r.0.is_some() && node.shrinks(
                Side::Left,
                tree_map(node.left_child).remove(*key),
                *r.0.unwrap(),
                r.2,
            ),
            key_lt(node.key, *key) ==> r.0.is_some() && node.shrinks(
                Side::Right,
                tree_map(node.right_child).remove(*key),
                *r.0.unwrap(),
                r.2,
            ),
            // a removal below, where a shortage could only be passed on or
            // made up for by repainting, leaves the entry of this node on
            // top
            key_lt(*key, node.key) && node.left_child.is_some() && node.nephews_black(Side::Left)
                ==> r.0.is_some() && r.0.unwrap().key == node.key && r.0.unwrap().value
                == node.value,
            key_lt(node.key, *key) && node.right_child.is_some() && node.nephews_black(
                Side::Right,
            ) ==> r.0.is_some() && r.0.unwrap().key == node.key && r.0.unwrap().value
                == node.value,
        decreases node,
    {
        proof {
            lemma_strict_order::<K>();
        }
        let ghost before = *node;
        match compare(key, &node.key) {
            Rank::Same => {
                let has_left_child = node.left_child.is_some();
                let has_right_child = node.right_child.is_some();
                if has_right_child && has_left_child {
                    proof {
                        before.lemma_right();
                    }
                    let (right, mut replacement, check_needed) = Self::pop_smallest_node(
                        node.right_child.take().unwrap(),
                    );

                    // the next node in order takes the place of this one
                    std::mem::swap(&mut replacement.key, &mut node.key);
                    std::mem::swap(&mut replacement.value, &mut node.value);

                    node.right_child = right;
                    proof {
                        assert(!tree_map(before.left_child).dom().contains(node.key)) by {
                            if tree_map(before.left_child).dom().contains(node.key) {
                                assert(key_lt(node.key, before.key));
                            }
                        }
                        assert forall|k: K| #[trigger]
                            tree_map(node.left_child).dom().contains(k) implies key_lt(
                            k,
                            node.key,
                        ) by {
                            assert(key_lt(k, before.key));
                        }
                        assert(node.contents() =~= before.contents().remove(*key));
                        assert(*node == before.succeeded_by(
                            node.key,
                            tree_map(before.right_child)[node.key],
                            node.right_child,
                        ));
                    }
                    let removed = *replacement;
                    if check_needed {
                        let (node, check_needed) = Self::check_imbalance_after_delete(
                            node,
                            Side::Right,
                        );
                        (Some(node), Some((removed.key, removed.value)), check_needed)
                    } else {
                        (Some(node), Some((removed.key, removed.value)), false)
                    }
                } else if has_right_child {
                    // an only child takes the place of this node; it is red
                    // and this node black, so that painting it black keeps
                    // the black heights
                    let mut child = node.right_child.take().unwrap();
                    child.metadata = Color::Black;
                    let removed = *node;
                    (Some(child), Some((removed.key, removed.value)), false)
                } else if has_left_child {
                    let mut child = node.left_child.take().unwrap();
                    child.metadata = Color::Black;
                    let removed = *node;
                    (Some(child), Some((removed.key, removed.value)), false)
                } else {
                    let removed = *node;
                    match removed.metadata {
                        Color::Red => (None, Some((removed.key, removed.value)), false),
                        Color::Black => (None, Some((removed.key, removed.value)), true),
                    }
                }
            },
            // the key is not here: look for it under the child on its side
            Rank::Above => {
                match node.right_child.take() {
                    Some(child) => {
                        proof {
                            before.lemma_right();
                        }
                        let (child, value, lacking) = Self::remove_recursively(child, key);
                        node.right_child = child;
                        proof {
                            assert(tree_map(child) =~= tree_map(before.right_child).remove(*key));
                        }
                        if lacking {
                            let (node, check_needed) = Self::check_imbalance_after_delete(
                                node,
                                Side::Right,
                            );
                            proof {
                                assert(before.with_kid(Side::Right, child).evens(
                                    true,
                                    Side::Right,
                                    *node,
                                    check_needed,
                                ));
                            }
                            (Some(node), value, check_needed)
                        } else {
                            proof {
                                assert(before.with_kid(Side::Right, child).evens(
                                    false,
                                    Side::Right,
                                    *node,
                                    false,
                                ));
                            }
                            (Some(node), value, false)
                        }
                    },
                    None => {
                        proof {
                            assert(tree_map(before.right_child).remove(*key) =~= Map::<K, V>::empty());
                            assert(before.with_kid(Side::Right, None).evens(
                                false,
                                Side::Right,
                                *node,
                                false,
                            ));
                        }
                        (Some(node), None, false)
                    },
                }
            },
            Rank::Below => {
                match node.left_child.take() {
                    Some(child) => {
                        proof {
                            before.lemma_left();
                        }
                        let (child, value, lacking) = Self::remove_recursively(child, key);
                        node.left_child = child;
                        proof {
                            assert(tree_map(child) =~= tree_map(before.left_child).remove(*key));
                        }
                        if lacking {
                            let (node, check_needed) = Self::check_imbalance_after_delete(
                                node,
                                Side::Left,
                            );
                            proof {
                                assert(before.with_kid(Side::Left, child).evens(
                                    true,
                                    Side::Left,
                                    *node,
                                    check_needed,
                                ));
                            }
                            (Some(node), value, check_needed)
                        } else {
                            proof {
                                assert(before.with_kid(Side::Left, child).evens(
                                    false,
                                    Side::Left,
                                    *node,
                                    false,
                                ));
                            }
                            (Some(node), value, false)
                        }
                    },
                    None => {
                        proof {
                            assert(tree_map(before.left_child).remove(*key) =~= Map::<K, V>::empty());
                            assert(before.with_kid(Side::Left, None).evens(
                                false,
                                Side::Left,
                                *node,
                                false,
                            ));
                        }
                        (Some(node), None, false)
                    },
                }
            },
        }
    }
}

/// Two to the power of `n`.
pub open spec fn power_of_two(n: nat) -> nat
    decreases n,
{
    if n == 0 {
        1
    } else {
        2 * power_of_two((n - 1) as nat)
    }
}

/// A well-coloured subtree is at most twice as deep as its black height,
/// and one deeper where its top is red; and it has at least as many nodes
/// as two to the power of its black height, less one.
proof fn lemma_shallow<K: Ord, V>(c: Child<K, V>)
    requires
        colored(c),
    ensures
        depth(c) <= 2 * black_height(c) + (if red(c) {
            1nat
        } else {
            0nat
        }),
        power_of_two(black_height(c)) <= count(c) + 1,
    decreases c,
{
    match c {
        None => {},
        Some(n) => {
            lemma_shallow(n.left_child);
            lemma_shallow(n.right_child);
        },
    }
}

/// The black height of a subtree where it is well coloured and the height
/// fits.
fn measure<K: Ord, V>(c: &Child<K, V>) -> (r: Option<usize>)
    ensures
        r.is_some() == (colored(*c) && black_height(*c) <= usize::MAX),
        r.is_some() ==> r.unwrap() == black_height(*c),
    decreases *c,
{
    match c {
        None => Some(0),
        Some(n) => {
            let l = match measure(&n.left_child) {
                None => {
                    return None;
                },
                Some(l) => l,
            };
            let r = match measure(&n.right_child) {
                None => {
                    return None;
                },
                Some(r) => r,
            };
            if l != r {
                return None;
            }
            match n.metadata {
                Color::Red => {
                    if Node::is_red(&n.left_child) || Node::is_red(&n.right_child) {
                        None
                    } else {
                        Some(l)
                    }
                },
                Color::Black => {
                    if l < usize::MAX {
                        Some(l + 1)
                    } else {
                        None
                    }
                },
            }
        },
    }
}

impl<K: Ord, V> RedBlack<K, V> {
    /// The top of the tree is black, no red node has a red child, and every
    /// path from the top down to a missing child passes the same number of
    /// black nodes.
    pub closed spec fn is_colored(&self) -> bool {
        colored(self.root) && !red(self.root)
    }

    /// The tree is a search tree and is colour-balanced.
    pub open spec fn is_red_black(&self) -> bool {
        self.is_bst() && self.is_colored()
    }

    /// Number of black nodes on every path from the top of a well-coloured
    /// tree down to a missing child.
    pub closed spec fn black_levels(&self) -> nat {
        black_height(self.root)
    }

    /// Goes through the whole tree and tells whether its top is black, no
    /// red node has a red child, and the two subtrees of every node have the
    /// same black height. A tree with more black nodes on a path than can be
    /// counted is reported as not well coloured.
    pub fn check_colors(&self) -> (r: bool)
        ensures
            r == (self.is_colored() && self.black_levels() <= usize::MAX),
    {
        !Node::is_red(&self.root) && measure(&self.root).is_some()
    }

    /// A colour-balanced tree is shallow: it is at most twice as deep as
    /// its black height, and holds at least as many entries as two to the
    /// power of its black height, less one, so that the depth grows with
    /// the logarithm of the number of entries.
    pub proof fn lemma_depth_bound(&self)
        requires
            strict_order::<K>(),
            self.is_red_black(),
        ensures
            self.levels() <= 2 * self.black_levels(),
            power_of_two(self.black_levels()) <= self@.len() + 1,
    {
        lemma_shallow(self.root);
        lemma_count(self.root);
    }

    /// An empty tree.
    pub fn new() -> (t: Self)
        ensures
            t.is_red_black(),
            t@ == Map::<K, V>::empty(),
    {
        RedBlack { root: None }
    }

    /// Takes the entry of the key `value` out of the tree and returns it, or
    /// returns `None` and leaves the tree as it is where there is none.
    pub fn remove(&mut self, value: &K) -> (r: Option<(K, V)>)
        requires
            strict_order::<K>(),
            old(self).is_red_black(),
        ensures
            final(self).is_red_black(),
            final(self)@ == old(self)@.remove(*value),
            r == (if old(self)@.dom().contains(*value) {
                Some((*value, old(self)@[*value]))
            } else {
                None
            }),
            final(self)@.len() == old(self)@.len() - (if old(self)@.dom().contains(*value) {
                1int
            } else {
                0int
            }),
            !old(self)@.dom().contains(*value) ==> *final(self) == *old(self),
            !old(self)@.dom().contains(*value) ==> final(self).same_shape(old(self)),
    {
        proof {
            lemma_tree_map_finite(self.root);
            lemma_same_shape_reflexive(self.root);
        }
        match self.root.take() {
            None => {
                None
            },
            Some(node) => {
                let (root, returned_value) = Node::remove(node, value);
                self.root = root;
                returned_value
            },
        }
    }

    /// Maps `key` to `value`. Where the tree holds `key` already, only the
    /// value changes: every node stays where it is and keeps its colour.
    pub fn insert(&mut self, key: K, value: V)
        requires
            strict_order::<K>(),
            old(self).is_red_black(),
        ensures
            final(self).is_red_black(),
            final(self)@ == old(self)@.insert(key, value),
            final(self)@.len() == old(self)@.len() + (if old(self)@.dom().contains(key) {
                0int
            } else {
                1int
            }),
            old(self)@.dom().contains(key) ==> final(self).same_shape(old(self)),
    {
        proof {
            lemma_tree_map_finite(self.root);
        }
        match self.root.take() {
            None => {
                self.root = new_node(key, value, Color::Black);
                proof {
                    assert(self@ =~= old(self)@.insert(key, value));
                }
            },
            Some(node) => {
                let node = Node::insert(node, key, value);
                self.root = Some(node);
            },
        }
    }
}

} // verus!
