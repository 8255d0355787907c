//! Ordered maps kept as balanced binary search trees.
//!
//! `Tree` is the shared substrate: nodes, the map a tree stands for, the
//! search-tree order, and the lookups that never change a tree. The modules
//! `avl` and `rb` add the two balancing disciplines with their own `new`,
//! `insert` and `remove`.
use vstd::prelude::*;

use crate::order::compare;
use crate::order::key_lt;
use crate::order::lemma_strict_order;
use crate::order::strict_order;
use crate::order::Rank;

pub mod avl;
pub mod order;
pub mod rb;

verus! {

pub(crate) type Child<K, V, M> = Option<Box<Node<K, V, M>>>;

pub(crate) struct Node<K: Ord, V, M> {
    pub(crate) key: K,
    pub(crate) value: V,
    pub(crate) left_child: Child<K, V, M>,
    pub(crate) right_child: Child<K, V, M>,
    /// Data of the balancing discipline.
    pub(crate) metadata: M,
}

#[derive(Debug, Clone, Copy, PartialEq, Eq, Structural)]
pub(crate) enum Side {
    Left,
    Right,
}

impl Side {
    spec fn flip(self) -> Side {
        match self {
            Side::Left => Side::Right,
            Side::Right => Side::Left,
        }
    }

    pub(crate) fn other(&self) -> (r: Self)
        ensures
            r == self.flip(),
    {
        match self {
            Side::Left => Side::Right,
            Side::Right => Side::Left,
        }
    }
}

/// The map that a subtree stands for.
spec fn tree_map<K: Ord, V, M>(c: Child<K, V, M>) -> Map<K, V>
    decreases c,
{
    match c {
        None => Map::empty(),
        Some(n) => tree_map(n.left_child).union_prefer_right(tree_map(n.right_child)).insert(
            n.key,
            n.value,
        ),
    }
}

/// Search-tree order: at every node, the keys to the left sort before the
/// node's key and the keys to the right sort after it.
spec fn ordered<K: Ord, V, M>(c: Child<K, V, M>) -> bool
    decreases c,
{
    match c {
        None => true,
        Some(n) => {
            &&& ordered(n.left_child)
            &&& ordered(n.right_child)
            &&& forall|k: K| #[trigger] tree_map(n.left_child).dom().contains(k) ==> key_lt(k, n.key)
            &&& forall|k: K| #[trigger]
                tree_map(n.right_child).dom().contains(k) ==> key_lt(n.key, k)
        },
    }
}

/// Number of nodes on the longest path from the top of a subtree down.
spec fn depth<K: Ord, V, M>(c: Child<K, V, M>) -> nat
    decreases c,
{
    match c {
        None => 0,
        Some(n) => {
            let l = depth(n.left_child);
            let r = depth(n.right_child);
            if l >= r {
                l + 1
            } else {
                r + 1
            }
        },
    }
}

pub(crate) proof fn lemma_tree_map_finite<K: Ord, V, M>(c: Child<K, V, M>)
    ensures
        tree_map(c).dom().finite(),
    decreases c,
{
    match c {
        None => {},
        Some(n) => {
            lemma_tree_map_finite(n.left_child);
            lemma_tree_map_finite(n.right_child);
            let l = tree_map(n.left_child);
            let r = tree_map(n.right_child);
            assert(l.union_prefer_right(r).dom() =~= l.dom().union(r.dom()));
        },
    }
}

/// Same keys and balancing data at the same places; values may differ.
spec fn same_shape<K: Ord, V, M>(a: Child<K, V, M>, b: Child<K, V, M>) -> bool
    decreases a,
{
    match a {
        None => b.is_none(),
        Some(n) => b.is_some() && n.key == b.unwrap().key && n.metadata == b.unwrap().metadata
            && same_shape(n.left_child, b.unwrap().left_child) && same_shape(
            n.right_child,
            b.unwrap().right_child,
        ),
    }
}

proof fn lemma_same_shape_reflexive<K: Ord, V, M>(a: Child<K, V, M>)
    ensures
        same_shape(a, a),
    decreases a,
{
    match a {
        None => {},
        Some(n) => {
            lemma_same_shape_reflexive(n.left_child);
            lemma_same_shape_reflexive(n.right_child);
        },
    }
}

/// `r` is `a` turned to the left: the right child of `a` has come to the
/// top, `a` hangs to its left and has taken over its former left subtree.
/// Balancing data is left open.
spec fn is_left_rotation<K: Ord, V, M>(a: Node<K, V, M>, r: Node<K, V, M>) -> bool {
    &&& a.right_child.is_some()
    &&& r.left_child.is_some()
    &&& r.key == a.right_child.unwrap().key
    &&& r.value == a.right_child.unwrap().value
    &&& r.right_child == a.right_child.unwrap().right_child
    &&& r.left_child.unwrap().key == a.key
    &&& r.left_child.unwrap().value == a.value
    &&& r.left_child.unwrap().left_child == a.left_child
    &&& r.left_child.unwrap().right_child == a.right_child.unwrap().left_child
}

/// `r` is `a` turned to the right, the mirror image of `is_left_rotation`.
spec fn is_right_rotation<K: Ord, V, M>(a: Node<K, V, M>, r: Node<K, V, M>) -> bool {
    &&& a.left_child.is_some()
    &&& r.right_child.is_some()
    &&& r.key == a.left_child.unwrap().key
    &&& r.value == a.left_child.unwrap().value
    &&& r.left_child == a.left_child.unwrap().left_child
    &&& r.right_child.unwrap().key == a.key
    &&& r.right_child.unwrap().value == a.value
    &&& r.right_child.unwrap().right_child == a.right_child
    &&& r.right_child.unwrap().left_child == a.left_child.unwrap().right_child
}

/// Turning a sorted subtree to the left keeps it sorted and keeps its map.
proof fn lemma_left_rotation<K: Ord, V, M>(a: Node<K, V, M>, r: Node<K, V, M>)
    requires
        strict_order::<K>(),
        a.sorted(),
        is_left_rotation(a, r),
    ensures
        r.sorted(),
        r.contents() == a.contents(),
{
    lemma_strict_order::<K>();
    let b = a.right_child.unwrap();
    let l = r.left_child.unwrap();
    a.lemma_right();
    assert forall|k: K| #[trigger] tree_map(l.right_child).dom().contains(k) implies key_lt(
        l.key,
        k,
    ) by {
        assert(b.contents().dom().contains(k));
    }
    assert forall|k: K| #[trigger] tree_map(r.left_child).dom().contains(k) implies key_lt(
        k,
        r.key,
    ) by {
        assert(k == a.key || tree_map(a.left_child).dom().contains(k) || tree_map(
            b.left_child,
        ).dom().contains(k));
    }
}

/// Turning a sorted subtree to the right keeps it sorted and keeps its map.
proof fn lemma_right_rotation<K: Ord, V, M>(a: Node<K, V, M>, r: Node<K, V, M>)
    requires
        strict_order::<K>(),
        a.sorted(),
        is_right_rotation(a, r),
    ensures
        r.sorted(),
        r.contents() == a.contents(),
{
    lemma_strict_order::<K>();
    let b = a.left_child.unwrap();
    let l = r.right_child.unwrap();
    a.lemma_left();
    assert forall|k: K| #[trigger] tree_map(l.left_child).dom().contains(k) implies key_lt(
        k,
        l.key,
    ) by {
        assert(b.contents().dom().contains(k));
    }
    assert forall|k: K| #[trigger] tree_map(r.right_child).dom().contains(k) implies key_lt(
        r.key,
        k,
    ) by {
        assert(k == a.key || tree_map(a.right_child).dom().contains(k) || tree_map(
            b.right_child,
        ).dom().contains(k));
    }
}

/// Number of nodes of a subtree.
spec fn count<K: Ord, V, M>(c: Child<K, V, M>) -> nat
    decreases c,
{
    match c {
        None => 0,
        Some(n) => count(n.left_child) + count(n.right_child) + 1,
    }
}

/// A sorted subtree holds one entry for each of its nodes.
proof fn lemma_count<K: Ord, V, M>(c: Child<K, V, M>)
    requires
        strict_order::<K>(),
        ordered(c),
    ensures
        tree_map(c).dom().finite(),
        tree_map(c).len() == count(c),
    decreases c,
{
    lemma_strict_order::<K>();
    match c {
        None => {},
        Some(n) => {
            lemma_count(n.left_child);
            lemma_count(n.right_child);
            let l = tree_map(n.left_child).dom();
            let r = tree_map(n.right_child).dom();
            assert(l.disjoint(r)) by {
                assert forall|k: K| l.contains(k) implies !r.contains(k) by {
                    if r.contains(k) {
                        assert(key_lt(k, n.key) && key_lt(n.key, k));
                    }
                }
            }
            vstd::set_lib::lemma_set_disjoint_lens(l, r);
            assert(tree_map(c).dom() =~= (l + r).insert(n.key));
        },
    }
}

/// Counts the nodes of a subtree, up to the largest number that fits.
fn count_nodes<K: Ord, V, M>(c: &Child<K, V, M>) -> (r: usize)
    ensures
        r == (if count(*c) <= usize::MAX {
            count(*c)
        } else {
            usize::MAX as nat
        }),
    decreases *c,
{
    match c {
        None => 0,
        Some(n) => {
            let l = count_nodes(&n.left_child);
            let r = count_nodes(&n.right_child);
            l.saturating_add(r).saturating_add(1)
        },
    }
}

/// Key and balancing data of every node of a subtree: first the top, then
/// the left subtree, then the right one.
spec fn preorder<K: Ord, V, M>(c: Child<K, V, M>) -> Seq<(K, M)>
    decreases c,
{
    match c {
        None => Seq::empty(),
        Some(n) => seq![(n.key, n.metadata)] + preorder(n.left_child) + preorder(n.right_child),
    }
}

/// Appends the nodes of a subtree to `out`, in the order of `preorder`.
fn collect<'a, K: Ord, V, M>(c: &'a Child<K, V, M>, out: &mut Vec<(&'a K, &'a M)>)
    ensures
        final(out)@.len() == old(out)@.len() + preorder(*c).len(),
        forall|i: int| 0 <= i < old(out)@.len() ==> final(out)@[i] == old(out)@[i],
        forall|j: int|
            old(out)@.len() <= j < final(out)@.len() ==> *(#[trigger] final(out)@[j]).0
                == preorder(*c)[j - old(out)@.len()].0 && *final(out)@[j].1 == preorder(
                *c,
            )[j - old(out)@.len()].1,
    decreases *c,
{
    match c {
        None => {},
        Some(n) => {
            let ghost start = out@.len() as int;
            out.push((&n.key, &n.metadata));
            collect(&n.left_child, out);
            collect(&n.right_child, out);
            proof {
                let all = preorder(*c);
                assert forall|j: int| start <= j < out@.len() implies *(#[trigger] out@[j]).0
                    == all[j - start].0 && *out@[j].1 == all[j - start].1 by {}
            }
        },
    }
}

/// The map after the pairs of `entries` have been inserted into `m`, one
/// after another.
pub open spec fn insert_all<K, V>(m: Map<K, V>, entries: Seq<(K, V)>) -> Map<K, V>
    decreases entries.len(),
{
    if entries.len() == 0 {
        m
    } else {
        insert_all(m, entries.drop_last()).insert(entries.last().0, entries.last().1)
    }
}

/// The map after the keys of `keys` have been removed from `m`, one after
/// another.
pub open spec fn remove_all<K, V>(m: Map<K, V>, keys: Seq<K>) -> Map<K, V>
    decreases keys.len(),
{
    if keys.len() == 0 {
        m
    } else {
        remove_all(m, keys.drop_last()).remove(keys.last())
    }
}

proof fn lemma_insert_all_keys<K, V>(m: Map<K, V>, entries: Seq<(K, V)>, k: K)
    ensures
        insert_all(m, entries).dom().contains(k) <==> m.dom().contains(k) || exists|i: int|
            0 <= i < entries.len() && entries[i].0 == k,
    decreases entries.len(),
{
    if entries.len() > 0 {
        let front = entries.drop_last();
        lemma_insert_all_keys(m, front, k);
        if exists|i: int| 0 <= i < entries.len() && entries[i].0 == k {
            let i = choose|i: int| 0 <= i < entries.len() && entries[i].0 == k;
            if i < front.len() {
                assert(front[i].0 == k);
            }
        }
        if exists|i: int| 0 <= i < front.len() && front[i].0 == k {
            let i = choose|i: int| 0 <= i < front.len() && front[i].0 == k;
            assert(entries[i].0 == k);
        }
    }
}

proof fn lemma_remove_all_keys<K, V>(m: Map<K, V>, keys: Seq<K>, k: K)
    ensures
        remove_all(m, keys).dom().contains(k) <==> m.dom().contains(k) && !keys.contains(k),
    decreases keys.len(),
{
    if keys.len() > 0 {
        let front = keys.drop_last();
        lemma_remove_all_keys(m, front, k);
        if keys.contains(k) {
            let i = choose|i: int| 0 <= i < keys.len() && keys[i] == k;
            if i < front.len() {
                assert(front[i] == k);
            }
        }
        if front.contains(k) {
            let i = choose|i: int| 0 <= i < front.len() && front[i] == k;
            assert(keys[i] == k);
        }
    }
}

/// Round trip: a map that was empty, into which entries were inserted and
/// from which then every key of these entries was removed, in whatever
/// order, is empty again and holds none of the keys.
pub proof fn lemma_round_trip<K, V>(entries: Seq<(K, V)>, keys: Seq<K>)
    requires
        forall|i: int| 0 <= i < entries.len() ==> keys.contains(#[trigger] entries[i].0),
    ensures
        remove_all(insert_all(Map::<K, V>::empty(), entries), keys) == Map::<K, V>::empty(),
        forall|k: K|
            !(#[trigger] remove_all(
                insert_all(Map::<K, V>::empty(), entries),
                keys,
            ).dom().contains(k)),
{
    let filled = insert_all(Map::<K, V>::empty(), entries);
    let after = remove_all(filled, keys);
    assert forall|k: K| !(#[trigger] after.dom().contains(k)) by {
        lemma_remove_all_keys(filled, keys, k);
        lemma_insert_all_keys(Map::<K, V>::empty(), entries, k);
    }
}

/// `k` is a key of `m` and no key of `m` sorts before it.
pub open spec fn is_least<K: Ord, V>(m: Map<K, V>, k: K) -> bool {
    &&& m.dom().contains(k)
    &&& forall|j: K| #[trigger] m.dom().contains(j) ==> j == k || key_lt(k, j)
}

/// `k` is a key of `m` and no key of `m` sorts after it.
pub open spec fn is_greatest<K: Ord, V>(m: Map<K, V>, k: K) -> bool {
    &&& m.dom().contains(k)
    &&& forall|j: K| #[trigger] m.dom().contains(j) ==> j == k || key_lt(j, k)
}

/// `k` is the least key of `m` among those that sort after `key`.
pub open spec fn is_successor<K: Ord, V>(m: Map<K, V>, key: K, k: K) -> bool {
    &&& m.dom().contains(k)
    &&& key_lt(key, k)
    &&& forall|j: K|
        #![trigger m.dom().contains(j)]
        m.dom().contains(j) && key_lt(key, j) ==> j == k || key_lt(k, j)
}

/// No key of `m` sorts after `key`.
pub open spec fn has_no_successor<K: Ord, V>(m: Map<K, V>, key: K) -> bool {
    forall|j: K| #[trigger] m.dom().contains(j) ==> !key_lt(key, j)
}

// Lookups, none of which changes the tree.
impl<K: Ord, V, M> Node<K, V, M> {
    /// The map that the subtree under this node stands for.
    spec fn contents(&self) -> Map<K, V> {
        tree_map(self.left_child).union_prefer_right(tree_map(self.right_child)).insert(
            self.key,
            self.value,
        )
    }

    /// The child on `side`.
    spec fn kid(&self, side: Side) -> Child<K, V, M> {
        match side {
            Side::Left => self.left_child,
            Side::Right => self.right_child,
        }
    }

    /// This node with `kid` for its child on `side`.
    spec fn with_kid(&self, side: Side, kid: Child<K, V, M>) -> Node<K, V, M> {
        match side {
            Side::Left => Node {
                key: self.key,
                value: self.value,
                left_child: kid,
                right_child: self.right_child,
                metadata: self.metadata,
            },
            Side::Right => Node {
                key: self.key,
                value: self.value,
                left_child: self.left_child,
                right_child: kid,
                metadata: self.metadata,
            },
        }
    }

    /// This node with `value` for its value.
    spec fn with_value(&self, value: V) -> Node<K, V, M> {
        Node {
            key: self.key,
            value: value,
            left_child: self.left_child,
            right_child: self.right_child,
            metadata: self.metadata,
        }
    }

    /// This node with a new node without children for its child on `side`.
    spec fn with_leaf(&self, side: Side, key: K, value: V, metadata: M) -> Node<K, V, M> {
        let leaf = Some(
            Box::new(Node { key: key, value: value, left_child: None, right_child: None, metadata: metadata }),
        );
        match side {
            Side::Left => Node {
                key: self.key,
                value: self.value,
                left_child: leaf,
                right_child: self.right_child,
                metadata: self.metadata,
            },
            Side::Right => Node {
                key: self.key,
                value: self.value,
                left_child: self.left_child,
                right_child: leaf,
                metadata: self.metadata,
            },
        }
    }

    /// This node with `key` and `value` for its entry and `rest` for its
    /// right subtree.
    spec fn succeeded_by(&self, key: K, value: V, rest: Child<K, V, M>) -> Node<K, V, M> {
        Node {
            key: key,
            value: value,
            left_child: self.left_child,
            right_child: rest,
            metadata: self.metadata,
        }
    }

    /// Search-tree order of the subtree under this node.
    spec fn sorted(&self) -> bool {
        &&& ordered(self.left_child)
        &&& ordered(self.right_child)
        &&& forall|k: K| #[trigger]
            tree_map(self.left_child).dom().contains(k) ==> key_lt(k, self.key)
        &&& forall|k: K| #[trigger]
            tree_map(self.right_child).dom().contains(k) ==> key_lt(self.key, k)
    }

    /// Number of nodes on the longest path from this node down.
    spec fn levels(&self) -> nat {
        let l = depth(self.left_child);
        let r = depth(self.right_child);
        if l >= r {
            l + 1
        } else {
            r + 1
        }
    }

    /// What holds between a sorted node and its left child.
    pub(crate) proof fn lemma_left(&self)
        requires
            strict_order::<K>(),
            self.sorted(),
            self.left_child.is_some(),
        ensures
            ({
                let c = self.left_child.unwrap();
                &&& c.sorted()
                &&& c.levels() < self.levels()
                &&& key_lt(c.key, self.key)
                &&& c.contents() == tree_map(self.left_child)
                &&& forall|k: K| #[trigger]
                    c.contents().dom().contains(k) ==> self.contents().dom().contains(k)
                        && self.contents()[k] == c.contents()[k] && key_lt(k, self.key)
                &&& forall|k: K| #[trigger]
                    self.contents().dom().contains(k) ==> c.contents().dom().contains(k) || k
                        == self.key || key_lt(self.key, k)
            }),
    {
        lemma_strict_order::<K>();
        let c = self.left_child.unwrap();
        assert(c.contents().dom().contains(c.key));
        assert forall|k: K| #[trigger] c.contents().dom().contains(k) implies self.contents().dom().contains(
            k,
        ) && self.contents()[k] == c.contents()[k] && key_lt(k, self.key) by {}
    }

    /// What holds between a sorted node and its right child.
    pub(crate) proof fn lemma_right(&self)
        requires
            strict_order::<K>(),
            self.sorted(),
            self.right_child.is_some(),
        ensures
            ({
                let c = self.right_child.unwrap();
                &&& c.sorted()
                &&& c.levels() < self.levels()
                &&& key_lt(self.key, c.key)
                &&& c.contents() == tree_map(self.right_child)
                &&& forall|k: K| #[trigger]
                    c.contents().dom().contains(k) ==> self.contents().dom().contains(k)
                        && self.contents()[k] == c.contents()[k] && key_lt(self.key, k)
                &&& forall|k: K| #[trigger]
                    self.contents().dom().contains(k) ==> c.contents().dom().contains(k) || k
                        == self.key || key_lt(k, self.key)
            }),
    {
        lemma_strict_order::<K>();
        let c = self.right_child.unwrap();
        assert(c.contents().dom().contains(c.key));
        assert forall|k: K| #[trigger] c.contents().dom().contains(k) implies self.contents().dom().contains(
            k,
        ) && self.contents()[k] == c.contents()[k] && key_lt(self.key, k) by {}
    }

    /// A sorted node without a left child holds the least key of its subtree.
    pub(crate) proof fn lemma_leftmost(&self)
        requires
            strict_order::<K>(),
            self.sorted(),
            self.left_child.is_none(),
        ensures
            is_least(self.contents(), self.key),
            self.contents()[self.key] == self.value,
    {
    }

    /// A sorted node without a right child holds the greatest key of its
    /// subtree.
    pub(crate) proof fn lemma_rightmost(&self)
        requires
            strict_order::<K>(),
            self.sorted(),
            self.right_child.is_none(),
        ensures
            is_greatest(self.contents(), self.key),
            self.contents()[self.key] == self.value,
    {
    }

    pub(crate) fn find(&self, key: &K) -> (r: Option<&V>)
        requires
            strict_order::<K>(),
            self.sorted(),
        ensures
            r == (if self.contents().dom().contains(*key) {
                Some(&self.contents()[*key])
            } else {
                None
            }),
    {
        proof {
            lemma_strict_order::<K>();
        }
        let mut root = self;
        loop
            invariant
                strict_order::<K>(),
                root.sorted(),
                self.contents().dom().contains(*key) == root.contents().dom().contains(*key),
                root.contents().dom().contains(*key) ==> self.contents()[*key]
                    == root.contents()[*key],
            decreases root.levels(),
        {
            proof {
                lemma_strict_order::<K>();
            }
            match compare(key, &root.key) {
                Rank::Below => match &root.left_child {
                    None => {
                        return None;
                    },
                    Some(child) => {
                        root = child;
                    },
                },
                Rank::Above => match &root.right_child {
                    None => {
                        return None;
                    },
                    Some(child) => {
                        root = child;
                    },
                },
                Rank::Same => {
                    return Some(&root.value);
                },
            }
        }
    }

    pub(crate) fn min(&self) -> (r: (&K, &V))
        requires
            strict_order::<K>(),
            self.sorted(),
        ensures
            is_least(self.contents(), *r.0),
            *r.1 == self.contents()[*r.0],
    {
        proof {
            lemma_strict_order::<K>();
        }
        let mut min = self;
        loop
            invariant
                strict_order::<K>(),
                min.sorted(),
                forall|k: K| #[trigger]
                    min.contents().dom().contains(k) ==> self.contents().dom().contains(k)
                        && self.contents()[k] == min.contents()[k],
                forall|k: K| #[trigger]
                    self.contents().dom().contains(k) ==> min.contents().dom().contains(k)
                        || key_lt(min.key, k),
            decreases min.levels(),
        {
            proof {
                lemma_strict_order::<K>();
            }
            match &min.left_child {
                None => {
                    proof {
                        min.lemma_leftmost();
                    }
                    return (&min.key, &min.value);
                },
                Some(left_child) => {
                    proof {
                        min.lemma_left();
                    }
                    min = left_child;
                },
            }
        }
    }

    pub(crate) fn max(&self) -> (r: (&K, &V))
        requires
            strict_order::<K>(),
            self.sorted(),
        ensures
            is_greatest(self.contents(), *r.0),
            *r.1 == self.contents()[*r.0],
    {
        proof {
            lemma_strict_order::<K>();
        }
        let mut max = self;
        loop
            invariant
                strict_order::<K>(),
                max.sorted(),
                forall|k: K| #[trigger]
                    max.contents().dom().contains(k) ==> self.contents().dom().contains(k)
                        && self.contents()[k] == max.contents()[k],
                forall|k: K| #[trigger]
                    self.contents().dom().contains(k) ==> max.contents().dom().contains(k)
                        || key_lt(k, max.key),
            decreases max.levels(),
        {
            proof {
                lemma_strict_order::<K>();
            }
            match &max.right_child {
                None => {
                    proof {
                        max.lemma_rightmost();
                    }
                    return (&max.key, &max.value);
                },
                Some(right_child) => {
                    proof {
                        max.lemma_right();
                    }
                    max = right_child;
                },
            }
        }
    }

    /// Finds the node with the least key that sorts after `key`.
    pub(crate) fn next(&self, key: &K) -> (r: Option<(&K, &V)>)
        requires
            strict_order::<K>(),
            self.sorted(),
        ensures
            match r {
                Some((k, v)) => is_successor(self.contents(), *key, *k) && *v
                    == self.contents()[*k],
                None => has_no_successor(self.contents(), *key),
            },
    {
        proof {
            lemma_strict_order::<K>();
        }
        let mut root = self;
        let mut last_greater: Option<&Node<K, V, M>> = None;
        loop
            invariant
                strict_order::<K>(),
                root.sorted(),
                forall|k: K| #[trigger]
                    root.contents().dom().contains(k) ==> self.contents().dom().contains(k)
                        && self.contents()[k] == root.contents()[k],
                forall|k: K|
                    #![trigger self.contents().dom().contains(k)]
                    self.contents().dom().contains(k) && key_lt(*key, k)
                        ==> root.contents().dom().contains(k) || (last_greater.is_some() && (k
                        == last_greater.unwrap().key || key_lt(last_greater.unwrap().key, k))),
                last_greater.is_some() ==> {
                    let g = last_greater.unwrap();
                    &&& self.contents().dom().contains(g.key)
                    &&& self.contents()[g.key] == g.value
                    &&& key_lt(*key, g.key)
                    &&& forall|k: K| #[trigger]
                        root.contents().dom().contains(k) ==> key_lt(k, g.key)
                },
            decreases root.levels(),
        {
            proof {
                lemma_strict_order::<K>();
                assert(root.contents().dom().contains(root.key));
            }
            match compare(key, &root.key) {
                Rank::Below => {
                    last_greater = Some(root);
                    match &root.left_child {
                        None => {
                            proof {
                                root.lemma_leftmost();
                            }
                            return Some((&root.key, &root.value));
                        },
                        Some(child) => {
                            proof {
                                root.lemma_left();
                            }
                            root = child;
                        },
                    };
                },
                Rank::Above => match &root.right_child {
                    None => {
                        proof {
                            root.lemma_rightmost();
                        }
                        return match last_greater {
                            None => None,
                            Some(node) => Some((&node.key, &node.value)),
                        };
                    },
                    Some(child) => {
                        proof {
                            root.lemma_right();
                        }
                        root = child;
                    },
                },
                Rank::Same => {
                    return match &root.right_child {
                        None => {
                            proof {
                                root.lemma_rightmost();
                            }
                            match last_greater {
                                None => None,
                                Some(node) => Some((&node.key, &node.value)),
                            }
                        },
                        Some(right_child) => {
                            proof {
                                root.lemma_right();
                            }
                            Some(right_child.min())
                        },
                    };
                },
            };
        }
    }
}

/// An ordered map from `K` to `V`, balanced by the discipline that `I`
/// selects.
pub struct Tree<K: Ord, V, I> {
    pub(crate) root: Child<K, V, I>,
}

impl<K: Ord, V, I> View for Tree<K, V, I> {
    type V = Map<K, V>;

    closed spec fn view(&self) -> Map<K, V> {
        tree_map(self.root)
    }
}

impl<K: Ord, V, I> Tree<K, V, I> {
    /// The keys are in search-tree order at every node.
    pub closed spec fn is_bst(&self) -> bool {
        ordered(self.root)
    }

    /// Same keys and balancing data at the same places as in `other`; the
    /// values may differ.
    pub closed spec fn same_shape(&self, other: &Self) -> bool {
        same_shape(other.root, self.root)
    }

    /// Key and balancing data of every node: first the top of the tree,
    /// then its left subtree, then its right one, each in the same order.
    pub closed spec fn preorder(&self) -> Seq<(K, I)> {
        preorder(self.root)
    }

    /// Lists key and balancing data of every node, in the order of
    /// `preorder`.
    pub fn nodes(&self) -> (r: Vec<(&K, &I)>)
        ensures
            r@.len() == self.preorder().len(),
            forall|i: int|
                0 <= i < r@.len() ==> *(#[trigger] r@[i]).0 == self.preorder()[i].0 && *r@[i].1
                    == self.preorder()[i].1,
    {
        let mut out: Vec<(&K, &I)> = Vec::new();
        collect(&self.root, &mut out);
        out
    }

    /// Number of nodes on the longest path from the top of the tree down.
    pub closed spec fn levels(&self) -> nat {
        depth(self.root)
    }

    /// A tree holds finitely many entries.
    pub proof fn lemma_finite(&self)
        ensures
            self@.dom().finite(),
    {
        lemma_tree_map_finite(self.root);
    }

    /// Whether the tree holds no entry.
    pub fn is_empty(&self) -> (r: bool)
        ensures
            r == (self@ == Map::<K, V>::empty()),
            r == (self@.len() == 0),
    {
        proof {
            lemma_tree_map_finite(self.root);
            if self.root.is_some() {
                assert(self@.dom().contains(self.root.unwrap().key));
            }
        }
        self.root.is_none()
    }

    /// The number of entries, or the largest number that fits where there
    /// are more.
    pub fn len(&self) -> (r: usize)
        requires
            strict_order::<K>(),
            self.is_bst(),
        ensures
            r == (if self@.len() <= usize::MAX {
                self@.len()
            } else {
                usize::MAX as nat
            }),
    {
        proof {
            lemma_count(self.root);
        }
        count_nodes(&self.root)
    }

    /// The value that the key `value` is mapped to.
    pub fn find(&self, value: &K) -> (r: Option<&V>)
        requires
            strict_order::<K>(),
            self.is_bst(),
        ensures
            r == (if self@.dom().contains(*value) {
                Some(&self@[*value])
            } else {
                None
            }),
    {
        match &self.root {
            None => None,
            Some(node) => node.find(value),
        }
    }

    /// The entry with the least key.
    pub fn min(&self) -> (r: Option<(&K, &V)>)
        requires
            strict_order::<K>(),
            self.is_bst(),
        ensures
            match r {
                Some((k, v)) => is_least(self@, *k) && *v == self@[*k],
                None => self@ == Map::<K, V>::empty(),
            },
    {
        match &self.root {
            None => None,
            Some(node) => Some(node.min()),
        }
    }

    /// The entry with the greatest key.
    pub fn max(&self) -> (r: Option<(&K, &V)>)
        requires
            strict_order::<K>(),
            self.is_bst(),
        ensures
            match r {
                Some((k, v)) => is_greatest(self@, *k) && *v == self@[*k],
                None => self@ == Map::<K, V>::empty(),
            },
    {
        match &self.root {
            None => None,
            Some(node) => Some(node.max()),
        }
    }

    /// The entry with the least key that sorts after `value`, whether the
    /// tree holds `value` or not.
    pub fn next(&self, value: &K) -> (r: Option<(&K, &V)>)
        requires
            strict_order::<K>(),
            self.is_bst(),
        ensures
            match r {
                Some((k, v)) => is_successor(self@, *value, *k) && *v == self@[*k],
                None => has_no_successor(self@, *value),
            },
    {
        match &self.root {
            None => None,
            Some(node) => node.next(value),
        }
    }
}

} // verus!
