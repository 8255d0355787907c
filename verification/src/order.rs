//! The order on keys that every tree relies on.
//!
//! Keys are compared through `Ord`. The trees are correct for key types whose
//! comparison is a strict total order that agrees with equality of values;
//! `strict_order` names that assumption and `key_lt` is the order itself.
use std::cmp::Ordering;
use vstd::laws_cmp::group_laws_cmp;
use vstd::laws_cmp::obeys_cmp;
use vstd::laws_cmp::obeys_cmp_ord;
use vstd::laws_cmp::obeys_cmp_partial_ord;
use vstd::laws_cmp::obeys_partial_cmp_spec_properties;
use vstd::laws_eq::group_laws_eq;
use vstd::laws_eq::obeys_concrete_eq;
use vstd::prelude::*;
use vstd::std_specs::cmp::OrdSpec;

verus! {

/// `a` sorts strictly before `b`.
pub open spec fn key_lt<K: Ord>(a: K, b: K) -> bool {
    a.cmp_spec(&b) == Ordering::Less
}

/// The comparison of `K` is a strict total order on values: `cmp` returns
/// what `cmp_spec` says, `Equal` means that the two values are the same,
/// `Less` one way is `Greater` the other way, and `Less` is transitive.
pub open spec fn strict_order<K: Ord>() -> bool {
    &&& obeys_cmp::<K>()
    &&& obeys_concrete_eq::<K>()
}

/// Outcome of comparing a searched key with the key of a node.
#[derive(Clone, Copy, Debug, PartialEq, Eq)]
pub(crate) enum Rank {
    Below,
    Same,
    Above,
}

/// What `strict_order` gives, spelled out over `key_lt`.
pub proof fn lemma_strict_order<K: Ord>()
    requires
        strict_order::<K>(),
    ensures
        K::obeys_cmp_spec(),
        forall|a: K, b: K| #![trigger a.cmp_spec(&b)] a.cmp_spec(&b) == Ordering::Equal <==> a == b,
        forall|a: K, b: K| #![trigger key_lt(a, b)] !(key_lt(a, b) && key_lt(b, a)),
        forall|a: K, b: K| #![trigger key_lt(a, b)] key_lt(a, b) || a == b || key_lt(b, a),
        forall|a: K| #![trigger key_lt(a, a)] !key_lt(a, a),
        forall|a: K, b: K, c: K| #![trigger key_lt(a, b), key_lt(b, c)] key_lt(a, b) && key_lt(b, c) ==> key_lt(a, c),
{
    reveal(obeys_cmp_ord);
    reveal(obeys_cmp_partial_ord);
    reveal(obeys_partial_cmp_spec_properties);
    reveal(obeys_concrete_eq);
}

/// The integers of 32 and of 64 bits, signed and unsigned, and `usize`
/// are strictly ordered.
pub proof fn lemma_integers_strictly_ordered()
    ensures
        strict_order::<u32>(),
        strict_order::<u64>(),
        strict_order::<i32>(),
        strict_order::<i64>(),
        strict_order::<usize>(),
{
    broadcast use group_laws_cmp;
    broadcast use group_laws_eq;
}

/// Compares `key` with `pivot`.
pub(crate) fn compare<K: Ord>(key: &K, pivot: &K) -> (r: Rank)
    requires
        strict_order::<K>(),
    ensures
        r == Rank::Below <==> key_lt(*key, *pivot),
        r == Rank::Same <==> *key == *pivot,
        r == Rank::Above <==> key_lt(*pivot, *key),
{
    proof {
        lemma_strict_order::<K>();
    }
    match key.cmp(pivot) {
        Ordering::Less => Rank::Below,
        Ordering::Equal => Rank::Same,
        Ordering::Greater => Rank::Above,
    }
}

} // verus!
