//! The order of map keys, as the laws of `Ord` and `Eq` give it.
use vstd::laws_cmp::obeys_cmp;
use vstd::laws_eq::obeys_concrete_eq;
use vstd::prelude::*;
use vstd::std_specs::cmp::OrdSpec;
use vstd::std_specs::cmp::PartialEqSpec;
use vstd::std_specs::cmp::PartialOrdSpec;
use vstd::std_specs::cmp::PartialOrdIs;

verus! {

/// `K`'s `Ord` is a total order, as std documents it must be, and `==` on `K`
/// is equality of values.
pub open spec fn lawful_key<K: Ord>() -> bool {
    obeys_cmp::<K>() && obeys_concrete_eq::<K>()
}

/// `a` comes before `b` in `K`'s order.
pub open spec fn key_lt<K: Ord>(a: K, b: K) -> bool {
    a.is_lt(&b)
}

/// The order on a lawful key type is strict and total.
pub proof fn lemma_key_order<K: Ord>()
    requires
        lawful_key::<K>(),
    ensures
        forall|a: K| !#[trigger] key_lt(a, a),
        forall|a: K, b: K| #[trigger] key_lt(a, b) ==> !key_lt(b, a),
        forall|a: K, b: K, c: K| #[trigger] key_lt(a, b) && #[trigger] key_lt(b, c) ==> key_lt(a, c),
        forall|a: K, b: K| a != b ==> #[trigger] key_lt(a, b) || #[trigger] key_lt(b, a),
{
    reveal(vstd::laws_cmp::obeys_partial_cmp_spec_properties);
    reveal(vstd::laws_cmp::obeys_cmp_partial_ord);
    reveal(vstd::laws_cmp::obeys_cmp_ord);
    reveal(vstd::laws_eq::obeys_concrete_eq);
    reveal(vstd::laws_eq::obeys_eq_spec_properties);
    assert forall|a: K| !#[trigger] key_lt(a, a) by {
        assert(a.eq_spec(&a));
    }
    assert forall|a: K, b: K| a != b implies #[trigger] key_lt(a, b) || #[trigger] key_lt(b, a) by {
        assert(!a.eq_spec(&b));
        assert(a.partial_cmp_spec(&b) == Some(a.cmp_spec(&b)));
        assert(b.partial_cmp_spec(&a) == Some(b.cmp_spec(&a)));
    }
}

/// Whether `a` comes before `b`, as `K`'s `<` says; on a lawful key type
/// that is the key order.
pub fn key_less<K: Ord>(a: &K, b: &K) -> (r: bool)
    ensures
        lawful_key::<K>() ==> r == key_lt(*a, *b),
{
    proof {
        reveal(vstd::laws_cmp::obeys_cmp_partial_ord);
    }
    a < b
}

/// Whether `a` and `b` are the same key, as `K`'s `==` says; on a lawful key
/// type that is equality of values.
pub fn key_equal<K: Ord>(a: &K, b: &K) -> (r: bool)
    ensures
        lawful_key::<K>() ==> r == (*a == *b),
{
    proof {
        reveal(vstd::laws_eq::obeys_concrete_eq);
    }
    *a == *b
}

} // verus!
