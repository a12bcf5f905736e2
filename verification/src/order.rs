//! The total order that `Ord` is required to be, stated over `cmp_spec`, and sets of values
//! taken up to that order's equivalence.
use core::cmp::Ordering;
use vstd::laws_cmp::obeys_cmp;
use vstd::laws_eq::obeys_concrete_eq;
use vstd::prelude::*;
use vstd::std_specs::cmp::{OrdSpec, PartialEqSpec, PartialOrdSpec};

verus! {

/// `T::cmp` is a total order: the laws that `Ord` asks of its implementations.
pub open spec fn is_total_order<T: Ord>() -> bool {
    obeys_cmp::<T>()
}

/// `a` comes strictly before `b`.
pub open spec fn lt<T: Ord>(a: T, b: T) -> bool {
    a.cmp_spec(&b) == Ordering::Less
}

/// `a` and `b` compare equal.
pub open spec fn equiv<T: Ord>(a: T, b: T) -> bool {
    a.cmp_spec(&b) == Ordering::Equal
}

/// Some value of `set` compares equal to `key`.
pub open spec fn contains_equiv<T: Ord>(set: Set<T>, key: T) -> bool {
    exists|x: T| #[trigger] set.contains(x) && equiv(x, key)
}

/// `set` without the values that compare equal to `key`.
pub open spec fn without_equiv<T: Ord>(set: Set<T>, key: T) -> Set<T> {
    set.filter(|x: T| !equiv(x, key))
}

/// The facts of a total order that the list proofs use.
pub proof fn lemma_total_order<T: Ord>()
    requires
        is_total_order::<T>(),
    ensures
        T::obeys_cmp_spec(),
        forall|a: T| #[trigger] equiv(a, a),
        forall|a: T, b: T| #[trigger] equiv(a, b) ==> equiv(b, a),
        forall|a: T, b: T, c: T| #[trigger] equiv(a, b) && #[trigger] equiv(b, c) ==> equiv(a, c),
        forall|a: T, b: T|
            #[trigger] a.cmp_spec(&b) == Ordering::Greater <==> b.cmp_spec(&a) == Ordering::Less,
        forall|a: T, b: T, c: T| #[trigger] lt(a, b) && #[trigger] lt(b, c) ==> lt(a, c),
        forall|a: T, b: T, c: T| #[trigger] lt(a, b) && #[trigger] equiv(b, c) ==> lt(a, c),
        forall|a: T, b: T, c: T| #[trigger] equiv(a, b) && #[trigger] lt(b, c) ==> lt(a, c),
{
    reveal(vstd::laws_cmp::obeys_cmp_partial_ord);
    reveal(vstd::laws_cmp::obeys_cmp_ord);
    reveal(vstd::laws_cmp::obeys_partial_cmp_spec_properties);
    reveal(vstd::laws_eq::obeys_eq_spec_properties);
    assert forall|a: T, b: T| #[trigger] equiv(a, b) <==> a.eq_spec(&b) by {
        assert(a.partial_cmp_spec(&b) == Some(a.cmp_spec(&b)));
    }
    assert forall|a: T, b: T|
        #[trigger] a.cmp_spec(&b) == Ordering::Greater <==> b.cmp_spec(&a) == Ordering::Less by {
        assert(a.partial_cmp_spec(&b) == Some(a.cmp_spec(&b)));
        assert(b.partial_cmp_spec(&a) == Some(b.cmp_spec(&a)));
    }
    assert forall|a: T| #[trigger] equiv(a, a) by {
        assert(a.partial_cmp_spec(&a) == Some(a.cmp_spec(&a)));
    }
    assert forall|a: T, b: T| #[trigger] equiv(a, b) implies equiv(b, a) by {
        assert(a.eq_spec(&b));
    }
    assert forall|a: T, b: T, c: T| #[trigger] equiv(a, b) && #[trigger] equiv(b, c) implies equiv(
        a,
        c,
    ) by {
        assert(a.eq_spec(&b) && b.eq_spec(&c));
    }
    assert forall|a: T, b: T, c: T| #[trigger] lt(a, b) && #[trigger] lt(b, c) implies lt(a, c) by {
        assert(a.partial_cmp_spec(&b) == Some(a.cmp_spec(&b)));
        assert(b.partial_cmp_spec(&c) == Some(b.cmp_spec(&c)));
        assert(a.partial_cmp_spec(&c) == Some(a.cmp_spec(&c)));
    }
    assert forall|a: T, b: T, c: T| #[trigger] lt(a, b) && #[trigger] equiv(b, c) implies lt(a, c) by {
        if equiv(a, c) {
            assert(equiv(c, b));
            assert(equiv(a, b));
        } else if c.cmp_spec(&a) == Ordering::Less {
            assert(c.partial_cmp_spec(&a) == Some(c.cmp_spec(&a)));
            assert(a.partial_cmp_spec(&b) == Some(a.cmp_spec(&b)));
            assert(c.partial_cmp_spec(&b) == Some(c.cmp_spec(&b)));
        }
    }
    assert forall|a: T, b: T, c: T| #[trigger] equiv(a, b) && #[trigger] lt(b, c) implies lt(a, c) by {
        if equiv(a, c) {
            assert(equiv(b, a));
            assert(equiv(b, c));
        } else if c.cmp_spec(&a) == Ordering::Less {
            assert(c.partial_cmp_spec(&a) == Some(c.cmp_spec(&a)));
            assert(b.partial_cmp_spec(&c) == Some(b.cmp_spec(&c)));
            assert(b.partial_cmp_spec(&a) == Some(b.cmp_spec(&a)));
        }
    }
}

/// Where equal-comparing values are the same value, the sets taken up to the order are the
/// plain sets: `contains_equiv` is `contains` and `without_equiv` is `remove`.
pub proof fn lemma_equiv_is_equality<T: Ord>(set: Set<T>, key: T)
    requires
        is_total_order::<T>(),
        obeys_concrete_eq::<T>(),
    ensures
        forall|a: T, b: T| #[trigger] equiv(a, b) <==> a == b,
        contains_equiv(set, key) == set.contains(key),
        without_equiv(set, key) == set.remove(key),
{
    reveal(vstd::laws_cmp::obeys_cmp_partial_ord);
    reveal(vstd::laws_eq::obeys_concrete_eq);
    reveal(vstd::laws_cmp::obeys_cmp_ord);
    assert forall|a: T, b: T| #[trigger] equiv(a, b) <==> a == b by {
        assert(a.partial_cmp_spec(&b) == Some(a.cmp_spec(&b)));
    }
    if set.contains(key) {
        assert(equiv(key, key));
    }
    assert(without_equiv(set, key) =~= set.remove(key));
}

/// Removing a key undoes inserting it where no equal value was: the set is back as it was.
pub proof fn lemma_remove_undoes_insert<T: Ord>(set: Set<T>, key: T)
    requires
        is_total_order::<T>(),
        !contains_equiv(set, key),
    ensures
        contains_equiv(set.insert(key), key),
        without_equiv(set.insert(key), key) == set,
{
    lemma_total_order::<T>();
    assert(set.insert(key).contains(key) && equiv(key, key));
    assert(without_equiv(set.insert(key), key) =~= set);
}

} // verus!
