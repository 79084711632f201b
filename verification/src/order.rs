use vstd::prelude::*;
use vstd::laws_cmp::{
    obeys_cmp, obeys_cmp_ord, obeys_cmp_partial_ord, obeys_partial_cmp_spec_properties,
};
use vstd::laws_eq::obeys_eq_spec_properties;
use vstd::std_specs::cmp::{OrdSpec, PartialEqSpec, PartialOrdSpec};
use core::cmp::Ordering;

verus! {

/// `a` comes strictly before `b` in the order of `T`.
pub open spec fn precedes<T: PartialOrd>(a: T, b: T) -> bool {
    a.partial_cmp_spec(&b) == Some(Ordering::Less)
}

/// `T`'s `<` is a strict weak order: asymmetric and transitive, and so is
/// "not before".
pub open spec fn ordered<T: PartialOrd>() -> bool {
    &&& T::obeys_partial_cmp_spec()
    &&& forall|a: T, b: T| #[trigger] precedes(a, b) ==> !precedes(b, a)
    &&& forall|a: T, b: T, c: T|
        #![trigger precedes(a, b), precedes(b, c)]
        precedes(a, b) && precedes(b, c) ==> precedes(a, c)
    &&& forall|a: T, b: T, c: T|
        #![trigger precedes(a, b), precedes(b, c)]
        !precedes(a, b) && !precedes(b, c) ==> !precedes(a, c)
}

/// A type whose comparisons obey vstd's laws for `Ord` (every integer type
/// does) is ordered.
pub proof fn lemma_ordered_from_laws<T: Ord>()
    requires
        obeys_cmp::<T>(),
    ensures
        ordered::<T>(),
{
    reveal(obeys_cmp_partial_ord);
    reveal(obeys_cmp_ord);
    reveal(obeys_partial_cmp_spec_properties);
    reveal(obeys_eq_spec_properties);
    assert forall|a: T, b: T, c: T| !precedes(a, b) && !precedes(b, c) implies !precedes(a, c) by {
        assert(a.partial_cmp_spec(&b) == Some(a.cmp_spec(&b)));
        assert(b.partial_cmp_spec(&c) == Some(b.cmp_spec(&c)));
        assert(a.partial_cmp_spec(&c) == Some(a.cmp_spec(&c)));
        assert(b.partial_cmp_spec(&a) == Some(b.cmp_spec(&a)));
        assert(c.partial_cmp_spec(&b) == Some(c.cmp_spec(&b)));
        assert(c.partial_cmp_spec(&a) == Some(c.cmp_spec(&a)));
        if precedes(a, c) {
            assert(c.partial_cmp_spec(&a) == Some(Ordering::Greater));
            if a.partial_cmp_spec(&b) == Some(Ordering::Equal) {
                assert(a.eq_spec(&b));
                if b.partial_cmp_spec(&c) == Some(Ordering::Equal) {
                    assert(b.eq_spec(&c));
                    assert(a.eq_spec(&c));
                } else {
                    assert(b.partial_cmp_spec(&c) == Some(Ordering::Greater));
                    assert(c.partial_cmp_spec(&b) == Some(Ordering::Less));
                    assert(c.partial_cmp_spec(&a) == Some(Ordering::Greater));
                    assert(b.partial_cmp_spec(&a) == Some(Ordering::Greater));
                    assert(a.partial_cmp_spec(&b) == Some(Ordering::Less));
                }
            } else {
                assert(a.partial_cmp_spec(&b) == Some(Ordering::Greater));
                if b.partial_cmp_spec(&c) == Some(Ordering::Equal) {
                    assert(b.eq_spec(&c));
                    assert(c.eq_spec(&b));
                    assert(c.partial_cmp_spec(&b) == Some(Ordering::Equal));
                    assert(b.partial_cmp_spec(&a) == Some(Ordering::Less));
                    assert(c.partial_cmp_spec(&a) == Some(Ordering::Greater));
                    assert(a.partial_cmp_spec(&c) == Some(Ordering::Less));
                    assert(b.partial_cmp_spec(&c) == Some(Ordering::Less));
                } else {
                    assert(b.partial_cmp_spec(&c) == Some(Ordering::Greater));
                }
            }
        }
    }
}

} // verus!
