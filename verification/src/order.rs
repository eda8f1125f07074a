use vstd::prelude::*;
use vstd::std_specs::cmp::PartialOrdSpec;
use vstd::std_specs::cmp::PartialOrdIs;
use vstd::multiset::Multiset;

verus! {

/// `x <= y` as `T`'s `PartialOrd` implementation answers it.
pub open spec fn le<T: PartialOrd>(x: T, y: T) -> bool {
    x.is_le(&y)
}

/// `x >= y` as `T`'s `PartialOrd` implementation answers it.
pub open spec fn ge<T: PartialOrd>(x: T, y: T) -> bool {
    x.is_ge(&y)
}

/// `x > y` as `T`'s `PartialOrd` implementation answers it.
pub open spec fn gt<T: PartialOrd>(x: T, y: T) -> bool {
    x.is_gt(&y)
}

/// `T`'s comparison operators (`<=`, `>`, ...) answer as its
/// `partial_cmp` specification says.
pub open spec fn follows_spec<T: PartialOrd>() -> bool {
    T::obeys_partial_cmp_spec()
}

/// `T`'s comparison operators follow its `partial_cmp`, and on the values
/// in `m` that comparison is a total preorder: any two of them are
/// comparable, `>=` is `<=` with the arguments swapped, and `<=` is
/// transitive.  Integers, strings and floats without NaN are such values; a
/// NaN is comparable with nothing.
#[verifier::opaque]
pub open spec fn total_preorder_on<T: PartialOrd>(m: Multiset<T>) -> bool {
    &&& follows_spec::<T>()
    &&& forall|x: T, y: T|
        m.contains(x) && m.contains(y) ==> (#[trigger] x.partial_cmp_spec(&y) is Some)
    &&& forall|x: T, y: T| m.contains(x) && m.contains(y) ==> #[trigger] ge(x, y) == le(y, x)
    &&& forall|x: T, y: T, z: T|
        m.contains(x) && m.contains(y) && m.contains(z) ==> (#[trigger] le(x, y) && #[trigger] le(
            y,
            z,
        ) ==> le(x, z))
}

/// The consequences of a total preorder that the sorting proofs use.
pub proof fn lemma_total_preorder<T: PartialOrd>(m: Multiset<T>, x: T, y: T)
    requires
        total_preorder_on(m),
        m.contains(x),
        m.contains(y),
    ensures
        le(x, y) || le(y, x),
        gt(x, y) == !le(x, y),
        ge(x, y) == le(y, x),
        le(x, x),
{
    reveal(total_preorder_on);
    assert(x.partial_cmp_spec(&y) is Some);
    assert(y.partial_cmp_spec(&x) is Some);
    assert(x.partial_cmp_spec(&x) is Some);
    assert(ge(x, y) == le(y, x));
    assert(ge(x, x) == le(x, x));
}

/// `<=` on the values of `m` is transitive.
pub proof fn lemma_le_transitive<T: PartialOrd>(m: Multiset<T>, x: T, y: T, z: T)
    requires
        total_preorder_on(m),
        m.contains(x),
        m.contains(y),
        m.contains(z),
        le(x, y),
        le(y, z),
    ensures
        le(x, z),
{
    reveal(total_preorder_on);
}

/// A total preorder on some values is one on any of them.
pub proof fn lemma_total_preorder_within<T: PartialOrd>(m: Multiset<T>, part: Multiset<T>)
    requires
        total_preorder_on(m),
        forall|x: T| part.contains(x) ==> #[trigger] m.contains(x),
    ensures
        total_preorder_on(part),
{
    reveal(total_preorder_on);
}

/// A total preorder on some values implies that `T`'s operators follow its
/// specification.
pub proof fn lemma_follows_spec<T: PartialOrd>(m: Multiset<T>)
    requires
        total_preorder_on(m),
    ensures
        follows_spec::<T>(),
{
    reveal(total_preorder_on);
}

/// On the values in `m`, `x <= y` together with `y <= x` holds only where
/// `x` and `y` are the same value: with a total preorder this makes `<=` a
/// total order, as it is on integers.
pub open spec fn antisymmetric_on<T: PartialOrd>(m: Multiset<T>) -> bool {
    forall|x: T, y: T|
        m.contains(x) && m.contains(y) && #[trigger] le(x, y) && #[trigger] le(y, x) ==> x == y
}

/// Antisymmetry on some values holds on any of them.
pub proof fn lemma_antisymmetric_within<T: PartialOrd>(m: Multiset<T>, part: Multiset<T>)
    requires
        antisymmetric_on(m),
        forall|x: T| part.contains(x) ==> #[trigger] m.contains(x),
    ensures
        antisymmetric_on(part),
{
}

/// `<=` on unsigned 64-bit integers is antisymmetric.
pub proof fn lemma_u64_antisymmetric(m: Multiset<u64>)
    ensures
        antisymmetric_on(m),
{
}

/// `<=` on signed 32-bit integers is antisymmetric.
pub proof fn lemma_i32_antisymmetric(m: Multiset<i32>)
    ensures
        antisymmetric_on(m),
{
}

/// Any unsigned 64-bit integers are ordered as a total preorder.
pub proof fn lemma_u64_total_preorder(m: Multiset<u64>)
    ensures
        total_preorder_on(m),
{
    reveal(total_preorder_on);
}

/// Any signed 32-bit integers are ordered as a total preorder.
pub proof fn lemma_i32_total_preorder(m: Multiset<i32>)
    ensures
        total_preorder_on(m),
{
    reveal(total_preorder_on);
}

} // verus!
