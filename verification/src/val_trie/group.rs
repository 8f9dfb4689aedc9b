//! Basic definitions for groups. Groups are the kind of aggregation that the
//! persistent sets of this crate maintain incrementally.
use vstd::prelude::*;

verus! {

/// A group is a type with an associative and (in this case) commutative binary
/// operation. This type must have a distinguished identity element, and all
/// elements must have an inverse.
pub trait Group: Sized + Default {
    /// The group's operation.
    spec fn combine(self, other: Self) -> Self;

    /// The inverse of an element.
    spec fn negate(self) -> Self;

    /// The identity element: by default, the type's `Default` value.
    fn identity() -> (r: Self)
        default_ensures
            call_ensures(Self::default, (), r),
    {
        Self::default()
    }

    /// The inverse of `self`.
    fn inverse(&self) -> (r: Self)
        ensures
            r == self.negate(),
    ;

    /// Adds `other` to `self`.
    fn add(&mut self, other: &Self)
        ensures
            *final(self) == old(self).combine(*other),
    ;

    /// Adds the inverse of `other` to `self`.
    fn sub(&mut self, other: &Self)
        ensures
            *final(self) == old(self).combine(other.negate()),
    {
        let inv = other.inverse();
        self.add(&inv);
    }
}

impl<S: Group, T: Group> Group for (S, T) {
    open spec fn combine(self, other: Self) -> Self {
        (self.0.combine(other.0), self.1.combine(other.1))
    }

    open spec fn negate(self) -> Self {
        (self.0.negate(), self.1.negate())
    }

    fn identity() -> (r: Self)
        ensures
            call_ensures(S::identity, (), r.0),
            call_ensures(T::identity, (), r.1),
    {
        (S::identity(), T::identity())
    }

    fn inverse(&self) -> (r: Self) {
        (self.0.inverse(), self.1.inverse())
    }

    fn add(&mut self, other: &Self) {
        self.0.add(&other.0);
        self.1.add(&other.1);
    }

    fn sub(&mut self, other: &Self) {
        self.0.sub(&other.0);
        self.1.sub(&other.1);
    }
}

/// The group of 32-bit words under exclusive or: every element is its own
/// inverse.
#[derive(Copy, Clone, Debug, PartialEq, Eq, Hash)]
pub struct XorU32(pub u32);

impl Default for XorU32 {
    /// The identity: the zero word.
    fn default() -> (r: Self)
        ensures
            r == XorU32(0),
    {
        XorU32(0)
    }
}

/// A clone of a word is the word itself, so the aggregates that sets of words
/// keep across a clone of their root are exact.
pub proof fn law_xor_clone_is_exact(a: XorU32, b: XorU32)
    requires
        cloned(a, b),
    ensures
        a == b,
{
}

impl Group for XorU32 {
    open spec fn combine(self, other: Self) -> Self {
        XorU32(self.0 ^ other.0)
    }

    open spec fn negate(self) -> Self {
        self
    }

    fn inverse(&self) -> (r: Self) {
        *self
    }

    fn add(&mut self, other: &Self) {
        self.0 = self.0 ^ other.0;
    }
}

impl Group for () {
    open spec fn combine(self, other: Self) -> Self {
        ()
    }

    open spec fn negate(self) -> Self {
        ()
    }

    fn identity() {
    }

    fn inverse(&self) {
    }

    fn add(&mut self, _other: &Self) {
    }
}

/// In the group of words under exclusive or, subtracting what was added
/// gives back the start, and adding the identity changes nothing.
pub proof fn law_xor_sub_undoes_add(x: XorU32, y: XorU32)
    ensures
        x.combine(y).combine(y.negate()) == x,
        x.combine(XorU32(0)) == x,
{
    let a = x.0;
    let b = y.0;
    assert(a ^ b ^ b == a && a ^ 0u32 == a) by (bit_vector);
}

/// In a pair of groups, subtracting what was added gives back the start
/// wherever it does in each component.
pub proof fn law_pair_sub_undoes_add<S: Group, T: Group>(x: (S, T), y: (S, T))
    requires
        x.0.combine(y.0).combine(y.0.negate()) == x.0,
        x.1.combine(y.1).combine(y.1.negate()) == x.1,
    ensures
        x.combine(y).combine(y.negate()) == x,
{
}

/// Types that can be "projected" into a group.
pub trait AsGroup<G: Group> {
    fn as_group(&self) -> G;
}

impl<T> AsGroup<()> for T {
    fn as_group(&self) {
    }
}


/// Subtracting a value and adding it back gives the start: `a - b + b == a`
/// for all `a` and `b`.
pub open spec fn cancels<G: Group>() -> bool {
    forall|a: G, b: G| #[trigger] a.combine(b.negate()).combine(b) == a
}

/// A clone of a value is the value itself.
pub open spec fn clones_exactly<G: Clone>() -> bool {
    forall|a: G, b: G| #[trigger] cloned(a, b) ==> a == b
}

/// Words under exclusive or cancel, and clone exactly.
pub proof fn law_xor_cancels_and_clones_exactly()
    ensures
        cancels::<XorU32>(),
        clones_exactly::<XorU32>(),
{
    assert forall|a: XorU32, b: XorU32| #[trigger] a.combine(b.negate()).combine(b) == a by {
        let (x, y) = (a.0, b.0);
        assert(x ^ y ^ y == x) by (bit_vector);
    }
    assert forall|a: XorU32, b: XorU32| #[trigger] cloned(a, b) implies a == b by {
        law_xor_clone_is_exact(a, b);
    }
}

} // verus!
