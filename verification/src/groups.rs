//! Algebraic capability traits: a binary operation together with the laws
//! (associativity, commutativity, identity, inverses) that the prefix-sum
//! structures rely on. Each law is a proof obligation on the implementor, so
//! a structure that is generic over, say, a commutative monoid may invoke the
//! laws in its own proofs.

use vstd::prelude::*;

verus! {

/// A carrier type with a closed binary operation.
pub trait Magma {
    type Elem;

    /// The mathematical meaning of the operation.
    spec fn spec_add(&self, lhs: Self::Elem, rhs: Self::Elem) -> Self::Elem;

    /// Combine two elements.
    fn add(&self, lhs: &Self::Elem, rhs: &Self::Elem) -> (r: Self::Elem)
        ensures
            r == self.spec_add(*lhs, *rhs),
    ;
}

/// The operation is associative.
pub trait Associativity: Magma {
    /// `(a + b) + c == a + (b + c)`
    proof fn law_assoc(&self, a: Self::Elem, b: Self::Elem, c: Self::Elem)
        ensures
            self.spec_add(self.spec_add(a, b), c) == self.spec_add(a, self.spec_add(b, c)),
    ;
}

/// The operation is commutative.
pub trait Commutativity: Magma {
    /// `a + b == b + a`
    proof fn law_comm(&self, a: Self::Elem, b: Self::Elem)
        ensures
            self.spec_add(a, b) == self.spec_add(b, a),
    ;
}

/// The operation has a two-sided identity element.
pub trait Identity: Magma {
    /// The mathematical identity element.
    spec fn spec_id(&self) -> Self::Elem;

    /// Produce the identity element.
    fn id(&self) -> (r: Self::Elem)
        ensures
            r == self.spec_id(),
    ;

    /// `a + 0 == a` and `0 + a == a`
    proof fn law_identity(&self, a: Self::Elem)
        ensures
            self.spec_add(a, self.spec_id()) == a,
            self.spec_add(self.spec_id(), a) == a,
    ;
}

/// Every element has an inverse with respect to the operation.
pub trait Invertibillity: Magma {
    /// The mathematical inverse of an element.
    spec fn spec_inv(&self, a: Self::Elem) -> Self::Elem;

    /// Produce the inverse of an element.
    fn inv(&self, a: &Self::Elem) -> (r: Self::Elem)
        ensures
            r == self.spec_inv(*a),
    ;

    /// Combine with an inverse: `a - b`, that is `a + (-b)`.
    fn sub(&self, lhs: &Self::Elem, rhs: &Self::Elem) -> (r: Self::Elem)
        ensures
            r == self.spec_add(*lhs, self.spec_inv(*rhs)),
    ;

    /// Cancellation: `(a + b) - b == a`.
    proof fn law_cancel(&self, a: Self::Elem, b: Self::Elem)
        ensures
            self.spec_add(self.spec_add(a, b), self.spec_inv(b)) == a,
    ;
}

pub trait Monoid: Magma + Associativity + Identity {}

impl<M: Magma + Associativity + Identity> Monoid for M {}

pub trait CommutativeMonoid: Monoid + Commutativity {}

impl<CM: Monoid + Commutativity> CommutativeMonoid for CM {}

pub trait Group: Magma + Associativity + Identity + Invertibillity {}

impl<G: Magma + Associativity + Identity + Invertibillity> Group for G {}

pub trait AbelianGroup: Group + Commutativity {}

impl<AG: Group + Commutativity> AbelianGroup for AG {}

/// The additive group of a fixed-width machine integer, with the wrapping
/// (modular) addition, under which each width forms an abelian group.
#[derive(Debug)]
pub struct NumAdditiveGroups<T>(core::marker::PhantomData<T>);

impl<T> NumAdditiveGroups<T> {
    pub fn new() -> Self {
        NumAdditiveGroups(core::marker::PhantomData)
    }
}

impl<T> Default for NumAdditiveGroups<T> {
    fn default() -> Self {
        NumAdditiveGroups(core::marker::PhantomData)
    }
}

impl Magma for NumAdditiveGroups<i32> {
    type Elem = i32;

    open spec fn spec_add(&self, lhs: i32, rhs: i32) -> i32 {
        lhs.wrapping_add(rhs)
    }

    fn add(&self, lhs: &i32, rhs: &i32) -> (r: i32)
        ensures
            r == self.spec_add(*lhs, *rhs),
    {
        lhs.wrapping_add(*rhs)
    }
}

impl Associativity for NumAdditiveGroups<i32> {
    proof fn law_assoc(&self, a: i32, b: i32, c: i32)
        ensures
            self.spec_add(self.spec_add(a, b), c) == self.spec_add(a, self.spec_add(b, c)),
    {
    }
}

impl Commutativity for NumAdditiveGroups<i32> {
    proof fn law_comm(&self, a: i32, b: i32)
        ensures
            self.spec_add(a, b) == self.spec_add(b, a),
    {
    }
}

impl Identity for NumAdditiveGroups<i32> {
    open spec fn spec_id(&self) -> i32 {
        0
    }

    fn id(&self) -> (r: i32)
        ensures
            r == self.spec_id(),
    {
        0
    }

    proof fn law_identity(&self, a: i32)
        ensures
            self.spec_add(a, self.spec_id()) == a,
            self.spec_add(self.spec_id(), a) == a,
    {
    }
}

impl Invertibillity for NumAdditiveGroups<i32> {
    open spec fn spec_inv(&self, a: i32) -> i32 {
        (0i32).wrapping_sub(a)
    }

    fn inv(&self, a: &i32) -> (r: i32)
        ensures
            r == self.spec_inv(*a),
    {
        (0i32).wrapping_sub(*a)
    }

    fn sub(&self, lhs: &i32, rhs: &i32) -> (r: i32)
        ensures
            r == self.spec_add(*lhs, self.spec_inv(*rhs)),
    {
        lhs.wrapping_sub(*rhs)
    }

    proof fn law_cancel(&self, a: i32, b: i32)
        ensures
            self.spec_add(self.spec_add(a, b), self.spec_inv(b)) == a,
    {
    }
}

impl Magma for NumAdditiveGroups<i64> {
    type Elem = i64;

    open spec fn spec_add(&self, lhs: i64, rhs: i64) -> i64 {
        lhs.wrapping_add(rhs)
    }

    fn add(&self, lhs: &i64, rhs: &i64) -> (r: i64)
        ensures
            r == self.spec_add(*lhs, *rhs),
    {
        lhs.wrapping_add(*rhs)
    }
}

impl Associativity for NumAdditiveGroups<i64> {
    proof fn law_assoc(&self, a: i64, b: i64, c: i64)
        ensures
            self.spec_add(self.spec_add(a, b), c) == self.spec_add(a, self.spec_add(b, c)),
    {
    }
}

impl Commutativity for NumAdditiveGroups<i64> {
    proof fn law_comm(&self, a: i64, b: i64)
        ensures
            self.spec_add(a, b) == self.spec_add(b, a),
    {
    }
}

impl Identity for NumAdditiveGroups<i64> {
    open spec fn spec_id(&self) -> i64 {
        0
    }

    fn id(&self) -> (r: i64)
        ensures
            r == self.spec_id(),
    {
        0
    }

    proof fn law_identity(&self, a: i64)
        ensures
            self.spec_add(a, self.spec_id()) == a,
            self.spec_add(self.spec_id(), a) == a,
    {
    }
}

impl Invertibillity for NumAdditiveGroups<i64> {
    open spec fn spec_inv(&self, a: i64) -> i64 {
        (0i64).wrapping_sub(a)
    }

    fn inv(&self, a: &i64) -> (r: i64)
        ensures
            r == self.spec_inv(*a),
    {
        (0i64).wrapping_sub(*a)
    }

    fn sub(&self, lhs: &i64, rhs: &i64) -> (r: i64)
        ensures
            r == self.spec_add(*lhs, self.spec_inv(*rhs)),
    {
        lhs.wrapping_sub(*rhs)
    }

    proof fn law_cancel(&self, a: i64, b: i64)
        ensures
            self.spec_add(self.spec_add(a, b), self.spec_inv(b)) == a,
    {
    }
}

impl Magma for NumAdditiveGroups<u64> {
    type Elem = u64;

    open spec fn spec_add(&self, lhs: u64, rhs: u64) -> u64 {
        lhs.wrapping_add(rhs)
    }

    fn add(&self, lhs: &u64, rhs: &u64) -> (r: u64)
        ensures
            r == self.spec_add(*lhs, *rhs),
    {
        lhs.wrapping_add(*rhs)
    }
}

impl Associativity for NumAdditiveGroups<u64> {
    proof fn law_assoc(&self, a: u64, b: u64, c: u64)
        ensures
            self.spec_add(self.spec_add(a, b), c) == self.spec_add(a, self.spec_add(b, c)),
    {
    }
}

impl Commutativity for NumAdditiveGroups<u64> {
    proof fn law_comm(&self, a: u64, b: u64)
        ensures
            self.spec_add(a, b) == self.spec_add(b, a),
    {
    }
}

impl Identity for NumAdditiveGroups<u64> {
    open spec fn spec_id(&self) -> u64 {
        0
    }

    fn id(&self) -> (r: u64)
        ensures
            r == self.spec_id(),
    {
        0
    }

    proof fn law_identity(&self, a: u64)
        ensures
            self.spec_add(a, self.spec_id()) == a,
            self.spec_add(self.spec_id(), a) == a,
    {
    }
}

impl Invertibillity for NumAdditiveGroups<u64> {
    open spec fn spec_inv(&self, a: u64) -> u64 {
        (0u64).wrapping_sub(a)
    }

    fn inv(&self, a: &u64) -> (r: u64)
        ensures
            r == self.spec_inv(*a),
    {
        (0u64).wrapping_sub(*a)
    }

    fn sub(&self, lhs: &u64, rhs: &u64) -> (r: u64)
        ensures
            r == self.spec_add(*lhs, self.spec_inv(*rhs)),
    {
        lhs.wrapping_sub(*rhs)
    }

    proof fn law_cancel(&self, a: u64, b: u64)
        ensures
            self.spec_add(self.spec_add(a, b), self.spec_inv(b)) == a,
    {
    }
}

} // verus!
