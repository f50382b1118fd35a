use vstd::prelude::*;

verus! {

/// A commutative ring with a multiplicative inverse for its nonzero elements,
/// given as spec operations together with the laws they obey and executable
/// operations that compute them.
pub trait Ring: Sized + Copy {
    /// The additive identity.
    spec fn zero_spec() -> Self;

    /// The multiplicative identity.
    spec fn one_spec() -> Self;

    /// Sum.
    spec fn add_spec(a: Self, b: Self) -> Self;

    /// Product.
    spec fn mul_spec(a: Self, b: Self) -> Self;

    /// Additive inverse.
    spec fn neg_spec(a: Self) -> Self;

    /// Multiplicative inverse, meaningful for nonzero elements.
    spec fn inv_spec(a: Self) -> Self;

    proof fn lemma_add_zero(a: Self)
        ensures
            Self::add_spec(Self::zero_spec(), a) == a,
            Self::add_spec(a, Self::zero_spec()) == a,
    ;

    proof fn lemma_add_comm(a: Self, b: Self)
        ensures
            Self::add_spec(a, b) == Self::add_spec(b, a),
    ;

    proof fn lemma_add_assoc(a: Self, b: Self, c: Self)
        ensures
            Self::add_spec(Self::add_spec(a, b), c) == Self::add_spec(a, Self::add_spec(b, c)),
    ;

    proof fn lemma_add_neg(a: Self)
        ensures
            Self::add_spec(a, Self::neg_spec(a)) == Self::zero_spec(),
    ;

    proof fn lemma_mul_one(a: Self)
        ensures
            Self::mul_spec(Self::one_spec(), a) == a,
            Self::mul_spec(a, Self::one_spec()) == a,
    ;

    proof fn lemma_mul_zero(a: Self)
        ensures
            Self::mul_spec(Self::zero_spec(), a) == Self::zero_spec(),
            Self::mul_spec(a, Self::zero_spec()) == Self::zero_spec(),
    ;

    proof fn lemma_mul_comm(a: Self, b: Self)
        ensures
            Self::mul_spec(a, b) == Self::mul_spec(b, a),
    ;

    proof fn lemma_mul_assoc(a: Self, b: Self, c: Self)
        ensures
            Self::mul_spec(Self::mul_spec(a, b), c) == Self::mul_spec(a, Self::mul_spec(b, c)),
    ;

    proof fn lemma_distrib(a: Self, b: Self, c: Self)
        ensures
            Self::mul_spec(a, Self::add_spec(b, c)) == Self::add_spec(
                Self::mul_spec(a, b),
                Self::mul_spec(a, c),
            ),
    ;

    /// The ring is not trivial.
    proof fn lemma_one_ne_zero()
        ensures
            Self::one_spec() != Self::zero_spec(),
    ;

    /// Every nonzero element is invertible.
    proof fn lemma_mul_inv(a: Self)
        requires
            a != Self::zero_spec(),
        ensures
            Self::mul_spec(a, Self::inv_spec(a)) == Self::one_spec(),
    ;

    fn zero() -> (r: Self)
        ensures
            r == Self::zero_spec(),
    ;

    fn one() -> (r: Self)
        ensures
            r == Self::one_spec(),
    ;

    fn plus(&self, o: &Self) -> (r: Self)
        ensures
            r == Self::add_spec(*self, *o),
    ;

    fn times(&self, o: &Self) -> (r: Self)
        ensures
            r == Self::mul_spec(*self, *o),
    ;

    fn negate(&self) -> (r: Self)
        ensures
            r == Self::neg_spec(*self),
    ;

    fn mul_inv(&self) -> (r: Self)
        ensures
            r == Self::inv_spec(*self),
    ;

    /// Equality of elements.
    fn equals(&self, o: &Self) -> (r: bool)
        ensures
            r == (*self == *o),
    ;
}

/// The field with two elements: addition is exclusive or, multiplication is and.
#[derive(Clone, Copy, Debug, PartialEq, Eq, Structural)]
pub struct Gf2 {
    pub bit: bool,
}

impl Ring for Gf2 {
    open spec fn zero_spec() -> Self {
        Gf2 { bit: false }
    }

    open spec fn one_spec() -> Self {
        Gf2 { bit: true }
    }

    open spec fn add_spec(a: Self, b: Self) -> Self {
        Gf2 { bit: a.bit != b.bit }
    }

    open spec fn mul_spec(a: Self, b: Self) -> Self {
        Gf2 { bit: a.bit && b.bit }
    }

    open spec fn neg_spec(a: Self) -> Self {
        a
    }

    open spec fn inv_spec(a: Self) -> Self {
        a
    }

    proof fn lemma_add_zero(a: Self) {
    }

    proof fn lemma_add_comm(a: Self, b: Self) {
    }

    proof fn lemma_add_assoc(a: Self, b: Self, c: Self) {
    }

    proof fn lemma_add_neg(a: Self) {
    }

    proof fn lemma_mul_one(a: Self) {
    }

    proof fn lemma_mul_zero(a: Self) {
    }

    proof fn lemma_mul_comm(a: Self, b: Self) {
    }

    proof fn lemma_mul_assoc(a: Self, b: Self, c: Self) {
    }

    proof fn lemma_distrib(a: Self, b: Self, c: Self) {
    }

    proof fn lemma_one_ne_zero() {
    }

    proof fn lemma_mul_inv(a: Self) {
    }

    fn zero() -> (r: Self) {
        Gf2 { bit: false }
    }

    fn one() -> (r: Self) {
        Gf2 { bit: true }
    }

    fn plus(&self, o: &Self) -> (r: Self) {
        Gf2 { bit: self.bit != o.bit }
    }

    fn times(&self, o: &Self) -> (r: Self) {
        Gf2 { bit: self.bit && o.bit }
    }

    fn negate(&self) -> (r: Self) {
        *self
    }

    fn mul_inv(&self) -> (r: Self) {
        *self
    }

    fn equals(&self, o: &Self) -> (r: bool) {
        self.bit == o.bit
    }
}

} // verus!
