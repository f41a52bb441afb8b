//! The fields that the transforms compute in.
//!
//! The traits state the laws of a field in which every element is its own negative. The transforms
//! themselves use addition and multiplication and never divide, so inverses have no executable
//! counterpart.
use vstd::prelude::*;

verus! {

/// A field of characteristic two.
pub trait Field: Copy {
    /// The neutral element of addition.
    spec fn zero_spec() -> Self;

    /// The neutral element of multiplication.
    spec fn one_spec() -> Self;

    /// The sum of two elements.
    spec fn plus(self, other: Self) -> Self;

    /// The product of two elements.
    spec fn times(self, other: Self) -> Self;

    /// Addition is commutative.
    proof fn plus_commutes(x: Self, y: Self)
        ensures
            x.plus(y) == y.plus(x),
    ;

    /// Addition is associative.
    proof fn plus_associates(x: Self, y: Self, z: Self)
        ensures
            x.plus(y).plus(z) == x.plus(y.plus(z)),
    ;

    /// Zero is neutral for addition.
    proof fn plus_zero(x: Self)
        ensures
            x.plus(Self::zero_spec()) == x,
    ;

    /// Every element is its own negative.
    proof fn plus_self(x: Self)
        ensures
            x.plus(x) == Self::zero_spec(),
    ;

    /// Multiplication is commutative.
    proof fn times_commutes(x: Self, y: Self)
        ensures
            x.times(y) == y.times(x),
    ;

    /// Multiplication is associative.
    proof fn times_associates(x: Self, y: Self, z: Self)
        ensures
            x.times(y).times(z) == x.times(y.times(z)),
    ;

    /// One is neutral for multiplication.
    proof fn times_one(x: Self)
        ensures
            x.times(Self::one_spec()) == x,
    ;

    /// Multiplication distributes over addition.
    proof fn times_distributes(x: Self, y: Self, z: Self)
        ensures
            x.times(y.plus(z)) == x.times(y).plus(x.times(z)),
    ;

    /// Every element but zero has an inverse.
    proof fn inverse(x: Self) -> (y: Self)
        requires
            x != Self::zero_spec(),
        ensures
            x.times(y) == Self::one_spec(),
    ;

    /// The two neutral elements differ.
    proof fn one_is_not_zero()
        ensures
            Self::one_spec() != Self::zero_spec(),
    ;

    /// The neutral element of addition.
    fn zero() -> (r: Self)
        ensures
            r == Self::zero_spec(),
    ;

    /// The neutral element of multiplication.
    fn one() -> (r: Self)
        ensures
            r == Self::one_spec(),
    ;

    /// Adds two elements.
    fn add(self, other: Self) -> (r: Self)
        ensures
            r == self.plus(other),
    ;

    /// Multiplies two elements.
    fn mul(self, other: Self) -> (r: Self)
        ensures
            r == self.times(other),
    ;

    /// Multiplies an element by itself.
    fn square(self) -> (r: Self)
        ensures
            r == self.times(self),
    ;
}

/// A finite field of characteristic two with a distinguished basis over the two-element field.
pub trait BinaryField: Field {
    /// The dimension of the field over the two-element field.
    spec fn n_bits_spec() -> usize;

    /// The basis vector with the given index, for an index below the dimension.
    spec fn basis_vector(i: nat) -> Self;

    /// The dimension of the field over the two-element field.
    fn n_bits() -> (r: usize)
        ensures
            r == Self::n_bits_spec(),
    ;

    /// The basis vector with the given index, if there is one.
    fn basis(i: usize) -> (r: Option<Self>)
        ensures
            i < Self::n_bits_spec() ==> r == Some(Self::basis_vector(i as nat)),
            i >= Self::n_bits_spec() ==> r is None,
    ;
}

/// A field that contains `F`, and is a vector space over it with coordinates in a fixed basis.
pub trait ExtensionField<F: Field>: Field {
    /// The dimension of this field over `F`.
    spec fn degree_spec() -> usize;

    /// An element of `F` as an element of this field.
    spec fn embed(x: F) -> Self;

    /// The coordinates of an element over `F`.
    spec fn coords(self) -> Seq<F>;

    /// The embedding keeps the unit.
    proof fn embed_one()
        ensures
            Self::embed(F::one_spec()) == Self::one_spec(),
    ;

    /// The embedding keeps sums.
    proof fn embed_plus(x: F, y: F)
        ensures
            Self::embed(x.plus(y)) == Self::embed(x).plus(Self::embed(y)),
    ;

    /// The embedding keeps products.
    proof fn embed_times(x: F, y: F)
        ensures
            Self::embed(x.times(y)) == Self::embed(x).times(Self::embed(y)),
    ;

    /// There are as many coordinates as the degree says.
    proof fn coords_len(x: Self)
        ensures
            x.coords().len() == Self::degree_spec(),
    ;

    /// The coordinates of a sum are the sums of the coordinates.
    proof fn coords_plus(x: Self, y: Self, c: int)
        requires
            0 <= c < Self::degree_spec(),
        ensures
            x.plus(y).coords()[c] == x.coords()[c].plus(y.coords()[c]),
    ;

    /// To multiply by an element of `F` is to multiply every coordinate by it.
    proof fn coords_scale(x: Self, a: F, c: int)
        requires
            0 <= c < Self::degree_spec(),
        ensures
            x.times(Self::embed(a)).coords()[c] == x.coords()[c].times(a),
    ;

    /// The coordinates determine the element.
    proof fn coords_injective(x: Self, y: Self)
        requires
            x.coords() == y.coords(),
        ensures
            x == y,
    ;

    /// The dimension of this field over `F`.
    fn degree() -> (r: usize)
        ensures
            r == Self::degree_spec(),
    ;

    /// Multiplies an element by an element of `F`.
    fn mul_base(self, a: F) -> (r: Self)
        ensures
            r == self.times(Self::embed(a)),
    ;
}

/// Every field extends itself, with a single coordinate.
impl<F: Field> ExtensionField<F> for F {
    open spec fn degree_spec() -> usize {
        1
    }

    open spec fn embed(x: F) -> F {
        x
    }

    open spec fn coords(self) -> Seq<F> {
        seq![self]
    }

    proof fn embed_one() {
    }

    proof fn embed_plus(x: F, y: F) {
    }

    proof fn embed_times(x: F, y: F) {
    }

    proof fn coords_len(x: F) {
    }

    proof fn coords_plus(x: F, y: F, c: int) {
    }

    proof fn coords_scale(x: F, a: F, c: int) {
    }

    proof fn coords_injective(x: F, y: F) {
        assert(seq![x][0] == seq![y][0]);
    }

    fn degree() -> (r: usize) {
        1
    }

    fn mul_base(self, a: F) -> (r: F) {
        self.mul(a)
    }
}

/// Zero is neutral for addition from the left as well.
pub proof fn lemma_zero_plus<F: Field>(x: F)
    ensures
        F::zero_spec().plus(x) == x,
{
    F::plus_commutes(F::zero_spec(), x);
    F::plus_zero(x);
}

/// One is neutral for multiplication from the left as well.
pub proof fn lemma_one_times<F: Field>(x: F)
    ensures
        F::one_spec().times(x) == x,
{
    F::times_commutes(F::one_spec(), x);
    F::times_one(x);
}

/// A product with zero is zero.
pub proof fn lemma_times_zero<F: Field>(x: F)
    ensures
        x.times(F::zero_spec()) == F::zero_spec(),
        F::zero_spec().times(x) == F::zero_spec(),
{
    F::plus_self(F::zero_spec());
    F::times_distributes(x, F::zero_spec(), F::zero_spec());
    F::plus_self(x.times(F::zero_spec()));
    F::times_commutes(x, F::zero_spec());
}

/// A product is zero only if one of its factors is.
pub proof fn lemma_no_zero_divisors<F: Field>(x: F, y: F)
    requires
        x.times(y) == F::zero_spec(),
    ensures
        x == F::zero_spec() || y == F::zero_spec(),
{
    if x != F::zero_spec() {
        // y == (z * x) * y == z * (x * y) == 0
        let z = F::inverse(x);
        F::times_commutes(x, z);
        lemma_one_times(y);
        F::times_associates(z, x, y);
        lemma_times_zero(z);
    }
}

/// Multiplication distributes over a sum on its left as well.
pub proof fn lemma_distributes_left<F: Field>(x: F, y: F, z: F)
    ensures
        x.plus(y).times(z) == x.times(z).plus(y.times(z)),
{
    F::times_commutes(x.plus(y), z);
    F::times_commutes(x, z);
    F::times_commutes(y, z);
    F::times_distributes(z, x, y);
}

/// The sum of two sums can be regrouped.
pub proof fn lemma_plus_regroup<F: Field>(w: F, x: F, y: F, z: F)
    ensures
        w.plus(x).plus(y.plus(z)) == w.plus(y).plus(x.plus(z)),
{
    F::plus_associates(w, x, y.plus(z));
    F::plus_associates(x, y, z);
    F::plus_commutes(x, y);
    F::plus_associates(y, x, z);
    F::plus_associates(w, y, x.plus(z));
}

/// An element that is added twice cancels.
pub proof fn lemma_plus_cancels<F: Field>(x: F, y: F)
    ensures
        x.plus(y).plus(y) == x,
        y.plus(y.plus(x)) == x,
{
    F::plus_associates(x, y, y);
    F::plus_self(y);
    F::plus_zero(x);
    F::plus_associates(y, y, x);
    lemma_zero_plus(x);
}

/// A field has degree one over itself, and is embedded in itself as it is.
pub proof fn lemma_self_extension<F: Field>()
    ensures
        <F as ExtensionField<F>>::degree_spec() == 1,
        forall|x: F| #[trigger] <F as ExtensionField<F>>::coords(x) == seq![x],
        forall|x: F| #[trigger] <F as ExtensionField<F>>::embed(x) == x,
{
}

/// Every field extends itself: it has degree one over itself, is embedded as it is, and an element
/// is its own single coordinate.
pub proof fn law_field_extends_itself<F: Field>(x: F)
    ensures
        <F as ExtensionField<F>>::degree_spec() == 1,
        <F as ExtensionField<F>>::embed(x) == x,
        <F as ExtensionField<F>>::coords(x).len() == 1,
        <F as ExtensionField<F>>::coords(x)[0] == x,
{
}

} // verus!
