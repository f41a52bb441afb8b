//! Packed fields: vectors of field elements that are computed with lane by lane.
use crate::field::{lemma_self_extension, ExtensionField, Field};
use vstd::arithmetic::div_mod::{lemma_fundamental_div_mod, lemma_fundamental_div_mod_converse};
use vstd::prelude::*;

verus! {

/// A vector of field elements, its lanes.
pub trait PackedField: Copy {
    /// The type of the lanes.
    type Scalar: Field;

    /// The number of lanes.
    spec fn width_spec() -> usize;

    /// The lanes.
    spec fn lanes(self) -> Seq<Self::Scalar>;

    /// There are as many lanes as the width says.
    proof fn lanes_len(x: Self)
        ensures
            x.lanes().len() == Self::width_spec(),
    ;

    /// The lanes determine the vector.
    proof fn lanes_injective(x: Self, y: Self)
        requires
            x.lanes() == y.lanes(),
        ensures
            x == y,
    ;

    /// The number of lanes.
    fn width() -> (r: usize)
        ensures
            r == Self::width_spec(),
    ;

    /// The vector with zeros in all lanes.
    fn zeros() -> (r: Self)
        ensures
            r.lanes() == Seq::new(Self::width_spec() as nat, |l: int| Self::Scalar::zero_spec()),
    ;

    /// The value in a lane.
    fn get(self, lane: usize) -> (r: Self::Scalar)
        requires
            lane < Self::width_spec(),
        ensures
            r == self.lanes()[lane as int],
    ;

    /// Puts a value into a lane.
    fn set(&mut self, lane: usize, value: Self::Scalar)
        requires
            lane < Self::width_spec(),
        ensures
            final(self).lanes() == old(self).lanes().update(lane as int, value),
    ;

    /// Adds two vectors lane by lane.
    fn add_lanes(self, other: Self) -> (r: Self)
        ensures
            r.lanes() == Seq::new(
                Self::width_spec() as nat,
                |l: int| self.lanes()[l].plus(other.lanes()[l]),
            ),
    ;

    /// Multiplies two vectors lane by lane.
    fn mul_lanes(self, other: Self) -> (r: Self)
        ensures
            r.lanes() == Seq::new(
                Self::width_spec() as nat,
                |l: int| self.lanes()[l].times(other.lanes()[l]),
            ),
    ;

    /// Multiplies all lanes by a scalar.
    fn scale_lanes(self, a: Self::Scalar) -> (r: Self)
        ensures
            r.lanes() == Seq::new(Self::width_spec() as nat, |l: int| self.lanes()[l].times(a)),
    ;

    /// Interleaves blocks of `block_len` lanes of two vectors.
    ///
    /// The two vectors are stacked and divided into matrices of two by two blocks, and each of
    /// these matrices is transposed. With `block_len` 2 the vectors `a0 a1 a2 a3` and
    /// `b0 b1 b2 b3` become `a0 a1 b0 b1` and `a2 a3 b2 b3`.
    fn interleave(self, other: Self, block_len: usize) -> (r: (Self, Self))
        requires
            0 < block_len,
            Self::width_spec() as int % (2 * block_len) == 0,
        ensures
            r.0.lanes() == Seq::new(
                Self::width_spec() as nat,
                |l: int|
                    if (l / block_len as int) % 2 == 0 {
                        self.lanes()[l]
                    } else {
                        other.lanes()[l - block_len]
                    },
            ),
            r.1.lanes() == Seq::new(
                Self::width_spec() as nat,
                |l: int|
                    if (l / block_len as int) % 2 == 0 {
                        self.lanes()[l + block_len]
                    } else {
                        other.lanes()[l]
                    },
            ),
    ;
}

/// All lanes of a sequence of vectors, one vector after the other.
pub open spec fn scalars<P: PackedField>(v: Seq<P>) -> Seq<P::Scalar> {
    Seq::new(
        v.len() * P::width_spec() as nat,
        |s: int| v[s / P::width_spec() as int].lanes()[s % P::width_spec() as int],
    )
}

/// All coordinates of a sequence of elements, one element after the other.
pub open spec fn base_coords<F: Field, E: ExtensionField<F>>(a: Seq<E>) -> Seq<F> {
    Seq::new(
        a.len() * E::degree_spec() as nat,
        |c: int| a[c / E::degree_spec() as int].coords()[c % E::degree_spec() as int],
    )
}

/// A packed field whose vectors can be taken for sequences of vectors over a subfield: their
/// scalars are the coordinates of the lanes.
pub trait PackedExtensionField<P: PackedField>: PackedField where
    Self::Scalar: ExtensionField<P::Scalar>,
 {
    /// The number of vectors over the subfield that make up one vector.
    spec fn n_bases() -> nat;

    /// The vectors over the subfield hold all coordinates.
    proof fn bases_cover()
        ensures
            Self::n_bases() * P::width_spec() == Self::width_spec()
                * <Self::Scalar as ExtensionField<P::Scalar>>::degree_spec(),
    ;

    /// Takes a vector for a sequence of vectors over the subfield.
    fn to_bases(self) -> (r: Vec<P>)
        ensures
            r@.len() == Self::n_bases(),
            scalars(r@) == base_coords::<P::Scalar, Self::Scalar>(self.lanes()),
    ;

    /// Takes a sequence of vectors over the subfield for a vector.
    fn from_bases(bases: &[P]) -> (r: Self)
        requires
            bases@.len() == Self::n_bases(),
        ensures
            base_coords::<P::Scalar, Self::Scalar>(r.lanes()) == scalars(bases@),
    ;
}

/// A field element is a vector with a single lane.
impl<F: Field> PackedField for F {
    type Scalar = F;

    open spec fn width_spec() -> usize {
        1
    }

    open spec fn lanes(self) -> Seq<F> {
        seq![self]
    }

    proof fn lanes_len(x: F) {
    }

    proof fn lanes_injective(x: F, y: F) {
        assert(seq![x][0] == seq![y][0]);
    }

    fn width() -> (r: usize) {
        1
    }

    fn zeros() -> (r: F) {
        proof {
            assert(seq![F::zero_spec()] =~= Seq::new(1, |l: int| F::zero_spec()));
        }
        F::zero()
    }

    fn get(self, lane: usize) -> (r: F) {
        self
    }

    fn set(&mut self, lane: usize, value: F) {
        proof {
            assert(seq![value] =~= seq![*self].update(lane as int, value));
        }
        *self = value;
    }

    fn add_lanes(self, other: F) -> (r: F) {
        let r = self.add(other);
        proof {
            assert(seq![r] =~= Seq::new(1, |l: int| seq![self][l].plus(seq![other][l])));
        }
        r
    }

    fn mul_lanes(self, other: F) -> (r: F) {
        let r = self.mul(other);
        proof {
            assert(seq![r] =~= Seq::new(1, |l: int| seq![self][l].times(seq![other][l])));
        }
        r
    }

    fn scale_lanes(self, a: F) -> (r: F) {
        let r = self.mul(a);
        proof {
            assert(seq![r] =~= Seq::new(1, |l: int| seq![self][l].times(a)));
        }
        r
    }

    fn interleave(self, other: F, block_len: usize) -> (r: (F, F)) {
        proof {
            lemma_fundamental_div_mod_converse(1, 2 * block_len, 0, 1);
        }
        (self, other)
    }
}

/// Every packed field extends itself.
impl<P: PackedField> PackedExtensionField<P> for P {
    open spec fn n_bases() -> nat {
        1
    }

    proof fn bases_cover() {
        lemma_self_extension::<P::Scalar>();
        let d = <P::Scalar as ExtensionField<P::Scalar>>::degree_spec();
        assert(P::width_spec() * d == P::width_spec()) by (nonlinear_arith)
            requires
                d == 1,
        ;
    }

    fn to_bases(self) -> (r: Vec<P>) {
        let mut r: Vec<P> = Vec::new();
        r.push(self);
        proof {
            P::lanes_len(self);
            lemma_self_bases(self);
        }
        r
    }

    fn from_bases(bases: &[P]) -> (r: P) {
        proof {
            P::lanes_len(bases@[0]);
            lemma_self_bases(bases@[0]);
            assert(bases@ =~= seq![bases@[0]]);
        }
        bases[0]
    }
}

/// A vector over a field is its own single vector over that field.
proof fn lemma_self_bases<P: PackedField>(x: P)
    ensures
        scalars(seq![x]) == base_coords::<P::Scalar, P::Scalar>(x.lanes()),
{
    P::lanes_len(x);
    lemma_self_extension::<P::Scalar>();
    let a = scalars(seq![x]);
    let b = base_coords::<P::Scalar, P::Scalar>(x.lanes());
    let d = <P::Scalar as ExtensionField<P::Scalar>>::degree_spec();
    let w = P::width_spec() as nat;
    assert(w * d as nat == w && 1nat * w == w) by (nonlinear_arith)
        requires
            d == 1,
    ;
    assert(seq![x].len() == 1);
    assert(a.len() == w);
    assert(b.len() == w);
    assert forall|s: int| 0 <= s < P::width_spec() implies a[s] == b[s] by {
        lemma_fundamental_div_mod_converse(s, P::width_spec() as int, 0, s);
        lemma_fundamental_div_mod_converse(s, d as int, s, 0);
        assert(a[s] == x.lanes()[s]);
    }
    assert(a =~= b);
}

/// Dividing in two steps, by `d` and then by `w`.
proof fn lemma_divide_twice(c: int, d: int, w: int)
    requires
        0 <= c,
        0 < d,
        0 < w,
    ensures
        0 <= c / (d * w),
        0 <= c % (d * w) < d * w,
        c / d == (c / (d * w)) * w + (c % (d * w)) / d,
        c % d == (c % (d * w)) % d,
        0 <= (c % (d * w)) / d < w,
        (c / d) / w == c / (d * w),
        (c / d) % w == (c % (d * w)) / d,
{
    let x = d * w;
    assert(0 < x) by (nonlinear_arith)
        requires
            0 < d,
            0 < w,
            x == d * w,
    ;
    let e = c / x;
    let m = c % x;
    lemma_fundamental_div_mod(c, x);
    lemma_fundamental_div_mod(m, d);
    let h = m / d;
    let k = m % d;
    assert(0 <= e) by (nonlinear_arith)
        requires
            c == x * e + m,
            0 <= c,
            m < x,
            0 < x,
    ;
    assert(0 <= h < w) by (nonlinear_arith)
        requires
            m == d * h + k,
            0 <= k < d,
            0 <= m < d * w,
            0 < d,
    ;
    assert(c == (e * w + h) * d + k) by (nonlinear_arith)
        requires
            c == x * e + m,
            m == d * h + k,
            x == d * w,
    ;
    lemma_fundamental_div_mod_converse(c, d, e * w + h, k);
    lemma_fundamental_div_mod_converse(e * w + h, w, e, h);
}

/// If every vector holds the coordinates of its part, then all vectors together hold all
/// coordinates.
proof fn lemma_cast<P: PackedField, E: PackedExtensionField<P>>(data: Seq<E>, bases: Seq<P>) where
    E::Scalar: ExtensionField<P::Scalar>,

    requires
        bases.len() == data.len() * E::n_bases(),
        forall|i: int|
            0 <= i < data.len() ==> scalars(
                bases.subrange(i * E::n_bases(), (i + 1) * E::n_bases()),
            ) == base_coords::<P::Scalar, E::Scalar>((#[trigger] data[i]).lanes()),
    ensures
        scalars(bases) == base_coords::<P::Scalar, E::Scalar>(scalars(data)),
{
    let n = data.len() as int;
    let k = E::n_bases() as int;
    let pw = P::width_spec() as int;
    let ew = E::width_spec() as int;
    let d = <E::Scalar as ExtensionField<P::Scalar>>::degree_spec() as int;
    let x = k * pw;
    E::bases_cover();
    let a = scalars(bases);
    let b = base_coords::<P::Scalar, E::Scalar>(scalars(data));
    assert((n * k) * pw == n * x && (n * ew) * d == n * x) by (nonlinear_arith)
        requires
            x == k * pw,
            x == ew * d,
    ;
    assert(a.len() == n * x);
    assert(b.len() == n * x);
    assert forall|c: int| 0 <= c < n * x implies a[c] == b[c] by {
        assert(0 < n && 0 < x) by (nonlinear_arith)
            requires
                0 <= c < n * x,
                0 <= n,
                0 <= x,
        ;
        assert(0 < pw && 0 < k) by (nonlinear_arith)
            requires
                0 < x,
                x == k * pw,
                0 <= k,
                0 <= pw,
        ;
        assert(0 < d && 0 < ew) by (nonlinear_arith)
            requires
                0 < x,
                x == ew * d,
                0 <= d,
                0 <= ew,
        ;
        assert(pw * k == x && d * ew == x) by (nonlinear_arith)
            requires
                x == k * pw,
                x == ew * d,
        ;
        lemma_divide_twice(c, pw, k);
        lemma_divide_twice(c, d, ew);
        let i = c / x;
        let m = c % x;
        lemma_fundamental_div_mod(c, x);
        assert(i < n) by (nonlinear_arith)
            requires
                c == x * i + m,
                0 <= m,
                c < n * x,
                0 < x,
        ;
        assert((i + 1) * k == i * k + k && (i + 1) * k <= n * k && 0 <= i * k) by (nonlinear_arith)
            requires
                0 <= i < n,
                0 < k,
        ;
        let part = bases.subrange(i * k, (i + 1) * k);
        E::lanes_len(data[i]);
        assert(scalars(part) == base_coords::<P::Scalar, E::Scalar>(data[i].lanes()));
        assert(scalars(part).len() == x);
        assert(scalars(part)[m] == part[m / pw].lanes()[m % pw]);
        assert(base_coords::<P::Scalar, E::Scalar>(data[i].lanes())[m] == data[i].lanes()[m
            / d].coords()[m % d]);
        assert(0 <= c / pw < bases.len());
        assert(a[c] == bases[c / pw].lanes()[c % pw]);
        assert(0 <= c / d < n * ew) by (nonlinear_arith)
            requires
                c / d == i * ew + m / d,
                0 <= m / d < ew,
                0 <= i < n,
                0 < ew,
        ;
        assert(scalars(data)[c / d] == data[i].lanes()[m / d]);
    }
    assert(a =~= b);
}

/// Takes packed elements for packed elements over a subfield.
pub fn cast_to_bases<P, E>(data: &[E]) -> (bases: Vec<P>) where
    P: PackedField,
    E: PackedExtensionField<P>,
    E::Scalar: ExtensionField<P::Scalar>,

    ensures
        bases@.len() == data@.len() * E::n_bases(),
        scalars(bases@) == base_coords::<P::Scalar, E::Scalar>(scalars(data@)),
{
    let ghost k = E::n_bases() as int;
    let mut bases: Vec<P> = Vec::new();
    let mut i: usize = 0;
    while i < data.len()
        invariant
            i <= data@.len(),
            k == E::n_bases(),
            bases@.len() == i * k,
            forall|x: int|
                0 <= x < i ==> scalars(bases@.subrange(x * k, (x + 1) * k)) == base_coords::<
                    P::Scalar,
                    E::Scalar,
                >((#[trigger] data@[x]).lanes()),
        decreases data@.len() - i,
    {
        let mut part: Vec<P> = data[i].to_bases();
        let ghost done = bases@;
        let ghost p = part@;
        bases.append(&mut part);
        proof {
            assert((i + 1) * k == i * k + k) by (nonlinear_arith);
            assert(bases@.subrange(i * k, (i + 1) * k) =~= p);
            assert forall|x: int| 0 <= x < i + 1 implies scalars(
                bases@.subrange(x * k, (x + 1) * k),
            ) == base_coords::<P::Scalar, E::Scalar>((#[trigger] data@[x]).lanes()) by {
                if x < i {
                    assert(0 <= x * k && x * k <= (x + 1) * k && (x + 1) * k <= i * k)
                        by (nonlinear_arith)
                        requires
                            0 <= x < i,
                            0 <= k,
                    ;
                    assert(bases@.subrange(x * k, (x + 1) * k) =~= done.subrange(
                        x * k,
                        (x + 1) * k,
                    ));
                }
            }
        }
        i += 1;
    }
    proof {
        lemma_cast::<P, E>(data@, bases@);
    }
    bases
}

/// Takes packed elements over a subfield for packed elements, and stores these.
pub fn cast_from_bases<P, E>(bases: &[P], data: &mut [E]) where
    P: PackedField,
    E: PackedExtensionField<P>,
    E::Scalar: ExtensionField<P::Scalar>,

    requires
        bases@.len() == old(data)@.len() * E::n_bases(),
    ensures
        final(data)@.len() == old(data)@.len(),
        base_coords::<P::Scalar, E::Scalar>(scalars(final(data)@)) == scalars(bases@),
{
    let n = data.len();
    if n == 0 {
        proof {
            lemma_cast::<P, E>(data@, bases@);
        }
        return ;
    }
    let k = bases.len() / n;
    proof {
        assert(k == E::n_bases()) by {
            assert(n * E::n_bases() == E::n_bases() * n) by (nonlinear_arith);
            lemma_fundamental_div_mod_converse(
                bases@.len() as int,
                n as int,
                E::n_bases() as int,
                0,
            );
        }
    }
    let mut i: usize = 0;
    let mut start: usize = 0;
    while i < n
        invariant
            i <= n,
            data@.len() == n,
            k == E::n_bases(),
            start == i * k,
            bases@.len() == n * k,
            forall|x: int|
                0 <= x < i ==> scalars(bases@.subrange(x * k, (x + 1) * k)) == base_coords::<
                    P::Scalar,
                    E::Scalar,
                >((#[trigger] data@[x]).lanes()),
        decreases n - i,
    {
        proof {
            assert((i + 1) * k == i * k + k && (i + 1) * k <= n * k) by (nonlinear_arith)
                requires
                    i < n,
                    0 <= k,
            ;
            assert(bases@.len() == bases.len());
        }
        data[i] = E::from_bases(&bases[start..start + k]);
        start += k;
        i += 1;
    }
    proof {
        lemma_cast::<P, E>(data@, bases@);
    }
}

} // verus!
