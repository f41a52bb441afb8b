//! Laws that fix the values of the forward transform: it is linear, and its values on single
//! coefficients are tied to each other and to the points of the domain.
use crate::binary_field::{law_basis_32b, law_basis_8b, BinaryField32b, BinaryField8b};
use crate::cantor::{
    cantor_basis_below, law_layer_factor_is_subspace_poly, law_points_32b, law_points_8b, point,
};
use crate::domain_laws::law_forward_success;
use crate::field::{
    lemma_one_times, lemma_plus_cancels, lemma_times_zero, lemma_zero_plus, BinaryField,
    ExtensionField, Field,
};
use crate::index::{
    bit, exp2, lemma_compose, lemma_decompose, lemma_exp2, lemma_exp2_adds, lemma_exp2_monotone,
};
use crate::laws::{law_cosets_make_up_domain, law_forward_is_linear, zero_padded};
use crate::novel_basis::{
    basis_sum, combine, layer_factor, layer_factors, lemma_basis_sum_concat,
    lemma_novel_product_top, novel_product, novel_sum, select, subspace_poly,
};
use crate::transform::{forward_outcome, forward_values};
use vstd::arithmetic::power2::{lemma2_to64, pow2};
use vstd::prelude::*;

verus! {

/// The sum of no coefficient but zeros.
proof fn lemma_novel_sum_zeros<F: Field, E: ExtensionField<F>>(
    d: Seq<E>,
    factors: spec_fn(nat) -> F,
)
    requires
        forall|q: int| 0 <= q < d.len() ==> #[trigger] d[q] == E::zero_spec(),
    ensures
        novel_sum::<F, E>(d, factors) == E::zero_spec(),
    decreases d.len(),
{
    if d.len() > 0 {
        lemma_novel_sum_zeros::<F, E>(d.drop_last(), factors);
        lemma_times_zero(E::embed(novel_product(factors, 0, d.len() - 1)));
        E::plus_zero(E::zero_spec());
        assert(d.last() == E::zero_spec());
    }
}

/// The sum of a single coefficient.
proof fn lemma_novel_sum_unit<F: Field, E: ExtensionField<F>>(
    d: Seq<E>,
    k: int,
    factors: spec_fn(nat) -> F,
)
    requires
        0 <= k < d.len(),
        forall|q: int| 0 <= q < d.len() && q != k ==> #[trigger] d[q] == E::zero_spec(),
    ensures
        novel_sum::<F, E>(d, factors) == d[k].times(E::embed(novel_product(factors, 0, k))),
    decreases d.len(),
{
    let d1 = d.drop_last();
    let t = d[k].times(E::embed(novel_product(factors, 0, k)));
    if k == d.len() - 1 {
        lemma_novel_sum_zeros::<F, E>(d1, factors);
        lemma_zero_plus(t);
    } else {
        lemma_novel_sum_unit::<F, E>(d1, k, factors);
        assert(d.last() == E::zero_spec());
        lemma_times_zero(E::embed(novel_product(factors, 0, d.len() - 1)));
        E::plus_zero(t);
    }
}

/// The value of the transform of a unit vector.
proof fn lemma_unit_value<F: BinaryField, E: ExtensionField<F>>(
    log_domain_size: nat,
    coset: u32,
    data: Seq<E>,
    values: Seq<E>,
    k: int,
    p: int,
)
    requires
        0 <= k < data.len(),
        0 <= p < data.len(),
        data[k] == E::one_spec(),
        forall|q: int| 0 <= q < data.len() && q != k ==> #[trigger] data[q] == E::zero_spec(),
        forward_outcome::<F, E>(log_domain_size, coset, data, values, Ok(())),
    ensures
        values[p] == E::embed(
            novel_product(layer_factors::<F>(coset * data.len() + p), 0, k),
        ),
{
    let factors = layer_factors::<F>(coset * data.len() + p);
    lemma_novel_sum_unit::<F, E>(data, k, factors);
    lemma_one_times(E::embed(novel_product(factors, 0, k)));
}

/// The product for a single bit is the factor of this bit.
proof fn lemma_single_factor<F: Field>(factors: spec_fn(nat) -> F, i: nat)
    ensures
        novel_product(factors, 0, pow2(i) as int) == factors(i),
{
    lemma_exp2(i);
    lemma_novel_product_top(factors, 0, i, 0);
    assert(novel_product(factors, 0, 0) == F::one_spec());
    lemma_one_times(factors(i));
}

/// The forward transform keeps sums and multiples: if `z` is `x + y * c` at every place, then its
/// transform is the transform of `x` plus `c` times the transform of `y` at every place.
pub proof fn law_forward_keeps_combinations<F: BinaryField, E: ExtensionField<F>>(
    log_domain_size: nat,
    coset: u32,
    x: Seq<E>,
    y: Seq<E>,
    z: Seq<E>,
    c: E,
    x_values: Seq<E>,
    y_values: Seq<E>,
    z_values: Seq<E>,
    p: int,
)
    requires
        x.len() == y.len() == z.len(),
        forall|q: int| 0 <= q < z.len() ==> #[trigger] z[q] == x[q].plus(y[q].times(c)),
        forward_outcome::<F, E>(log_domain_size, coset, x, x_values, Ok(())),
        forward_outcome::<F, E>(log_domain_size, coset, y, y_values, Ok(())),
        forward_outcome::<F, E>(log_domain_size, coset, z, z_values, Ok(())),
        0 <= p < z.len(),
    ensures
        z_values[p] == x_values[p].plus(y_values[p].times(c)),
{
    assert(z =~= combine(x, y, c));
    law_forward_is_linear::<F, E>(x, y, c, coset as int);
}

/// A constant polynomial has its coefficient as its value everywhere.
pub proof fn law_forward_of_constant<F: BinaryField, E: ExtensionField<F>>(
    log_domain_size: nat,
    coset: u32,
    data: Seq<E>,
    values: Seq<E>,
    p: int,
)
    requires
        forall|q: int| 0 < q < data.len() ==> #[trigger] data[q] == E::zero_spec(),
        forward_outcome::<F, E>(log_domain_size, coset, data, values, Ok(())),
        0 <= p < data.len(),
    ensures
        values[p] == data[0],
{
    let factors = layer_factors::<F>(coset * data.len() + p);
    lemma_novel_sum_unit::<F, E>(data, 0, factors);
    assert(novel_product(factors, 0, 0) == F::one_spec());
    E::embed_one();
    E::times_one(data[0]);
}

/// The coefficient with index `pow2(i) + k`, for `k` below `pow2(i)`, belongs to the product of the
/// polynomials to which the coefficients with the indices `pow2(i)` and `k` belong.
pub proof fn law_forward_multiplies<F: BinaryField, E: ExtensionField<F>>(
    log_domain_size: nat,
    coset: u32,
    i: nat,
    k: int,
    x: Seq<E>,
    y: Seq<E>,
    z: Seq<E>,
    x_values: Seq<E>,
    y_values: Seq<E>,
    z_values: Seq<E>,
    p: int,
)
    requires
        0 <= k < pow2(i),
        x.len() == y.len() == z.len(),
        pow2(i) + k < z.len(),
        forall|q: int|
            0 <= q < x.len() ==> #[trigger] x[q] == if q == pow2(i) {
                E::one_spec()
            } else {
                E::zero_spec()
            },
        forall|q: int|
            0 <= q < y.len() ==> #[trigger] y[q] == if q == k {
                E::one_spec()
            } else {
                E::zero_spec()
            },
        forall|q: int|
            0 <= q < z.len() ==> #[trigger] z[q] == if q == pow2(i) + k {
                E::one_spec()
            } else {
                E::zero_spec()
            },
        forward_outcome::<F, E>(log_domain_size, coset, x, x_values, Ok(())),
        forward_outcome::<F, E>(log_domain_size, coset, y, y_values, Ok(())),
        forward_outcome::<F, E>(log_domain_size, coset, z, z_values, Ok(())),
        0 <= p < z.len(),
    ensures
        z_values[p] == x_values[p].times(y_values[p]),
{
    let factors = layer_factors::<F>(coset * z.len() + p);
    lemma_unit_value::<F, E>(log_domain_size, coset, x, x_values, pow2(i) as int, p);
    lemma_unit_value::<F, E>(log_domain_size, coset, y, y_values, k, p);
    lemma_unit_value::<F, E>(log_domain_size, coset, z, z_values, pow2(i) + k, p);
    lemma_single_factor(factors, i);
    lemma_novel_product_top(factors, 0, i, k);
    E::embed_times(novel_product(factors, 0, k), factors(i));
    E::times_commutes(x_values[p], y_values[p]);
}

/// If the basis vectors up to `i + 1` begin a Cantor basis, then the polynomial of the coefficient
/// with index `pow2(i + 1)` is `g * g + g` for the polynomial `g` of the coefficient with index
/// `pow2(i)`.
pub proof fn law_forward_squares<F: BinaryField, E: ExtensionField<F>>(
    log_domain_size: nat,
    coset: u32,
    i: nat,
    x: Seq<E>,
    y: Seq<E>,
    x_values: Seq<E>,
    y_values: Seq<E>,
    p: int,
)
    requires
        cantor_basis_below::<F>(i + 2),
        x.len() == y.len(),
        pow2(i + 1) < y.len(),
        forall|q: int|
            0 <= q < x.len() ==> #[trigger] x[q] == if q == pow2(i) {
                E::one_spec()
            } else {
                E::zero_spec()
            },
        forall|q: int|
            0 <= q < y.len() ==> #[trigger] y[q] == if q == pow2(i + 1) {
                E::one_spec()
            } else {
                E::zero_spec()
            },
        forward_outcome::<F, E>(log_domain_size, coset, x, x_values, Ok(())),
        forward_outcome::<F, E>(log_domain_size, coset, y, y_values, Ok(())),
        0 <= p < y.len(),
    ensures
        y_values[p] == x_values[p].times(x_values[p]).plus(x_values[p]),
{
    let m = coset * y.len() + p;
    assert(0 <= m) by (nonlinear_arith)
        requires
            m == coset * y.len() + p,
            0 <= p,
    ;
    let factors = layer_factors::<F>(m);
    lemma_exp2(i);
    lemma_unit_value::<F, E>(log_domain_size, coset, x, x_values, pow2(i) as int, p);
    lemma_unit_value::<F, E>(log_domain_size, coset, y, y_values, pow2(i + 1) as int, p);
    lemma_single_factor(factors, i);
    lemma_single_factor(factors, i + 1);
    law_layer_factor_is_subspace_poly::<F>(i, m);
    law_layer_factor_is_subspace_poly::<F>(i + 1, m);
    let g = factors(i);
    E::embed_times(g, g);
    E::embed_plus(g.times(g), g);
}

/// If the first basis vector is one, then the coefficient with index one belongs to the
/// polynomial that takes every point to itself.
pub proof fn law_forward_of_identity<F: BinaryField, E: ExtensionField<F>>(
    log_domain_size: nat,
    coset: u32,
    data: Seq<E>,
    values: Seq<E>,
    p: int,
)
    requires
        F::basis_vector(0) == F::one_spec(),
        forall|q: int|
            0 <= q < data.len() ==> #[trigger] data[q] == if q == 1 {
                E::one_spec()
            } else {
                E::zero_spec()
            },
        forward_outcome::<F, E>(log_domain_size, coset, data, values, Ok(())),
        1 < data.len(),
        0 <= p < data.len(),
    ensures
        values[p] == E::embed(point::<F>(coset * data.len() + p)),
{
    let m = coset * data.len() + p;
    assert(0 <= m) by (nonlinear_arith)
        requires
            m == coset * data.len() + p,
            0 <= p,
    ;
    lemma_exp2(0);
    lemma_unit_value::<F, E>(log_domain_size, coset, data, values, 1, p);
    lemma_single_factor(layer_factors::<F>(m), 0);
    assert(cantor_basis_below::<F>(1)) by {
        assert(subspace_poly(0, F::basis_vector(0)) == F::one_spec());
    }
    law_layer_factor_is_subspace_poly::<F>(0, m);
}

/// A layer factor is additive in the bits of the index.
proof fn lemma_layer_factor_top_bit<F: BinaryField>(i: nat, b: nat, x: int)
    requires
        0 <= x < pow2(b),
    ensures
        layer_factor::<F>(i, pow2(b) + x) == layer_factor::<F>(i, x).plus(
            if b < i {
                F::zero_spec()
            } else if b == i {
                F::one_spec()
            } else {
                subspace_poly(i, F::basis_vector(b))
            },
        ),
{
    let e = exp2(b);
    lemma_exp2(b);
    lemma_exp2(i);
    F::plus_zero(F::zero_spec());
    if b < i {
        lemma_exp2_monotone(b + 1, i);
        lemma_compose(i, 0, 0, e + x);
        lemma_compose(i, 0, 0, x);
    } else if b == i {
        lemma_compose(i, 0, 1, x);
        lemma_compose(i, 0, 0, x);
        F::plus_zero(F::one_spec());
        lemma_zero_plus(F::one_spec());
    } else {
        let a = (b - i - 1) as nat;
        lemma_exp2_adds(a, i + 1);
        assert(a + (i + 1) == b);
        lemma_decompose(i, x);
        let q = x / exp2(i + 1);
        let d = if bit(x, i) { 1int } else { 0int };
        let k = x % exp2(i);
        lemma_exp2(a);
        assert(e + x == (2 * (exp2(a) + q) + d) * exp2(i) + k) by (nonlinear_arith)
            requires
                e == exp2(a) * exp2(i + 1),
                exp2(i + 1) == 2 * exp2(i),
                x == (2 * q + d) * exp2(i) + k,
        ;
        lemma_compose(i, exp2(a) + q, d, k);
        assert(q < exp2(a)) by (nonlinear_arith)
            requires
                q * exp2(i + 1) <= x < exp2(a) * exp2(i + 1),
                exp2(i + 1) > 0,
        ;
        let s = subspace_poly(i, F::basis_vector(b));
        lemma_basis_sum_concat::<F>(i, i + 1, a, 1, q);
        assert(i + 1 + a == b);
        assert(basis_sum::<F>(i, b, 1) == s) by {
            assert(basis_sum::<F>(i, b + 1, 0) == F::zero_spec());
            F::plus_zero(s);
        }
        F::plus_associates(select(bit(x, i), F::one_spec()), basis_sum::<F>(i, i + 1, q), s);
    }
}

/// On any basis, the polynomial of the coefficient with index `pow2(i)` is zero at the first point,
/// and setting bit `b` in the index of a point adds nothing to its value if `b` is below `i`, one
/// if `b` is `i`, and `s_i` at basis vector `b` if `b` is above `i`.
pub proof fn law_forward_adds_basis_vectors<F: BinaryField, E: ExtensionField<F>>(
    log_domain_size: nat,
    i: nat,
    b: nat,
    data: Seq<E>,
    values: Seq<E>,
    p: int,
)
    requires
        pow2(i) < data.len(),
        0 <= p < pow2(b),
        pow2(b) + p < data.len(),
        forall|q: int|
            0 <= q < data.len() ==> #[trigger] data[q] == if q == pow2(i) {
                E::one_spec()
            } else {
                E::zero_spec()
            },
        forward_outcome::<F, E>(log_domain_size, 0, data, values, Ok(())),
    ensures
        values[0] == E::zero_spec(),
        values[pow2(b) + p] == values[p].plus(
            if b < i {
                E::zero_spec()
            } else if b == i {
                E::one_spec()
            } else {
                E::embed(subspace_poly(i, F::basis_vector(b)))
            },
        ),
{
    let m = pow2(b) + p;
    lemma_exp2(i);
    assert(0 * data.len() == 0) by (nonlinear_arith);
    lemma_unit_value::<F, E>(log_domain_size, 0, data, values, pow2(i) as int, 0);
    lemma_unit_value::<F, E>(log_domain_size, 0, data, values, pow2(i) as int, p);
    lemma_unit_value::<F, E>(log_domain_size, 0, data, values, pow2(i) as int, m);
    lemma_single_factor(layer_factors::<F>(0), i);
    lemma_single_factor(layer_factors::<F>(p), i);
    lemma_single_factor(layer_factors::<F>(m), i);
    lemma_layer_factor_top_bit::<F>(i, b, p);
    // The embedding keeps zero.
    F::plus_zero(F::zero_spec());
    E::embed_plus(F::zero_spec(), F::zero_spec());
    lemma_plus_cancels(E::embed(F::zero_spec()), E::embed(F::zero_spec()));
    E::plus_self(E::embed(F::zero_spec()));
    E::embed_one();
    lemma_compose(i, 0, 0, 0);
    assert(layer_factor::<F>(i, 0) == F::zero_spec());
    E::embed_plus(
        layer_factor::<F>(i, p),
        if b < i {
            F::zero_spec()
        } else if b == i {
            F::one_spec()
        } else {
            subspace_poly(i, F::basis_vector(b))
        },
    );
}

/// The transform on a coset of a sequence that is continued with zeros to `n` times its length
/// consists of the transforms of the sequence on `n` cosets.
pub proof fn law_forward_on_cosets<F: BinaryField, E: ExtensionField<F>>(
    wide_log_domain_size: nat,
    log_domain_size: nat,
    wide_coset: u32,
    coset: u32,
    n: nat,
    wide: Seq<E>,
    data: Seq<E>,
    wide_values: Seq<E>,
    values: Seq<E>,
    i: int,
    p: int,
)
    requires
        0 <= i < n,
        0 <= p < data.len(),
        coset == wide_coset * n + i,
        wide.len() == n * data.len(),
        forall|q: int|
            0 <= q < wide.len() ==> #[trigger] wide[q] == if q < data.len() {
                data[q]
            } else {
                E::zero_spec()
            },
        forward_outcome::<F, E>(wide_log_domain_size, wide_coset, wide, wide_values, Ok(())),
        forward_outcome::<F, E>(log_domain_size, coset, data, values, Ok(())),
    ensures
        0 <= i * data.len() + p < wide_values.len(),
        wide_values[i * data.len() + p] == values[p],
{
    let len = data.len();
    assert(wide =~= zero_padded(data, n * len));
    law_cosets_make_up_domain::<F, E>(data, n, wide_coset as int, i);
    assert(0 <= i * len && (i + 1) * len == i * len + len && (i + 1) * len <= n * len)
        by (nonlinear_arith)
        requires
            0 <= i < n,
            0 <= len,
    ;
    let part = forward_values::<F, E>(wide, wide_coset as int).subrange(i * len, (i + 1) * len);
    assert(part[p] == wide_values[i * len + p]);
}

/// The first subspace polynomial takes every element to itself, and the others follow from the one
/// before by `y * y + y`.
pub proof fn law_subspace_poly_steps<F: Field>(i: nat, x: F)
    ensures
        subspace_poly(0, x) == x,
        subspace_poly(i + 1, x) == subspace_poly(i, x).times(subspace_poly(i, x)).plus(
            subspace_poly(i, x),
        ),
{
}

/// The first point is zero, and setting bit `b` in the index of a point adds basis vector `b`.
pub proof fn law_points<F: BinaryField>(b: nat, x: int)
    requires
        0 <= x < pow2(b),
    ensures
        point::<F>(0) == F::zero_spec(),
        point::<F>(pow2(b) + x) == point::<F>(x).plus(F::basis_vector(b)),
{
    lemma_exp2(b);
    lemma_basis_sum_concat::<F>(0, 0, b, 1, x);
    assert(basis_sum::<F>(0, b, 1) == F::basis_vector(b)) by {
        assert(basis_sum::<F>(0, b + 1, 0) == F::zero_spec());
        F::plus_zero(F::basis_vector(b));
    }
}

/// The coefficient with index one belongs to the polynomial that takes every point to itself: in a
/// forward transform of elements of `BinaryField8b` on a domain in `BinaryField8b`, it leaves the
/// element with the number `coset * len + p` at place `p`.
pub proof fn law_forward_of_identity_8b(
    log_domain_size: nat,
    coset: u32,
    data: Seq<BinaryField8b>,
    values: Seq<BinaryField8b>,
    p: int,
)
    requires
        log_domain_size <= 8,
        exists|k: nat| data.len() == #[trigger] pow2(k),
        forall|q: int|
            0 <= q < data.len() ==> (#[trigger] data[q]).0 == if q == 1 {
                1u8
            } else {
                0u8
            },
        forward_outcome::<BinaryField8b, BinaryField8b>(
            log_domain_size,
            coset,
            data,
            values,
            Ok(()),
        ),
        1 < data.len() <= usize::MAX,
        0 <= p < data.len(),
    ensures
        values[p].0 == coset * data.len() + p,
{
    let m = coset * data.len() + p;
    law_forward_success::<BinaryField8b, BinaryField8b>(
        log_domain_size,
        coset,
        data,
        values,
        Ok(()),
    );
    lemma_exp2_monotone(log_domain_size, 8);
    assert(0 <= m < (coset + 1) * data.len()) by (nonlinear_arith)
        requires
            m == coset * data.len() + p,
            0 <= p < data.len(),
    ;
    law_points_8b(m);
    law_basis_8b(0);
    lemma2_to64();
    law_forward_of_identity::<BinaryField8b, BinaryField8b>(
        log_domain_size,
        coset,
        data,
        values,
        p,
    );
}

/// The coefficient with index one belongs to the polynomial that takes every point to itself: in a
/// forward transform of elements of `BinaryField32b` on a domain in `BinaryField8b`, it leaves the
/// element with the number `coset * len + p` at place `p`.
pub proof fn law_forward_of_identity_32b_over_8b(
    log_domain_size: nat,
    coset: u32,
    data: Seq<BinaryField32b>,
    values: Seq<BinaryField32b>,
    p: int,
)
    requires
        log_domain_size <= 8,
        exists|k: nat| data.len() == #[trigger] pow2(k),
        forall|q: int|
            0 <= q < data.len() ==> (#[trigger] data[q]).0 == if q == 1 {
                1u32
            } else {
                0u32
            },
        forward_outcome::<BinaryField8b, BinaryField32b>(
            log_domain_size,
            coset,
            data,
            values,
            Ok(()),
        ),
        1 < data.len() <= usize::MAX,
        0 <= p < data.len(),
    ensures
        values[p].0 == coset * data.len() + p,
{
    let m = coset * data.len() + p;
    law_forward_success::<BinaryField8b, BinaryField32b>(
        log_domain_size,
        coset,
        data,
        values,
        Ok(()),
    );
    lemma_exp2_monotone(log_domain_size, 8);
    assert(0 <= m < (coset + 1) * data.len()) by (nonlinear_arith)
        requires
            m == coset * data.len() + p,
            0 <= p < data.len(),
    ;
    law_points_8b(m);
    law_basis_8b(0);
    lemma2_to64();
    law_forward_of_identity::<BinaryField8b, BinaryField32b>(
        log_domain_size,
        coset,
        data,
        values,
        p,
    );
}

/// The coefficient with index one belongs to the polynomial that takes every point to itself: in a
/// forward transform of elements of `BinaryField32b` on a domain in `BinaryField32b`, it leaves the
/// element with the number `coset * len + p` at place `p`.
pub proof fn law_forward_of_identity_32b(
    log_domain_size: nat,
    coset: u32,
    data: Seq<BinaryField32b>,
    values: Seq<BinaryField32b>,
    p: int,
)
    requires
        log_domain_size <= 32,
        exists|k: nat| data.len() == #[trigger] pow2(k),
        forall|q: int|
            0 <= q < data.len() ==> (#[trigger] data[q]).0 == if q == 1 {
                1u32
            } else {
                0u32
            },
        forward_outcome::<BinaryField32b, BinaryField32b>(
            log_domain_size,
            coset,
            data,
            values,
            Ok(()),
        ),
        1 < data.len() <= usize::MAX,
        0 <= p < data.len(),
    ensures
        values[p].0 == coset * data.len() + p,
{
    let m = coset * data.len() + p;
    law_forward_success::<BinaryField32b, BinaryField32b>(
        log_domain_size,
        coset,
        data,
        values,
        Ok(()),
    );
    lemma_exp2_monotone(log_domain_size, 32);
    assert(0 <= m < (coset + 1) * data.len()) by (nonlinear_arith)
        requires
            m == coset * data.len() + p,
            0 <= p < data.len(),
    ;
    law_points_32b(m);
    law_basis_32b(0);
    lemma2_to64();
    law_forward_of_identity::<BinaryField32b, BinaryField32b>(
        log_domain_size,
        coset,
        data,
        values,
        p,
    );
}

} // verus!
