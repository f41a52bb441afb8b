//! Cantor bases: with such a basis, the forward transform evaluates a polynomial at the points of
//! a coset.
use crate::binary_field::{lemma_shl_32b, lemma_shl_8b, BinaryField32b, BinaryField8b};
use crate::field::{
    lemma_no_zero_divisors, lemma_one_times, lemma_plus_cancels, lemma_times_zero, lemma_zero_plus,
    BinaryField, ExtensionField, Field,
};
use crate::index::{
    bit, bit_length, exp2, law_bit_length, lemma_decompose, lemma_exp2, lemma_exp2_monotone, log2,
    power_of_two,
};
use crate::novel_basis::{
    basis_sum, law_subspace_poly_additive, layer_factor, layer_factors, lemma_basis_sum_concat,
    novel_product, novel_sum, select, subspace_poly,
};
use crate::tower::{
    lemma_shl_one, lemma_times_element, lemma_tower_map_iterated, lemma_xor_above,
    tower_map_iterated,
};
use crate::transform::{forward_outcome, inverse_outcome};
use vstd::arithmetic::div_mod::{lemma_fundamental_div_mod, lemma_fundamental_div_mod_converse};
use vstd::arithmetic::power2::pow2;
use vstd::prelude::*;

verus! {

/// Whether the first `n` basis vectors of a field begin a Cantor basis: `s_i` is one at basis
/// vector `i`.
pub open spec fn cantor_basis_below<F: BinaryField>(n: nat) -> bool {
    forall|i: nat| #![trigger F::basis_vector(i)]
        i < n ==> subspace_poly(i, F::basis_vector(i)) == F::one_spec()
}

/// Whether the basis of a field is a Cantor basis.
pub open spec fn cantor_basis<F: BinaryField>() -> bool {
    cantor_basis_below::<F>(F::n_bits_spec() as nat)
}

/// The evaluation point with index `m`: the sum of the basis vectors that the bits of `m` select.
pub open spec fn point<F: BinaryField>(m: int) -> F {
    basis_sum(0, 0, m)
}

/// The values of all subspace polynomials at `x`.
pub open spec fn subspace_polys<F: Field>(x: F) -> spec_fn(nat) -> F {
    |i: nat| subspace_poly(i, x)
}

/// Subspace polynomials vanish at zero.
proof fn lemma_subspace_poly_zero<F: Field>(i: nat)
    ensures
        subspace_poly(i, F::zero_spec()) == F::zero_spec(),
    decreases i,
{
    if i > 0 {
        lemma_subspace_poly_zero::<F>((i - 1) as nat);
        lemma_times_zero(F::zero_spec());
        F::plus_zero(F::zero_spec());
    }
}

/// If the first `i` basis vectors begin a Cantor basis, then `s_i` vanishes at them.
proof fn lemma_subspace_poly_vanishes<F: BinaryField>(i: nat, b: nat)
    requires
        cantor_basis_below::<F>(i),
        b < i,
    ensures
        subspace_poly(i, F::basis_vector(b)) == F::zero_spec(),
    decreases i,
{
    let j = (i - 1) as nat;
    if b == j {
        F::times_one(F::one_spec());
        F::plus_self(F::one_spec());
    } else {
        lemma_subspace_poly_vanishes::<F>(j, b);
        lemma_times_zero(F::zero_spec());
        F::plus_zero(F::zero_spec());
    }
}

/// A subspace polynomial at a sum of basis vectors.
proof fn lemma_subspace_poly_point<F: BinaryField>(i: nat, b: nat, x: int)
    ensures
        subspace_poly(i, basis_sum::<F>(0, b, x)) == basis_sum::<F>(i, b, x),
    decreases x,
{
    lemma_subspace_poly_zero::<F>(i);
    if x > 0 {
        lemma_subspace_poly_point::<F>(i, b + 1, x / 2);
        law_subspace_poly_additive(
            i,
            select(x % 2 == 1, F::basis_vector(b)),
            basis_sum::<F>(0, b + 1, x / 2),
        );
    }
}

/// If the first `i` basis vectors begin a Cantor basis, then the bits below `i` contribute nothing
/// to a sum of values of `s_i`.
proof fn lemma_basis_sum_vanishes<F: BinaryField>(i: nat, b: nat, x: int)
    requires
        cantor_basis_below::<F>(i),
        b <= i,
        0 <= x < exp2((i - b) as nat),
    ensures
        basis_sum::<F>(i, b, x) == F::zero_spec(),
    decreases i - b,
{
    lemma_exp2(0);
    if x > 0 {
        lemma_exp2((i - b - 1) as nat);
        lemma_basis_sum_vanishes::<F>(i, b + 1, x / 2);
        lemma_subspace_poly_vanishes::<F>(i, b);
        F::plus_zero(F::zero_spec());
    }
}

/// If the basis vectors up to `i` begin a Cantor basis, then the factor of layer `i` is the
/// subspace polynomial `s_i` at the evaluation point.
pub proof fn law_layer_factor_is_subspace_poly<F: BinaryField>(i: nat, m: int)
    requires
        cantor_basis_below::<F>(i + 1),
        0 <= m,
    ensures
        layer_factor::<F>(i, m) == subspace_poly(i, point::<F>(m)),
{
    lemma_subspace_poly_point::<F>(i, 0, m);
    lemma_exp2(i);
    lemma_decompose(i, m);
    let hi = m / exp2(i);
    let lo = m % exp2(i);
    lemma_fundamental_div_mod(m, exp2(i));
    assert(m == hi * exp2(i) + lo) by (nonlinear_arith)
        requires
            m == exp2(i) * hi + lo,
    ;
    lemma_basis_sum_concat::<F>(i, 0, i, hi, lo);
    lemma_basis_sum_vanishes::<F>(i, 0, lo);
    lemma_zero_plus(basis_sum::<F>(i, i, hi));
    assert(subspace_poly(i, F::basis_vector(i)) == F::one_spec());
    F::plus_zero(F::zero_spec());
}

/// Two products agree if their factors do.
proof fn lemma_novel_product_agrees<F: Field>(
    f: spec_fn(nat) -> F,
    g: spec_fn(nat) -> F,
    i: nat,
    r: nat,
    k: int,
)
    requires
        i <= r,
        0 <= k < exp2((r - i) as nat),
        forall|l: nat| l < r ==> #[trigger] f(l) == g(l),
    ensures
        novel_product(f, i, k) == novel_product(g, i, k),
    decreases r - i,
{
    lemma_exp2(0);
    if k > 0 {
        lemma_exp2((r - i - 1) as nat);
        lemma_novel_product_agrees(f, g, i + 1, r, k / 2);
        assert(f(i) == g(i));
    }
}

/// The values of a polynomial agree if the factors do.
proof fn lemma_novel_sum_agrees<F: Field, E: ExtensionField<F>>(
    d: Seq<E>,
    f: spec_fn(nat) -> F,
    g: spec_fn(nat) -> F,
    r: nat,
)
    requires
        d.len() <= exp2(r),
        forall|l: nat| l < r ==> #[trigger] f(l) == g(l),
    ensures
        novel_sum::<F, E>(d, f) == novel_sum::<F, E>(d, g),
    decreases d.len(),
{
    if d.len() > 0 {
        lemma_novel_sum_agrees::<F, E>(d.drop_last(), f, g, r);
        lemma_novel_product_agrees(f, g, 0, r, d.len() - 1);
    }
}

/// If the first basis vectors, one for each bit of a position, begin a Cantor basis, then the
/// forward transform turns the coefficients of a polynomial in the novel basis into its
/// coefficients in the Lagrange basis: its values at the points of the coset.
pub proof fn law_forward_evaluates<F: BinaryField, E: ExtensionField<F>>(
    log_domain_size: nat,
    coset: u32,
    data: Seq<E>,
    values: Seq<E>,
    p: int,
)
    requires
        cantor_basis_below::<F>(log2(data.len() as int)),
        power_of_two(data.len() as int),
        forward_outcome::<F, E>(log_domain_size, coset, data, values, Ok(())),
        0 <= p < data.len(),
    ensures
        values[p] == novel_sum::<F, E>(data, subspace_polys(point::<F>(coset * data.len() + p))),
{
    let m = coset * data.len() + p;
    let r = log2(data.len() as int);
    assert(0 <= m) by (nonlinear_arith)
        requires
            m == coset * data.len() + p,
            0 <= p,
    ;
    let f = layer_factors::<F>(m);
    let g = subspace_polys::<F>(point::<F>(m));
    assert forall|l: nat| l < r implies #[trigger] f(l) == g(l) by {
        law_layer_factor_is_subspace_poly::<F>(l, m);
    }
    lemma_novel_sum_agrees::<F, E>(data, f, g, r);
}

/// If the first basis vectors, one for each bit of a position, begin a Cantor basis, then the
/// inverse transform turns the values of a polynomial at the points of a coset into its
/// coefficients in the novel basis.
pub proof fn law_inverse_interpolates<F: BinaryField, E: ExtensionField<F>>(
    log_domain_size: nat,
    coset: u32,
    data: Seq<E>,
    coefficients: Seq<E>,
    p: int,
)
    requires
        cantor_basis_below::<F>(log2(data.len() as int)),
        power_of_two(data.len() as int),
        inverse_outcome::<F, E>(log_domain_size, coset, data, coefficients, Ok(())),
        0 <= p < data.len(),
    ensures
        data[p] == novel_sum::<F, E>(
            coefficients,
            subspace_polys(point::<F>(coset * data.len() + p)),
        ),
{
    law_forward_evaluates::<F, E>(log_domain_size, coset, coefficients, data, p);
}

/// If the first `k` basis vectors begin a Cantor basis, then points with different indices below
/// `exp2(k)` are different.
pub proof fn law_points_are_distinct<F: BinaryField>(k: nat, m: int, n: int)
    requires
        cantor_basis_below::<F>(k),
        0 <= m < exp2(k),
        0 <= n < exp2(k),
        point::<F>(m) == point::<F>(n),
    ensures
        m == n,
{
    lemma_exp2(k);
    lemma_fundamental_div_mod_converse(m, exp2(k), 0, m);
    lemma_fundamental_div_mod_converse(n, exp2(k), 0, n);
    lemma_same_point_same_bits::<F>(k, m, n, 0);
    lemma_exp2(0);
}

/// The bits from `j` on of two indices of the same point agree.
proof fn lemma_same_point_same_bits<F: BinaryField>(k: nat, m: int, n: int, j: nat)
    requires
        cantor_basis_below::<F>(k),
        0 <= m,
        0 <= n,
        j <= k,
        m / exp2(k) == n / exp2(k),
        point::<F>(m) == point::<F>(n),
    ensures
        m / exp2(j) == n / exp2(j),
    decreases k - j,
{
    if j < k {
        lemma_same_point_same_bits::<F>(k, m, n, j + 1);
        law_layer_factor_is_subspace_poly::<F>(j, m);
        law_layer_factor_is_subspace_poly::<F>(j, n);
        lemma_decompose(j, m);
        lemma_decompose(j, n);
        let rest = basis_sum::<F>(j, j + 1, m / exp2(j + 1));
        lemma_plus_cancels(select(bit(m, j), F::one_spec()), rest);
        lemma_plus_cancels(select(bit(n, j), F::one_spec()), rest);
        F::one_is_not_zero();
    }
}

/// The product of `x + point(a)` over the indices `a` below `n`.
pub open spec fn point_product<F: BinaryField>(x: F, n: nat) -> F
    decreases n,
{
    if n == 0 {
        F::one_spec()
    } else {
        point_product(x, (n - 1) as nat).times(x.plus(point((n - 1) as int)))
    }
}

/// A product over the first `exp2(i) + n` points is the product over the first `exp2(i)` points
/// times the product over `n` points that is moved by basis vector `i`.
proof fn lemma_point_product_splits<F: BinaryField>(x: F, i: nat, n: nat)
    requires
        n <= exp2(i),
    ensures
        point_product(x, exp2(i) as nat + n) == point_product(x, exp2(i) as nat).times(
            point_product(x.plus(F::basis_vector(i)), n),
        ),
    decreases n,
{
    let e = exp2(i) as nat;
    let b = F::basis_vector(i);
    lemma_exp2(i);
    if n == 0 {
        F::times_one(point_product(x, e));
    } else {
        let a = (n - 1) as nat;
        lemma_point_product_splits(x, i, a);
        // point(e + a) == point(a) + b
        lemma_basis_sum_concat::<F>(0, 0, i, 1, a as int);
        assert(basis_sum::<F>(0, i, 1) == b) by {
            assert(basis_sum::<F>(0, i + 1, 0) == F::zero_spec());
            F::plus_zero(b);
        }
        F::plus_commutes(point(a as int), b);
        F::plus_associates(x, b, point(a as int));
        F::times_associates(
            point_product(x, e),
            point_product(x.plus(b), a),
            x.plus(b).plus(point(a as int)),
        );
        assert((e + n - 1) as nat == e + a);
    }
}

/// If the first `i` basis vectors begin a Cantor basis, then `s_i` is the subspace polynomial of
/// the space that they span: the product of `x + point(a)` over the `exp2(i)` points of the space.
pub proof fn law_subspace_poly_is_product<F: BinaryField>(i: nat, x: F)
    requires
        cantor_basis_below::<F>(i),
    ensures
        subspace_poly(i, x) == point_product(x, exp2(i) as nat),
    decreases i,
{
    lemma_exp2(0);
    if i == 0 {
        assert(point_product(x, 0) == F::one_spec());
        lemma_one_times(x.plus(point(0)));
        F::plus_zero(x);
    } else {
        let j = (i - 1) as nat;
        let b = F::basis_vector(j);
        lemma_exp2(j);
        law_subspace_poly_is_product(j, x);
        law_subspace_poly_is_product(j, x.plus(b));
        lemma_point_product_splits(x, j, exp2(j) as nat);
        // s_j(x) * s_j(x + b) == s_j(x) * (s_j(x) + 1)
        law_subspace_poly_additive(j, x, b);
        let y = subspace_poly(j, x);
        F::times_distributes(y, y, F::one_spec());
        F::times_one(y);
        assert(exp2(j) as nat + exp2(j) as nat == exp2(i) as nat);
    }
}

/// A product over points is zero if and only if `x` is one of the points.
proof fn lemma_point_product_zero<F: BinaryField>(x: F, n: nat)
    ensures
        point_product(x, n) == F::zero_spec() <==> exists|a: int|
            0 <= a < n && x == #[trigger] point::<F>(a),
    decreases n,
{
    F::one_is_not_zero();
    if n > 0 {
        let a = n - 1;
        let p = point_product(x, a as nat);
        let d = x.plus(point(a));
        lemma_point_product_zero(x, a as nat);
        lemma_times_zero(p);
        lemma_times_zero(d);
        F::plus_self(x);
        lemma_plus_cancels(x, point(a));
        lemma_zero_plus(point::<F>(a));
        if point_product(x, n) == F::zero_spec() {
            lemma_no_zero_divisors(p, d);
        }
    }
}

/// If the first `i` basis vectors begin a Cantor basis, then `s_i` vanishes at the points of the
/// space that they span, and nowhere else.
pub proof fn law_subspace_poly_roots<F: BinaryField>(i: nat, x: F)
    requires
        cantor_basis_below::<F>(i),
    ensures
        subspace_poly(i, x) == F::zero_spec() <==> exists|a: int|
            0 <= a < exp2(i) && x == #[trigger] point::<F>(a),
{
    lemma_exp2(i);
    law_subspace_poly_is_product(i, x);
    lemma_point_product_zero(x, exp2(i) as nat);
}

/// The subspace polynomials of `BinaryField8b` in terms of its numbers.
proof fn lemma_subspace_poly_8b(k: nat, x: BinaryField8b)
    ensures
        subspace_poly(k, x).0 == tower_map_iterated(8, k, x.0 as u64),
    decreases k,
{
    if k > 0 {
        let y = subspace_poly((k - 1) as nat, x);
        lemma_subspace_poly_8b((k - 1) as nat, x);
        lemma_shl_one(8);
        lemma_times_element(8, y.0 as u64, y.0 as u64);
    }
}

/// The basis of `BinaryField8b` is a Cantor basis.
pub proof fn law_cantor_basis_8b()
    ensures
        cantor_basis::<BinaryField8b>(),
{
    assert forall|i: nat| #![trigger BinaryField8b::basis_vector(i)] i
        < BinaryField8b::n_bits_spec() implies subspace_poly(i, BinaryField8b::basis_vector(i))
        == BinaryField8b::one_spec() by {
        let j = i as u64;
        lemma_shl_8b(j);
        lemma_subspace_poly_8b(i, BinaryField8b::basis_vector(i));
        lemma_tower_map_iterated(8, i, j);
    }
}

/// The subspace polynomials of `BinaryField32b` in terms of its numbers.
proof fn lemma_subspace_poly_32b(k: nat, x: BinaryField32b)
    ensures
        subspace_poly(k, x).0 == tower_map_iterated(32, k, x.0 as u64),
    decreases k,
{
    if k > 0 {
        let y = subspace_poly((k - 1) as nat, x);
        lemma_subspace_poly_32b((k - 1) as nat, x);
        lemma_shl_one(32);
        lemma_times_element(32, y.0 as u64, y.0 as u64);
    }
}

/// The basis of `BinaryField32b` is a Cantor basis.
pub proof fn law_cantor_basis_32b()
    ensures
        cantor_basis::<BinaryField32b>(),
{
    assert forall|i: nat| #![trigger BinaryField32b::basis_vector(i)] i
        < BinaryField32b::n_bits_spec() implies subspace_poly(i, BinaryField32b::basis_vector(i))
        == BinaryField32b::one_spec() by {
        let j = i as u64;
        lemma_shl_32b(j);
        lemma_subspace_poly_32b(i, BinaryField32b::basis_vector(i));
        lemma_tower_map_iterated(32, i, j);
    }
}

/// The point of `BinaryField8b` with index `m` is the element with the number `m`.
pub proof fn law_points_8b(m: int)
    requires
        0 <= m < pow2(8),
    ensures
        point::<BinaryField8b>(m).0 == m,
    decreases m,
{
    if m > 0 {
        law_bit_length(m);
        let b = (bit_length(m) - 1) as nat;
        if b >= 8 {
            lemma_exp2_monotone(8, b);
        }
        let x = m - exp2(b);
        lemma_exp2(b);
        law_points_8b(x);
        lemma_basis_sum_concat::<BinaryField8b>(0, 0, b, 1, x);
        let v = BinaryField8b::basis_vector(b);
        assert(basis_sum::<BinaryField8b>(0, b, 1) == v) by {
            assert(basis_sum::<BinaryField8b>(0, b + 1, 0) == BinaryField8b::zero_spec());
            BinaryField8b::plus_zero(v);
        }
        lemma_shl_8b(b as u64);
        lemma_xor_above(x as u64, b as u64);
    }
}

/// The point of `BinaryField32b` with index `m` is the element with the number `m`.
pub proof fn law_points_32b(m: int)
    requires
        0 <= m < pow2(32),
    ensures
        point::<BinaryField32b>(m).0 == m,
    decreases m,
{
    if m > 0 {
        law_bit_length(m);
        let b = (bit_length(m) - 1) as nat;
        if b >= 32 {
            lemma_exp2_monotone(32, b);
        }
        let x = m - exp2(b);
        lemma_exp2(b);
        law_points_32b(x);
        lemma_basis_sum_concat::<BinaryField32b>(0, 0, b, 1, x);
        let v = BinaryField32b::basis_vector(b);
        assert(basis_sum::<BinaryField32b>(0, b, 1) == v) by {
            assert(basis_sum::<BinaryField32b>(0, b + 1, 0) == BinaryField32b::zero_spec());
            BinaryField32b::plus_zero(v);
        }
        lemma_shl_32b(b as u64);
        lemma_xor_above(x as u64, b as u64);
    }
}

} // verus!
