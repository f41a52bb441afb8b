//! Subspace polynomials, and polynomials in the novel basis that is made of them.
//!
//! The subspace map is `x^2 + x`, and the subspace polynomial `s_i` applies it `i` times. The
//! novel basis polynomial with index `k` is the product of the `s_i` over the bits `i` that are set
//! in `k`.
use crate::field::{
    lemma_distributes_left, lemma_no_zero_divisors, lemma_one_times, lemma_plus_cancels,
    lemma_plus_regroup, lemma_times_zero, lemma_zero_plus, BinaryField, ExtensionField, Field,
};
use crate::index::{bit, exp2, lemma_exp2};
use vstd::prelude::*;

verus! {

/// The map `x^2 + x`.
pub open spec fn subspace_map<F: Field>(x: F) -> F {
    x.times(x).plus(x)
}

/// The subspace polynomial `s_i` at `x`: the subspace map, applied `i` times.
pub open spec fn subspace_poly<F: Field>(i: nat, x: F) -> F
    decreases i,
{
    if i == 0 {
        x
    } else {
        subspace_map(subspace_poly((i - 1) as nat, x))
    }
}

/// `x` if the condition holds, and zero otherwise.
pub open spec fn select<F: Field>(c: bool, x: F) -> F {
    if c {
        x
    } else {
        F::zero_spec()
    }
}

/// The sum of `s_i` at the basis vectors with the indices `b`, `b + 1`, ... that the bits of `x`
/// select.
pub open spec fn basis_sum<F: BinaryField>(i: nat, b: nat, x: int) -> F
    decreases x,
{
    if x <= 0 {
        F::zero_spec()
    } else {
        select(x % 2 == 1, subspace_poly(i, F::basis_vector(b))).plus(
            basis_sum(i, b + 1, x / 2),
        )
    }
}

/// The factor of layer `i` at the evaluation point with index `m`.
///
/// It is the sum over the bits of `m` from bit `i` on, where bit `i` counts one and every bit
/// `b` above it counts `s_i` at basis vector `b`.
pub open spec fn layer_factor<F: BinaryField>(i: nat, m: int) -> F {
    select(bit(m, i), F::one_spec()).plus(basis_sum(i, i + 1, m / exp2(i + 1)))
}

/// The factors of all layers at the evaluation point with index `m`.
pub open spec fn layer_factors<F: BinaryField>(m: int) -> spec_fn(nat) -> F {
    |i: nat| layer_factor::<F>(i, m)
}

/// The product of the factors `i`, `i + 1`, ... that the bits of `k` select.
pub open spec fn novel_product<F: Field>(factors: spec_fn(nat) -> F, i: nat, k: int) -> F
    decreases k,
{
    if k <= 0 {
        F::one_spec()
    } else if k % 2 == 1 {
        factors(i).times(novel_product(factors, i + 1, k / 2))
    } else {
        novel_product(factors, i + 1, k / 2)
    }
}

/// The sum over `k` of the coefficient `d[k]` times the product of the factors that the bits of
/// `k` select: the value of the polynomial with the novel basis coefficients `d` where the subspace
/// polynomials have the factors as their values.
pub open spec fn novel_sum<F: Field, E: ExtensionField<F>>(
    d: Seq<E>,
    factors: spec_fn(nat) -> F,
) -> E
    decreases d.len(),
{
    if d.len() == 0 {
        E::zero_spec()
    } else {
        novel_sum(d.drop_last(), factors).plus(
            d.last().times(E::embed(novel_product(factors, 0, d.len() - 1))),
        )
    }
}

/// The sequence `x + y * c`.
pub open spec fn combine<E: Field>(x: Seq<E>, y: Seq<E>, c: E) -> Seq<E> {
    Seq::new(x.len(), |p: int| x[p].plus(y[p].times(c)))
}

/// The subspace map is additive.
pub proof fn law_subspace_map_additive<F: Field>(x: F, y: F)
    ensures
        subspace_map(x.plus(y)) == subspace_map(x).plus(subspace_map(y)),
{
    let (xx, xy, yy) = (x.times(x), x.times(y), y.times(y));
    // (x + y) * (x + y) == (xx + xy) + (xy + yy) == xx + yy
    F::times_distributes(x.plus(y), x, y);
    lemma_distributes_left(x, y, x);
    lemma_distributes_left(x, y, y);
    F::times_commutes(y, x);
    F::plus_associates(xx.plus(xy), xy, yy);
    lemma_plus_cancels(xx, xy);
    lemma_plus_regroup(xx, yy, x, y);
}

/// The subspace map takes two elements to the same image if and only if they differ by zero or one.
pub proof fn law_subspace_map_kernel<F: Field>(x: F, y: F)
    ensures
        subspace_map(x) == subspace_map(y) <==> (y == x || y == x.plus(F::one_spec())),
{
    let one = F::one_spec();
    let d = x.plus(y);
    law_subspace_map_additive(x, y);
    F::plus_commutes(x, y);
    lemma_plus_cancels(y, x);
    if subspace_map(x) == subspace_map(y) {
        // d * (d + 1) == 0
        F::plus_self(subspace_map(x));
        F::times_distributes(d, d, one);
        F::times_one(d);
        lemma_no_zero_divisors(d, d.plus(one));
        if d == F::zero_spec() {
            F::plus_zero(x);
        } else {
            lemma_plus_cancels(d, one);
            lemma_zero_plus(one);
        }
    }
    law_subspace_map_additive(x, one);
    F::times_one(one);
    F::plus_self(one);
    F::plus_zero(subspace_map(x));
}

/// Subspace polynomials are additive.
pub proof fn law_subspace_poly_additive<F: Field>(i: nat, x: F, y: F)
    ensures
        subspace_poly(i, x.plus(y)) == subspace_poly(i, x).plus(subspace_poly(i, y)),
    decreases i,
{
    if i > 0 {
        let j = (i - 1) as nat;
        law_subspace_poly_additive(j, x, y);
        law_subspace_map_additive(subspace_poly(j, x), subspace_poly(j, y));
    }
}

/// The bits below `a` and the bits from `a` on contribute separately to a basis sum.
pub proof fn lemma_basis_sum_concat<F: BinaryField>(i: nat, b: nat, a: nat, hi: int, lo: int)
    requires
        0 <= hi,
        0 <= lo < exp2(a),
    ensures
        basis_sum::<F>(i, b, hi * exp2(a) + lo) == basis_sum::<F>(i, b, lo).plus(
            basis_sum(i, b + a, hi),
        ),
    decreases a,
{
    lemma_exp2(a);
    let x = hi * exp2(a) + lo;
    if a == 0 {
        lemma_zero_plus(basis_sum::<F>(i, b, hi));
        assert(x == hi);
    } else {
        let a1 = (a - 1) as nat;
        lemma_exp2(a1);
        assert(x == 2 * (hi * exp2(a1)) + lo) by (nonlinear_arith)
            requires
                x == hi * exp2(a) + lo,
                exp2(a) == 2 * exp2(a1),
        ;
        assert(0 <= hi * exp2(a1)) by (nonlinear_arith)
            requires
                0 <= hi,
                0 < exp2(a1),
        ;
        lemma_basis_sum_concat::<F>(i, b + 1, a1, hi, lo / 2);
        let s = select(lo % 2 == 1, subspace_poly(i, F::basis_vector(b)));
        let l = basis_sum::<F>(i, b + 1, lo / 2);
        let h = basis_sum::<F>(i, b + a, hi);
        assert(b + 1 + a1 == b + a);
        F::plus_zero(F::zero_spec());
        if x > 0 {
            assert(x / 2 == hi * exp2(a1) + lo / 2);
            assert(x % 2 == lo % 2);
            F::plus_associates(s, l, h);
        } else {
            assert(hi == 0) by (nonlinear_arith)
                requires
                    hi * exp2(a1) == 0,
                    0 < exp2(a1),
            ;
        }
    }
}

/// The factor of bit `r` splits off a product over a number whose highest bit it is.
pub proof fn lemma_novel_product_top<F: Field>(
    factors: spec_fn(nat) -> F,
    i: nat,
    r: nat,
    k: int,
)
    requires
        0 <= k < exp2(r),
    ensures
        novel_product(factors, i, exp2(r) + k) == novel_product(factors, i, k).times(
            factors(i + r),
        ),
    decreases r,
{
    lemma_exp2(r);
    let f = factors(i + r);
    lemma_one_times(f);
    if r == 0 {
        assert(novel_product(factors, i + 1, 0) == F::one_spec());
        F::times_one(f);
    } else {
        let r1 = (r - 1) as nat;
        lemma_exp2(r1);
        lemma_novel_product_top(factors, i + 1, r1, k / 2);
        assert(i + 1 + r1 == i + r);
        assert((exp2(r) + k) / 2 == exp2(r1) + k / 2);
        assert((exp2(r) + k) % 2 == k % 2);
        F::times_associates(factors(i), novel_product(factors, i + 1, k / 2), f);
    }
}

/// The value of a linear combination of polynomials is the linear combination of their values.
pub proof fn lemma_novel_sum_combine<F: Field, E: ExtensionField<F>>(
    x: Seq<E>,
    y: Seq<E>,
    c: E,
    factors: spec_fn(nat) -> F,
)
    requires
        x.len() == y.len(),
    ensures
        novel_sum(combine(x, y, c), factors) == novel_sum(x, factors).plus(
            novel_sum(y, factors).times(c),
        ),
    decreases x.len(),
{
    let z = combine(x, y, c);
    if x.len() == 0 {
        lemma_times_zero(c);
        E::plus_zero(E::zero_spec());
    } else {
        let x1 = x.drop_last();
        let y1 = y.drop_last();
        lemma_novel_sum_combine(x1, y1, c, factors);
        assert(z.drop_last() =~= combine(x1, y1, c));
        let g = E::embed(novel_product(factors, 0, x.len() - 1));
        let xv = x.last();
        let yv = y.last();
        let xs = novel_sum(x1, factors);
        let ys = novel_sum(y1, factors);
        // (xv + yv * c) * g == xv * g + (yv * g) * c
        lemma_distributes_left(xv, yv.times(c), g);
        E::times_associates(yv, c, g);
        E::times_commutes(c, g);
        E::times_associates(yv, g, c);
        // (xs + ys * c) + (xv * g + yv * g * c) == (xs + xv * g) + (ys * c + yv * g * c)
        lemma_plus_regroup(xs, ys.times(c), xv.times(g), yv.times(g).times(c));
        lemma_distributes_left(ys, yv.times(g), c);
    }
}

/// A polynomial with `exp2(r) + t` coefficients, of which the last `t` make up a polynomial of
/// their own that is multiplied by the factor of layer `r`.
proof fn lemma_novel_sum_prefix<F: Field, E: ExtensionField<F>>(
    d: Seq<E>,
    r: nat,
    factors: spec_fn(nat) -> F,
)
    requires
        exp2(r) <= d.len() <= exp2(r + 1),
    ensures
        novel_sum(d, factors) == novel_sum(d.subrange(0, exp2(r)), factors).plus(
            novel_sum(d.subrange(exp2(r), d.len() as int), factors).times(E::embed(factors(r))),
        ),
    decreases d.len(),
{
    let e = exp2(r);
    lemma_exp2(r);
    let f = E::embed(factors(r));
    let a = d.subrange(0, e);
    let b = d.subrange(e, d.len() as int);
    if d.len() == e {
        assert(a =~= d);
        lemma_times_zero(f);
        E::plus_zero(novel_sum(d, factors));
    } else {
        let d1 = d.drop_last();
        let b1 = b.drop_last();
        lemma_novel_sum_prefix(d1, r, factors);
        assert(d1.subrange(0, e) =~= a);
        assert(d1.subrange(e, d1.len() as int) =~= b1);
        let k = d.len() - 1 - e;
        lemma_novel_product_top(factors, 0, r, k);
        let g = novel_product(factors, 0, k);
        E::embed_times(g, factors(r));
        assert(b.last() == d.last());
        let v = d.last();
        E::times_associates(v, E::embed(g), f);
        let sa = novel_sum(a, factors);
        let sb = novel_sum(b1, factors);
        E::plus_associates(sa, sb.times(f), v.times(E::embed(g)).times(f));
        lemma_distributes_left(sb, v.times(E::embed(g)), f);
    }
}

/// A polynomial of twice the length is its lower half plus its upper half times the factor of the
/// top layer.
pub proof fn lemma_novel_sum_halves<F: Field, E: ExtensionField<F>>(
    d: Seq<E>,
    r: nat,
    factors: spec_fn(nat) -> F,
)
    requires
        d.len() == exp2(r + 1),
    ensures
        novel_sum(d, factors) == novel_sum(
            combine(
                d.subrange(0, exp2(r)),
                d.subrange(exp2(r), exp2(r + 1)),
                E::embed(factors(r)),
            ),
            factors,
        ),
{
    lemma_exp2(r);
    lemma_novel_sum_prefix(d, r, factors);
    lemma_novel_sum_combine(
        d.subrange(0, exp2(r)),
        d.subrange(exp2(r), exp2(r + 1)),
        E::embed(factors(r)),
        factors,
    );
}

/// A constant polynomial has its one coefficient as its value.
pub proof fn lemma_novel_sum_single<F: Field, E: ExtensionField<F>>(
    d: Seq<E>,
    factors: spec_fn(nat) -> F,
)
    requires
        d.len() == 1,
    ensures
        novel_sum(d, factors) == d[0],
{
    assert(novel_product(factors, 0, 0) == F::one_spec());
    E::embed_one();
    E::times_one(d[0]);
    assert(novel_sum(d.drop_last(), factors) == E::zero_spec());
    lemma_zero_plus(d[0]);
}

/// The factor of layer `i` depends on bit `i` and the bits above it alone, and bit `i` adds one.
pub proof fn lemma_layer_factor_bits<F: BinaryField>(i: nat, m: int)
    requires
        0 <= m,
    ensures
        layer_factor::<F>(i, m) == if bit(m, i) {
            F::one_spec().plus(basis_sum(i, i + 1, m / exp2(i + 1)))
        } else {
            basis_sum(i, i + 1, m / exp2(i + 1))
        },
{
    lemma_zero_plus(basis_sum::<F>(i, i + 1, m / exp2(i + 1)));
}

} // verus!
