//! The transforms as sequences of butterfly layers.
//!
//! A layer works on a sequence of `exp2(r + s)` elements, which hold `exp2(r)` groups of `exp2(s)`
//! elements each. Layer `i` combines the elements at two positions that differ in bit `i + s`.
use crate::field::{lemma_plus_cancels, BinaryField, ExtensionField, Field};
use crate::index::{
    bit, exp2, high, lemma_compose, lemma_decompose, lemma_exp2, lemma_exp2_adds, low,
};
use crate::novel_basis::{
    basis_sum, combine, layer_factor, layer_factors, lemma_layer_factor_bits,
    lemma_novel_sum_halves, lemma_novel_sum_single, novel_sum,
};
use vstd::arithmetic::div_mod::lemma_fundamental_div_mod;
use vstd::prelude::*;

verus! {

/// The element at position `p` after a butterfly on bit `e` with twiddle factor `t`.
pub open spec fn forward_butterfly<E: Field>(a: Seq<E>, e: nat, t: E, p: int) -> E {
    let u = a[low(p, e)].plus(a[high(p, e)].times(t));
    if bit(p, e) {
        a[high(p, e)].plus(u)
    } else {
        u
    }
}

/// The element at position `p` after an inverse butterfly on bit `e` with twiddle factor `t`.
pub open spec fn inverse_butterfly<E: Field>(a: Seq<E>, e: nat, t: E, p: int) -> E {
    let v = a[high(p, e)].plus(a[low(p, e)]);
    if bit(p, e) {
        v
    } else {
        a[low(p, e)].plus(v.times(t))
    }
}

/// The twiddle factor of block `j` in layer `i` of a transform of `exp2(r)` elements on a coset.
pub open spec fn block_twiddle<F: BinaryField>(r: nat, coset: int, i: nat, j: int) -> F {
    basis_sum(i, i + 1, coset * exp2((r - 1 - i) as nat) + j)
}

/// Layer `i` of the forward transform.
pub open spec fn forward_layer<F: BinaryField, E: ExtensionField<F>>(
    r: nat,
    s: nat,
    coset: int,
    a: Seq<E>,
    i: nat,
) -> Seq<E> {
    Seq::new(
        a.len(),
        |p: int|
            forward_butterfly(
                a,
                i + s,
                E::embed(block_twiddle::<F>(r, coset, i, p / exp2(i + s + 1))),
                p,
            ),
    )
}

/// Layer `i` of the inverse transform.
pub open spec fn inverse_layer<F: BinaryField, E: ExtensionField<F>>(
    r: nat,
    s: nat,
    coset: int,
    a: Seq<E>,
    i: nat,
) -> Seq<E> {
    Seq::new(
        a.len(),
        |p: int|
            inverse_butterfly(
                a,
                i + s,
                E::embed(block_twiddle::<F>(r, coset, i, p / exp2(i + s + 1))),
                p,
            ),
    )
}

/// The layers `t - 1`, ..., `1`, `0` of the forward transform, in this order.
pub open spec fn forward_layers<F: BinaryField, E: ExtensionField<F>>(
    r: nat,
    s: nat,
    coset: int,
    a: Seq<E>,
    t: nat,
) -> Seq<E>
    decreases t,
{
    if t == 0 {
        a
    } else {
        let i = (t - 1) as nat;
        forward_layers::<F, E>(r, s, coset, forward_layer::<F, E>(r, s, coset, a, i), i)
    }
}

/// The layers `0`, `1`, ..., `t - 1` of the inverse transform, in this order.
pub open spec fn inverse_layers<F: BinaryField, E: ExtensionField<F>>(
    r: nat,
    s: nat,
    coset: int,
    a: Seq<E>,
    t: nat,
) -> Seq<E>
    decreases t,
{
    if t == 0 {
        a
    } else {
        let i = (t - 1) as nat;
        inverse_layer::<F, E>(r, s, coset, inverse_layers::<F, E>(r, s, coset, a, i), i)
    }
}

/// The two positions that a butterfly on bit `e` combines, in a sequence that consists of whole
/// blocks.
pub proof fn lemma_pair(e: nat, blocks: int, p: int)
    requires
        0 <= p < blocks * exp2(e + 1),
    ensures
        0 <= p / exp2(e + 1) < blocks,
        0 <= low(p, e) < high(p, e) < blocks * exp2(e + 1),
        low(p, e) == (p / exp2(e + 1)) * exp2(e + 1) + p % exp2(e),
        0 <= p % exp2(e) < exp2(e),
        p == if bit(p, e) {
            high(p, e)
        } else {
            low(p, e)
        },
        !bit(low(p, e), e),
        bit(high(p, e), e),
        low(low(p, e), e) == low(p, e),
        high(low(p, e), e) == high(p, e),
        low(high(p, e), e) == low(p, e),
        high(high(p, e), e) == high(p, e),
        low(p, e) / exp2(e + 1) == p / exp2(e + 1),
        high(p, e) / exp2(e + 1) == p / exp2(e + 1),
{
    lemma_exp2(e);
    lemma_decompose(e, p);
    let q = p / exp2(e + 1);
    let k = p % exp2(e);
    assert(q < blocks && (q + 1) * exp2(e + 1) <= blocks * exp2(e + 1)) by (nonlinear_arith)
        requires
            q * exp2(e + 1) <= p < blocks * exp2(e + 1),
            exp2(e + 1) > 0,
    ;
    assert((q + 1) * exp2(e + 1) == q * exp2(e + 1) + exp2(e + 1)) by (nonlinear_arith);
    lemma_compose(e, q, 0, k);
    lemma_compose(e, q, 1, k);
    assert(q * exp2(e + 1) >= 0) by (nonlinear_arith)
        requires
            q >= 0,
            exp2(e + 1) > 0,
    ;
}

/// A sequence of `exp2(r + s)` elements consists of whole blocks of layer `i`.
pub proof fn lemma_whole_blocks(r: nat, s: nat, i: nat)
    requires
        i < r,
    ensures
        exp2(r + s) == exp2((r - 1 - i) as nat) * exp2(i + s + 1),
        exp2((r - 1 - i) as nat) > 0,
{
    lemma_exp2_adds((r - 1 - i) as nat, i + s + 1);
    assert((r - 1 - i) as nat + (i + s + 1) == r + s);
    lemma_exp2((r - 1 - i) as nat);
}

/// The inverse layer undoes the forward layer, and the other way round.
pub proof fn lemma_layer_round_trip<F: BinaryField, E: ExtensionField<F>>(
    r: nat,
    s: nat,
    coset: int,
    a: Seq<E>,
    i: nat,
)
    requires
        a.len() == exp2(r + s),
        i < r,
    ensures
        inverse_layer::<F, E>(r, s, coset, forward_layer::<F, E>(r, s, coset, a, i), i) == a,
        forward_layer::<F, E>(r, s, coset, inverse_layer::<F, E>(r, s, coset, a, i), i) == a,
{
    let f = forward_layer::<F, E>(r, s, coset, a, i);
    let g = inverse_layer::<F, E>(r, s, coset, a, i);
    let fg = inverse_layer::<F, E>(r, s, coset, f, i);
    let gf = forward_layer::<F, E>(r, s, coset, g, i);
    lemma_whole_blocks(r, s, i);
    assert forall|p: int| 0 <= p < a.len() implies fg[p] == a[p] && gf[p] == a[p] by {
        lemma_pair(i + s, exp2((r - 1 - i) as nat), p);
        let l = low(p, i + s);
        let h = high(p, i + s);
        let t = E::embed(block_twiddle::<F>(r, coset, i, p / exp2(i + s + 1)));
        let u = a[l];
        let v = a[h];
        assert(f[l] == u.plus(v.times(t)));
        assert(f[h] == v.plus(f[l]));
        lemma_plus_cancels(v, f[l]);
        lemma_plus_cancels(u, v.times(t));
        assert(g[h] == v.plus(u));
        assert(g[l] == u.plus(g[h].times(t)));
        lemma_plus_cancels(u, g[h].times(t));
        lemma_plus_cancels(v, u);
    }
    assert(fg =~= a);
    assert(gf =~= a);
}

/// The layers keep the number of elements.
pub proof fn lemma_layers_len<F: BinaryField, E: ExtensionField<F>>(
    r: nat,
    s: nat,
    coset: int,
    a: Seq<E>,
    t: nat,
)
    ensures
        forward_layers::<F, E>(r, s, coset, a, t).len() == a.len(),
        inverse_layers::<F, E>(r, s, coset, a, t).len() == a.len(),
    decreases t,
{
    if t > 0 {
        let i = (t - 1) as nat;
        lemma_layers_len::<F, E>(r, s, coset, forward_layer::<F, E>(r, s, coset, a, i), i);
        lemma_layers_len::<F, E>(r, s, coset, a, i);
    }
}

/// The inverse layers undo the forward layers, and the other way round.
pub proof fn lemma_layers_round_trip<F: BinaryField, E: ExtensionField<F>>(
    r: nat,
    s: nat,
    coset: int,
    a: Seq<E>,
    t: nat,
)
    requires
        a.len() == exp2(r + s),
        t <= r,
    ensures
        inverse_layers::<F, E>(r, s, coset, forward_layers::<F, E>(r, s, coset, a, t), t) == a,
        forward_layers::<F, E>(r, s, coset, inverse_layers::<F, E>(r, s, coset, a, t), t) == a,
    decreases t,
{
    if t > 0 {
        let i = (t - 1) as nat;
        let f = forward_layer::<F, E>(r, s, coset, a, i);
        lemma_layer_round_trip::<F, E>(r, s, coset, a, i);
        lemma_layers_round_trip::<F, E>(r, s, coset, f, i);
        let g = inverse_layers::<F, E>(r, s, coset, a, i);
        lemma_layers_len::<F, E>(r, s, coset, a, i);
        lemma_layer_round_trip::<F, E>(r, s, coset, g, i);
        lemma_layers_round_trip::<F, E>(r, s, coset, a, i);
    }
}

/// The factor of layer `i` at a point of the coset, in terms of the twiddle factor of its block.
pub proof fn lemma_layer_factor_twiddle<F: BinaryField>(r: nat, coset: int, i: nat, p: int)
    requires
        0 <= coset,
        0 <= p,
        i < r,
    ensures
        layer_factor::<F>(i, coset * exp2(r) + p) == if bit(p, i) {
            F::one_spec().plus(block_twiddle(r, coset, i, p / exp2(i + 1)))
        } else {
            block_twiddle(r, coset, i, p / exp2(i + 1))
        },
{
    lemma_exp2(i);
    lemma_whole_blocks(r, 0, i);
    let c = coset * exp2((r - 1 - i) as nat);
    let m = coset * exp2(r) + p;
    lemma_decompose(i, p);
    let q = p / exp2(i + 1);
    let k = p % exp2(i);
    let b = if bit(p, i) { 1int } else { 0int };
    assert(0 <= c) by (nonlinear_arith)
        requires
            0 <= coset,
            0 < exp2((r - 1 - i) as nat),
            c == coset * exp2((r - 1 - i) as nat),
    ;
    assert(m == (c + q) * exp2(i + 1) + b * exp2(i) + k) by (nonlinear_arith)
        requires
            m == coset * exp2(r) + p,
            exp2(r) == exp2((r - 1 - i) as nat) * exp2(i + 1),
            c == coset * exp2((r - 1 - i) as nat),
            p == q * exp2(i + 1) + b * exp2(i) + k,
    ;
    lemma_compose(i, c + q, b, k);
    lemma_layer_factor_bits::<F>(i, m);
}

/// What the layers below `t` leave at position `p` is the sum over the block of `exp2(t)` elements
/// around `p`, with the layer factors of its evaluation point.
pub proof fn lemma_forward_layers_value<F: BinaryField, E: ExtensionField<F>>(
    r: nat,
    coset: int,
    a: Seq<E>,
    t: nat,
    p: int,
)
    requires
        a.len() == exp2(r),
        t <= r,
        0 <= p < exp2(r),
        0 <= coset,
    ensures
        0 <= (p / exp2(t)) * exp2(t) <= (p / exp2(t) + 1) * exp2(t) <= exp2(r),
        forward_layers::<F, E>(r, 0, coset, a, t)[p] == novel_sum::<F, E>(
            a.subrange((p / exp2(t)) * exp2(t), (p / exp2(t) + 1) * exp2(t)),
            layer_factors(coset * exp2(r) + p),
        ),
    decreases t,
{
    lemma_exp2(t);
    let m = coset * exp2(r) + p;
    let factors = layer_factors::<F>(m);
    let h = p / exp2(t);
    let e = exp2(t);
    lemma_fundamental_div_mod(p, e);
    assert(exp2(r) == exp2((r - t) as nat) * e) by {
        lemma_exp2_adds((r - t) as nat, t);
    }
    assert(0 <= h && 0 <= h * e && (h + 1) * e <= exp2(r) && h * e <= (h + 1) * e)
        by (nonlinear_arith)
        requires
            exp2(r) == exp2((r - t) as nat) * e,
            0 <= p < exp2(r),
            p == e * h + p % e,
            0 <= p % e < e,
            0 < e,
    ;
    let d = a.subrange(h * e, (h + 1) * e);
    assert((h + 1) * e == h * e + e) by (nonlinear_arith);
    if t == 0 {
        assert(h == p);
        lemma_novel_sum_single::<F, E>(d, factors);
    } else {
        let i = (t - 1) as nat;
        let a1 = forward_layer::<F, E>(r, 0, coset, a, i);
        lemma_forward_layers_value::<F, E>(r, coset, a1, i, p);
        lemma_novel_sum_halves::<F, E>(d, i, factors);
        lemma_exp2(i);
        let f = E::embed(factors(i));
        let lower = d.subrange(0, exp2(i));
        let upper = d.subrange(exp2(i), exp2(t));
        let g = p / exp2(i);
        let d1 = a1.subrange(g * exp2(i), (g + 1) * exp2(i));
        lemma_decompose(i, p);
        let b = if bit(p, i) { 1int } else { 0int };
        assert(i + 1 == t);
        assert(g == 2 * h + b);
        assert((g + 1) * exp2(i) == g * exp2(i) + exp2(i)) by (nonlinear_arith);
        assert(g * exp2(i) == h * e + b * exp2(i)) by (nonlinear_arith)
            requires
                g == 2 * h + b,
                e == 2 * exp2(i),
        ;
        lemma_layer_factor_twiddle::<F>(r, coset, i, p);
        assert forall|k: int| 0 <= k < exp2(i) implies d1[k] == combine(lower, upper, f)[k] by {
            let q = g * exp2(i) + k;
            lemma_compose(i, h, b, k);
            assert(q == (2 * h + b) * exp2(i) + k);
            let tw = block_twiddle::<F>(r, coset, i, h);
            assert(i + 0 == i);
            assert(a1[q] == forward_butterfly(a, i, E::embed(tw), q));
            let u = lower[k];
            let v = upper[k];
            assert(u == a[low(q, i)]);
            assert(v == a[high(q, i)]);
            if b == 1 {
                // v + (u + v * tw) == u + v * (1 + tw)
                E::embed_plus(F::one_spec(), tw);
                E::embed_one();
                E::times_distributes(v, E::one_spec(), E::embed(tw));
                E::times_one(v);
                let w = v.times(E::embed(tw));
                E::plus_associates(v, u, w);
                E::plus_commutes(v, u);
                E::plus_associates(u, v, w);
            }
        }
        assert(d1 =~= combine(lower, upper, f));
    }
}

} // verus!
