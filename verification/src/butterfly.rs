//! Butterflies on blocks of a sequence.
use crate::field::{BinaryField, ExtensionField, Field};
use crate::index::{
    bit, exp2, high, lemma_compose, lemma_decompose, lemma_exp2, lemma_exp2_fits, lemma_or_bit,
    lemma_shl_one, lemma_shl_or, low,
};
use crate::layers::{
    block_twiddle, forward_butterfly, forward_layer, inverse_butterfly, inverse_layer, lemma_pair,
    lemma_whole_blocks,
};
use vstd::arithmetic::div_mod::lemma_fundamental_div_mod;
use vstd::arithmetic::power2::pow2;
use vstd::prelude::*;

verus! {

/// The sequence `a` with block `j` of layer `e` replaced by forward butterflies with the twiddle
/// factor `t`.
pub open spec fn forward_block_spec<E: Field>(a: Seq<E>, e: nat, j: int, t: E) -> Seq<E> {
    Seq::new(
        a.len(),
        |p: int|
            if p / exp2(e + 1) == j {
                forward_butterfly(a, e, t, p)
            } else {
                a[p]
            },
    )
}

/// The sequence `a` with block `j` of layer `e` replaced by inverse butterflies with the twiddle
/// factor `t`.
pub open spec fn inverse_block_spec<E: Field>(a: Seq<E>, e: nat, j: int, t: E) -> Seq<E> {
    Seq::new(
        a.len(),
        |p: int|
            if p / exp2(e + 1) == j {
                inverse_butterfly(a, e, t, p)
            } else {
                a[p]
            },
    )
}

/// The two positions of butterfly `k` in block `j`, as the bit operations give them.
pub proof fn lemma_block_positions(len: usize, e: usize, j: usize, k: usize)
    requires
        (j + 1) * exp2((e + 1) as nat) <= len,
        k < exp2(e as nat),
    ensures
        e + 1 < usize::BITS,
        1usize << e == exp2(e as nat),
        ({
            let p = (j << ((e + 1) as usize)) | k;
            let q = p | (1usize << e);
            &&& p == j * exp2((e + 1) as nat) + k
            &&& q == p + exp2(e as nat)
            &&& q < len
            &&& p as int / exp2((e + 1) as nat) == j
            &&& q as int / exp2((e + 1) as nat) == j
            &&& p as int % exp2(e as nat) == k
            &&& q as int % exp2(e as nat) == k
            &&& !bit(p as int, e as nat)
            &&& bit(q as int, e as nat)
            &&& low(p as int, e as nat) == p
            &&& high(p as int, e as nat) == q
            &&& low(q as int, e as nat) == p
            &&& high(q as int, e as nat) == q
        }),
{
    let n = e as nat;
    lemma_exp2(n);
    assert(exp2(n + 1) <= (j + 1) * exp2(n + 1) && (j + 1) * exp2(n + 1) == j * exp2(n + 1) + exp2(
        n + 1,
    )) by (nonlinear_arith)
        requires
            exp2(n + 1) > 0,
            j >= 0,
    ;
    lemma_exp2_fits(n + 1);
    lemma_shl_one(e);
    lemma_shl_or(j, (e + 1) as usize, k);
    lemma_compose(n, j as int, 0, k as int);
    lemma_compose(n, j as int, 1, k as int);
    let p = (j << ((e + 1) as usize)) | k;
    assert(p == (2 * j + 0) * exp2(n) + k) by (nonlinear_arith)
        requires
            p == j * exp2(n + 1) + k,
            exp2(n + 1) == 2 * exp2(n),
    ;
    assert(p + exp2(n) == (2 * j + 1) * exp2(n) + k) by (nonlinear_arith)
        requires
            p == j * exp2(n + 1) + k,
            exp2(n + 1) == 2 * exp2(n),
    ;
    lemma_or_bit(p, e);
}

/// A position in block `j` of layer `e` is one of the two positions of the butterfly whose number
/// is the position modulo `exp2(e)`.
pub proof fn lemma_block_position(e: nat, j: int, p: int)
    requires
        0 <= p,
        p / exp2(e + 1) == j,
    ensures
        0 <= p % exp2(e) < exp2(e),
        low(p, e) == j * exp2(e + 1) + p % exp2(e),
        high(p, e) == low(p, e) + exp2(e),
        p == if bit(p, e) {
            high(p, e)
        } else {
            low(p, e)
        },
{
    lemma_decompose(e, p);
}

/// Applies forward butterflies with one twiddle factor to block `j` of layer `i`.
pub fn forward_block<F: Field, E: ExtensionField<F>>(
    data: &mut [E],
    i: usize,
    j: usize,
    twiddle: F,
)
    requires
        (j + 1) * exp2((i + 1) as nat) <= old(data)@.len(),
    ensures
        final(data)@ == forward_block_spec(old(data)@, i as nat, j as int, E::embed(twiddle)),
{
    let ghost a = data@;
    let ghost t = E::embed(twiddle);
    proof {
        lemma_exp2(i as nat);
        lemma_block_positions(data.len(), i, j, 0);
    }
    let mut k: usize = 0;
    while k < 1usize << i
        invariant
            1usize << i == exp2(i as nat),
            i + 1 < usize::BITS,
            k <= exp2(i as nat),
            (j + 1) * exp2((i + 1) as nat) <= a.len(),
            data@.len() == a.len(),
            t == E::embed(twiddle),
            forall|p: int|
                0 <= p < a.len() ==> #[trigger] data@[p] == if p / exp2((i + 1) as nat) == j && p
                    % exp2(i as nat) < k {
                    forward_butterfly(a, i as nat, t, p)
                } else {
                    a[p]
                },
        decreases exp2(i as nat) - k,
    {
        proof {
            lemma_block_positions(data.len(), i, j, k);
        }
        let idx0: usize = j << (i + 1) | k;
        let idx1: usize = idx0 | 1 << i;
        data[idx0] = data[idx0].add(data[idx1].mul_base(twiddle));
        data[idx1] = data[idx1].add(data[idx0]);
        proof {
            assert forall|p: int| 0 <= p < a.len() implies #[trigger] data@[p] == if p / exp2(
                (i + 1) as nat,
            ) == j && p % exp2(i as nat) < k + 1 {
                forward_butterfly(a, i as nat, t, p)
            } else {
                a[p]
            } by {
                if p / exp2((i + 1) as nat) == j {
                    lemma_block_position(i as nat, j as int, p);
                }
            }
        }
        k += 1;
    }
    proof {
        assert forall|p: int| 0 <= p < a.len() implies data@[p] == forward_block_spec(
            a,
            i as nat,
            j as int,
            t,
        )[p] by {
            if p / exp2((i + 1) as nat) == j {
                lemma_block_position(i as nat, j as int, p);
            }
        }
        assert(data@ =~= forward_block_spec(a, i as nat, j as int, t));
    }
}

/// Applies inverse butterflies with one twiddle factor to block `j` of layer `i`.
pub fn inverse_block<F: Field, E: ExtensionField<F>>(
    data: &mut [E],
    i: usize,
    j: usize,
    twiddle: F,
)
    requires
        (j + 1) * exp2((i + 1) as nat) <= old(data)@.len(),
    ensures
        final(data)@ == inverse_block_spec(old(data)@, i as nat, j as int, E::embed(twiddle)),
{
    let ghost a = data@;
    let ghost t = E::embed(twiddle);
    proof {
        lemma_exp2(i as nat);
        lemma_block_positions(data.len(), i, j, 0);
    }
    let mut k: usize = 0;
    while k < 1usize << i
        invariant
            1usize << i == exp2(i as nat),
            i + 1 < usize::BITS,
            k <= exp2(i as nat),
            (j + 1) * exp2((i + 1) as nat) <= a.len(),
            data@.len() == a.len(),
            t == E::embed(twiddle),
            forall|p: int|
                0 <= p < a.len() ==> #[trigger] data@[p] == if p / exp2((i + 1) as nat) == j && p
                    % exp2(i as nat) < k {
                    inverse_butterfly(a, i as nat, t, p)
                } else {
                    a[p]
                },
        decreases exp2(i as nat) - k,
    {
        proof {
            lemma_block_positions(data.len(), i, j, k);
        }
        let idx0: usize = j << (i + 1) | k;
        let idx1: usize = idx0 | 1 << i;
        data[idx1] = data[idx1].add(data[idx0]);
        data[idx0] = data[idx0].add(data[idx1].mul_base(twiddle));
        proof {
            assert forall|p: int| 0 <= p < a.len() implies #[trigger] data@[p] == if p / exp2(
                (i + 1) as nat,
            ) == j && p % exp2(i as nat) < k + 1 {
                inverse_butterfly(a, i as nat, t, p)
            } else {
                a[p]
            } by {
                if p / exp2((i + 1) as nat) == j {
                    lemma_block_position(i as nat, j as int, p);
                }
            }
        }
        k += 1;
    }
    proof {
        assert forall|p: int| 0 <= p < a.len() implies data@[p] == inverse_block_spec(
            a,
            i as nat,
            j as int,
            t,
        )[p] by {
            if p / exp2((i + 1) as nat) == j {
                lemma_block_position(i as nat, j as int, p);
            }
        }
        assert(data@ =~= inverse_block_spec(a, i as nat, j as int, t));
    }
}

/// The state `cur` of a layer that replaces `a` by `layer` after the first `j` blocks of
/// `exp2(b)` elements.
pub open spec fn partial_layer<E>(a: Seq<E>, layer: Seq<E>, b: nat, j: int, cur: Seq<E>) -> bool {
    &&& cur.len() == a.len()
    &&& layer.len() == a.len()
    &&& forall|p: int|
        0 <= p < a.len() ==> #[trigger] cur[p] == if p / exp2(b) < j {
            layer[p]
        } else {
            a[p]
        }
}

/// Nothing has been replaced before the first block.
pub proof fn lemma_partial_layer_start<E>(a: Seq<E>, layer: Seq<E>, b: nat)
    requires
        layer.len() == a.len(),
    ensures
        partial_layer(a, layer, b, 0, a),
{
    lemma_exp2(b);
    assert forall|p: int| 0 <= p < a.len() implies #[trigger] a[p] == if p / exp2(b) < 0 {
        layer[p]
    } else {
        a[p]
    } by {
        assert(p / exp2(b) >= 0) by (nonlinear_arith)
            requires
                p >= 0,
                exp2(b) > 0,
        ;
    }
}

/// Everything has been replaced after the last block.
pub proof fn lemma_partial_layer_end<E>(a: Seq<E>, layer: Seq<E>, b: nat, j: int, cur: Seq<E>)
    requires
        partial_layer(a, layer, b, j, cur),
        a.len() <= j * exp2(b),
    ensures
        cur == layer,
{
    lemma_exp2(b);
    assert forall|p: int| 0 <= p < a.len() implies cur[p] == layer[p] by {
        lemma_fundamental_div_mod(p, exp2(b));
        assert(p / exp2(b) < j) by (nonlinear_arith)
            requires
                0 <= p < j * exp2(b),
                p == exp2(b) * (p / exp2(b)) + p % exp2(b),
                0 <= p % exp2(b),
                exp2(b) > 0,
        ;
    }
    assert(cur =~= layer);
}

/// The butterflies of block `j` carry a forward layer from `j` to `j + 1` blocks.
pub proof fn lemma_forward_block_step<F: BinaryField, E: ExtensionField<F>>(
    r: nat,
    s: nat,
    coset: int,
    a: Seq<E>,
    i: nat,
    j: int,
    cur: Seq<E>,
)
    requires
        a.len() == exp2(r + s),
        i < r,
        partial_layer(a, forward_layer::<F, E>(r, s, coset, a, i), i + s + 1, j, cur),
    ensures
        partial_layer(
            a,
            forward_layer::<F, E>(r, s, coset, a, i),
            i + s + 1,
            j + 1,
            forward_block_spec(cur, i + s, j, E::embed(block_twiddle::<F>(r, coset, i, j))),
        ),
{
    lemma_whole_blocks(r, s, i);
    let t = E::embed(block_twiddle::<F>(r, coset, i, j));
    let next = forward_block_spec(cur, i + s, j, t);
    let layer = forward_layer::<F, E>(r, s, coset, a, i);
    assert forall|p: int| 0 <= p < a.len() implies #[trigger] next[p] == if p / exp2(i + s + 1) < j
        + 1 {
        layer[p]
    } else {
        a[p]
    } by {
        lemma_pair(i + s, exp2((r - 1 - i) as nat), p);
        let here = cur[p];
        let (l, h) = (cur[low(p, i + s)], cur[high(p, i + s)]);
    }
}

/// The butterflies of block `j` carry an inverse layer from `j` to `j + 1` blocks.
pub proof fn lemma_inverse_block_step<F: BinaryField, E: ExtensionField<F>>(
    r: nat,
    s: nat,
    coset: int,
    a: Seq<E>,
    i: nat,
    j: int,
    cur: Seq<E>,
)
    requires
        a.len() == exp2(r + s),
        i < r,
        partial_layer(a, inverse_layer::<F, E>(r, s, coset, a, i), i + s + 1, j, cur),
    ensures
        partial_layer(
            a,
            inverse_layer::<F, E>(r, s, coset, a, i),
            i + s + 1,
            j + 1,
            inverse_block_spec(cur, i + s, j, E::embed(block_twiddle::<F>(r, coset, i, j))),
        ),
{
    lemma_whole_blocks(r, s, i);
    let t = E::embed(block_twiddle::<F>(r, coset, i, j));
    let next = inverse_block_spec(cur, i + s, j, t);
    let layer = inverse_layer::<F, E>(r, s, coset, a, i);
    assert forall|p: int| 0 <= p < a.len() implies #[trigger] next[p] == if p / exp2(i + s + 1) < j
        + 1 {
        layer[p]
    } else {
        a[p]
    } by {
        lemma_pair(i + s, exp2((r - 1 - i) as nat), p);
        let here = cur[p];
        let (l, h) = (cur[low(p, i + s)], cur[high(p, i + s)]);
    }
}

/// In block `j` of layer `e`, which begins at position `j * pow2(e + 1)`, the first of the two
/// elements of a butterfly gets `t` times the second added, and then the second gets the new first
/// added. The other blocks stay as they are.
pub proof fn law_forward_block<E: Field>(a: Seq<E>, e: nat, j: int, t: E, k: int, p: int)
    requires
        0 <= j,
        (j + 1) * pow2(e + 1) <= a.len(),
        0 <= k < pow2(e),
        0 <= p < a.len(),
        p < j * pow2(e + 1) || (j + 1) * pow2(e + 1) <= p,
    ensures
        ({
            let after = forward_block_spec(a, e, j, t);
            let lo = j * pow2(e + 1) + k;
            let hi = lo + pow2(e);
            &&& after.len() == a.len()
            &&& after[lo] == a[lo].plus(a[hi].times(t))
            &&& after[hi] == a[hi].plus(after[lo])
            &&& after[p] == a[p]
        }),
{
    lemma_exp2(e);
    lemma_compose(e, j, 0, k);
    lemma_compose(e, j, 1, k);
    let b = exp2(e + 1);
    assert((j + 1) * b == j * b + b && 0 <= j * b) by (nonlinear_arith)
        requires
            0 <= j,
            0 < b,
    ;
    assert((2 * j + 0) * exp2(e) + k == j * b + k) by (nonlinear_arith)
        requires
            b == 2 * exp2(e),
    ;
    assert((2 * j + 1) * exp2(e) + k == j * b + k + exp2(e)) by (nonlinear_arith)
        requires
            b == 2 * exp2(e),
    ;
    lemma_fundamental_div_mod(p, b);
    assert(p / b != j) by (nonlinear_arith)
        requires
            p < j * b || j * b + b <= p,
            p == b * (p / b) + p % b,
            0 <= p % b < b,
    ;
}

/// In block `j` of layer `e`, which begins at position `j * pow2(e + 1)`,
/// the second of the two elements of a butterfly gets the first added, and then the first gets `t`
/// times the new second added. The other blocks stay as they are.
pub proof fn law_inverse_block<E: Field>(a: Seq<E>, e: nat, j: int, t: E, k: int, p: int)
    requires
        0 <= j,
        (j + 1) * pow2(e + 1) <= a.len(),
        0 <= k < pow2(e),
        0 <= p < a.len(),
        p < j * pow2(e + 1) || (j + 1) * pow2(e + 1) <= p,
    ensures
        ({
            let after = inverse_block_spec(a, e, j, t);
            let lo = j * pow2(e + 1) + k;
            let hi = lo + pow2(e);
            &&& after.len() == a.len()
            &&& after[hi] == a[hi].plus(a[lo])
            &&& after[lo] == a[lo].plus(after[hi].times(t))
            &&& after[p] == a[p]
        }),
{
    lemma_exp2(e);
    lemma_compose(e, j, 0, k);
    lemma_compose(e, j, 1, k);
    let b = exp2(e + 1);
    assert((j + 1) * b == j * b + b && 0 <= j * b) by (nonlinear_arith)
        requires
            0 <= j,
            0 < b,
    ;
    assert((2 * j + 0) * exp2(e) + k == j * b + k) by (nonlinear_arith)
        requires
            b == 2 * exp2(e),
    ;
    assert((2 * j + 1) * exp2(e) + k == j * b + k + exp2(e)) by (nonlinear_arith)
        requires
            b == 2 * exp2(e),
    ;
    lemma_fundamental_div_mod(p, b);
    assert(p / b != j) by (nonlinear_arith)
        requires
            p < j * b || j * b + b <= p,
            p == b * (p / b) + p % b,
            0 <= p % b < b,
    ;
}

} // verus!
