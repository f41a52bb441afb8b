//! The layers of a transform on packed elements.
use crate::butterfly::{lemma_block_position, lemma_block_positions, partial_layer};
use crate::field::{lemma_self_extension, BinaryField, ExtensionField, Field};
use crate::index::{
    bit, exp2, high, lemma_decompose, lemma_exp2, lemma_exp2_adds, lemma_lower_bits,
    lemma_upper_bits, low,
};
use crate::layers::{
    block_twiddle, forward_butterfly, forward_layer, forward_layers, inverse_butterfly,
    inverse_layer, inverse_layers, lemma_layers_len, lemma_pair, lemma_whole_blocks,
};
use crate::packed::{base_coords, PackedField};
use crate::packed_butterfly::{forward_pair_spec, inverse_pair_spec, twiddle_lane};
use vstd::arithmetic::div_mod::lemma_fundamental_div_mod_converse;
use vstd::prelude::*;

verus! {

/// The block of layer `e` to which lane `c` belongs once pair `j` of vectors of `exp2(w)` lanes has
/// been interleaved by blocks of `exp2(e)` lanes.
pub open spec fn pair_block(w: nat, e: nat, j: int, c: int) -> int {
    (2 * j + if bit(c, e) { 1int } else { 0int }) * exp2((w - e - 1) as nat) + c / exp2(e + 1)
}

/// Whether `twiddle` holds the twiddle factors for pair `j` in layer `i`.
pub open spec fn is_pair_twiddle<F: BinaryField>(
    r: nat,
    s: nat,
    coset: int,
    i: nat,
    w: nat,
    j: int,
    twiddle: Seq<F>,
) -> bool {
    &&& twiddle.len() == exp2(w)
    &&& forall|c: int|
        0 <= c < exp2(w) ==> #[trigger] twiddle[c] == block_twiddle::<F>(
            r,
            coset,
            i,
            pair_block(w, i + s, j, c),
        )
}

/// The coordinates of one element lie next to each other.
proof fn lemma_coord<F: Field, E: ExtensionField<F>>(a: Seq<E>, q: int, l: int)
    requires
        0 <= q < a.len(),
        0 <= l < E::degree_spec(),
    ensures
        0 <= q * E::degree_spec() + l < base_coords::<F, E>(a).len(),
        base_coords::<F, E>(a)[q * E::degree_spec() + l] == a[q].coords()[l],
{
    let d = E::degree_spec() as int;
    assert(0 <= q * d + l < a.len() * d) by (nonlinear_arith)
        requires
            0 <= q < a.len(),
            0 <= l < d,
    ;
    lemma_fundamental_div_mod_converse(q * d + l, d, q, l);
}

/// The butterflies of pair `j` carry a layer of the forward transform from `j` to `j + 1` pairs.
pub proof fn lemma_forward_pair_step<F: BinaryField>(
    r: nat,
    s: nat,
    coset: int,
    a: Seq<F>,
    i: nat,
    w: nat,
    j: int,
    cur: Seq<F>,
    twiddle: Seq<F>,
)
    requires
        a.len() == exp2(r + s),
        i < r,
        i + s < w < r + s,
        is_pair_twiddle(r, s, coset, i, w, j, twiddle),
        partial_layer(a, forward_layer::<F, F>(r, s, coset, a, i), w + 1, j, cur),
    ensures
        partial_layer(
            a,
            forward_layer::<F, F>(r, s, coset, a, i),
            w + 1,
            j + 1,
            forward_pair_spec(cur, w, i + s, j, twiddle),
        ),
{
    let e = i + s;
    let next = forward_pair_spec(cur, w, e, j, twiddle);
    let layer = forward_layer::<F, F>(r, s, coset, a, i);
    lemma_self_extension::<F>();
    lemma_whole_blocks(r, s, i);
    let half = exp2((w - e - 1) as nat);
    assert(exp2(w) == half * exp2(e + 1)) by {
        lemma_exp2_adds((w - e - 1) as nat, e + 1);
        assert((w - e - 1) as nat + (e + 1) == w);
    }
    assert forall|p: int| 0 <= p < a.len() implies #[trigger] next[p] == if p / exp2(w + 1) < j
        + 1 {
        layer[p]
    } else {
        a[p]
    } by {
        let here = cur[p];
        if p / exp2(w + 1) == j {
            lemma_lower_bits(p, w, e);
            lemma_decompose(w, p);
            lemma_pair(e, exp2((r - 1 - i) as nat), p);
            let q = p / exp2(w);
            let l = p % exp2(w);
            lemma_pair(e, half, l);
            let c = twiddle_lane(w, e, p);
            assert(pair_block(w, e, j, c) == p / exp2(e + 1));
            assert(twiddle[c] == block_twiddle::<F>(r, coset, i, p / exp2(e + 1)));
            // The two positions of the butterfly belong to the same pair.
            let lo = low(p, e);
            let hi = high(p, e);
            assert(lo / exp2(w) == q && hi / exp2(w) == q) by {
                lemma_fundamental_div_mod_converse(lo, exp2(w), q, low(l, e));
                lemma_fundamental_div_mod_converse(hi, exp2(w), q, high(l, e));
            }
            lemma_decompose(w, lo);
            lemma_decompose(w, hi);
            assert(cur[lo] == a[lo]);
            assert(cur[hi] == a[hi]);
        }
    }
}

/// A layer acts on all coordinates in the same way.
pub proof fn lemma_forward_layer_coords<F: BinaryField, E: ExtensionField<F>>(
    r: nat,
    s: nat,
    coset: int,
    a: Seq<E>,
    i: nat,
)
    requires
        a.len() == exp2(r),
        E::degree_spec() == exp2(s),
        i < r,
    ensures
        base_coords::<F, E>(forward_layer::<F, E>(r, 0, coset, a, i)) == forward_layer::<F, F>(
            r,
            s,
            coset,
            base_coords::<F, E>(a),
            i,
        ),
{
    let flat = base_coords::<F, E>(a);
    let layer = forward_layer::<F, E>(r, 0, coset, a, i);
    let x = base_coords::<F, E>(layer);
    let y = forward_layer::<F, F>(r, s, coset, flat, i);
    lemma_self_extension::<F>();
    lemma_whole_blocks(r, 0, i);
    lemma_exp2(s);
    assert forall|p: int| 0 <= p < flat.len() implies x[p] == y[p] by {
        lemma_upper_bits(p, s, i);
        let q = p / exp2(s);
        let l = p % exp2(s);
        assert(q < a.len()) by (nonlinear_arith)
            requires
                p == q * exp2(s) + l,
                0 <= l,
                p < a.len() * exp2(s),
                exp2(s) > 0,
        ;
        lemma_pair(i, exp2((r - 1 - i) as nat), q);
        assert(i + 0 == i);
        let t = block_twiddle::<F>(r, coset, i, q / exp2(i + 1));
        let u = a[low(q, i)];
        let v = a[high(q, i)];
        lemma_coord::<F, E>(a, low(q, i), l);
        lemma_coord::<F, E>(a, high(q, i), l);
        lemma_coord::<F, E>(layer, q, l);
        assert(layer[q] == forward_butterfly(a, i, E::embed(t), q));
        E::coords_scale(v, t, l);
        E::coords_plus(u, v.times(E::embed(t)), l);
        E::coords_plus(v, u.plus(v.times(E::embed(t))), l);
    }
    assert(x =~= y);
}

/// The layers act on all coordinates in the same way.
pub proof fn lemma_forward_layers_coords<F: BinaryField, E: ExtensionField<F>>(
    r: nat,
    s: nat,
    coset: int,
    a: Seq<E>,
    t: nat,
)
    requires
        a.len() == exp2(r),
        E::degree_spec() == exp2(s),
        t <= r,
    ensures
        base_coords::<F, E>(forward_layers::<F, E>(r, 0, coset, a, t)) == forward_layers::<F, F>(
            r,
            s,
            coset,
            base_coords::<F, E>(a),
            t,
        ),
    decreases t,
{
    if t > 0 {
        let i = (t - 1) as nat;
        lemma_forward_layer_coords::<F, E>(r, s, coset, a, i);
        lemma_forward_layers_coords::<F, E>(
            r,
            s,
            coset,
            forward_layer::<F, E>(r, 0, coset, a, i),
            i,
        );
    }
}

/// The butterflies of pair `j` carry a layer of the inverse transform from `j` to `j + 1` pairs.
pub proof fn lemma_inverse_pair_step<F: BinaryField>(
    r: nat,
    s: nat,
    coset: int,
    a: Seq<F>,
    i: nat,
    w: nat,
    j: int,
    cur: Seq<F>,
    twiddle: Seq<F>,
)
    requires
        a.len() == exp2(r + s),
        i < r,
        i + s < w < r + s,
        is_pair_twiddle(r, s, coset, i, w, j, twiddle),
        partial_layer(a, inverse_layer::<F, F>(r, s, coset, a, i), w + 1, j, cur),
    ensures
        partial_layer(
            a,
            inverse_layer::<F, F>(r, s, coset, a, i),
            w + 1,
            j + 1,
            inverse_pair_spec(cur, w, i + s, j, twiddle),
        ),
{
    let e = i + s;
    let next = inverse_pair_spec(cur, w, e, j, twiddle);
    let layer = inverse_layer::<F, F>(r, s, coset, a, i);
    lemma_self_extension::<F>();
    lemma_whole_blocks(r, s, i);
    let half = exp2((w - e - 1) as nat);
    assert(exp2(w) == half * exp2(e + 1)) by {
        lemma_exp2_adds((w - e - 1) as nat, e + 1);
        assert((w - e - 1) as nat + (e + 1) == w);
    }
    assert forall|p: int| 0 <= p < a.len() implies #[trigger] next[p] == if p / exp2(w + 1) < j
        + 1 {
        layer[p]
    } else {
        a[p]
    } by {
        let here = cur[p];
        if p / exp2(w + 1) == j {
            lemma_lower_bits(p, w, e);
            lemma_decompose(w, p);
            lemma_pair(e, exp2((r - 1 - i) as nat), p);
            let q = p / exp2(w);
            let l = p % exp2(w);
            lemma_pair(e, half, l);
            let c = twiddle_lane(w, e, p);
            assert(pair_block(w, e, j, c) == p / exp2(e + 1));
            assert(twiddle[c] == block_twiddle::<F>(r, coset, i, p / exp2(e + 1)));
            // The two positions of the butterfly belong to the same pair.
            let lo = low(p, e);
            let hi = high(p, e);
            assert(lo / exp2(w) == q && hi / exp2(w) == q) by {
                lemma_fundamental_div_mod_converse(lo, exp2(w), q, low(l, e));
                lemma_fundamental_div_mod_converse(hi, exp2(w), q, high(l, e));
            }
            lemma_decompose(w, lo);
            lemma_decompose(w, hi);
            assert(cur[lo] == a[lo]);
            assert(cur[hi] == a[hi]);
        }
    }
}

/// A layer acts on all coordinates in the same way.
pub proof fn lemma_inverse_layer_coords<F: BinaryField, E: ExtensionField<F>>(
    r: nat,
    s: nat,
    coset: int,
    a: Seq<E>,
    i: nat,
)
    requires
        a.len() == exp2(r),
        E::degree_spec() == exp2(s),
        i < r,
    ensures
        base_coords::<F, E>(inverse_layer::<F, E>(r, 0, coset, a, i)) == inverse_layer::<F, F>(
            r,
            s,
            coset,
            base_coords::<F, E>(a),
            i,
        ),
{
    let flat = base_coords::<F, E>(a);
    let layer = inverse_layer::<F, E>(r, 0, coset, a, i);
    let x = base_coords::<F, E>(layer);
    let y = inverse_layer::<F, F>(r, s, coset, flat, i);
    lemma_self_extension::<F>();
    lemma_whole_blocks(r, 0, i);
    lemma_exp2(s);
    assert forall|p: int| 0 <= p < flat.len() implies x[p] == y[p] by {
        lemma_upper_bits(p, s, i);
        let q = p / exp2(s);
        let l = p % exp2(s);
        assert(q < a.len()) by (nonlinear_arith)
            requires
                p == q * exp2(s) + l,
                0 <= l,
                p < a.len() * exp2(s),
                exp2(s) > 0,
        ;
        lemma_pair(i, exp2((r - 1 - i) as nat), q);
        assert(i + 0 == i);
        let t = block_twiddle::<F>(r, coset, i, q / exp2(i + 1));
        let u = a[low(q, i)];
        let v = a[high(q, i)];
        lemma_coord::<F, E>(a, low(q, i), l);
        lemma_coord::<F, E>(a, high(q, i), l);
        lemma_coord::<F, E>(layer, q, l);
        assert(layer[q] == inverse_butterfly(a, i, E::embed(t), q));
        E::coords_plus(v, u, l);
        E::coords_scale(v.plus(u), t, l);
        E::coords_plus(u, v.plus(u).times(E::embed(t)), l);
    }
    assert(x =~= y);
}

/// The layers act on all coordinates in the same way.
pub proof fn lemma_inverse_layers_coords<F: BinaryField, E: ExtensionField<F>>(
    r: nat,
    s: nat,
    coset: int,
    a: Seq<E>,
    t: nat,
)
    requires
        a.len() == exp2(r),
        E::degree_spec() == exp2(s),
        t <= r,
    ensures
        base_coords::<F, E>(inverse_layers::<F, E>(r, 0, coset, a, t)) == inverse_layers::<F, F>(
            r,
            s,
            coset,
            base_coords::<F, E>(a),
            t,
        ),
    decreases t,
{
    if t > 0 {
        let i = (t - 1) as nat;
        lemma_inverse_layers_coords::<F, E>(r, s, coset, a, i);
        lemma_layers_len::<F, E>(r, 0, coset, a, i);
        lemma_inverse_layer_coords::<F, E>(
            r,
            s,
            coset,
            inverse_layers::<F, E>(r, 0, coset, a, i),
            i,
        );
    }
}

/// Equal coordinates belong to equal elements.
pub proof fn lemma_base_coords_injective<F: Field, E: ExtensionField<F>>(a: Seq<E>, b: Seq<E>)
    requires
        a.len() == b.len(),
        base_coords::<F, E>(a) == base_coords::<F, E>(b),
    ensures
        a == b,
{
    assert forall|q: int| 0 <= q < a.len() implies a[q] == b[q] by {
        E::coords_len(a[q]);
        E::coords_len(b[q]);
        assert forall|l: int| 0 <= l < E::degree_spec() implies a[q].coords()[l]
            == b[q].coords()[l] by {
            lemma_coord::<F, E>(a, q, l);
            lemma_coord::<F, E>(b, q, l);
        }
        assert(a[q].coords() =~= b[q].coords());
        E::coords_injective(a[q], b[q]);
    }
    assert(a =~= b);
}

/// Puts one value into the lanes of block `k` of layer `e` with bit `e` clear, and another into
/// those with bit `e` set.
pub fn fill_block<P: PackedField>(
    twiddle: &mut P,
    e: usize,
    k: usize,
    value0: P::Scalar,
    value1: P::Scalar,
)
    requires
        (k + 1) * exp2((e + 1) as nat) <= P::width_spec(),
    ensures
        final(twiddle).lanes() == Seq::new(
            P::width_spec() as nat,
            |c: int|
                if c / exp2((e + 1) as nat) == k {
                    if bit(c, e as nat) {
                        value1
                    } else {
                        value0
                    }
                } else {
                    old(twiddle).lanes()[c]
                },
        ),
{
    let ghost before = twiddle.lanes();
    proof {
        P::lanes_len(*twiddle);
        lemma_exp2(e as nat);
        lemma_block_positions(P::width_spec(), e, k, 0);
    }
    let mut l: usize = 0;
    while l < 1usize << e
        invariant
            1usize << e == exp2(e as nat),
            e + 1 < usize::BITS,
            l <= exp2(e as nat),
            (k + 1) * exp2((e + 1) as nat) <= P::width_spec(),
            before.len() == P::width_spec(),
            twiddle.lanes().len() == P::width_spec(),
            forall|c: int|
                0 <= c < P::width_spec() ==> #[trigger] twiddle.lanes()[c] == if c / exp2(
                    (e + 1) as nat,
                ) == k && c % exp2(e as nat) < l {
                    if bit(c, e as nat) {
                        value1
                    } else {
                        value0
                    }
                } else {
                    before[c]
                },
        decreases exp2(e as nat) - l,
    {
        proof {
            lemma_block_positions(P::width_spec(), e, k, l);
        }
        let idx0: usize = k << (e + 1) | l;
        let idx1: usize = idx0 | 1 << e;
        twiddle.set(idx0, value0);
        twiddle.set(idx1, value1);
        proof {
            assert forall|c: int| 0 <= c < P::width_spec() implies #[trigger] twiddle.lanes()[c]
                == if c / exp2((e + 1) as nat) == k && c % exp2(e as nat) < l + 1 {
                if bit(c, e as nat) {
                    value1
                } else {
                    value0
                }
            } else {
                before[c]
            } by {
                if c / exp2((e + 1) as nat) == k {
                    lemma_block_position(e as nat, k as int, c);
                }
            }
        }
        l += 1;
    }
    proof {
        let after = Seq::new(
            P::width_spec() as nat,
            |c: int|
                if c / exp2((e + 1) as nat) == k {
                    if bit(c, e as nat) {
                        value1
                    } else {
                        value0
                    }
                } else {
                    before[c]
                },
        );
        assert forall|c: int| 0 <= c < P::width_spec() implies twiddle.lanes()[c] == after[c] by {
            if c / exp2((e + 1) as nat) == k {
                lemma_block_position(e as nat, k as int, c);
            }
        }
        assert(twiddle.lanes() =~= after);
    }
}

} // verus!
