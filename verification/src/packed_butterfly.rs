//! Butterflies on packed elements.
use crate::butterfly::{
    forward_block_spec, inverse_block_spec, lemma_block_position, lemma_block_positions,
};
use crate::field::Field;
use crate::index::{
    bit, exp2, high, lemma_compose, lemma_decompose, lemma_exp2, lemma_exp2_adds, lemma_exp2_fits,
    lemma_lower_bits, lemma_shl_one, lemma_shl_or, lemma_upper_bits, log2, low, power_of_two,
};
use crate::layers::{forward_butterfly, inverse_butterfly, lemma_pair};
use crate::packed::{scalars, PackedField};
use vstd::arithmetic::div_mod::{
    lemma_fundamental_div_mod, lemma_fundamental_div_mod_converse, lemma_mod_multiples_basic,
};
use vstd::arithmetic::power2::pow2;
use vstd::prelude::*;

verus! {

/// The values in one lane of a sequence of vectors.
pub open spec fn column<P: PackedField>(v: Seq<P>, l: int) -> Seq<P::Scalar> {
    Seq::new(v.len(), |q: int| v[q].lanes()[l])
}

/// The scalar at a position that is given by a vector and a lane.
pub proof fn lemma_scalar<P: PackedField>(v: Seq<P>, q: int, l: int)
    requires
        0 <= q < v.len(),
        0 <= l < P::width_spec(),
    ensures
        0 <= q * P::width_spec() + l < scalars(v).len(),
        scalars(v)[q * P::width_spec() + l] == v[q].lanes()[l],
        (q * P::width_spec() + l) / P::width_spec() as int == q,
        (q * P::width_spec() + l) % P::width_spec() as int == l,
{
    let w = P::width_spec() as int;
    assert(0 <= q * w + l < v.len() * w) by (nonlinear_arith)
        requires
            0 <= q < v.len(),
            0 <= l < w,
    ;
    lemma_fundamental_div_mod_converse(q * w + l, w, q, l);
}

/// The vector and the lane of a position.
pub proof fn lemma_position<P: PackedField>(v: Seq<P>, p: int)
    requires
        0 <= p < scalars(v).len(),
    ensures
        0 <= p / P::width_spec() as int,
        p / (P::width_spec() as int) < v.len(),
        0 <= p % P::width_spec() as int,
        p % (P::width_spec() as int) < P::width_spec(),
        p == (p / P::width_spec() as int) * P::width_spec() + p % P::width_spec() as int,
{
    let w = P::width_spec() as int;
    assert(0 < w) by (nonlinear_arith)
        requires
            0 <= p < v.len() * w,
            0 <= w,
    ;
    lemma_fundamental_div_mod(p, w);
    let q = p / w;
    assert(0 <= q < v.len() && p == q * w + p % w) by (nonlinear_arith)
        requires
            p == w * q + p % w,
            0 <= p % w < w,
            0 <= p < v.len() * w,
    ;
}

/// Forward butterflies on block `j` of layer `e` of every lane are forward butterflies on block
/// `j` of a higher layer of all scalars.
proof fn lemma_forward_columns<P: PackedField>(
    a: Seq<P>,
    v: Seq<P>,
    e: nat,
    j: int,
    t: P::Scalar,
)
    requires
        power_of_two(P::width_spec() as int),
        0 <= j,
        (j + 1) * exp2(e + 1) <= a.len(),
        v.len() == a.len(),
        forall|l: int|
            0 <= l < P::width_spec() ==> #[trigger] column(v, l) == forward_block_spec(
                column(a, l),
                e,
                j,
                t,
            ),
    ensures
        scalars(v) == forward_block_spec(scalars(a), e + log2(P::width_spec() as int), j, t),
{
    let w = log2(P::width_spec() as int);
    let flat = scalars(a);
    let next = forward_block_spec(flat, e + w, j, t);
    assert forall|p: int| 0 <= p < flat.len() implies scalars(v)[p] == next[p] by {
        lemma_position(a, p);
        let q = p / P::width_spec() as int;
        let l = p % P::width_spec() as int;
        lemma_upper_bits(p, w, e);
        let c = column(a, l);
        assert(column(v, l)[q] == forward_block_spec(c, e, j, t)[q]);
        lemma_scalar(a, q, l);
        if q / exp2(e + 1) == j {
            lemma_exp2(e);
            lemma_fundamental_div_mod(q, exp2(e + 1));
            assert(q < (j + 1) * exp2(e + 1)) by (nonlinear_arith)
                requires
                    q == exp2(e + 1) * j + q % exp2(e + 1),
                    q % exp2(e + 1) < exp2(e + 1),
            ;
            lemma_pair(e, j + 1, q);
            lemma_scalar(a, low(q, e), l);
            lemma_scalar(a, high(q, e), l);
        }
    }
    assert(scalars(v) =~= next);
}

/// Applies forward butterflies with one twiddle factor to block `j` of layer `e` of packed
/// elements.
pub fn forward_block_packed<P: PackedField>(
    data: &mut Vec<P>,
    e: usize,
    j: usize,
    twiddle: P::Scalar,
)
    requires
        power_of_two(P::width_spec() as int),
        (j + 1) * exp2((e + 1) as nat) <= old(data)@.len(),
    ensures
        final(data)@.len() == old(data)@.len(),
        scalars(final(data)@) == forward_block_spec(
            scalars(old(data)@),
            e as nat + log2(P::width_spec() as int),
            j as int,
            twiddle,
        ),
{
    let ghost a = data@;
    proof {
        lemma_exp2(e as nat);
        assert(data@.len() == data.len());
        lemma_block_positions(data.len(), e, j, 0);
    }
    let mut k: usize = 0;
    while k < 1usize << e
        invariant
            1usize << e == exp2(e as nat),
            e + 1 < usize::BITS,
            k <= exp2(e as nat),
            (j + 1) * exp2((e + 1) as nat) <= a.len(),
            data@.len() == a.len(),
            forall|q: int, l: int|
                0 <= q < a.len() && 0 <= l < P::width_spec() ==> #[trigger] data@[q].lanes()[l]
                    == if q / exp2((e + 1) as nat) == j && q % exp2(e as nat) < k {
                    forward_butterfly(column(a, l), e as nat, twiddle, q)
                } else {
                    a[q].lanes()[l]
                },
        decreases exp2(e as nat) - k,
    {
        proof {
            assert(data@.len() == data.len());
            lemma_block_positions(data.len(), e, j, k);
        }
        let idx0: usize = j << (e + 1) | k;
        let idx1: usize = idx0 | 1 << e;
        data[idx0] = data[idx0].add_lanes(data[idx1].scale_lanes(twiddle));
        data[idx1] = data[idx1].add_lanes(data[idx0]);
        proof {
            assert forall|q: int, l: int|
                0 <= q < a.len() && 0 <= l < P::width_spec() implies #[trigger] data@[q].lanes()[l]
                == if q / exp2((e + 1) as nat) == j && q % exp2(e as nat) < k + 1 {
                forward_butterfly(column(a, l), e as nat, twiddle, q)
            } else {
                a[q].lanes()[l]
            } by {
                if q / exp2((e + 1) as nat) == j {
                    lemma_block_position(e as nat, j as int, q);
                }
            }
        }
        k += 1;
    }
    proof {
        assert forall|l: int| 0 <= l < P::width_spec() implies #[trigger] column(data@, l)
            == forward_block_spec(column(a, l), e as nat, j as int, twiddle) by {
            let c = column(data@, l);
            let d = forward_block_spec(column(a, l), e as nat, j as int, twiddle);
            assert forall|q: int| 0 <= q < a.len() implies c[q] == d[q] by {
                assert(c[q] == data@[q].lanes()[l]);
                if q / exp2((e + 1) as nat) == j {
                    lemma_block_position(e as nat, j as int, q);
                }
            }
            assert(c =~= d);
        }
        lemma_forward_columns(a, data@, e as nat, j as int, twiddle);
    }
}

/// Inverse butterflies on block `j` of layer `e` of every lane are inverse butterflies on block
/// `j` of a higher layer of all scalars.
proof fn lemma_inverse_columns<P: PackedField>(
    a: Seq<P>,
    v: Seq<P>,
    e: nat,
    j: int,
    t: P::Scalar,
)
    requires
        power_of_two(P::width_spec() as int),
        0 <= j,
        (j + 1) * exp2(e + 1) <= a.len(),
        v.len() == a.len(),
        forall|l: int|
            0 <= l < P::width_spec() ==> #[trigger] column(v, l) == inverse_block_spec(
                column(a, l),
                e,
                j,
                t,
            ),
    ensures
        scalars(v) == inverse_block_spec(scalars(a), e + log2(P::width_spec() as int), j, t),
{
    let w = log2(P::width_spec() as int);
    let flat = scalars(a);
    let next = inverse_block_spec(flat, e + w, j, t);
    assert forall|p: int| 0 <= p < flat.len() implies scalars(v)[p] == next[p] by {
        lemma_position(a, p);
        let q = p / P::width_spec() as int;
        let l = p % P::width_spec() as int;
        lemma_upper_bits(p, w, e);
        let c = column(a, l);
        assert(column(v, l)[q] == inverse_block_spec(c, e, j, t)[q]);
        lemma_scalar(a, q, l);
        if q / exp2(e + 1) == j {
            lemma_exp2(e);
            lemma_fundamental_div_mod(q, exp2(e + 1));
            assert(q < (j + 1) * exp2(e + 1)) by (nonlinear_arith)
                requires
                    q == exp2(e + 1) * j + q % exp2(e + 1),
                    q % exp2(e + 1) < exp2(e + 1),
            ;
            lemma_pair(e, j + 1, q);
            lemma_scalar(a, low(q, e), l);
            lemma_scalar(a, high(q, e), l);
        }
    }
    assert(scalars(v) =~= next);
}

/// Applies inverse butterflies with one twiddle factor to block `j` of layer `e` of packed
/// elements.
pub fn inverse_block_packed<P: PackedField>(
    data: &mut Vec<P>,
    e: usize,
    j: usize,
    twiddle: P::Scalar,
)
    requires
        power_of_two(P::width_spec() as int),
        (j + 1) * exp2((e + 1) as nat) <= old(data)@.len(),
    ensures
        final(data)@.len() == old(data)@.len(),
        scalars(final(data)@) == inverse_block_spec(
            scalars(old(data)@),
            e as nat + log2(P::width_spec() as int),
            j as int,
            twiddle,
        ),
{
    let ghost a = data@;
    proof {
        lemma_exp2(e as nat);
        assert(data@.len() == data.len());
        lemma_block_positions(data.len(), e, j, 0);
    }
    let mut k: usize = 0;
    while k < 1usize << e
        invariant
            1usize << e == exp2(e as nat),
            e + 1 < usize::BITS,
            k <= exp2(e as nat),
            (j + 1) * exp2((e + 1) as nat) <= a.len(),
            data@.len() == a.len(),
            forall|q: int, l: int|
                0 <= q < a.len() && 0 <= l < P::width_spec() ==> #[trigger] data@[q].lanes()[l]
                    == if q / exp2((e + 1) as nat) == j && q % exp2(e as nat) < k {
                    inverse_butterfly(column(a, l), e as nat, twiddle, q)
                } else {
                    a[q].lanes()[l]
                },
        decreases exp2(e as nat) - k,
    {
        proof {
            assert(data@.len() == data.len());
            lemma_block_positions(data.len(), e, j, k);
        }
        let idx0: usize = j << (e + 1) | k;
        let idx1: usize = idx0 | 1 << e;
        data[idx1] = data[idx1].add_lanes(data[idx0]);
        data[idx0] = data[idx0].add_lanes(data[idx1].scale_lanes(twiddle));
        proof {
            assert forall|q: int, l: int|
                0 <= q < a.len() && 0 <= l < P::width_spec() implies #[trigger] data@[q].lanes()[l]
                == if q / exp2((e + 1) as nat) == j && q % exp2(e as nat) < k + 1 {
                inverse_butterfly(column(a, l), e as nat, twiddle, q)
            } else {
                a[q].lanes()[l]
            } by {
                if q / exp2((e + 1) as nat) == j {
                    lemma_block_position(e as nat, j as int, q);
                }
            }
        }
        k += 1;
    }
    proof {
        assert forall|l: int| 0 <= l < P::width_spec() implies #[trigger] column(data@, l)
            == inverse_block_spec(column(a, l), e as nat, j as int, twiddle) by {
            let c = column(data@, l);
            let d = inverse_block_spec(column(a, l), e as nat, j as int, twiddle);
            assert forall|q: int| 0 <= q < a.len() implies c[q] == d[q] by {
                assert(c[q] == data@[q].lanes()[l]);
                if q / exp2((e + 1) as nat) == j {
                    lemma_block_position(e as nat, j as int, q);
                }
            }
            assert(c =~= d);
        }
        lemma_inverse_columns(a, data@, e as nat, j as int, twiddle);
    }
}

/// The lane of the twiddle factor for position `p` when two vectors of `exp2(w)` lanes are
/// interleaved by blocks of `exp2(e)` lanes: its bit `e` tells the two vectors apart.
pub open spec fn twiddle_lane(w: nat, e: nat, p: int) -> int {
    if bit(p, w) {
        high(p % exp2(w), e)
    } else {
        low(p % exp2(w), e)
    }
}

/// Interleaving by blocks of `exp2(e)` lanes, as far as it concerns bit `e` of a lane.
proof fn lemma_interleave_bits(width: int, e: usize, l: int)
    requires
        power_of_two(width),
        e < log2(width),
        0 <= l < width,
    ensures
        0 <= low(l, e as nat) < high(l, e as nat) < width,
        low(low(l, e as nat), e as nat) == low(l, e as nat),
        high(low(l, e as nat), e as nat) == high(l, e as nat),
        low(high(l, e as nat), e as nat) == low(l, e as nat),
        high(high(l, e as nat), e as nat) == high(l, e as nat),
        !bit(low(l, e as nat), e as nat),
        bit(high(l, e as nat), e as nat),
        l == if bit(l, e as nat) {
            high(l, e as nat)
        } else {
            low(l, e as nat)
        },
        bit(l, e as nat) <==> (l / exp2(e as nat)) % 2 != 0,
{
    let w = log2(width);
    lemma_exp2_adds((w - e - 1) as nat, (e + 1) as nat);
    assert((w - e - 1) as nat + (e + 1) as nat == w);
    lemma_pair(e as nat, exp2((w - e - 1) as nat), l);
}

/// A vector can be interleaved by blocks of `exp2(e)` lanes if `e` is smaller than the logarithm
/// of its width.
proof fn lemma_interleave_fits(width: usize, e: usize)
    requires
        power_of_two(width as int),
        e < log2(width as int),
    ensures
        e < usize::BITS,
        1usize << e == exp2(e as nat),
        exp2(e as nat) > 0,
        width as int % (2 * exp2(e as nat)) == 0,
{
    let w = log2(width as int);
    lemma_exp2_fits(w);
    lemma_shl_one(e);
    lemma_exp2(e as nat);
    lemma_exp2_adds((w - e - 1) as nat, (e + 1) as nat);
    assert((w - e - 1) as nat + (e + 1) as nat == w);
    lemma_mod_multiples_basic(exp2((w - e - 1) as nat), exp2((e + 1) as nat));
}

/// The sequence `a` with pair `j` of vectors of `exp2(w)` lanes replaced by forward butterflies
/// on bit `e`, which is a bit of the lane.
pub open spec fn forward_pair_spec<E: Field>(
    a: Seq<E>,
    w: nat,
    e: nat,
    j: int,
    twiddle: Seq<E>,
) -> Seq<E> {
    Seq::new(
        a.len(),
        |p: int|
            if p / exp2(w + 1) == j {
                forward_butterfly(a, e, twiddle[twiddle_lane(w, e, p)], p)
            } else {
                a[p]
            },
    )
}

/// Applies forward butterflies to lanes of the packed elements `2 * j` and `2 * j + 1` that differ
/// in bit `e`.
pub fn forward_pair_packed<P: PackedField>(data: &mut Vec<P>, e: usize, j: usize, twiddle: P)
    requires
        power_of_two(P::width_spec() as int),
        e < log2(P::width_spec() as int),
        2 * j + 1 < old(data)@.len(),
    ensures
        final(data)@.len() == old(data)@.len(),
        scalars(final(data)@) == forward_pair_spec(
            scalars(old(data)@),
            log2(P::width_spec() as int),
            e as nat,
            j as int,
            twiddle.lanes(),
        ),
{
    let ghost a = data@;
    let ghost n = e as nat;
    proof {
        assert(data@.len() == data.len());
        lemma_interleave_fits(P::width_spec(), e);
        lemma_exp2(0);
        assert(exp2(1) == 2) by {
            assert(exp2(0 + 1) == 2 * exp2(0));
        }
        lemma_shl_or(j, 1, 0);
        lemma_shl_or(j, 1, 1);
    }
    let idx0: usize = j << 1;
    let idx1: usize = j << 1 | 1;
    let (u, v) = data[idx0].interleave(data[idx1], 1 << e);
    let u2 = u.add_lanes(v.mul_lanes(twiddle));
    let v2 = v.add_lanes(u2);
    let (x, y) = u2.interleave(v2, 1 << e);
    data[idx0] = x;
    data[idx1] = y;
    proof {
        let x0 = a[2 * j].lanes();
        let x1 = a[2 * j + 1].lanes();
        let t = twiddle.lanes();
        assert forall|l: int| 0 <= l < P::width_spec() implies x.lanes()[l] == forward_butterfly(
            x0,
            n,
            t[low(l, n)],
            l,
        ) && y.lanes()[l] == forward_butterfly(x1, n, t[high(l, n)], l) by {
            lemma_interleave_bits(P::width_spec() as int, e, l);
            lemma_interleave_bits(P::width_spec() as int, e, low(l, n));
            lemma_interleave_bits(P::width_spec() as int, e, high(l, n));
        }
        let w = log2(P::width_spec() as int);
        let flat = scalars(a);
        let next = forward_pair_spec(flat, w, n, j as int, t);
        assert forall|p: int| 0 <= p < flat.len() implies scalars(data@)[p] == next[p] by {
            lemma_position(a, p);
            let q = p / P::width_spec() as int;
            let l = p % P::width_spec() as int;
            lemma_lower_bits(p, w, n);
            lemma_decompose(w, p);
            lemma_scalar(a, q, l);
            lemma_scalar(a, q, low(l, n));
            lemma_scalar(a, q, high(l, n));
            assert(q == 2 * (p / exp2(w + 1)) + if bit(p, w) { 1int } else { 0int });
            assert(scalars(data@)[p] == data@[q].lanes()[l]);
        }
        assert(scalars(data@) =~= next);
    }
}

/// The sequence `a` with pair `j` of vectors of `exp2(w)` lanes replaced by inverse butterflies
/// on bit `e`, which is a bit of the lane.
pub open spec fn inverse_pair_spec<E: Field>(
    a: Seq<E>,
    w: nat,
    e: nat,
    j: int,
    twiddle: Seq<E>,
) -> Seq<E> {
    Seq::new(
        a.len(),
        |p: int|
            if p / exp2(w + 1) == j {
                inverse_butterfly(a, e, twiddle[twiddle_lane(w, e, p)], p)
            } else {
                a[p]
            },
    )
}

/// Applies inverse butterflies to lanes of the packed elements `2 * j` and `2 * j + 1` that differ
/// in bit `e`.
pub fn inverse_pair_packed<P: PackedField>(data: &mut Vec<P>, e: usize, j: usize, twiddle: P)
    requires
        power_of_two(P::width_spec() as int),
        e < log2(P::width_spec() as int),
        2 * j + 1 < old(data)@.len(),
    ensures
        final(data)@.len() == old(data)@.len(),
        scalars(final(data)@) == inverse_pair_spec(
            scalars(old(data)@),
            log2(P::width_spec() as int),
            e as nat,
            j as int,
            twiddle.lanes(),
        ),
{
    let ghost a = data@;
    let ghost n = e as nat;
    proof {
        assert(data@.len() == data.len());
        lemma_interleave_fits(P::width_spec(), e);
        lemma_exp2(0);
        assert(exp2(1) == 2) by {
            assert(exp2(0 + 1) == 2 * exp2(0));
        }
        lemma_shl_or(j, 1, 0);
        lemma_shl_or(j, 1, 1);
    }
    let idx0: usize = j << 1;
    let idx1: usize = j << 1 | 1;
    let (u, v) = data[idx0].interleave(data[idx1], 1 << e);
    let v2 = v.add_lanes(u);
    let u2 = u.add_lanes(v2.mul_lanes(twiddle));
    let (x, y) = u2.interleave(v2, 1 << e);
    data[idx0] = x;
    data[idx1] = y;
    proof {
        let x0 = a[2 * j].lanes();
        let x1 = a[2 * j + 1].lanes();
        let t = twiddle.lanes();
        assert forall|l: int| 0 <= l < P::width_spec() implies x.lanes()[l] == inverse_butterfly(
            x0,
            n,
            t[low(l, n)],
            l,
        ) && y.lanes()[l] == inverse_butterfly(x1, n, t[high(l, n)], l) by {
            lemma_interleave_bits(P::width_spec() as int, e, l);
            lemma_interleave_bits(P::width_spec() as int, e, low(l, n));
            lemma_interleave_bits(P::width_spec() as int, e, high(l, n));
        }
        let w = log2(P::width_spec() as int);
        let flat = scalars(a);
        let next = inverse_pair_spec(flat, w, n, j as int, t);
        assert forall|p: int| 0 <= p < flat.len() implies scalars(data@)[p] == next[p] by {
            lemma_position(a, p);
            let q = p / P::width_spec() as int;
            let l = p % P::width_spec() as int;
            lemma_lower_bits(p, w, n);
            lemma_decompose(w, p);
            lemma_scalar(a, q, l);
            lemma_scalar(a, q, low(l, n));
            lemma_scalar(a, q, high(l, n));
            assert(q == 2 * (p / exp2(w + 1)) + if bit(p, w) { 1int } else { 0int });
            assert(scalars(data@)[p] == data@[q].lanes()[l]);
        }
        assert(scalars(data@) =~= next);
    }
}

/// Pair `j` consists of two vectors of `pow2(w)` scalars. In each of them, a forward butterfly
/// works on lane `l` and the lane `pow2(e)` after it, with the twiddle factor in the first of these
/// two lanes for the first vector and the one in the second for the second. The other pairs stay as
/// they are.
pub proof fn law_forward_pair<E: Field>(
    a: Seq<E>,
    w: nat,
    e: nat,
    j: int,
    twiddle: Seq<E>,
    q: int,
    k: int,
    p: int,
)
    requires
        e < w,
        0 <= j,
        (j + 1) * pow2(w + 1) <= a.len(),
        0 <= q < pow2((w - e - 1) as nat),
        0 <= k < pow2(e),
        0 <= p < a.len(),
        p < j * pow2(w + 1) || (j + 1) * pow2(w + 1) <= p,
    ensures
        ({
            let after = forward_pair_spec(a, w, e, j, twiddle);
            let l = q * pow2(e + 1) + k;
            let x = j * pow2(w + 1) + l;
            let y = x + pow2(w);
            &&& after.len() == a.len()
            &&& after[x] == a[x].plus(a[x + pow2(e)].times(twiddle[l]))
            &&& after[x + pow2(e)] == a[x + pow2(e)].plus(after[x])
            &&& after[y] == a[y].plus(a[y + pow2(e)].times(twiddle[l + pow2(e)]))
            &&& after[y + pow2(e)] == a[y + pow2(e)].plus(after[y])
            &&& after[p] == a[p]
        }),
{
    let l = q * exp2(e + 1) + k;
    let h = exp2(e);
    let b = exp2(w + 1);
    let x = j * b + l;
    let y = x + exp2(w);
    lemma_exp2(e);
    lemma_exp2(w);
    lemma_exp2_adds((w - e - 1) as nat, e + 1);
    assert((w - e - 1) as nat + (e + 1) == w);
    assert(0 <= l && l + h < exp2(w)) by (nonlinear_arith)
        requires
            l == q * exp2(e + 1) + k,
            0 <= k < h,
            exp2(e + 1) == 2 * h,
            0 <= q < exp2((w - e - 1) as nat),
            exp2(w) == exp2((w - e - 1) as nat) * exp2(e + 1),
    ;
    assert((j + 1) * b == j * b + b && 0 <= j * b) by (nonlinear_arith)
        requires
            0 <= j,
            0 < b,
    ;
    lemma_fundamental_div_mod(p, b);
    assert(p / b != j) by (nonlinear_arith)
        requires
            p < j * b || j * b + b <= p,
            p == b * (p / b) + p % b,
            0 <= p % b < b,
    ;
    lemma_pair_position(w, e, j, 0, l, q, k);
    lemma_pair_position(w, e, j, 1, l, q, k);
}

/// Pair `j` consists of two vectors of `pow2(w)` scalars. In each of them, an inverse butterfly
/// works on lane `l` and the lane `pow2(e)` after it, with the twiddle factor in the first of these
/// two lanes for the first vector and the one in the second for the second. The other pairs stay as
/// they are.
pub proof fn law_inverse_pair<E: Field>(
    a: Seq<E>,
    w: nat,
    e: nat,
    j: int,
    twiddle: Seq<E>,
    q: int,
    k: int,
    p: int,
)
    requires
        e < w,
        0 <= j,
        (j + 1) * pow2(w + 1) <= a.len(),
        0 <= q < pow2((w - e - 1) as nat),
        0 <= k < pow2(e),
        0 <= p < a.len(),
        p < j * pow2(w + 1) || (j + 1) * pow2(w + 1) <= p,
    ensures
        ({
            let after = inverse_pair_spec(a, w, e, j, twiddle);
            let l = q * pow2(e + 1) + k;
            let x = j * pow2(w + 1) + l;
            let y = x + pow2(w);
            &&& after.len() == a.len()
            &&& after[x + pow2(e)] == a[x + pow2(e)].plus(a[x])
            &&& after[x] == a[x].plus(after[x + pow2(e)].times(twiddle[l]))
            &&& after[y + pow2(e)] == a[y + pow2(e)].plus(a[y])
            &&& after[y] == a[y].plus(after[y + pow2(e)].times(twiddle[l + pow2(e)]))
            &&& after[p] == a[p]
        }),
{
    let l = q * exp2(e + 1) + k;
    let h = exp2(e);
    let b = exp2(w + 1);
    let x = j * b + l;
    let y = x + exp2(w);
    lemma_exp2(e);
    lemma_exp2(w);
    lemma_exp2_adds((w - e - 1) as nat, e + 1);
    assert((w - e - 1) as nat + (e + 1) == w);
    assert(0 <= l && l + h < exp2(w)) by (nonlinear_arith)
        requires
            l == q * exp2(e + 1) + k,
            0 <= k < h,
            exp2(e + 1) == 2 * h,
            0 <= q < exp2((w - e - 1) as nat),
            exp2(w) == exp2((w - e - 1) as nat) * exp2(e + 1),
    ;
    assert((j + 1) * b == j * b + b && 0 <= j * b) by (nonlinear_arith)
        requires
            0 <= j,
            0 < b,
    ;
    lemma_fundamental_div_mod(p, b);
    assert(p / b != j) by (nonlinear_arith)
        requires
            p < j * b || j * b + b <= p,
            p == b * (p / b) + p % b,
            0 <= p % b < b,
    ;
    lemma_pair_position(w, e, j, 0, l, q, k);
    lemma_pair_position(w, e, j, 1, l, q, k);
}

/// The positions of a butterfly in the first or second vector of pair `j`.
proof fn lemma_pair_position(w: nat, e: nat, j: int, second: int, l: int, q: int, k: int)
    requires
        e < w,
        0 <= j,
        second == 0 || second == 1,
        0 <= q,
        0 <= k < exp2(e),
        l == q * exp2(e + 1) + k,
        0 <= l,
        l + exp2(e) < exp2(w),
    ensures
        ({
            let x = j * exp2(w + 1) + second * exp2(w) + l;
            let y = x + exp2(e);
            &&& x / exp2(w + 1) == j
            &&& y / exp2(w + 1) == j
            &&& !bit(x, e)
            &&& bit(y, e)
            &&& low(x, e) == x
            &&& high(x, e) == y
            &&& low(y, e) == x
            &&& high(y, e) == y
            &&& twiddle_lane(w, e, x) == if second == 1 { l + exp2(e) } else { l }
            &&& twiddle_lane(w, e, y) == if second == 1 { l + exp2(e) } else { l }
        }),
{
    let h = exp2(e);
    let x = j * exp2(w + 1) + second * exp2(w) + l;
    lemma_exp2(e);
    lemma_exp2(w);
    // The bits of the lane.
    lemma_compose(e, q, 0, k);
    lemma_compose(e, q, 1, k);
    assert((2 * q + 0) * h + k == l && (2 * q + 1) * h + k == l + h) by (nonlinear_arith)
        requires
            l == q * exp2(e + 1) + k,
            exp2(e + 1) == 2 * h,
    ;
    // The bits of the position.
    lemma_compose(w, j, second, l);
    lemma_compose(w, j, second, l + h);
    assert((2 * j + second) * exp2(w) + l == x) by (nonlinear_arith)
        requires
            x == j * exp2(w + 1) + second * exp2(w) + l,
            exp2(w + 1) == 2 * exp2(w),
    ;
    lemma_lower_bits(x, w, e);
    lemma_lower_bits(x + h, w, e);
}

} // verus!
