//! Positions in a sequence of power-of-two length, seen as strings of bits.
use vstd::arithmetic::div_mod::{
    lemma_div_denominator, lemma_fundamental_div_mod, lemma_fundamental_div_mod_converse,
};
use vstd::arithmetic::power2::{
    lemma2_to64, lemma2_to64_rest, lemma_pow2_adds, lemma_pow2_pos, lemma_pow2_strictly_increases,
    lemma_pow2_unfold, pow2,
};
use vstd::bits::{
    lemma_u32_shr_is_div, lemma_u64_pow2_no_overflow, lemma_u64_shl_is_mul,
    lemma_usize_pow2_no_overflow, lemma_usize_shl_is_mul, lemma_usize_shr_is_div,
};
use vstd::prelude::*;
use vstd::std_specs::bits::{axiom_u32_leading_zeros, axiom_u64_trailing_zeros, u64_trailing_zeros};

verus! {

/// Two to the power of `i`.
pub open spec fn exp2(i: nat) -> int {
    pow2(i) as int
}

/// Whether bit `i` of the position `p` is set.
pub open spec fn bit(p: int, i: nat) -> bool {
    (p / exp2(i)) % 2 == 1
}

/// The position `p` with bit `i` cleared.
pub open spec fn low(p: int, i: nat) -> int {
    if bit(p, i) {
        p - exp2(i)
    } else {
        p
    }
}

/// The position `p` with bit `i` set.
pub open spec fn high(p: int, i: nat) -> int {
    low(p, i) + exp2(i)
}

/// Powers of two are positive, and double from one exponent to the next.
pub proof fn lemma_exp2(i: nat)
    ensures
        exp2(i) > 0,
        exp2(i + 1) == 2 * exp2(i),
        exp2(0) == 1,
{
    lemma_pow2_pos(i);
    lemma_pow2_unfold(i + 1);
    lemma2_to64();
}

/// The exponents of a product of powers of two add up.
pub proof fn lemma_exp2_adds(i: nat, j: nat)
    ensures
        exp2(i + j) == exp2(i) * exp2(j),
{
    lemma_pow2_adds(i, j);
}

/// Powers of two grow with their exponents.
pub proof fn lemma_exp2_monotone(i: nat, j: nat)
    requires
        i <= j,
    ensures
        exp2(i) <= exp2(j),
        i < j ==> exp2(i) < exp2(j),
{
    if i < j {
        lemma_pow2_strictly_increases(i, j);
    }
}

/// Reads off the bits of a position that is put together from the bits above `i`, bit `i` and the
/// bits below it.
pub proof fn lemma_compose(i: nat, q: int, b: int, k: int)
    requires
        0 <= q,
        b == 0 || b == 1,
        0 <= k < exp2(i),
    ensures
        ({
            let p = (2 * q + b) * exp2(i) + k;
            &&& p >= 0
            &&& p == q * exp2(i + 1) + b * exp2(i) + k
            &&& p / exp2(i) == 2 * q + b
            &&& p % exp2(i) == k
            &&& p / exp2(i + 1) == q
            &&& p % exp2(i + 1) == b * exp2(i) + k
            &&& bit(p, i) == (b == 1)
            &&& low(p, i) == q * exp2(i + 1) + k
            &&& high(p, i) == q * exp2(i + 1) + exp2(i) + k
        }),
{
    lemma_exp2(i);
    let e = exp2(i);
    let p = (2 * q + b) * e + k;
    assert(p == q * exp2(i + 1) + b * e + k && p >= 0) by (nonlinear_arith)
        requires
            p == (2 * q + b) * e + k,
            exp2(i + 1) == 2 * e,
            0 <= q,
            0 <= k,
            0 < e,
            b == 0 || b == 1,
    ;
    lemma_fundamental_div_mod_converse(p, e, 2 * q + b, k);
    lemma_fundamental_div_mod_converse(p, exp2(i + 1), q, b * e + k);
}

/// Takes a position apart into the bits above `i`, bit `i` and the bits below it.
pub proof fn lemma_decompose(i: nat, p: int)
    requires
        0 <= p,
    ensures
        ({
            let q = p / exp2(i + 1);
            let b = if bit(p, i) { 1int } else { 0int };
            let k = p % exp2(i);
            &&& 0 <= q <= p
            &&& 0 <= k < exp2(i)
            &&& p == (2 * q + b) * exp2(i) + k
            &&& p == q * exp2(i + 1) + b * exp2(i) + k
            &&& p / exp2(i) == 2 * q + b
            &&& p % exp2(i + 1) == b * exp2(i) + k
            &&& low(p, i) == q * exp2(i + 1) + k
            &&& high(p, i) == q * exp2(i + 1) + exp2(i) + k
        }),
{
    lemma_exp2(i);
    let e = exp2(i);
    let k = p % e;
    let h = p / e;
    lemma_fundamental_div_mod(p, e);
    assert(0 <= h) by (nonlinear_arith)
        requires
            p == e * h + k,
            0 <= p,
            0 <= k < e,
    ;
    let q = h / 2;
    let b = h % 2;
    assert(p == (2 * q + b) * e + k) by (nonlinear_arith)
        requires
            p == e * h + k,
            h == 2 * q + b,
    ;
    lemma_compose(i, q, b, k);
    assert(q <= p) by (nonlinear_arith)
        requires
            p == (2 * q + b) * e + k,
            0 <= q,
            0 <= b,
            0 <= k,
            1 <= e,
    ;
}

/// The bits of a position from bit `w` on are the bits of the position divided by `exp2(w)`.
pub proof fn lemma_upper_bits(p: int, w: nat, e: nat)
    requires
        0 <= p,
    ensures
        ({
            let q = p / exp2(w);
            let l = p % exp2(w);
            &&& 0 <= q
            &&& 0 <= l < exp2(w)
            &&& p == q * exp2(w) + l
            &&& bit(p, e + w) == bit(q, e)
            &&& low(p, e + w) == low(q, e) * exp2(w) + l
            &&& high(p, e + w) == high(q, e) * exp2(w) + l
            &&& p / exp2(e + w + 1) == q / exp2(e + 1)
        }),
{
    let q = p / exp2(w);
    let l = p % exp2(w);
    lemma_exp2(w);
    lemma_exp2(e);
    lemma_fundamental_div_mod(p, exp2(w));
    assert(0 <= q && p == q * exp2(w) + l) by (nonlinear_arith)
        requires
            p == exp2(w) * q + l,
            0 <= p,
            l < exp2(w),
            exp2(w) > 0,
    ;
    lemma_exp2_adds(w, e);
    lemma_div_denominator(p, exp2(w), exp2(e));
    lemma_exp2_adds(w, e + 1);
    lemma_exp2(e + 1);
    lemma_div_denominator(p, exp2(w), exp2(e + 1));
    assert(w + e == e + w);
    assert(w + (e + 1) == e + w + 1);
    assert((q - exp2(e)) * exp2(w) + l == p - exp2(e + w)) by (nonlinear_arith)
        requires
            p == q * exp2(w) + l,
            exp2(e + w) == exp2(w) * exp2(e),
    ;
    let g = low(q, e);
    assert((g + exp2(e)) * exp2(w) + l == g * exp2(w) + l + exp2(e + w)) by (nonlinear_arith)
        requires
            exp2(e + w) == exp2(w) * exp2(e),
    ;
}

/// The bits of a position below bit `w` are the bits of the position modulo `exp2(w)`.
pub proof fn lemma_lower_bits(p: int, w: nat, e: nat)
    requires
        0 <= p,
        e < w,
    ensures
        ({
            let q = p / exp2(w);
            let l = p % exp2(w);
            &&& 0 <= q
            &&& 0 <= l < exp2(w)
            &&& p == q * exp2(w) + l
            &&& bit(p, e) == bit(l, e)
            &&& low(p, e) == q * exp2(w) + low(l, e)
            &&& high(p, e) == q * exp2(w) + high(l, e)
            &&& 0 <= low(l, e) < high(l, e) < exp2(w)
            &&& p / exp2(e + 1) == q * exp2((w - e - 1) as nat) + l / exp2(e + 1)
            &&& 0 <= l / exp2(e + 1) < exp2((w - e - 1) as nat)
        }),
{
    let q = p / exp2(w);
    let l = p % exp2(w);
    let c = exp2((w - e - 1) as nat);
    lemma_exp2(w);
    lemma_exp2(e);
    lemma_exp2((w - e - 1) as nat);
    lemma_fundamental_div_mod(p, exp2(w));
    lemma_exp2_adds((w - e - 1) as nat, e + 1);
    assert((w - e - 1) as nat + (e + 1) == w);
    assert(0 <= q && p == q * exp2(w) + l) by (nonlinear_arith)
        requires
            p == exp2(w) * q + l,
            0 <= p,
            l < exp2(w),
            exp2(w) > 0,
    ;
    lemma_decompose(e, l);
    let h = l / exp2(e + 1);
    let b = if bit(l, e) { 1int } else { 0int };
    let k = l % exp2(e);
    assert(p == (2 * (q * c + h) + b) * exp2(e) + k) by (nonlinear_arith)
        requires
            p == q * exp2(w) + l,
            exp2(w) == c * exp2(e + 1),
            exp2(e + 1) == 2 * exp2(e),
            l == (2 * h + b) * exp2(e) + k,
    ;
    assert(0 <= q * c) by (nonlinear_arith)
        requires
            0 <= q,
            0 < c,
    ;
    assert(h < c && (h + 1) * exp2(e + 1) <= exp2(w)) by (nonlinear_arith)
        requires
            exp2(w) == c * exp2(e + 1),
            h * exp2(e + 1) <= l < exp2(w),
            exp2(e + 1) > 0,
    ;
    assert((h + 1) * exp2(e + 1) == h * exp2(e + 1) + exp2(e + 1)) by (nonlinear_arith);
    assert(0 <= h * exp2(e + 1)) by (nonlinear_arith)
        requires
            0 <= h,
            exp2(e + 1) > 0,
    ;
    lemma_compose(e, q * c + h, b, k);
    assert((q * c + h) * exp2(e + 1) == q * exp2(w) + h * exp2(e + 1)) by (nonlinear_arith)
        requires
            exp2(w) == c * exp2(e + 1),
    ;
}

/// Whether `n` is a power of two.
pub open spec fn power_of_two(n: int) -> bool {
    exists|k: nat| n == #[trigger] exp2(k)
}

/// The exponent of a power of two.
pub open spec fn log2(n: int) -> nat {
    choose|k: nat| n == #[trigger] exp2(k)
}

/// The number of binary digits of `x`.
pub open spec fn bit_length(x: int) -> nat
    decreases x,
{
    if x <= 0 {
        0
    } else {
        1 + bit_length(x / 2)
    }
}

/// The exponent of a power of two is unique.
pub proof fn lemma_log2(k: nat)
    ensures
        power_of_two(exp2(k)),
        log2(exp2(k)) == k,
{
    let l = log2(exp2(k));
    if l < k {
        lemma_exp2_monotone(l, k);
    } else if k < l {
        lemma_exp2_monotone(k, l);
    }
}

/// The number of binary digits of `x` is the exponent of the first power of two above it.
pub proof fn lemma_bit_length(x: int, b: nat)
    requires
        0 <= x < exp2(b),
        b > 0 ==> exp2((b - 1) as nat) <= x,
    ensures
        bit_length(x) == b,
    decreases b,
{
    lemma_exp2(0);
    if b > 0 {
        let c = (b - 1) as nat;
        lemma_exp2(c);
        if c > 0 {
            lemma_exp2((c - 1) as nat);
        }
        lemma_bit_length(x / 2, c);
    }
}

/// An exponent whose power of two is a machine word is smaller than the word's width.
pub proof fn lemma_exp2_fits(i: nat)
    ensures
        exp2(i) <= usize::MAX <==> i < usize::BITS,
{
    lemma2_to64();
    lemma2_to64_rest();
    if i < usize::BITS {
        lemma_usize_pow2_no_overflow(i);
    } else {
        lemma_exp2_monotone(usize::BITS as nat, i);
    }
}

/// Shifting a one to the left gives a power of two.
pub proof fn lemma_shl_one(i: usize)
    requires
        i < usize::BITS,
    ensures
        1usize << i == exp2(i as nat),
{
    lemma_usize_pow2_no_overflow(i as nat);
    lemma_usize_shl_is_mul(1, i);
}

/// Placing bits below a shifted number adds them to it.
pub proof fn lemma_shl_or(j: usize, s: usize, k: usize)
    requires
        s < usize::BITS,
        j * exp2(s as nat) <= usize::MAX,
        k < exp2(s as nat),
    ensures
        j << s == j * exp2(s as nat),
        (j << s) | k == j * exp2(s as nat) + k,
{
    lemma_usize_shl_is_mul(j, s);
    lemma_shl_one(s);
    assert((j << s) | k == (j << s) + k) by (bit_vector)
        requires
            s < usize::BITS,
            k < (1usize << s),
    ;
}

/// Setting a clear bit adds its power of two.
pub proof fn lemma_or_bit(p: usize, i: usize)
    requires
        i < usize::BITS,
        !bit(p as int, i as nat),
    ensures
        p | (1usize << i) == p + exp2(i as nat),
{
    lemma_shl_one(i);
    lemma_usize_shr_is_div(p, i);
    let x = p >> i;
    assert(x % 2 == 0);
    assert(p | (1usize << i) == p + (1usize << i)) by (bit_vector)
        requires
            i < usize::BITS,
            x == p >> i,
            x % 2 == 0,
    ;
}

/// A one that is shifted to the left within a word gives a power of two.
proof fn lemma_shl_one_u64(i: u64)
    requires
        i < 64,
    ensures
        1u64 << i == exp2(i as nat),
{
    lemma_u64_pow2_no_overflow(i as nat);
    lemma_u64_shl_is_mul(1, i);
}

/// The powers of two are the numbers that `power_of_two` admits, and `log2` is their exponent.
pub proof fn law_powers_of_two(n: int)
    ensures
        forall|k: nat| n == #[trigger] pow2(k) ==> power_of_two(n) && log2(n) == k,
        power_of_two(n) ==> n == pow2(log2(n)),
        (forall|k: nat| n != #[trigger] pow2(k)) ==> !power_of_two(n),
{
    assert forall|k: nat| n == #[trigger] pow2(k) implies power_of_two(n) && log2(n) == k by {
        assert(exp2(k) == n);
        lemma_log2(k);
    }
    if power_of_two(n) {
        assert(exp2(log2(n)) == pow2(log2(n)));
    }
}

/// A number has `b` binary digits if it lies below the power of two with exponent `b` and not below
/// the one before it.
pub proof fn law_bit_length(x: int)
    requires
        0 <= x,
    ensures
        x < pow2(bit_length(x)),
        bit_length(x) > 0 ==> pow2((bit_length(x) - 1) as nat) <= x,
    decreases x,
{
    lemma2_to64();
    if x > 0 {
        law_bit_length(x / 2);
        lemma_exp2(bit_length(x / 2));
        if x > 1 {
            lemma_exp2((bit_length(x / 2) - 1) as nat);
        }
    }
}

/// Bit `i` of a position is its digit at the place of the power of two with exponent `i`, and
/// `low` and `high` put a zero or a one in this place.
pub proof fn law_bits(p: int, i: nat)
    requires
        0 <= p,
    ensures
        exp2(i) == pow2(i),
        bit(p, i) <==> p / pow2(i) as int % 2 == 1,
        high(p, i) == low(p, i) + pow2(i),
        p == low(p, i) || p == high(p, i),
        low(p, i) / pow2(i) as int % 2 == 0,
{
    lemma_decompose(i, p);
    lemma_exp2(i);
    let q = p / exp2(i + 1);
    let k = p % exp2(i);
    lemma_compose(i, q, 0, k);
    assert(low(p, i) == (2 * q + 0) * exp2(i) + k) by (nonlinear_arith)
        requires
            low(p, i) == q * exp2(i + 1) + k,
            exp2(i + 1) == 2 * exp2(i),
    ;
}

/// Whether `n` is a power of two.
pub fn is_power_of_two(n: usize) -> (r: bool)
    ensures
        r == power_of_two(n as int),
        r <==> exists|k: nat| n == #[trigger] pow2(k),
{
    proof {
        law_powers_of_two(n as int);
    }
    if n == 0 {
        proof {
            if power_of_two(0) {
                lemma_exp2(log2(0));
            }
        }
        return false;
    }
    let m: u64 = n as u64;
    let w: u64 = m - 1;
    let r = m & w == 0;
    proof {
        if r {
            let z = u64_trailing_zeros(m) as u64;
            axiom_u64_trailing_zeros(m);
            assert(m == 1u64 << z) by (bit_vector)
                requires
                    m & w == 0,
                    w == m - 1,
                    z < 64,
                    (m >> z) & 1u64 == 1u64,
            ;
            lemma_shl_one_u64(z);
        } else if power_of_two(n as int) {
            let k = log2(n as int);
            lemma_exp2_fits(k);
            let z = k as u64;
            lemma_shl_one_u64(z);
            assert(m & w == 0) by (bit_vector)
                requires
                    m == 1u64 << z,
                    w == m - 1,
                    z < 64,
            ;
        }
    }
    r
}

/// The exponent of a power of two.
pub fn exact_log2(n: usize) -> (r: usize)
    requires
        power_of_two(n as int),
    ensures
        r == log2(n as int),
        n == exp2(r as nat),
        n == pow2(r as nat),
        r < usize::BITS,
{
    let m: u64 = n as u64;
    let r: usize = m.trailing_zeros() as usize;
    proof {
        let k = log2(n as int);
        lemma_exp2_fits(k);
        let y = k as u64;
        lemma_shl_one_u64(y);
        assert(m != 0 && (m >> y) & 1u64 == 1u64) by (bit_vector)
            requires
                m == 1u64 << y,
                y < 64,
        ;
        axiom_u64_trailing_zeros(m);
        let z = u64_trailing_zeros(m) as u64;
        assert(y == z) by (bit_vector)
            requires
                m == 1u64 << y,
                (m >> z) & 1u64 == 1u64,
                y < 64,
                z < 64,
        ;
    }
    r
}

/// The number of binary digits of `x`.
pub fn significant_bits(x: u32) -> (r: usize)
    ensures
        r == bit_length(x as int),
        r <= 32,
        x < exp2(r as nat),
        x < pow2(r as nat),
        r > 0 ==> pow2((r - 1) as nat) <= x,
{
    let z: u32 = x.leading_zeros();
    proof {
        axiom_u32_leading_zeros(x);
        let b: u32 = (32 - z) as u32;
        lemma2_to64();
        if b < 32 {
            lemma_u32_shr_is_div(x, b);
            lemma_fundamental_div_mod(x as int, exp2(b as nat));
            lemma_exp2(b as nat);
        }
        if b > 0 {
            let c: u32 = (31 - z) as u32;
            let y = x >> c;
            assert(y != 0) by (bit_vector)
                requires
                    y & 1u32 != 0u32,
            ;
            lemma_u32_shr_is_div(x, c);
            lemma_exp2(c as nat);
            lemma_fundamental_div_mod(x as int, exp2(c as nat));
            assert(exp2(c as nat) <= x) by (nonlinear_arith)
                requires
                    x == exp2(c as nat) * (y as int) + x as int % exp2(c as nat),
                    y >= 1,
                    0 <= x as int % exp2(c as nat),
                    exp2(c as nat) > 0,
            ;
        }
        lemma_bit_length(x as int, b as nat);
    }
    (32 - z) as usize
}

} // verus!
