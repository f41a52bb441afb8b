//! Arithmetic in a tower of binary fields.
//!
//! The tower starts with the field of two elements, and every step adjoins an `X` to a field of
//! `exp2(h)` elements with `X^2 = X + P`, where `P` is the product of the elements that the steps
//! before adjoined. An element of a field of the tower is held in as many bits as the field has
//! dimensions: in the lower half `a` and in the upper half `b` if the element is `a + b * X`. So
//! the bits are the coordinates with respect to the products of the adjoined elements, and `P` has
//! the highest bit of the lower half set and no other. Addition is the exclusive or.
use vstd::prelude::*;

verus! {

/// Whether the tower has a field with elements of `w` bits.
pub open spec fn tower_width(w: u64) -> bool {
    w == 1 || w == 2 || w == 4 || w == 8 || w == 16 || w == 32
}

/// Whether `x` is an element of the field with elements of `w` bits.
pub open spec fn tower_element(w: u64, x: u64) -> bool {
    x < 1u64 << w
}

/// The lower `h` bits of `x`.
pub open spec fn lower(h: u64, x: u64) -> u64 {
    x & ((1u64 << h) - 1) as u64
}

/// The bits of `x` above the lower `h` bits.
pub open spec fn upper(h: u64, x: u64) -> u64 {
    x >> h
}

/// The number with the lower half `a` and the upper half `b`.
pub open spec fn join(h: u64, a: u64, b: u64) -> u64 {
    a ^ (b << h)
}

/// The product of the adjoined elements in the field with elements of `h` bits.
pub open spec fn adjoined_product(h: u64) -> u64 {
    1u64 << (h - 1)
}

/// The product of two elements of the field with elements of `w` bits.
pub open spec fn tower_times(w: u64, x: u64, y: u64) -> u64
    decreases w,
{
    if w <= 1 {
        x & y
    } else {
        let h = w / 2;
        let m00 = tower_times(h, lower(h, x), lower(h, y));
        let m01 = tower_times(h, lower(h, x), upper(h, y));
        let m10 = tower_times(h, upper(h, x), lower(h, y));
        let m11 = tower_times(h, upper(h, x), upper(h, y));
        join(h, m00 ^ tower_times(h, adjoined_product(h), m11), m01 ^ m10 ^ m11)
    }
}

/// Shifting a one to the left.
pub proof fn lemma_shl_one(h: u64)
    requires
        1 <= h <= 32,
    ensures
        1u64 << h > 1,
        1u64 << 8u64 == 0x100,
        1u64 << 32u64 == 0x1_0000_0000,
{
    assert(1u64 << h > 1 && 1u64 << 8u64 == 0x100 && 1u64 << 32u64 == 0x1_0000_0000)
        by (bit_vector)
        requires
            1 <= h <= 32,
    ;
}

/// The halves of an element of the field below.
pub proof fn lemma_small(h: u64, a: u64)
    requires
        1 <= h <= 16,
        tower_element(h, a),
    ensures
        lower(h, a) == a,
        upper(h, a) == 0,
        join(h, a, 0) == a,
        tower_element((2 * h) as u64, a),
{
    let m = ((1u64 << h) - 1) as u64;
    let w = (2 * h) as u64;
    lemma_shl_one(h);
    assert(a & m == a && a >> h == 0 && a ^ (0u64 << h) == a && a < 1u64 << w) by (bit_vector)
        requires
            1 <= h <= 16,
            a < 1u64 << h,
            m == (1u64 << h) - 1,
            w == 2 * h,
    ;
}

/// Taking numbers apart into halves and putting them together.
pub proof fn lemma_halves(h: u64, x: u64)
    requires
        1 <= h <= 16,
        tower_element((2 * h) as u64, x),
    ensures
        tower_element(h, lower(h, x)),
        tower_element(h, upper(h, x)),
        join(h, lower(h, x), upper(h, x)) == x,
        tower_element(h, adjoined_product(h)),
        tower_element(h, 0),
        tower_element(h, 1),
{
    let w = (2 * h) as u64;
    let g = (h - 1) as u64;
    let m = ((1u64 << h) - 1) as u64;
    lemma_shl_one(h);
    assert(x & m < 1u64 << h && x >> h < 1u64 << h && (x & m) ^ ((x >> h) << h) == x && 1u64 << g
        < 1u64 << h) by (bit_vector)
        requires
            1 <= h <= 16,
            w == 2 * h,
            g == h - 1,
            x < 1u64 << w,
            m == (1u64 << h) - 1,
    ;
}

/// The halves of a number that is put together from halves.
pub proof fn lemma_join(h: u64, a: u64, b: u64)
    requires
        1 <= h <= 16,
        tower_element(h, a),
        tower_element(h, b),
    ensures
        tower_element((2 * h) as u64, join(h, a, b)),
        lower(h, join(h, a, b)) == a,
        upper(h, join(h, a, b)) == b,
{
    let w = (2 * h) as u64;
    let m = ((1u64 << h) - 1) as u64;
    lemma_shl_one(h);
    assert((a ^ (b << h)) < 1u64 << w && (a ^ (b << h)) & m == a && (a ^ (b << h)) >> h == b)
        by (bit_vector)
        requires
            1 <= h <= 16,
            w == 2 * h,
            a < 1u64 << h,
            b < 1u64 << h,
            m == (1u64 << h) - 1,
    ;
}

/// Addition works on halves.
pub proof fn lemma_xor_halves(h: u64, x: u64, y: u64)
    requires
        1 <= h <= 16,
    ensures
        lower(h, x ^ y) == lower(h, x) ^ lower(h, y),
        upper(h, x ^ y) == upper(h, x) ^ upper(h, y),
{
    let m = ((1u64 << h) - 1) as u64;
    assert((x ^ y) & m == (x & m) ^ (y & m) && (x ^ y) >> h == (x >> h) ^ (y >> h)) by (bit_vector);
}

/// Sums of elements are elements.
pub proof fn lemma_xor_element(w: u64, x: u64, y: u64)
    requires
        tower_width(w),
        tower_element(w, x),
        tower_element(w, y),
    ensures
        tower_element(w, x ^ y),
{
    assert(x ^ y < 1u64 << w) by (bit_vector)
        requires
            w <= 32,
            x < 1u64 << w,
            y < 1u64 << w,
    ;
}

/// Sums of joined numbers.
pub proof fn lemma_xor_join(h: u64, a: u64, b: u64, c: u64, d: u64)
    ensures
        join(h, a, b) ^ join(h, c, d) == join(h, a ^ c, b ^ d),
{
    assert((a ^ (b << h)) ^ (c ^ (d << h)) == (a ^ c) ^ ((b ^ d) << h)) by (bit_vector);
}

/// Products of elements are elements.
pub proof fn lemma_times_element(w: u64, x: u64, y: u64)
    requires
        tower_width(w),
        tower_element(w, x),
        tower_element(w, y),
    ensures
        tower_element(w, tower_times(w, x, y)),
    decreases w, 0int,
{
    if w <= 1 {
        assert(x & y < 1u64 << w) by (bit_vector)
            requires
                w == 1,
                x < 1u64 << w,
        ;
    } else {
        let h = w / 2;
        lemma_halves(h, x);
        lemma_halves(h, y);
        lemma_parts_elements(h, lower(h, x), upper(h, x), lower(h, y), upper(h, y));
        let m00 = tower_times(h, lower(h, x), lower(h, y));
        let m01 = tower_times(h, lower(h, x), upper(h, y));
        let m10 = tower_times(h, upper(h, x), lower(h, y));
        let m11 = tower_times(h, upper(h, x), upper(h, y));
        lemma_join(h, m00 ^ tower_times(h, adjoined_product(h), m11), m01 ^ m10 ^ m11);
    }
}

/// The halves of a product are elements of the field below.
proof fn lemma_parts_elements(h: u64, a0: u64, a1: u64, b0: u64, b1: u64)
    requires
        tower_width(h),
        h <= 16,
        tower_element(h, a0),
        tower_element(h, a1),
        tower_element(h, b0),
        tower_element(h, b1),
    ensures
        ({
            let m00 = tower_times(h, a0, b0);
            let m01 = tower_times(h, a0, b1);
            let m10 = tower_times(h, a1, b0);
            let m11 = tower_times(h, a1, b1);
            let p = tower_times(h, adjoined_product(h), m11);
            &&& tower_element(h, m00)
            &&& tower_element(h, m01)
            &&& tower_element(h, m10)
            &&& tower_element(h, m11)
            &&& tower_element(h, p)
            &&& tower_element(h, m00 ^ p)
            &&& tower_element(h, m01 ^ m10)
            &&& tower_element(h, m01 ^ m10 ^ m11)
        }),
    decreases h, 1int,
{
    let m00 = tower_times(h, a0, b0);
    let m01 = tower_times(h, a0, b1);
    let m10 = tower_times(h, a1, b0);
    let m11 = tower_times(h, a1, b1);
    let p = adjoined_product(h);
    lemma_times_element(h, a0, b0);
    lemma_times_element(h, a0, b1);
    lemma_times_element(h, a1, b0);
    lemma_times_element(h, a1, b1);
    assert(tower_element(h, p)) by {
        let g = (h - 1) as u64;
        assert(1u64 << g < 1u64 << h) by (bit_vector)
            requires
                1 <= h <= 16,
                g == h - 1,
        ;
    }
    lemma_times_element(h, p, m11);
    lemma_xor_element(h, m00, tower_times(h, p, m11));
    lemma_xor_element(h, m01, m10);
    lemma_xor_element(h, m01 ^ m10, m11);
}

/// Multiplication is commutative.
pub proof fn lemma_times_commutes(w: u64, x: u64, y: u64)
    requires
        tower_width(w),
    ensures
        tower_times(w, x, y) == tower_times(w, y, x),
    decreases w,
{
    if w <= 1 {
        assert(x & y == y & x) by (bit_vector);
    } else {
        let h = w / 2;
        lemma_times_commutes(h, lower(h, x), lower(h, y));
        lemma_times_commutes(h, lower(h, x), upper(h, y));
        lemma_times_commutes(h, upper(h, x), lower(h, y));
        lemma_times_commutes(h, upper(h, x), upper(h, y));
        let a = tower_times(h, lower(h, x), upper(h, y));
        let b = tower_times(h, upper(h, x), lower(h, y));
        lemma_xor(a, b, 0);
    }
}

/// Multiplication distributes over addition.
pub proof fn lemma_times_distributes(w: u64, x: u64, y: u64, z: u64)
    requires
        tower_width(w),
    ensures
        tower_times(w, x, y ^ z) == tower_times(w, x, y) ^ tower_times(w, x, z),
    decreases w,
{
    if w <= 1 {
        assert(x & (y ^ z) == (x & y) ^ (x & z)) by (bit_vector);
    } else {
        let h = w / 2;
        let (x0, x1) = (lower(h, x), upper(h, x));
        let (y0, y1) = (lower(h, y), upper(h, y));
        let (z0, z1) = (lower(h, z), upper(h, z));
        lemma_xor_halves(h, y, z);
        lemma_times_distributes(h, x0, y0, z0);
        lemma_times_distributes(h, x0, y1, z1);
        lemma_times_distributes(h, x1, y0, z0);
        lemma_times_distributes(h, x1, y1, z1);
        let p = adjoined_product(h);
        let (a00, a01) = (tower_times(h, x0, y0), tower_times(h, x0, y1));
        let (a10, a11) = (tower_times(h, x1, y0), tower_times(h, x1, y1));
        let (b00, b01) = (tower_times(h, x0, z0), tower_times(h, x0, z1));
        let (b10, b11) = (tower_times(h, x1, z0), tower_times(h, x1, z1));
        lemma_times_distributes(h, p, a11, b11);
        let (pa, pb) = (tower_times(h, p, a11), tower_times(h, p, b11));
        lemma_xor_join(h, a00 ^ pa, a01 ^ a10 ^ a11, b00 ^ pb, b01 ^ b10 ^ b11);
        assert((a00 ^ b00) ^ (pa ^ pb) == (a00 ^ pa) ^ (b00 ^ pb) && (a01 ^ b01) ^ (a10 ^ b10) ^ (
        a11 ^ b11) == (a01 ^ a10 ^ a11) ^ (b01 ^ b10 ^ b11)) by (bit_vector);
    }
}

/// Multiplication distributes over a sum on its left as well.
proof fn lemma_times_distributes_left(w: u64, x: u64, y: u64, z: u64)
    requires
        tower_width(w),
    ensures
        tower_times(w, x ^ y, z) == tower_times(w, x, z) ^ tower_times(w, y, z),
{
    lemma_times_commutes(w, x ^ y, z);
    lemma_times_commutes(w, x, z);
    lemma_times_commutes(w, y, z);
    lemma_times_distributes(w, z, x, y);
}

/// A product with zero is zero.
pub proof fn lemma_times_zero(w: u64, x: u64)
    requires
        tower_width(w),
    ensures
        tower_times(w, x, 0) == 0,
        tower_times(w, 0, x) == 0,
{
    let p = tower_times(w, x, 0);
    lemma_times_distributes(w, x, 0, 0);
    lemma_times_commutes(w, x, 0);
    lemma_xor(0, 0, 0);
    lemma_xor(p, 0, 0);
}

/// The product with an element of the field below works on halves.
pub proof fn lemma_times_subfield(h: u64, x: u64, a: u64)
    requires
        tower_width(h),
        h <= 16,
        tower_element((2 * h) as u64, x),
        tower_element(h, a),
    ensures
        tower_times((2 * h) as u64, x, a) == join(
            h,
            tower_times(h, lower(h, x), a),
            tower_times(h, upper(h, x), a),
        ),
        lower(h, tower_times((2 * h) as u64, x, a)) == tower_times(h, lower(h, x), a),
        upper(h, tower_times((2 * h) as u64, x, a)) == tower_times(h, upper(h, x), a),
{
    lemma_halves(h, x);
    lemma_small(h, a);
    lemma_times_zero(h, lower(h, x));
    lemma_times_zero(h, upper(h, x));
    lemma_times_zero(h, adjoined_product(h));
    let u = tower_times(h, lower(h, x), a);
    let v = tower_times(h, upper(h, x), a);
    lemma_xor(u, 0, 0);
    lemma_xor(v, 0, 0);
    lemma_xor(0, v, 0);
    lemma_times_element(h, lower(h, x), a);
    lemma_times_element(h, upper(h, x), a);
    lemma_join(h, u, v);
}

/// Elements of the field below are multiplied there.
pub proof fn lemma_times_embedded(h: u64, a: u64, b: u64)
    requires
        tower_width(h),
        h <= 16,
        tower_element(h, a),
        tower_element(h, b),
    ensures
        tower_times((2 * h) as u64, a, b) == tower_times(h, a, b),
{
    lemma_small(h, a);
    lemma_times_subfield(h, a, b);
    lemma_times_zero(h, b);
    lemma_times_element(h, a, b);
    lemma_small(h, tower_times(h, a, b));
}

/// One is neutral for multiplication.
pub proof fn lemma_times_one(w: u64, x: u64)
    requires
        tower_width(w),
        tower_element(w, x),
    ensures
        tower_times(w, x, 1) == x,
    decreases w,
{
    if w <= 1 {
        assert(x & 1 == x) by (bit_vector)
            requires
                w == 1,
                x < 1u64 << w,
        ;
    } else {
        let h = w / 2;
        lemma_halves(h, x);
        lemma_times_subfield(h, x, 1);
        lemma_times_one(h, lower(h, x));
        lemma_times_one(h, upper(h, x));
    }
}

/// Multiplication is associative.
pub proof fn lemma_times_associates(w: u64, x: u64, y: u64, z: u64)
    requires
        tower_width(w),
        tower_element(w, x),
        tower_element(w, y),
        tower_element(w, z),
    ensures
        tower_times(w, tower_times(w, x, y), z) == tower_times(w, x, tower_times(w, y, z)),
    decreases w,
{
    if w <= 1 {
        assert((x & y) & z == x & (y & z)) by (bit_vector);
    } else {
        let h = w / 2;
        let p = adjoined_product(h);
        lemma_halves(h, x);
        lemma_halves(h, y);
        lemma_halves(h, z);
        let (x0, x1) = (lower(h, x), upper(h, x));
        let (y0, y1) = (lower(h, y), upper(h, y));
        let (z0, z1) = (lower(h, z), upper(h, z));
        lemma_parts_elements(h, x0, x1, y0, y1);
        lemma_parts_elements(h, y0, y1, z0, z1);
        // The halves of x * y.
        let (a00, a01) = (tower_times(h, x0, y0), tower_times(h, x0, y1));
        let (a10, a11) = (tower_times(h, x1, y0), tower_times(h, x1, y1));
        let pa = tower_times(h, p, a11);
        let (a0, a1) = (a00 ^ pa, a01 ^ a10 ^ a11);
        lemma_join(h, a0, a1);
        // The halves of y * z.
        let (b00, b01) = (tower_times(h, y0, z0), tower_times(h, y0, z1));
        let (b10, b11) = (tower_times(h, y1, z0), tower_times(h, y1, z1));
        let pb = tower_times(h, p, b11);
        let (b0, b1) = (b00 ^ pb, b01 ^ b10 ^ b11);
        lemma_join(h, b0, b1);
        // The products of one half each.
        let (c000, c001) = (tower_times(h, x0, b00), tower_times(h, x0, b01));
        let (c010, c011) = (tower_times(h, x0, b10), tower_times(h, x0, b11));
        let (c100, c101) = (tower_times(h, x1, b00), tower_times(h, x1, b01));
        let (c110, c111) = (tower_times(h, x1, b10), tower_times(h, x1, b11));
        lemma_times_associates(h, x0, y0, z0);
        lemma_times_associates(h, x0, y0, z1);
        lemma_times_associates(h, x0, y1, z0);
        lemma_times_associates(h, x0, y1, z1);
        lemma_times_associates(h, x1, y0, z0);
        lemma_times_associates(h, x1, y0, z1);
        lemma_times_associates(h, x1, y1, z0);
        lemma_times_associates(h, x1, y1, z1);
        let (p011, p101) = (tower_times(h, p, c011), tower_times(h, p, c101));
        let (p110, p111) = (tower_times(h, p, c110), tower_times(h, p, c111));
        // a0 * z0, a0 * z1, a1 * z0 and a1 * z1
        lemma_times_associates(h, p, a11, z0);
        lemma_times_associates(h, p, a11, z1);
        lemma_times_distributes_left(h, a00, pa, z0);
        lemma_times_distributes_left(h, a00, pa, z1);
        lemma_times_distributes_left(h, a01 ^ a10, a11, z0);
        lemma_times_distributes_left(h, a01, a10, z0);
        lemma_times_distributes_left(h, a01 ^ a10, a11, z1);
        lemma_times_distributes_left(h, a01, a10, z1);
        assert(tower_times(h, a0, z0) == c000 ^ p110);
        assert(tower_times(h, a0, z1) == c001 ^ p111);
        assert(tower_times(h, a1, z0) == c010 ^ c100 ^ c110);
        assert(tower_times(h, a1, z1) == c011 ^ c101 ^ c111);
        lemma_times_distributes(h, p, c011 ^ c101, c111);
        lemma_times_distributes(h, p, c011, c101);
        // x0 * b0, x0 * b1, x1 * b0 and x1 * b1
        lemma_times_associates(h, x0, p, b11);
        lemma_times_commutes(h, x0, p);
        lemma_times_associates(h, p, x0, b11);
        lemma_times_associates(h, x1, p, b11);
        lemma_times_commutes(h, x1, p);
        lemma_times_associates(h, p, x1, b11);
        lemma_times_distributes(h, x0, b00, pb);
        lemma_times_distributes(h, x1, b00, pb);
        lemma_times_distributes(h, x0, b01 ^ b10, b11);
        lemma_times_distributes(h, x0, b01, b10);
        lemma_times_distributes(h, x1, b01 ^ b10, b11);
        lemma_times_distributes(h, x1, b01, b10);
        assert(tower_times(h, x0, b0) == c000 ^ p011);
        assert(tower_times(h, x1, b0) == c100 ^ p111);
        assert(tower_times(h, x0, b1) == c001 ^ c010 ^ c011);
        assert(tower_times(h, x1, b1) == c101 ^ c110 ^ c111);
        lemma_times_distributes(h, p, c101 ^ c110, c111);
        lemma_times_distributes(h, p, c101, c110);
        assert((c000 ^ p110) ^ (p011 ^ p101 ^ p111) == (c000 ^ p011) ^ (p101 ^ p110 ^ p111))
            by (bit_vector);
        assert((c001 ^ p111) ^ (c010 ^ c100 ^ c110) ^ (c011 ^ c101 ^ c111) == (c001 ^ c010 ^ c011)
            ^ (c100 ^ p111) ^ (c101 ^ c110 ^ c111)) by (bit_vector);
    }
}

/// The map `x^2 + x` in the field with elements of `w` bits.
pub open spec fn tower_map(w: u64, x: u64) -> u64 {
    tower_times(w, x, x) ^ x
}

/// The map `x^2 + x` on halves.
proof fn lemma_tower_map_halves(h: u64, x: u64)
    requires
        tower_width(h),
        h <= 16,
        tower_element((2 * h) as u64, x),
    ensures
        ({
            let (x0, x1) = (lower(h, x), upper(h, x));
            let p = tower_times(h, adjoined_product(h), tower_times(h, x1, x1));
            &&& tower_element(h, tower_map(h, x0) ^ p)
            &&& tower_element(h, tower_map(h, x1))
            &&& tower_map((2 * h) as u64, x) == join(h, tower_map(h, x0) ^ p, tower_map(h, x1))
        }),
{
    let (x0, x1) = (lower(h, x), upper(h, x));
    lemma_halves(h, x);
    lemma_parts_elements(h, x0, x1, x0, x1);
    lemma_times_commutes(h, x0, x1);
    let (m00, m01) = (tower_times(h, x0, x0), tower_times(h, x0, x1));
    let m11 = tower_times(h, x1, x1);
    let p = tower_times(h, adjoined_product(h), m11);
    lemma_xor_join(h, m00 ^ p, m01 ^ m01 ^ m11, x0, x1);
    assert((m00 ^ p) ^ x0 == (m00 ^ x0) ^ p && (m01 ^ m01 ^ m11) ^ x1 == m11 ^ x1) by (bit_vector);
    lemma_xor_element(h, m00 ^ p, x0);
    lemma_xor_element(h, m11, x1);
}

/// The map `x^2 + x` takes numbers of `t + 1` bits to numbers of `t` bits, and keeps the leading
/// bit if there is more than one.
pub proof fn lemma_tower_map_bits(w: u64, x: u64, t: u64)
    requires
        tower_width(w),
        t < w,
        x < 1u64 << (t + 1),
    ensures
        tower_map(w, x) < 1u64 << t,
        t >= 1 && x >= 1u64 << t ==> tower_map(w, x) >= 1u64 << (t - 1),
    decreases w,
{
    let u = (t + 1) as u64;
    if w <= 1 {
        assert((x & x) ^ x == 0 && 1u64 << 0u64 == 1) by (bit_vector);
    } else {
        let h = w / 2;
        assert(x < 1u64 << w) by (bit_vector)
            requires
                x < 1u64 << u,
                u <= w <= 32,
        ;
        lemma_tower_map_halves(h, x);
        lemma_halves(h, x);
        let (x0, x1) = (lower(h, x), upper(h, x));
        let p = adjoined_product(h);
        let lo = tower_map(h, x0) ^ tower_times(h, p, tower_times(h, x1, x1));
        let hi = tower_map(h, x1);
        if t < h {
            assert(x < 1u64 << h) by (bit_vector)
                requires
                    x < 1u64 << u,
                    u <= h <= 16,
            ;
            lemma_small(h, x);
            lemma_tower_map_bits(h, x, t);
            lemma_times_zero(h, 0);
            lemma_times_zero(h, p);
            let y = tower_map(h, x);
            lemma_xor(y, 0, 0);
            lemma_xor(0, 0, 0);
            lemma_small(h, y);
        } else {
            let v = (t - h) as u64;
            let v1 = (t - h + 1) as u64;
            assert(x >> h < 1u64 << v1) by (bit_vector)
                requires
                    x < 1u64 << u,
                    u == v1 + h,
                    h <= 16,
                    v1 <= 16,
            ;
            lemma_tower_map_bits(h, x1, v);
            assert(lo ^ (hi << h) < 1u64 << t) by (bit_vector)
                requires
                    lo < 1u64 << h,
                    hi < 1u64 << v,
                    t == v + h,
                    h <= 16,
                    v <= 16,
            ;
            if x >= 1u64 << t {
                let g = (t - 1) as u64;
                if v >= 1 {
                    let v0 = (v - 1) as u64;
                    assert(x >> h >= 1u64 << v) by (bit_vector)
                        requires
                            x >= 1u64 << t,
                            t == v + h,
                            h <= 16,
                            v <= 16,
                    ;
                    assert(lo ^ (hi << h) >= 1u64 << g) by (bit_vector)
                        requires
                            lo < 1u64 << h,
                            hi >= 1u64 << v0,
                            hi < 1u64 << v,
                            v == v0 + 1,
                            g == v0 + h,
                            h <= 16,
                            v <= 16,
                    ;
                } else {
                    assert(x >> h == 1) by (bit_vector)
                        requires
                            x >= 1u64 << h,
                            x < 1u64 << u,
                            u == h + 1,
                            h <= 16,
                    ;
                    lemma_times_one(h, 1);
                    lemma_times_one(h, p);
                    lemma_tower_map_bits(h, x0, (h - 1) as u64);
                    let y = tower_map(h, x0);
                    assert((y ^ (1u64 << g)) ^ ((1u64 ^ 1u64) << h) >= 1u64 << g) by (bit_vector)
                        requires
                            y < 1u64 << g,
                            g <= 16,
                    ;
                }
            }
        }
    }
}

/// The subspace map `x^2 + x`, applied `k` times in the field with elements of `w` bits.
pub open spec fn tower_map_iterated(w: u64, k: nat, x: u64) -> u64
    decreases k,
{
    if k == 0 {
        x
    } else {
        tower_map(w, tower_map_iterated(w, (k - 1) as nat, x))
    }
}

/// Each application of the map `x^2 + x` to a power of two drops the leading bit by one place, down
/// to one.
pub proof fn lemma_tower_map_iterated(w: u64, k: nat, i: u64)
    requires
        tower_width(w),
        k <= i < w,
    ensures
        1u64 << (i - k) <= tower_map_iterated(w, k, 1u64 << i) < 1u64 << (i - k + 1),
        tower_element(w, tower_map_iterated(w, k, 1u64 << i)),
        k == i ==> tower_map_iterated(w, k, 1u64 << i) == 1,
    decreases k,
{
    let t = (i - k) as u64;
    let u = (i - k + 1) as u64;
    if k > 0 {
        let y = tower_map_iterated(w, (k - 1) as nat, 1u64 << i);
        lemma_tower_map_iterated(w, (k - 1) as nat, i);
        lemma_tower_map_bits(w, y, u);
    }
    assert(1u64 << t < 1u64 << u && 1u64 << u <= 1u64 << w && 1u64 << 0u64 == 1 && 1u64 << 1u64
        == 2) by (bit_vector)
        requires
            u == t + 1,
            u <= w <= 32,
    ;
}

/// The sums of three elements in another order, and sums with equal elements.
pub proof fn lemma_xor(x: u64, y: u64, z: u64)
    ensures
        x ^ (y ^ z) == (x ^ y) ^ z,
        x ^ y == y ^ x,
        (x ^ y) ^ y == x,
        x ^ 0 == x,
        x ^ x == 0,
        x ^ y == 0 ==> x == y,
{
    assert(x ^ (y ^ z) == (x ^ y) ^ z && x ^ y == y ^ x && (x ^ y) ^ y == x && x ^ 0 == x && x ^ x
        == 0 && (x ^ y == 0 ==> x == y)) by (bit_vector);
}

/// The product of two products in another order.
proof fn lemma_times_regroup(w: u64, a: u64, b: u64, c: u64, d: u64)
    requires
        tower_width(w),
        tower_element(w, a),
        tower_element(w, b),
        tower_element(w, c),
        tower_element(w, d),
    ensures
        tower_times(w, tower_times(w, a, b), tower_times(w, c, d)) == tower_times(
            w,
            tower_times(w, a, c),
            tower_times(w, b, d),
        ),
{
    lemma_times_element(w, c, d);
    lemma_times_element(w, b, d);
    lemma_times_associates(w, a, b, tower_times(w, c, d));
    lemma_times_associates(w, b, c, d);
    lemma_times_commutes(w, b, c);
    lemma_times_associates(w, c, b, d);
    lemma_times_associates(w, a, c, tower_times(w, b, d));
}

/// The norm of the element `a + b * X`: its product with its conjugate `a + b + b * X`.
spec fn norm(h: u64, a: u64, b: u64) -> u64 {
    tower_times(h, a, a ^ b) ^ tower_times(h, adjoined_product(h), tower_times(h, b, b))
}

/// The product of an element with its conjugate lies in the field below.
proof fn lemma_norm(h: u64, a: u64, b: u64)
    requires
        tower_width(h),
        h <= 16,
        tower_element(h, a),
        tower_element(h, b),
    ensures
        tower_element(h, a ^ b),
        tower_element(h, norm(h, a, b)),
        tower_times((2 * h) as u64, join(h, a, b), join(h, a ^ b, b)) == norm(h, a, b),
{
    let (ab, bb) = (tower_times(h, a, b), tower_times(h, b, b));
    lemma_xor_element(h, a, b);
    lemma_join(h, a, b);
    lemma_join(h, a ^ b, b);
    lemma_parts_elements(h, a, b, a ^ b, b);
    // a * b + b * (a + b) + b * b == 0
    lemma_times_distributes(h, b, a, b);
    lemma_times_commutes(h, a, b);
    lemma_xor(ab, ab, bb);
    lemma_xor(bb, 0, 0);
    lemma_xor(0, bb, 0);
    lemma_small(h, norm(h, a, b));
}

/// The norm of an element that does not lie in the field below is not zero, because `P` is not of
/// the form `x^2 + x` there.
proof fn lemma_norm_is_not_zero(h: u64, a: u64, b: u64, c: u64)
    requires
        tower_width(h),
        h <= 16,
        tower_element(h, a),
        tower_element(h, b),
        tower_element(h, c),
        tower_times(h, b, c) == 1,
    ensures
        norm(h, a, b) != 0,
{
    let p = adjoined_product(h);
    let (aa, ab) = (tower_times(h, a, a), tower_times(h, a, b));
    let (bb, cc) = (tower_times(h, b, b), tower_times(h, c, c));
    let t = tower_times(h, a, c);
    lemma_join(h, a, b);
    lemma_halves(h, join(h, a, b));
    lemma_times_element(h, a, a);
    lemma_times_element(h, a, b);
    lemma_times_element(h, b, b);
    lemma_times_element(h, c, c);
    lemma_times_element(h, a, c);
    // norm * c^2 == t^2 + t + P
    lemma_times_distributes(h, a, a, b);
    lemma_times_distributes_left(h, aa ^ ab, tower_times(h, p, bb), cc);
    lemma_times_distributes_left(h, aa, ab, cc);
    lemma_times_regroup(h, a, a, c, c);
    lemma_times_regroup(h, a, b, c, c);
    lemma_times_one(h, t);
    lemma_times_associates(h, p, bb, cc);
    lemma_times_regroup(h, b, b, c, c);
    lemma_times_one(h, 1);
    lemma_times_one(h, p);
    if norm(h, a, b) == 0 {
        lemma_times_zero(h, cc);
        lemma_xor(tower_map(h, t), p, 0);
        lemma_tower_map_bits(h, t, (h - 1) as u64);
    }
}

/// The inverse of an element.
pub proof fn lemma_inverse(w: u64, x: u64) -> (y: u64)
    requires
        tower_width(w),
        tower_element(w, x),
        x != 0,
    ensures
        tower_element(w, y),
        tower_times(w, x, y) == 1,
    decreases w,
{
    if w <= 1 {
        assert(x & 1 == 1 && 1u64 < 1u64 << w) by (bit_vector)
            requires
                w == 1,
                x != 0,
                x < 1u64 << w,
        ;
        1
    } else {
        let h = w / 2;
        let (a, b) = (lower(h, x), upper(h, x));
        lemma_halves(h, x);
        if b == 0 {
            lemma_small(h, a);
            let y = lemma_inverse(h, a);
            lemma_small(h, y);
            lemma_times_embedded(h, a, y);
            y
        } else {
            let c = lemma_inverse(h, b);
            lemma_norm(h, a, b);
            lemma_norm_is_not_zero(h, a, b, c);
            let n = norm(h, a, b);
            let m = lemma_inverse(h, n);
            let conjugate = join(h, a ^ b, b);
            lemma_join(h, a ^ b, b);
            lemma_small(h, m);
            lemma_times_element(w, conjugate, m);
            lemma_times_associates(w, x, conjugate, m);
            lemma_times_embedded(h, n, m);
            tower_times(w, conjugate, m)
        }
    }
}

/// The halves of a power of two, and the places of bits that two exponents do not share.
proof fn lemma_monomial_halves(h: u64, a: u64, b: u64)
    requires
        tower_width(h),
        h <= 16,
        a < 2 * h,
        b < 2 * h,
        a & b == 0,
    ensures
        a < h && b < h ==> a | b < h,
        a < h ==> tower_element(h, 1u64 << a),
        a >= h ==> {
            let c = (a - h) as u64;
            &&& b < h
            &&& c < h
            &&& c & b == 0
            &&& a | b == (c | b) + h
            &&& c | b < h
            &&& lower(h, 1u64 << a) == 0
            &&& upper(h, 1u64 << a) == 1u64 << c
            &&& tower_element((2 * h) as u64, 1u64 << a)
            &&& join(h, 0, 1u64 << (c | b)) == 1u64 << (a | b)
        },
{
    let m = ((1u64 << h) - 1) as u64;
    let w = (2 * h) as u64;
    lemma_shl_one(h);
    if a >= h {
        let c = (a - h) as u64;
        assert(b < h && c & b == 0 && a | b == (c | b) + h && c | b < h && (1u64 << a) & m == 0 && (
        1u64 << a) >> h == 1u64 << c && 1u64 << a < 1u64 << w && 0 ^ ((1u64 << (c | b)) << h)
            == 1u64 << (a | b)) by (bit_vector)
            requires
                h == 1 || h == 2 || h == 4 || h == 8 || h == 16,
                w == 2 * h,
                h <= a < w,
                b < w,
                a & b == 0,
                c == a - h,
                m == (1u64 << h) - 1,
        ;
    } else {
        assert((b < h ==> a | b < h) && 1u64 << a < 1u64 << h) by (bit_vector)
            requires
                h == 1 || h == 2 || h == 4 || h == 8 || h == 16,
                a < h,
        ;
    }
}

/// Powers of two whose exponents have no bit in common are multiplied by adding the exponents.
pub proof fn law_tower_monomials(w: u64, a: u64, b: u64)
    requires
        tower_width(w),
        a < w,
        b < w,
        a & b == 0,
    ensures
        a | b < w,
        tower_times(w, 1u64 << a, 1u64 << b) == 1u64 << (a | b),
    decreases w,
{
    if w <= 1 {
        assert((1u64 << 0u64) & (1u64 << 0u64) == 1u64 << (0u64 | 0u64) && 0u64 | 0u64 == 0)
            by (bit_vector);
    } else {
        let h = w / 2;
        assert(b & a == a & b && b | a == a | b) by (bit_vector);
        lemma_monomial_halves(h, a, b);
        lemma_monomial_halves(h, b, a);
        let (x, y) = (1u64 << a, 1u64 << b);
        if a >= h {
            let c = (a - h) as u64;
            lemma_times_subfield(h, x, y);
            lemma_times_zero(h, y);
            law_tower_monomials(h, c, b);
        } else if b >= h {
            let c = (b - h) as u64;
            lemma_times_commutes(w, x, y);
            lemma_times_subfield(h, y, x);
            lemma_times_zero(h, x);
            law_tower_monomials(h, c, a);
        } else {
            lemma_times_embedded(h, x, y);
            law_tower_monomials(h, a, b);
        }
    }
}

/// The square of an adjoined element `X` is `X + P`.
pub proof fn law_tower_squares(w: u64, h: u64)
    requires
        tower_width(w),
        tower_width(h),
        h < w,
    ensures
        tower_times(w, 1u64 << h, 1u64 << h) == (1u64 << h) ^ (1u64 << (h - 1)),
    decreases w,
{
    let g = w / 2;
    let x = 1u64 << h;
    assert(h & 0 == 0 && h | 0 == h && 1u64 << 0u64 == 1) by (bit_vector);
    if g == h {
        let p = adjoined_product(h);
        lemma_monomial_halves(h, h, 0);
        lemma_halves(h, x);
        assert(upper(h, x) == 1);
        lemma_times_zero(h, 0);
        lemma_times_zero(h, 1);
        lemma_times_one(h, 1);
        lemma_times_one(h, p);
        lemma_xor(p, 0, 0);
        lemma_xor(0, p, 0);
        lemma_xor(0, 0, 0);
        lemma_xor(0, 1, 0);
        lemma_xor(1, 0, 0);
        lemma_xor(p, x, 0);
    } else {
        law_tower_squares(g, h);
        lemma_monomial_halves(g, h, 0);
        lemma_times_embedded(g, x, x);
    }
}

/// A bit above a number is added to it.
pub proof fn lemma_xor_above(x: u64, b: u64)
    requires
        b < 64,
        x < 1u64 << b,
    ensures
        x ^ (1u64 << b) == x + (1u64 << b),
{
    assert(x ^ (1u64 << b) == x + (1u64 << b)) by (bit_vector)
        requires
            b < 64,
            x < 1u64 << b,
    ;
}

/// Multiplies two elements of the field with elements of `w` bits.
pub fn tower_mul(w: u64, x: u64, y: u64) -> (r: u64)
    requires
        tower_width(w),
        tower_element(w, x),
        tower_element(w, y),
    ensures
        r == tower_times(w, x, y),
    decreases w,
{
    if w <= 1 {
        return x & y;
    }
    let h: u64 = w / 2;
    proof {
        lemma_halves(h, x);
        lemma_halves(h, y);
        lemma_shl_one(h);
    }
    let mask: u64 = (1 << h) - 1;
    let (x0, x1) = (x & mask, x >> h);
    let (y0, y1) = (y & mask, y >> h);
    proof {
        lemma_parts_elements(h, x0, x1, y0, y1);
        lemma_xor_element(h, x0, x1);
        lemma_xor_element(h, y0, y1);
        // (x0 + x1) * (y0 + y1) + x0 * y0 == x0 * y1 + x1 * y0 + x1 * y1
        lemma_times_distributes(h, x0 ^ x1, y0, y1);
        lemma_times_distributes_left(h, x0, x1, y0);
        lemma_times_distributes_left(h, x0, x1, y1);
        let (m00, m01) = (tower_times(h, x0, y0), tower_times(h, x0, y1));
        let (m10, m11) = (tower_times(h, x1, y0), tower_times(h, x1, y1));
        assert(((m00 ^ m10) ^ (m01 ^ m11)) ^ m00 == m01 ^ m10 ^ m11) by (bit_vector);
    }
    let m00 = tower_mul(h, x0, y0);
    let m11 = tower_mul(h, x1, y1);
    let lo = m00 ^ tower_mul(h, 1 << (h - 1), m11);
    let hi = tower_mul(h, x0 ^ x1, y0 ^ y1) ^ m00;
    lo ^ (hi << h)
}

} // verus!
