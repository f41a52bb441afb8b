//! The binary fields with 8 and 32 dimensions.
use crate::field::{BinaryField, ExtensionField, Field};
use crate::tower::{
    join, law_tower_monomials, law_tower_squares, lemma_halves, lemma_inverse, lemma_shl_one,
    lemma_small, lemma_times_associates, lemma_times_commutes, lemma_times_distributes,
    lemma_times_element, lemma_times_embedded, lemma_times_one, lemma_times_subfield, lemma_xor,
    lemma_xor_halves, lower, tower_mul, tower_times, upper,
};
use vstd::arithmetic::power2::{lemma2_to64, pow2};
use vstd::bits::{lemma_u64_pow2_no_overflow, lemma_u64_shl_is_mul};
use vstd::prelude::*;

verus! {

/// The laws of the exclusive or.
proof fn lemma_xor_u8(x: u8, y: u8, z: u8)
    ensures
        x ^ y == y ^ x,
        (x ^ y) ^ z == x ^ (y ^ z),
        x ^ 0 == x,
        x ^ x == 0,
{
    lemma_xor(x as u64, y as u64, z as u64);
}

/// The laws of the exclusive or.
proof fn lemma_xor_u32(x: u32, y: u32, z: u32)
    ensures
        x ^ y == y ^ x,
        (x ^ y) ^ z == x ^ (y ^ z),
        x ^ 0 == x,
        x ^ x == 0,
{
    lemma_xor(x as u64, y as u64, z as u64);
}

/// The field of the tower whose elements have 8 bits.
#[derive(Clone, Copy, Debug, PartialEq, Eq, Structural)]
pub struct BinaryField8b(pub u8);

impl Field for BinaryField8b {
    open spec fn zero_spec() -> BinaryField8b {
        BinaryField8b(0)
    }

    open spec fn one_spec() -> BinaryField8b {
        BinaryField8b(1)
    }

    open spec fn plus(self, other: BinaryField8b) -> BinaryField8b {
        BinaryField8b(self.0 ^ other.0)
    }

    open spec fn times(self, other: BinaryField8b) -> BinaryField8b {
        BinaryField8b(tower_times(8, self.0 as u64, other.0 as u64) as u8)
    }

    proof fn plus_commutes(x: BinaryField8b, y: BinaryField8b) {
        lemma_xor_u8(x.0, y.0, 0);
    }

    proof fn plus_associates(x: BinaryField8b, y: BinaryField8b, z: BinaryField8b) {
        lemma_xor_u8(x.0, y.0, z.0);
    }

    proof fn plus_zero(x: BinaryField8b) {
        lemma_xor_u8(x.0, 0, 0);
    }

    proof fn plus_self(x: BinaryField8b) {
        lemma_xor_u8(x.0, 0, 0);
    }

    proof fn times_commutes(x: BinaryField8b, y: BinaryField8b) {
        lemma_times_commutes(8, x.0 as u64, y.0 as u64);
    }

    proof fn times_associates(x: BinaryField8b, y: BinaryField8b, z: BinaryField8b) {
        let (a, b, c) = (x.0 as u64, y.0 as u64, z.0 as u64);
        lemma_shl_one(8);
        lemma_times_element(8, a, b);
        lemma_times_element(8, b, c);
        lemma_times_associates(8, a, b, c);
    }

    proof fn times_one(x: BinaryField8b) {
        lemma_shl_one(8);
        lemma_times_one(8, x.0 as u64);
    }

    proof fn times_distributes(x: BinaryField8b, y: BinaryField8b, z: BinaryField8b) {
        let (a, b, c) = (x.0 as u64, y.0 as u64, z.0 as u64);
        lemma_shl_one(8);
        lemma_times_element(8, a, b);
        lemma_times_element(8, a, c);
        lemma_times_distributes(8, a, b, c);
    }

    proof fn inverse(x: BinaryField8b) -> (y: BinaryField8b) {
        lemma_shl_one(8);
        let y = lemma_inverse(8, x.0 as u64);
        BinaryField8b(y as u8)
    }

    proof fn one_is_not_zero() {
    }

    fn zero() -> (r: BinaryField8b) {
        BinaryField8b(0)
    }

    fn one() -> (r: BinaryField8b) {
        BinaryField8b(1)
    }

    fn add(self, other: BinaryField8b) -> (r: BinaryField8b) {
        BinaryField8b(self.0 ^ other.0)
    }

    fn mul(self, other: BinaryField8b) -> (r: BinaryField8b) {
        proof {
            lemma_shl_one(8);
        }
        BinaryField8b(tower_mul(8, self.0 as u64, other.0 as u64) as u8)
    }

    fn square(self) -> (r: BinaryField8b) {
        self.mul(self)
    }
}

impl BinaryField for BinaryField8b {
    open spec fn n_bits_spec() -> usize {
        8
    }

    open spec fn basis_vector(i: nat) -> BinaryField8b {
        BinaryField8b(1u8 << i)
    }

    fn n_bits() -> (r: usize) {
        8
    }

    fn basis(i: usize) -> (r: Option<BinaryField8b>) {
        if i < 8 {
            Some(BinaryField8b(1 << i))
        } else {
            None
        }
    }
}

/// The field of the tower whose elements have 32 bits.
#[derive(Clone, Copy, Debug, PartialEq, Eq, Structural)]
pub struct BinaryField32b(pub u32);

impl Field for BinaryField32b {
    open spec fn zero_spec() -> BinaryField32b {
        BinaryField32b(0)
    }

    open spec fn one_spec() -> BinaryField32b {
        BinaryField32b(1)
    }

    open spec fn plus(self, other: BinaryField32b) -> BinaryField32b {
        BinaryField32b(self.0 ^ other.0)
    }

    open spec fn times(self, other: BinaryField32b) -> BinaryField32b {
        BinaryField32b(tower_times(32, self.0 as u64, other.0 as u64) as u32)
    }

    proof fn plus_commutes(x: BinaryField32b, y: BinaryField32b) {
        lemma_xor_u32(x.0, y.0, 0);
    }

    proof fn plus_associates(x: BinaryField32b, y: BinaryField32b, z: BinaryField32b) {
        lemma_xor_u32(x.0, y.0, z.0);
    }

    proof fn plus_zero(x: BinaryField32b) {
        lemma_xor_u32(x.0, 0, 0);
    }

    proof fn plus_self(x: BinaryField32b) {
        lemma_xor_u32(x.0, 0, 0);
    }

    proof fn times_commutes(x: BinaryField32b, y: BinaryField32b) {
        lemma_times_commutes(32, x.0 as u64, y.0 as u64);
    }

    proof fn times_associates(x: BinaryField32b, y: BinaryField32b, z: BinaryField32b) {
        let (a, b, c) = (x.0 as u64, y.0 as u64, z.0 as u64);
        lemma_shl_one(32);
        lemma_times_element(32, a, b);
        lemma_times_element(32, b, c);
        lemma_times_associates(32, a, b, c);
    }

    proof fn times_one(x: BinaryField32b) {
        lemma_shl_one(32);
        lemma_times_one(32, x.0 as u64);
    }

    proof fn times_distributes(x: BinaryField32b, y: BinaryField32b, z: BinaryField32b) {
        let (a, b, c) = (x.0 as u64, y.0 as u64, z.0 as u64);
        lemma_shl_one(32);
        lemma_times_element(32, a, b);
        lemma_times_element(32, a, c);
        lemma_times_distributes(32, a, b, c);
    }

    proof fn inverse(x: BinaryField32b) -> (y: BinaryField32b) {
        lemma_shl_one(32);
        let y = lemma_inverse(32, x.0 as u64);
        BinaryField32b(y as u32)
    }

    proof fn one_is_not_zero() {
    }

    fn zero() -> (r: BinaryField32b) {
        BinaryField32b(0)
    }

    fn one() -> (r: BinaryField32b) {
        BinaryField32b(1)
    }

    fn add(self, other: BinaryField32b) -> (r: BinaryField32b) {
        BinaryField32b(self.0 ^ other.0)
    }

    fn mul(self, other: BinaryField32b) -> (r: BinaryField32b) {
        proof {
            lemma_shl_one(32);
        }
        BinaryField32b(tower_mul(32, self.0 as u64, other.0 as u64) as u32)
    }

    fn square(self) -> (r: BinaryField32b) {
        self.mul(self)
    }
}

impl BinaryField for BinaryField32b {
    open spec fn n_bits_spec() -> usize {
        32
    }

    open spec fn basis_vector(i: nat) -> BinaryField32b {
        BinaryField32b(1u32 << i)
    }

    fn n_bits() -> (r: usize) {
        32
    }

    fn basis(i: usize) -> (r: Option<BinaryField32b>) {
        if i < 32 {
            Some(BinaryField32b(1 << i))
        } else {
            None
        }
    }
}

/// The bytes of an element of the field with elements of 32 bits, as numbers.
pub open spec fn byte(x: u64, c: int) -> u64 {
    if c == 0 {
        lower(8, lower(16, x))
    } else if c == 1 {
        upper(8, lower(16, x))
    } else if c == 2 {
        lower(8, upper(16, x))
    } else {
        upper(8, upper(16, x))
    }
}

/// Bytes are elements of the field with elements of 8 bits, and they determine the number.
pub proof fn lemma_bytes(x: u32)
    ensures
        forall|c: int| #[trigger] byte(x as u64, c) < 0x100,
        x as u64 == join(
            16,
            join(8, byte(x as u64, 0), byte(x as u64, 1)),
            join(8, byte(x as u64, 2), byte(x as u64, 3)),
        ),
{
    let a = x as u64;
    lemma_shl_one(8);
    lemma_halves(16, a);
    lemma_halves(8, lower(16, a));
    lemma_halves(8, upper(16, a));
}

impl ExtensionField<BinaryField8b> for BinaryField32b {
    open spec fn degree_spec() -> usize {
        4
    }

    open spec fn embed(x: BinaryField8b) -> BinaryField32b {
        BinaryField32b(x.0 as u32)
    }

    open spec fn coords(self) -> Seq<BinaryField8b> {
        Seq::new(4, |c: int| BinaryField8b(byte(self.0 as u64, c) as u8))
    }

    proof fn embed_one() {
    }

    proof fn embed_plus(x: BinaryField8b, y: BinaryField8b) {
    }

    proof fn embed_times(x: BinaryField8b, y: BinaryField8b) {
        let (a, b) = (x.0 as u64, y.0 as u64);
        lemma_shl_one(8);
        lemma_times_element(8, a, b);
        lemma_times_embedded(8, a, b);
        lemma_small(8, a);
        lemma_small(8, b);
        lemma_times_embedded(16, a, b);
    }

    proof fn coords_len(x: BinaryField32b) {
    }

    proof fn coords_plus(x: BinaryField32b, y: BinaryField32b, c: int) {
        let (a, b) = (x.0 as u64, y.0 as u64);
        lemma_bytes(x.0);
        lemma_bytes(y.0);
        lemma_xor_halves(16, a, b);
        lemma_xor_halves(8, lower(16, a), lower(16, b));
        lemma_xor_halves(8, upper(16, a), upper(16, b));
    }

    proof fn coords_scale(x: BinaryField32b, a: BinaryField8b, c: int) {
        let (u, v) = (x.0 as u64, a.0 as u64);
        lemma_shl_one(8);
        lemma_bytes(x.0);
        lemma_halves(16, u);
        lemma_halves(8, lower(16, u));
        lemma_halves(8, upper(16, u));
        lemma_small(8, v);
        lemma_small(16, v);
        lemma_times_element(32, u, v);
        lemma_times_subfield(16, u, v);
        lemma_times_subfield(8, lower(16, u), v);
        lemma_times_subfield(8, upper(16, u), v);
        lemma_times_element(8, byte(u, c), v);
    }

    proof fn coords_injective(x: BinaryField32b, y: BinaryField32b) {
        lemma_bytes(x.0);
        lemma_bytes(y.0);
        let s = <BinaryField32b as ExtensionField<BinaryField8b>>::coords(x);
        let t = <BinaryField32b as ExtensionField<BinaryField8b>>::coords(y);
        let (a, b) = (x.0 as u64, y.0 as u64);
        assert forall|c: int| 0 <= c < 4 implies byte(a, c) == #[trigger] byte(b, c) by {
            assert(s[c] == t[c]);
            assert(s[c] == BinaryField8b(byte(a, c) as u8));
            assert(t[c] == BinaryField8b(byte(b, c) as u8));
            assert(byte(a, c) < 0x100 && byte(b, c) < 0x100);
        }
    }

    fn degree() -> (r: usize) {
        4
    }

    fn mul_base(self, a: BinaryField8b) -> (r: BinaryField32b) {
        self.mul(BinaryField32b(a.0 as u32))
    }
}

/// A power of two as a number of 8 bits.
pub proof fn lemma_shl_8b(j: u64)
    requires
        j < 8,
    ensures
        (1u8 << j) as u64 == 1u64 << j,
        1u8 << j == pow2(j as nat),
        1u64 << j == pow2(j as nat),
{
    assert((1u8 << j) as u64 == 1u64 << j) by (bit_vector)
        requires
            j < 8,
    ;
    lemma_u64_pow2_no_overflow(j as nat);
    lemma_u64_shl_is_mul(1, j);
}

/// Elements of `BinaryField8b` are added by the exclusive or, and the numbers zero and one are
/// neutral.
pub proof fn law_sums_8b(x: BinaryField8b, y: BinaryField8b)
    ensures
        x.plus(y).0 == x.0 ^ y.0,
        BinaryField8b::zero_spec().0 == 0,
        BinaryField8b::one_spec().0 == 1,
{
}

/// The relations that fix the products of `BinaryField8b`: powers of two whose exponents have no
/// bit in common are multiplied by adding the exponents, and the power of two whose exponent `h` is
/// itself a power of two has the sum of the powers with the exponents `h` and `h - 1` as its
/// square.
pub proof fn law_products_8b(a: u64, b: u64, h: u64)
    requires
        a < 8,
        b < 8,
        a & b == 0,
        h == 1 || h == 2 || h == 4,
    ensures
        BinaryField8b(1u8 << a).times(BinaryField8b(1u8 << b)) == BinaryField8b(
            1u8 << (a | b),
        ),
        BinaryField8b(1u8 << h).times(BinaryField8b(1u8 << h)) == BinaryField8b(
            (1u8 << h) ^ (1u8 << (h - 1)),
        ),
{
    lemma_shl_8b(a);
    lemma_shl_8b(b);
    lemma_shl_8b(h);
    lemma_shl_8b((h - 1) as u64);
    law_tower_monomials(8, a, b);
    lemma_shl_8b(a | b);
    law_tower_squares(8, h);
}

/// The basis of `BinaryField8b` consists of the powers of two below `pow2(8)`.
pub proof fn law_basis_8b(i: nat)
    requires
        i < 8,
    ensures
        BinaryField8b::n_bits_spec() == 8,
        BinaryField8b::basis_vector(i).0 == pow2(i),
{
    lemma_shl_8b(i as u64);
}

/// A power of two as a number of 32 bits.
pub proof fn lemma_shl_32b(j: u64)
    requires
        j < 32,
    ensures
        (1u32 << j) as u64 == 1u64 << j,
        1u32 << j == pow2(j as nat),
        1u64 << j == pow2(j as nat),
{
    assert((1u32 << j) as u64 == 1u64 << j) by (bit_vector)
        requires
            j < 32,
    ;
    lemma_u64_pow2_no_overflow(j as nat);
    lemma_u64_shl_is_mul(1, j);
}

/// Elements of `BinaryField32b` are added by the exclusive or, and the numbers zero and one are
/// neutral.
pub proof fn law_sums_32b(x: BinaryField32b, y: BinaryField32b)
    ensures
        x.plus(y).0 == x.0 ^ y.0,
        BinaryField32b::zero_spec().0 == 0,
        BinaryField32b::one_spec().0 == 1,
{
}

/// The relations that fix the products of `BinaryField32b`: powers of two whose exponents have no
/// bit in common are multiplied by adding the exponents, and the power of two whose exponent `h` is
/// itself a power of two has the sum of the powers with the exponents `h` and `h - 1` as its
/// square.
pub proof fn law_products_32b(a: u64, b: u64, h: u64)
    requires
        a < 32,
        b < 32,
        a & b == 0,
        h == 1 || h == 2 || h == 4 || h == 8 || h == 16,
    ensures
        BinaryField32b(1u32 << a).times(BinaryField32b(1u32 << b)) == BinaryField32b(
            1u32 << (a | b),
        ),
        BinaryField32b(1u32 << h).times(BinaryField32b(1u32 << h)) == BinaryField32b(
            (1u32 << h) ^ (1u32 << (h - 1)),
        ),
{
    lemma_shl_32b(a);
    lemma_shl_32b(b);
    lemma_shl_32b(h);
    lemma_shl_32b((h - 1) as u64);
    law_tower_monomials(32, a, b);
    lemma_shl_32b(a | b);
    law_tower_squares(32, h);
}

/// The basis of `BinaryField32b` consists of the powers of two below `pow2(32)`.
pub proof fn law_basis_32b(i: nat)
    requires
        i < 32,
    ensures
        BinaryField32b::n_bits_spec() == 32,
        BinaryField32b::basis_vector(i).0 == pow2(i),
{
    lemma_shl_32b(i as u64);
}

/// The field with elements of 32 bits contains the field with elements of 8 bits as the numbers
/// below `0x100`, and the coordinates of an element are its four bytes, the lowest first.
pub proof fn law_bytes_are_coords(x: BinaryField32b, a: BinaryField8b, c: int)
    requires
        0 <= c < 4,
    ensures
        <BinaryField32b as ExtensionField<BinaryField8b>>::degree_spec() == 4,
        <BinaryField32b as ExtensionField<BinaryField8b>>::embed(a).0 == a.0,
        <BinaryField32b as ExtensionField<BinaryField8b>>::coords(x).len() == 4,
        <BinaryField32b as ExtensionField<BinaryField8b>>::coords(x)[c].0 == x.0 as int / pow2(
            (8 * c) as nat,
        ) as int % 0x100,
{
    let y = x.0 as u64;
    lemma_bytes(x.0);
    lemma2_to64();
    lemma_shl_one(8);
    lemma_shl_one(16);
    let m = ((1u64 << 16u64) - 1) as u64;
    let n = ((1u64 << 8u64) - 1) as u64;
    assert((y & m) & n == y % 0x100 && (y & m) >> 8 == (y / 0x100) % 0x100 && (y >> 16) & n == (y
        / 0x10000) % 0x100 && (y >> 16) >> 8 == (y / 0x1000000) % 0x100) by (bit_vector)
        requires
            y < 0x1_0000_0000,
            m == (1u64 << 16u64) - 1,
            n == (1u64 << 8u64) - 1,
    ;
    let coord = <BinaryField32b as ExtensionField<BinaryField8b>>::coords(x)[c];
    assert(coord.0 == byte(y, c));
    if c == 0 {
        assert(pow2((8 * c) as nat) == 1);
    } else if c == 1 {
        assert(pow2((8 * c) as nat) == 0x100);
    } else if c == 2 {
        assert(pow2((8 * c) as nat) == 0x10000);
    } else {
        assert(pow2((8 * c) as nat) == 0x1000000);
    }
}

} // verus!
