//! Packed binary fields.
use crate::binary_field::{lemma_bytes, BinaryField32b, BinaryField8b};
use crate::field::{ExtensionField, Field};
use crate::packed::{base_coords, scalars, PackedExtensionField, PackedField};
use crate::tower::{join, lemma_join, lemma_shl_one};
use vstd::arithmetic::div_mod::lemma_fundamental_div_mod;
use vstd::prelude::*;

verus! {

/// A vector of `W` field elements.
#[derive(Clone, Copy, Debug, PartialEq, Eq)]
pub struct PackedArray<F, const W: usize>(pub [F; W]);

/// Sixteen elements of the field with elements of 8 bits.
pub type PackedBinaryField16x8b = PackedArray<BinaryField8b, 16>;

/// Four elements of the field with elements of 32 bits.
pub type PackedBinaryField4x32b = PackedArray<BinaryField32b, 4>;

impl<F: Field, const W: usize> PackedField for PackedArray<F, W> {
    type Scalar = F;

    open spec fn width_spec() -> usize {
        W
    }

    open spec fn lanes(self) -> Seq<F> {
        self.0@
    }

    proof fn lanes_len(x: PackedArray<F, W>) {
    }

    proof fn lanes_injective(x: PackedArray<F, W>, y: PackedArray<F, W>) {
        assert(x.0 =~= y.0);
    }

    fn width() -> (r: usize) {
        W
    }

    fn zeros() -> (r: PackedArray<F, W>)
        ensures
            forall|l: int| 0 <= l < W ==> #[trigger] r.0@[l] == F::zero_spec(),
    {
        let r = PackedArray([F::zero(); W]);
        proof {
            assert(r.0@ =~= Seq::new(W as nat, |l: int| F::zero_spec()));
        }
        r
    }

    fn get(self, lane: usize) -> (r: F)
        ensures
            r == self.0@[lane as int],
    {
        self.0[lane]
    }

    fn set(&mut self, lane: usize, value: F)
        ensures
            final(self).0@ == old(self).0@.update(lane as int, value),
    {
        self.0[lane] = value;
    }

    fn add_lanes(self, other: PackedArray<F, W>) -> (r: PackedArray<F, W>)
        ensures
            forall|l: int| 0 <= l < W ==> #[trigger] r.0@[l] == self.0@[l].plus(other.0@[l]),
    {
        let mut r = self;
        let mut l: usize = 0;
        while l < W
            invariant
                l <= W,
                forall|k: int|
                    0 <= k < W ==> #[trigger] r.0@[k] == if k < l {
                        self.0@[k].plus(other.0@[k])
                    } else {
                        self.0@[k]
                    },
            decreases W - l,
        {
            r.0[l] = self.0[l].add(other.0[l]);
            l += 1;
        }
        proof {
            assert(r.0@ =~= Seq::new(W as nat, |l: int| self.0@[l].plus(other.0@[l])));
        }
        r
    }

    fn mul_lanes(self, other: PackedArray<F, W>) -> (r: PackedArray<F, W>)
        ensures
            forall|l: int| 0 <= l < W ==> #[trigger] r.0@[l] == self.0@[l].times(other.0@[l]),
    {
        let mut r = self;
        let mut l: usize = 0;
        while l < W
            invariant
                l <= W,
                forall|k: int|
                    0 <= k < W ==> #[trigger] r.0@[k] == if k < l {
                        self.0@[k].times(other.0@[k])
                    } else {
                        self.0@[k]
                    },
            decreases W - l,
        {
            r.0[l] = self.0[l].mul(other.0[l]);
            l += 1;
        }
        proof {
            assert(r.0@ =~= Seq::new(W as nat, |l: int| self.0@[l].times(other.0@[l])));
        }
        r
    }

    fn scale_lanes(self, a: F) -> (r: PackedArray<F, W>)
        ensures
            forall|l: int| 0 <= l < W ==> #[trigger] r.0@[l] == self.0@[l].times(a),
    {
        let mut r = self;
        let mut l: usize = 0;
        while l < W
            invariant
                l <= W,
                forall|k: int|
                    0 <= k < W ==> #[trigger] r.0@[k] == if k < l {
                        self.0@[k].times(a)
                    } else {
                        self.0@[k]
                    },
            decreases W - l,
        {
            r.0[l] = self.0[l].mul(a);
            l += 1;
        }
        proof {
            assert(r.0@ =~= Seq::new(W as nat, |l: int| self.0@[l].times(a)));
        }
        r
    }

    fn interleave(self, other: PackedArray<F, W>, block_len: usize) -> (r: (
        PackedArray<F, W>,
        PackedArray<F, W>,
    ))
        ensures
            forall|l: int|
                0 <= l < W ==> #[trigger] r.0.0@[l] == if (l / block_len as int) % 2 == 0 {
                    self.0@[l]
                } else {
                    other.0@[l - block_len]
                },
            forall|l: int|
                0 <= l < W ==> #[trigger] r.1.0@[l] == if (l / block_len as int) % 2 == 0 {
                    self.0@[l + block_len]
                } else {
                    other.0@[l]
                },
    {
        let ghost first = Seq::new(
            W as nat,
            |l: int|
                if (l / block_len as int) % 2 == 0 {
                    self.0@[l]
                } else {
                    other.0@[l - block_len]
                },
        );
        let ghost second = Seq::new(
            W as nat,
            |l: int|
                if (l / block_len as int) % 2 == 0 {
                    self.0@[l + block_len]
                } else {
                    other.0@[l]
                },
        );
        let mut r0 = self;
        let mut r1 = other;
        let mut l: usize = 0;
        while l < W
            invariant
                l <= W,
                0 < block_len,
                W as int % (2 * block_len) == 0,
                first.len() == W,
                second.len() == W,
                forall|k: int|
                    0 <= k < W ==> #[trigger] first[k] == if (k / block_len as int) % 2 == 0 {
                        self.0@[k]
                    } else {
                        other.0@[k - block_len]
                    },
                forall|k: int|
                    0 <= k < W ==> #[trigger] second[k] == if (k / block_len as int) % 2 == 0 {
                        self.0@[k + block_len]
                    } else {
                        other.0@[k]
                    },
                forall|k: int|
                    0 <= k < W ==> #[trigger] r0.0@[k] == if k < l {
                        first[k]
                    } else {
                        self.0@[k]
                    },
                forall|k: int|
                    0 <= k < W ==> #[trigger] r1.0@[k] == if k < l {
                        second[k]
                    } else {
                        other.0@[k]
                    },
            decreases W - l,
        {
            proof {
                lemma_interleave_position(W as int, block_len as int, l as int);
                let (u, v) = (first[l as int], second[l as int]);
            }
            if (l / block_len) % 2 == 0 {
                r1.0[l] = self.0[l + block_len];
            } else {
                r0.0[l] = other.0[l - block_len];
            }
            l += 1;
        }
        proof {
            assert(r0.0@ =~= first);
            assert(r1.0@ =~= second);
        }
        (r0, r1)
    }
}

/// The block next to an even block is a block too, and there is a block before an odd one.
proof fn lemma_interleave_position(width: int, block_len: int, l: int)
    requires
        0 < block_len,
        width % (2 * block_len) == 0,
        0 <= l < width,
    ensures
        (l / block_len) % 2 == 0 ==> l + block_len < width,
        (l / block_len) % 2 != 0 ==> block_len <= l,
{
    let b = block_len;
    let q = l / b;
    let m = width / (2 * b);
    lemma_fundamental_div_mod(l, b);
    lemma_fundamental_div_mod(width, 2 * b);
    if q % 2 == 0 {
        let h = q / 2;
        let x = 2 * b;
        assert(b * q == x * h) by (nonlinear_arith)
            requires
                q == 2 * h,
                x == 2 * b,
        ;
        assert(h < m) by (nonlinear_arith)
            requires
                x * h <= l < x * m,
                0 < x,
        ;
        assert(x * h + x <= x * m) by (nonlinear_arith)
            requires
                h + 1 <= m,
                0 < x,
        ;
    } else {
        assert(b <= l) by (nonlinear_arith)
            requires
                l == b * q + l % b,
                0 <= l % b,
                q >= 1,
                0 < b,
        ;
    }
}

/// The coordinates of an element of the field with elements of 32 bits.
fn to_bytes(x: BinaryField32b) -> (r: [BinaryField8b; 4])
    ensures
        r@ == <BinaryField32b as ExtensionField<BinaryField8b>>::coords(x),
{
    proof {
        lemma_shl_one(8);
        lemma_shl_one(16);
        lemma_bytes(x.0);
    }
    let a: u64 = x.0 as u64;
    let mask16: u64 = (1u64 << 16) - 1;
    let mask8: u64 = (1u64 << 8) - 1;
    let (lo, hi) = (a & mask16, a >> 16);
    let r = [
        BinaryField8b((lo & mask8) as u8),
        BinaryField8b((lo >> 8) as u8),
        BinaryField8b((hi & mask8) as u8),
        BinaryField8b((hi >> 8) as u8),
    ];
    proof {
        assert(r@ =~= <BinaryField32b as ExtensionField<BinaryField8b>>::coords(x));
    }
    r
}

/// The element of the field with elements of 32 bits that has given coordinates.
fn from_bytes(b0: BinaryField8b, b1: BinaryField8b, b2: BinaryField8b, b3: BinaryField8b) -> (r:
    BinaryField32b)
    ensures
        <BinaryField32b as ExtensionField<BinaryField8b>>::coords(r) == seq![b0, b1, b2, b3],
{
    let (c0, c1) = (b0.0 as u64, b1.0 as u64);
    let (c2, c3) = (b2.0 as u64, b3.0 as u64);
    let lo: u64 = c0 ^ (c1 << 8);
    let hi: u64 = c2 ^ (c3 << 8);
    proof {
        lemma_shl_one(8);
        lemma_join(8, c0, c1);
        lemma_join(8, c2, c3);
        lemma_join(16, lo, hi);
    }
    let r = BinaryField32b((lo ^ (hi << 16)) as u32);
    proof {
        let s = <BinaryField32b as ExtensionField<BinaryField8b>>::coords(r);
        assert(r.0 as u64 == join(16, lo, hi));
        assert(s =~= seq![b0, b1, b2, b3]);
    }
    r
}

impl PackedExtensionField<BinaryField8b> for BinaryField32b {
    open spec fn n_bases() -> nat {
        4
    }

    proof fn bases_cover() {
    }

    fn to_bases(self) -> (r: Vec<BinaryField8b>) {
        let bytes = to_bytes(self);
        let mut r: Vec<BinaryField8b> = Vec::new();
        r.push(bytes[0]);
        r.push(bytes[1]);
        r.push(bytes[2]);
        r.push(bytes[3]);
        proof {
            lemma_scalar_bases(self, r@);
        }
        r
    }

    fn from_bases(bases: &[BinaryField8b]) -> (r: BinaryField32b) {
        let r = from_bytes(bases[0], bases[1], bases[2], bases[3]);
        proof {
            lemma_scalar_bases(r, bases@);
        }
        r
    }
}

/// The coordinates of one element are four vectors with a single lane.
proof fn lemma_scalar_bases(x: BinaryField32b, bases: Seq<BinaryField8b>)
    requires
        bases.len() == 4,
        forall|c: int|
            0 <= c < 4 ==> #[trigger] bases[c] == <BinaryField32b as ExtensionField<
                BinaryField8b,
            >>::coords(x)[c],
    ensures
        scalars(bases) == base_coords::<BinaryField8b, BinaryField32b>(
            <BinaryField32b as PackedField>::lanes(x),
        ),
{
    let a = scalars(bases);
    let b = base_coords::<BinaryField8b, BinaryField32b>(
        <BinaryField32b as PackedField>::lanes(x),
    );
    assert(a.len() == 4);
    assert(b.len() == 4);
    assert forall|c: int| 0 <= c < 4 implies a[c] == b[c] by {
        assert(a[c] == bases[c]);
    }
    assert(a =~= b);
}

impl PackedExtensionField<PackedBinaryField16x8b> for PackedBinaryField4x32b {
    open spec fn n_bases() -> nat {
        1
    }

    proof fn bases_cover() {
        assert(<PackedBinaryField16x8b as PackedField>::width_spec() == 16);
        assert(<PackedBinaryField4x32b as PackedField>::width_spec() == 4);
    }

    fn to_bases(self) -> (r: Vec<PackedBinaryField16x8b>) {
        let mut lanes: [BinaryField8b; 16] = [BinaryField8b(0);16];
        let mut l: usize = 0;
        while l < 4
            invariant
                l <= 4,
                forall|c: int|
                    0 <= c < 4 * l ==> #[trigger] lanes@[c] == <BinaryField32b as ExtensionField<
                        BinaryField8b,
                    >>::coords(self.0@[c / 4])[c % 4],
            decreases 4 - l,
        {
            let bytes = to_bytes(self.0[l]);
            let ghost prev = lanes@;
            lanes[4 * l] = bytes[0];
            lanes[4 * l + 1] = bytes[1];
            lanes[4 * l + 2] = bytes[2];
            lanes[4 * l + 3] = bytes[3];
            proof {
                assert forall|c: int| 0 <= c < 4 * (l + 1) implies #[trigger] lanes@[c]
                    == <BinaryField32b as ExtensionField<BinaryField8b>>::coords(
                    self.0@[c / 4],
                )[c % 4] by {
                    if c < 4 * l {
                        assert(lanes@[c] == prev[c]);
                    }
                }
            }
            l += 1;
        }
        let mut r: Vec<PackedBinaryField16x8b> = Vec::new();
        r.push(PackedArray(lanes));
        proof {
            lemma_packed_bases(self, r@);
        }
        r
    }

    fn from_bases(bases: &[PackedBinaryField16x8b]) -> (r: PackedBinaryField4x32b) {
        let b = bases[0];
        let r = PackedArray(
            [
                from_bytes(b.0[0], b.0[1], b.0[2], b.0[3]),
                from_bytes(b.0[4], b.0[5], b.0[6], b.0[7]),
                from_bytes(b.0[8], b.0[9], b.0[10], b.0[11]),
                from_bytes(b.0[12], b.0[13], b.0[14], b.0[15]),
            ],
        );
        proof {
            assert forall|c: int| 0 <= c < 16 implies #[trigger] bases@[0].0@[c]
                == <BinaryField32b as ExtensionField<BinaryField8b>>::coords(r.0@[c / 4])[c
                % 4] by {
                let l = c / 4;
                assert(l == 0 || l == 1 || l == 2 || l == 3);
                assert(c == 4 * l + c % 4);
            }
            lemma_packed_bases(r, bases@);
        }
        r
    }
}

/// The coordinates of four elements are one vector with sixteen lanes.
proof fn lemma_packed_bases(x: PackedBinaryField4x32b, bases: Seq<PackedBinaryField16x8b>)
    requires
        bases.len() == 1,
        forall|c: int|
            0 <= c < 16 ==> #[trigger] bases[0].0@[c] == <BinaryField32b as ExtensionField<
                BinaryField8b,
            >>::coords(x.0@[c / 4])[c % 4],
    ensures
        scalars(bases) == base_coords::<BinaryField8b, BinaryField32b>(x.lanes()),
{
    let a = scalars(bases);
    let b = base_coords::<BinaryField8b, BinaryField32b>(x.lanes());
    assert(a.len() == 16);
    assert(b.len() == 16);
    assert forall|c: int| 0 <= c < 16 implies a[c] == b[c] by {
        assert(a[c] == bases[0].0@[c]);
    }
    assert(a =~= b);
}

} // verus!
