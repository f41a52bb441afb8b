use additive_ntt::binary_field::{BinaryField32b, BinaryField8b};
use additive_ntt::field::{BinaryField, ExtensionField, Field};
use additive_ntt::index::{exact_log2, is_power_of_two, significant_bits};
use additive_ntt::packed::{cast_from_bases, cast_to_bases, PackedExtensionField, PackedField};
use additive_ntt::packed_binary_field::{
    PackedArray, PackedBinaryField16x8b, PackedBinaryField4x32b,
};
use additive_ntt::twiddles::{
    cantor_basis_subspace_map, expand_row, expand_table, subset_sum, subspace_table,
};

#[test]
fn products_of_bytes() {
    for (x, y, product) in [
        (2, 2, 3),
        (4, 4, 6),
        (8, 8, 13),
        (2, 3, 1),
        (16, 16, 24),
        (0x53, 0xca, 13),
        (255, 255, 156),
    ] {
        assert_eq!(BinaryField8b(x).mul(BinaryField8b(y)), BinaryField8b(product));
    }
    assert_eq!(BinaryField8b(255).square(), BinaryField8b(156));
    assert_eq!(BinaryField8b(0x53).add(BinaryField8b(0xca)), BinaryField8b(0x99));
}

#[test]
fn products_of_words() {
    for (x, y, product) in [
        (0x10000, 0x10000, 0x18000),
        (0x12345678, 0x9abcdef0, 0xc45a52c7),
        (0xffffffff, 2, 0x55555555),
        (0x100, 0x100, 0x180),
    ] {
        assert_eq!(BinaryField32b(x).mul(BinaryField32b(y)), BinaryField32b(product));
    }
    assert_eq!(BinaryField32b(0x10000).square(), BinaryField32b(0x18000));
}

#[test]
fn words_extend_bytes() {
    assert_eq!(<BinaryField32b as ExtensionField<BinaryField8b>>::degree(), 4);
    assert_eq!(
        BinaryField32b(0x04030201).mul_base(BinaryField8b(2)),
        BinaryField32b(0x08010302)
    );
    let bytes: Vec<BinaryField8b> = BinaryField32b(0x04030201).to_bases();
    assert_eq!(bytes, [1, 2, 3, 4].map(BinaryField8b));
    let word: BinaryField32b = PackedExtensionField::<BinaryField8b>::from_bases(&bytes);
    assert_eq!(word, BinaryField32b(0x04030201));
}

#[test]
fn basis_vectors() {
    assert_eq!(BinaryField8b::n_bits(), 8);
    assert_eq!(BinaryField8b::basis(7), Some(BinaryField8b(128)));
    assert_eq!(BinaryField8b::basis(8), None);
    assert_eq!(BinaryField32b::n_bits(), 32);
    assert_eq!(BinaryField32b::basis(31), Some(BinaryField32b(1 << 31)));
    assert_eq!(BinaryField32b::basis(32), None);
}

#[test]
fn subspace_map_values() {
    for (x, y) in [(2, 1), (3, 1), (4, 2), (5, 2), (16, 8), (255, 99)] {
        assert_eq!(cantor_basis_subspace_map(BinaryField8b(x)), BinaryField8b(y));
    }
}

#[test]
fn subset_sums() {
    let values = [1, 6, 24, 32].map(BinaryField8b);
    assert_eq!(subset_sum(&values, 4, 0b1010), BinaryField8b(38));
    assert_eq!(subset_sum(&values, 4, 0), BinaryField8b(0));
    assert_eq!(subset_sum(&values, 2, 0b1111), BinaryField8b(7));
    assert_eq!(subset_sum(&values, 0, 0b1111), BinaryField8b(0));
}

#[test]
fn twiddle_tables() {
    let table = subspace_table::<BinaryField8b>(4);
    assert_eq!(
        table,
        vec![
            vec![BinaryField8b(2), BinaryField8b(4), BinaryField8b(8)],
            vec![BinaryField8b(2), BinaryField8b(5)],
            vec![BinaryField8b(2)],
            vec![],
        ]
    );
    let expanded = expand_table(4, &table);
    assert_eq!(expanded[0], [0, 2, 4, 6, 8, 10, 12, 14].map(BinaryField8b));
    assert_eq!(expanded[1], [0, 2, 5, 7].map(BinaryField8b));
    assert_eq!(expanded[2], [0, 2].map(BinaryField8b));
    assert_eq!(expanded[3], [0].map(BinaryField8b));
    assert_eq!(table.iter().map(Vec::len).sum::<usize>(), 6);
    assert_eq!(expanded.iter().map(Vec::len).sum::<usize>(), 15);
    assert_eq!(subspace_table::<BinaryField8b>(0), vec![vec![]]);
    assert_eq!(expand_row(&vec![BinaryField8b(3)]), [0, 3].map(BinaryField8b));
}

#[test]
fn interleaved_blocks() {
    let a = PackedArray([0, 1, 2, 3].map(BinaryField8b));
    let b = PackedArray([4, 5, 6, 7].map(BinaryField8b));
    let (u, v) = a.interleave(b, 1);
    assert_eq!(u, PackedArray([0, 4, 2, 6].map(BinaryField8b)));
    assert_eq!(v, PackedArray([1, 5, 3, 7].map(BinaryField8b)));
    assert_eq!(u.interleave(v, 1), (a, b));
    let (u, v) = a.interleave(b, 2);
    assert_eq!(u, PackedArray([0, 1, 4, 5].map(BinaryField8b)));
    assert_eq!(v, PackedArray([2, 3, 6, 7].map(BinaryField8b)));
    assert_eq!(u.interleave(v, 2), (a, b));
}

#[test]
fn lanes() {
    let a = PackedArray([1, 2, 3, 4].map(BinaryField8b));
    let b = PackedArray([2, 2, 2, 2].map(BinaryField8b));
    assert_eq!(a.add_lanes(b), PackedArray([3, 0, 1, 6].map(BinaryField8b)));
    assert_eq!(a.mul_lanes(b), PackedArray([2, 3, 1, 8].map(BinaryField8b)));
    assert_eq!(a.scale_lanes(BinaryField8b(2)), a.mul_lanes(b));
    let mut c = PackedArray::<BinaryField8b, 4>::zeros();
    assert_eq!(c, PackedArray([BinaryField8b(0); 4]));
    c.set(2, BinaryField8b(5));
    assert_eq!(c.get(2), BinaryField8b(5));
    assert_eq!(c.get(1), BinaryField8b(0));
    assert_eq!(PackedBinaryField16x8b::width(), 16);
    assert_eq!(BinaryField8b::width(), 1);
}

#[test]
fn casts_to_the_subfield() {
    let data: [PackedBinaryField4x32b; 2] = [
        PackedArray([0x03020100, 0x07060504, 0x0b0a0908, 0x0f0e0d0c].map(BinaryField32b)),
        PackedArray([0x13121110, 0x17161514, 0x1b1a1918, 0x1f1e1d1c].map(BinaryField32b)),
    ];
    let bases: Vec<PackedBinaryField16x8b> = cast_to_bases(&data);
    assert_eq!(bases.len(), 2);
    for (i, packed) in bases.iter().enumerate() {
        for lane in 0..16 {
            assert_eq!(packed.get(lane), BinaryField8b((16 * i + lane) as u8));
        }
    }
    let mut restored = [PackedBinaryField4x32b::zeros(); 2];
    cast_from_bases(&bases, &mut restored);
    assert_eq!(restored, data);
}

#[test]
fn numbers_of_bits() {
    assert!(is_power_of_two(1) && is_power_of_two(64));
    assert!(!is_power_of_two(0) && !is_power_of_two(3) && !is_power_of_two(65));
    assert_eq!(exact_log2(1), 0);
    assert_eq!(exact_log2(64), 6);
    assert_eq!(significant_bits(0), 0);
    assert_eq!(significant_bits(1), 1);
    assert_eq!(significant_bits(5), 3);
    assert_eq!(significant_bits(u32::MAX), 32);
}
