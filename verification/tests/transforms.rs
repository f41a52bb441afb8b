use additive_ntt::additive_ntt::AdditiveNTT;
use additive_ntt::additive_ntt_with_precompute::AdditiveNTTWithPrecompute;
use additive_ntt::binary_field::{BinaryField32b, BinaryField8b};
use additive_ntt::error::Error;
use additive_ntt::field::Field;
use additive_ntt::packed::PackedField;
use additive_ntt::packed_binary_field::{
    PackedArray, PackedBinaryField16x8b, PackedBinaryField4x32b,
};
use rand::rngs::StdRng;
use rand::{RngCore, SeedableRng};
use std::iter::repeat_with;

fn random_8b(rng: &mut StdRng) -> BinaryField8b {
    BinaryField8b(rng.next_u32() as u8)
}

fn random_32b(rng: &mut StdRng) -> BinaryField32b {
    BinaryField32b(rng.next_u32())
}

fn random_packed<F: Field, const W: usize>(
    rng: &mut StdRng,
    scalar: fn(&mut StdRng) -> F,
) -> PackedArray<F, W> {
    PackedArray(std::array::from_fn(|_| scalar(rng)))
}

/// Applies `f` to the scalars of `data`.
fn on_scalars<P: PackedField, R>(data: &mut [P], f: impl FnOnce(&mut [P::Scalar]) -> R) -> R {
    let width = P::width();
    let mut scalars = Vec::new();
    for packed in data.iter() {
        for lane in 0..width {
            scalars.push(packed.get(lane));
        }
    }
    let result = f(&mut scalars);
    for (i, scalar) in scalars.into_iter().enumerate() {
        data[i / width].set(i % width, scalar);
    }
    result
}

#[test]
fn test_additive_ntt_fails_with_field_too_small() {
    assert!(matches!(
        <AdditiveNTT<BinaryField8b>>::new(10),
        Err(Error::FieldTooSmall {
            log_domain_size: 10
        })
    ));
}

#[test]
fn test_additive_ntt_transform() {
    let ntt = <AdditiveNTT<BinaryField8b>>::new(8).unwrap();
    let data = (0..1 << 6)
        .map(|i| BinaryField8b(i as u8))
        .collect::<Vec<_>>();

    let mut result = data.clone();
    for coset in 0..4 {
        ntt.inverse_transform(&mut result, coset).unwrap();
        ntt.forward_transform(&mut result, coset).unwrap();
        assert_eq!(result, data);
    }
}

#[test]
fn test_additive_ntt_with_precompute_matches() {
    let ntt = <AdditiveNTT<BinaryField8b>>::new(8).unwrap();
    let ntt_with_precompute = <AdditiveNTTWithPrecompute<BinaryField8b>>::new(8).unwrap();
    let data = (0..1 << 6)
        .map(|i| BinaryField8b(i as u8))
        .collect::<Vec<_>>();

    let mut result1 = data.clone();
    let mut result2 = data;
    for coset in 0..4 {
        ntt.inverse_transform(&mut result1, coset).unwrap();
        ntt_with_precompute
            .inverse_transform(&mut result2, coset)
            .unwrap();
        assert_eq!(result1, result2);

        ntt.forward_transform(&mut result1, coset).unwrap();
        ntt_with_precompute
            .forward_transform(&mut result2, coset)
            .unwrap();
        assert_eq!(result1, result2);
    }
}

#[test]
fn test_additive_ntt_transform_over_larger_field() {
    let mut rng = StdRng::seed_from_u64(0);

    let ntt = <AdditiveNTT<BinaryField8b>>::new(8).unwrap();
    let data = repeat_with(|| random_32b(&mut rng))
        .take(1 << 6)
        .collect::<Vec<_>>();

    let mut result = data.clone();
    for coset in 0..4 {
        ntt.inverse_transform(&mut result, coset).unwrap();
        ntt.forward_transform(&mut result, coset).unwrap();
        assert_eq!(result, data);
    }
}

#[test]
fn test_packed_ntt_on_scalars() {
    type Packed = PackedBinaryField16x8b;

    let mut rng = StdRng::seed_from_u64(0);

    let ntt = <AdditiveNTT<BinaryField8b>>::new(8).unwrap();
    let mut data: Vec<Packed> = repeat_with(|| random_packed(&mut rng, random_8b))
        .take(1 << 2)
        .collect::<Vec<_>>();
    let mut data_copy = data.clone();

    on_scalars(&mut data, |scalars| {
        ntt.inverse_transform::<BinaryField8b>(scalars, 2)
    })
    .unwrap();
    ntt.inverse_transform_packed::<Packed, _>(&mut data_copy, 2)
        .unwrap();
    assert_eq!(data, data_copy);

    on_scalars(&mut data, |scalars| {
        ntt.forward_transform::<BinaryField8b>(scalars, 3)
    })
    .unwrap();
    ntt.forward_transform_packed::<Packed, _>(&mut data_copy, 3)
        .unwrap();
    assert_eq!(data, data_copy);
}

#[test]
fn test_packed_ntt_over_larger_field() {
    type Packed = PackedBinaryField4x32b;

    let mut rng = StdRng::seed_from_u64(0);

    let ntt = <AdditiveNTT<BinaryField8b>>::new(8).unwrap();
    let ntt_with_precompute = <AdditiveNTTWithPrecompute<BinaryField8b>>::new(8).unwrap();
    let mut data: Vec<Packed> = repeat_with(|| random_packed(&mut rng, random_32b))
        .take(1 << 4)
        .collect::<Vec<_>>();

    let mut data_copy = data.clone();
    let mut data_copy_2 = data.clone();

    on_scalars(&mut data, |scalars| ntt.inverse_transform(scalars, 2)).unwrap();
    ntt.inverse_transform_packed::<PackedBinaryField16x8b, _>(&mut data_copy, 2)
        .unwrap();
    ntt_with_precompute
        .inverse_transform_packed::<PackedBinaryField16x8b, _>(&mut data_copy_2, 2)
        .unwrap();
    assert_eq!(data, data_copy);
    assert_eq!(data, data_copy_2);

    on_scalars(&mut data, |scalars| ntt.forward_transform(scalars, 3)).unwrap();
    ntt.forward_transform_packed::<PackedBinaryField16x8b, _>(&mut data_copy, 3)
        .unwrap();
    ntt_with_precompute
        .forward_transform_packed::<PackedBinaryField16x8b, _>(&mut data_copy_2, 3)
        .unwrap();
    assert_eq!(data, data_copy);
    assert_eq!(data, data_copy_2);
}

#[test]
fn forward_transform_gives_known_values() {
    let ntt = <AdditiveNTT<BinaryField8b>>::new(8).unwrap();
    let precompute = <AdditiveNTTWithPrecompute<BinaryField8b>>::new(8).unwrap();
    let cases: [(u32, [u8; 4]); 3] =
        [(0, [1, 3, 9, 15]), (1, [3, 9, 1, 15]), (5, [16, 17, 95, 90])];
    for (coset, expected) in cases {
        let data = [1, 2, 3, 4].map(BinaryField8b);

        let mut result = data;
        assert_eq!(ntt.forward_transform(&mut result, coset), Ok(()));
        assert_eq!(result, expected.map(BinaryField8b));
        assert_eq!(ntt.inverse_transform(&mut result, coset), Ok(()));
        assert_eq!(result, data);

        assert_eq!(precompute.forward_transform(&mut result, coset), Ok(()));
        assert_eq!(result, expected.map(BinaryField8b));
        assert_eq!(precompute.inverse_transform(&mut result, coset), Ok(()));
        assert_eq!(result, data);
    }
}

#[test]
fn forward_transform_over_larger_field_gives_known_values() {
    let data = [0x01020304, 0x10000, 0xdeadbeef, 7].map(BinaryField32b);
    let expected = [0x2d6c1fc2, 0x2d6d1fc6, 0xf3c3a129, 0xf3c2a12a].map(BinaryField32b);

    let ntt = <AdditiveNTT<BinaryField8b>>::new(8).unwrap();
    let mut result = data;
    assert_eq!(ntt.forward_transform(&mut result, 3), Ok(()));
    assert_eq!(result, expected);
    assert_eq!(ntt.inverse_transform(&mut result, 3), Ok(()));
    assert_eq!(result, data);
}

#[test]
fn packed_transform_gives_known_values() {
    type Packed = PackedArray<BinaryField8b, 4>;
    let data = [
        PackedArray([1, 2, 3, 4].map(BinaryField8b)),
        PackedArray([5, 6, 7, 8].map(BinaryField8b)),
    ];
    let expected = [
        PackedArray([92, 89, 33, 35].map(BinaryField8b)),
        PackedArray([191, 180, 79, 75].map(BinaryField8b)),
    ];

    let ntt = <AdditiveNTT<BinaryField8b>>::new(5).unwrap();
    let precompute = <AdditiveNTTWithPrecompute<BinaryField8b>>::new(5).unwrap();
    let mut result = data;
    assert_eq!(ntt.forward_transform_packed::<Packed, _>(&mut result, 2), Ok(()));
    assert_eq!(result, expected);
    assert_eq!(ntt.inverse_transform_packed::<Packed, _>(&mut result, 2), Ok(()));
    assert_eq!(result, data);

    assert_eq!(precompute.forward_transform_packed::<Packed, _>(&mut result, 2), Ok(()));
    assert_eq!(result, expected);
    assert_eq!(precompute.inverse_transform_packed::<Packed, _>(&mut result, 2), Ok(()));
    assert_eq!(result, data);
}

#[test]
fn packed_transform_works_on_single_elements() {
    let mut rng = StdRng::seed_from_u64(1);
    let ntt = <AdditiveNTT<BinaryField8b>>::new(8).unwrap();
    let precompute = <AdditiveNTTWithPrecompute<BinaryField8b>>::new(8).unwrap();
    for log_n in 0..6 {
        let data = repeat_with(|| random_32b(&mut rng))
            .take(1 << log_n)
            .collect::<Vec<_>>();
        let mut scalar = data.clone();
        ntt.forward_transform(&mut scalar, 2).unwrap();

        let mut packed = data.clone();
        ntt.forward_transform_packed::<BinaryField8b, _>(&mut packed, 2)
            .unwrap();
        assert_eq!(packed, scalar);
        ntt.inverse_transform_packed::<BinaryField8b, _>(&mut packed, 2)
            .unwrap();
        assert_eq!(packed, data);

        precompute
            .forward_transform_packed::<BinaryField8b, _>(&mut packed, 2)
            .unwrap();
        assert_eq!(packed, scalar);
        precompute
            .inverse_transform_packed::<BinaryField8b, _>(&mut packed, 2)
            .unwrap();
        assert_eq!(packed, data);
    }
}

#[test]
fn packed_transform_matches_scalars_for_all_sizes() {
    let mut rng = StdRng::seed_from_u64(2);
    let ntt = <AdditiveNTT<BinaryField8b>>::new(8).unwrap();
    let precompute = <AdditiveNTTWithPrecompute<BinaryField8b>>::new(8).unwrap();
    for log_len in 1..4 {
        for coset in 0..2 {
            let data: Vec<PackedBinaryField16x8b> =
                repeat_with(|| random_packed(&mut rng, random_8b))
                    .take(1 << log_len)
                    .collect();
            let mut expected = data.clone();
            on_scalars(&mut expected, |scalars| ntt.forward_transform(scalars, coset)).unwrap();

            let mut plain = data.clone();
            ntt.forward_transform_packed::<PackedBinaryField16x8b, _>(&mut plain, coset)
                .unwrap();
            assert_eq!(plain, expected);

            let mut precomputed = data.clone();
            precompute
                .forward_transform_packed::<PackedBinaryField16x8b, _>(&mut precomputed, coset)
                .unwrap();
            assert_eq!(precomputed, expected);

            precompute
                .inverse_transform_packed::<PackedBinaryField16x8b, _>(&mut precomputed, coset)
                .unwrap();
            assert_eq!(precomputed, data);
        }
    }
}

#[test]
fn one_coefficient_is_a_constant() {
    let ntt = <AdditiveNTT<BinaryField8b>>::new(0).unwrap();
    let precompute = <AdditiveNTTWithPrecompute<BinaryField8b>>::new(0).unwrap();
    let mut data = [BinaryField8b(77)];
    assert_eq!(ntt.forward_transform(&mut data, 0), Ok(()));
    assert_eq!(ntt.inverse_transform(&mut data, 0), Ok(()));
    assert_eq!(precompute.forward_transform(&mut data, 0), Ok(()));
    assert_eq!(precompute.inverse_transform(&mut data, 0), Ok(()));
    assert_eq!(data, [BinaryField8b(77)]);
}

#[test]
fn domain_can_be_the_whole_field() {
    let ntt = <AdditiveNTT<BinaryField8b>>::new(8).unwrap();
    let mut data = [BinaryField8b(0); 256];
    data[1] = BinaryField8b(1);
    assert_eq!(ntt.forward_transform(&mut data, 0), Ok(()));
    for (i, value) in data.iter().enumerate() {
        assert_eq!(*value, BinaryField8b(i as u8));
    }
}
