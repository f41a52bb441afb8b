use additive_ntt::additive_ntt::AdditiveNTT;
use additive_ntt::additive_ntt_with_precompute::AdditiveNTTWithPrecompute;
use additive_ntt::binary_field::BinaryField8b;
use additive_ntt::error::Error;
use additive_ntt::packed_binary_field::{PackedArray, PackedBinaryField16x8b};
use additive_ntt::packed_transform::{check_packed_transform_inputs, check_shape};

#[test]
fn field_too_small() {
    assert_eq!(
        <AdditiveNTT<BinaryField8b>>::new(9).err(),
        Some(Error::FieldTooSmall { log_domain_size: 9 })
    );
    assert_eq!(
        <AdditiveNTTWithPrecompute<BinaryField8b>>::new(9).err(),
        Some(Error::FieldTooSmall { log_domain_size: 9 })
    );
    assert!(<AdditiveNTT<BinaryField8b>>::new(8).is_ok());
    assert!(<AdditiveNTTWithPrecompute<BinaryField8b>>::new(8).is_ok());
}

#[test]
fn domain_too_small_leaves_data_alone() {
    let ntt = <AdditiveNTT<BinaryField8b>>::new(3).unwrap();
    let precompute = <AdditiveNTTWithPrecompute<BinaryField8b>>::new(3).unwrap();
    let data = [1, 2, 3, 4].map(BinaryField8b);
    for (coset, log_required_domain_size) in [(2, 4), (3, 4), (4, 5), (u32::MAX, 34)] {
        let error = Err(Error::DomainTooSmall { log_required_domain_size });
        let mut result = data;
        assert_eq!(ntt.forward_transform(&mut result, coset), error);
        assert_eq!(result, data);
        assert_eq!(ntt.inverse_transform(&mut result, coset), error);
        assert_eq!(result, data);
        assert_eq!(precompute.forward_transform(&mut result, coset), error);
        assert_eq!(result, data);
        assert_eq!(precompute.inverse_transform(&mut result, coset), error);
        assert_eq!(result, data);
    }
    let mut result = data;
    assert_eq!(ntt.forward_transform(&mut result, 1), Ok(()));
    assert_eq!(precompute.inverse_transform(&mut result, 1), Ok(()));
    assert_eq!(result, data);
}

#[test]
fn packed_domain_too_small_leaves_data_alone() {
    type Packed = PackedBinaryField16x8b;
    let ntt = <AdditiveNTT<BinaryField8b>>::new(5).unwrap();
    let precompute = <AdditiveNTTWithPrecompute<BinaryField8b>>::new(5).unwrap();
    let data = [PackedArray([BinaryField8b(9); 16]); 2];
    let error = Err(Error::DomainTooSmall { log_required_domain_size: 6 });
    let mut result = data;
    assert_eq!(ntt.forward_transform_packed::<Packed, _>(&mut result, 1), error);
    assert_eq!(result, data);
    assert_eq!(ntt.inverse_transform_packed::<Packed, _>(&mut result, 1), error);
    assert_eq!(result, data);
    assert_eq!(precompute.forward_transform_packed::<Packed, _>(&mut result, 1), error);
    assert_eq!(result, data);
    assert_eq!(precompute.inverse_transform_packed::<Packed, _>(&mut result, 1), error);
    assert_eq!(result, data);
    assert_eq!(ntt.forward_transform_packed::<Packed, _>(&mut result, 0), Ok(()));
}

#[test]
fn packed_length_must_be_a_power_of_two() {
    type Packed = PackedBinaryField16x8b;
    let ntt = <AdditiveNTT<BinaryField8b>>::new(8).unwrap();
    let precompute = <AdditiveNTTWithPrecompute<BinaryField8b>>::new(8).unwrap();
    let error = Err(Error::PowerOfTwoLengthRequired);
    let data = [PackedArray([BinaryField8b(9); 16]); 3];
    let mut result = data;
    assert_eq!(ntt.forward_transform_packed::<Packed, _>(&mut result, 0), error);
    assert_eq!(ntt.inverse_transform_packed::<Packed, _>(&mut result, 0), error);
    assert_eq!(precompute.forward_transform_packed::<Packed, _>(&mut result, 0), error);
    assert_eq!(precompute.inverse_transform_packed::<Packed, _>(&mut result, 0), error);
    assert_eq!(result, data);
}

#[test]
fn no_packed_elements() {
    type Packed = PackedBinaryField16x8b;
    let ntt = <AdditiveNTT<BinaryField8b>>::new(8).unwrap();
    let precompute = <AdditiveNTTWithPrecompute<BinaryField8b>>::new(8).unwrap();
    let error = Err(Error::PowerOfTwoLengthRequired);
    let mut data: [Packed; 0] = [];
    assert_eq!(ntt.forward_transform_packed::<Packed, _>(&mut data, 0), error);
    assert_eq!(ntt.inverse_transform_packed::<Packed, _>(&mut data, 0), error);
    assert_eq!(precompute.forward_transform_packed::<Packed, _>(&mut data, 0), Ok(()));
    assert_eq!(precompute.inverse_transform_packed::<Packed, _>(&mut data, 0), Ok(()));
}

#[test]
fn packing_width_must_be_a_power_of_two() {
    type Packed = PackedArray<BinaryField8b, 3>;
    let ntt = <AdditiveNTT<BinaryField8b>>::new(8).unwrap();
    let precompute = <AdditiveNTTWithPrecompute<BinaryField8b>>::new(8).unwrap();
    let error = Err(Error::PackingWidthMustDivideDimension);
    let data = [PackedArray([BinaryField8b(9); 3]); 2];
    let mut result = data;
    assert_eq!(ntt.forward_transform_packed::<Packed, _>(&mut result, 0), error);
    assert_eq!(ntt.inverse_transform_packed::<Packed, _>(&mut result, 0), error);
    assert_eq!(precompute.forward_transform_packed::<Packed, _>(&mut result, 0), error);
    assert_eq!(precompute.inverse_transform_packed::<Packed, _>(&mut result, 0), error);
    assert_eq!(result, data);

    // A length that is wrong too is found first.
    let mut three = [PackedArray([BinaryField8b(9); 3]); 3];
    assert_eq!(
        ntt.forward_transform_packed::<Packed, _>(&mut three, 0),
        Err(Error::PowerOfTwoLengthRequired)
    );
}

#[test]
fn shapes() {
    assert_eq!(check_shape(4, 8, 16), Ok(()));
    assert_eq!(check_shape(1, 1, 1), Ok(()));
    assert_eq!(check_shape(3, 8, 16), Err(Error::PowerOfTwoExtensionDegreeRequired));
    assert_eq!(check_shape(0, 8, 16), Err(Error::PowerOfTwoExtensionDegreeRequired));
    assert_eq!(check_shape(4, 7, 16), Err(Error::PowerOfTwoLengthRequired));
    assert_eq!(check_shape(4, 8, 12), Err(Error::PackingWidthMustDivideDimension));
    // The degree is looked at first, then the length.
    assert_eq!(check_shape(3, 7, 12), Err(Error::PowerOfTwoExtensionDegreeRequired));
    assert_eq!(check_shape(4, 7, 12), Err(Error::PowerOfTwoLengthRequired));
}

#[test]
fn packed_sizes() {
    type Packed = PackedBinaryField16x8b;
    let data = [PackedArray([BinaryField8b(0); 16]); 4];
    let params = match check_packed_transform_inputs::<Packed, Packed>(8, &data, 3) {
        Ok(params) => params,
        Err(_) => panic!("the domain is large enough"),
    };
    assert_eq!(
        (params.log_n, params.log_w, params.log_d, params.coset_bits),
        (6, 4, 0, 2)
    );
    assert_eq!(
        check_packed_transform_inputs::<Packed, Packed>(7, &data, 3).err(),
        Some(Error::DomainTooSmall { log_required_domain_size: 8 })
    );
}
