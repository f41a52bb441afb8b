//! Laws on when the transforms succeed, and on the sizes that decide it.
use crate::error::Error;
use crate::field::{BinaryField, ExtensionField};
use crate::index::{
    bit_length, exp2, law_bit_length, law_powers_of_two, lemma_exp2, lemma_exp2_adds,
    lemma_exp2_monotone, log2, power_of_two,
};
use crate::packed::{PackedExtensionField, PackedField};
use crate::packed_transform::{
    error_in_shape, lemma_log2_product, packed_forward_outcome, packed_inverse_outcome,
    packed_len_supported,
};
use crate::transform::{forward_outcome, inverse_outcome, required_bits};
use vstd::arithmetic::power2::{lemma2_to64, lemma2_to64_rest, pow2};
use vstd::prelude::*;

verus! {

/// `k` bits for the position and the bits of the coset make up all indices of a coset.
proof fn lemma_coset_fits(k: nat, coset: int, d: nat)
    requires
        0 <= coset,
    ensures
        k + bit_length(coset) <= d <==> (coset + 1) * pow2(k) <= pow2(d),
{
    let b = bit_length(coset);
    law_bit_length(coset);
    lemma_exp2(k);
    if k + b <= d {
        lemma_exp2_adds(b, k);
        lemma_exp2_monotone(b + k, d);
        assert((coset + 1) * exp2(k) <= exp2(b) * exp2(k)) by (nonlinear_arith)
            requires
                coset + 1 <= exp2(b),
                exp2(k) > 0,
        ;
    } else if b == 0 {
        lemma2_to64();
        assert((coset + 1) * exp2(k) == exp2(k)) by (nonlinear_arith)
            requires
                coset == 0,
        ;
        lemma_exp2_monotone(d, k);
    } else {
        let c = (b - 1) as nat;
        lemma_exp2_adds(c, k);
        lemma_exp2_monotone(d, c + k);
        assert((coset + 1) * exp2(k) > exp2(c) * exp2(k)) by (nonlinear_arith)
            requires
                coset + 1 > exp2(c),
                exp2(k) > 0,
        ;
    }
}

/// A power of two that a machine word holds has an exponent that leaves room for 32 more.
proof fn lemma_small_exponent(k: nat)
    requires
        pow2(k) <= usize::MAX,
    ensures
        k + 32 <= usize::MAX,
{
    if k >= 64 {
        lemma_exp2_monotone(64, k);
        lemma2_to64_rest();
    }
}

/// How many bits a transform of `pow2(k)` elements on a coset needs.
proof fn lemma_required_bits(k: nat, coset: u32, d: nat)
    requires
        pow2(k) <= usize::MAX,
    ensures
        required_bits(pow2(k), coset) == k + bit_length(coset as int),
        required_bits(pow2(k), coset) <= usize::MAX,
        required_bits(pow2(k), coset) <= d <==> (coset + 1) * pow2(k) <= pow2(d),
        required_bits(pow2(k), coset) > 0 ==> (coset + 1) * pow2(k) > pow2(
            (required_bits(pow2(k), coset) - 1) as nat,
        ),
        (coset + 1) * pow2(k) <= pow2(required_bits(pow2(k), coset)),
{
    let n = required_bits(pow2(k), coset);
    law_powers_of_two(pow2(k) as int);
    lemma_coset_fits(k, coset as int, d);
    lemma_coset_fits(k, coset as int, n);
    if n > 0 {
        lemma_coset_fits(k, coset as int, (n - 1) as nat);
    }
    lemma_small_exponent(k);
    law_bit_length(coset as int);
    if bit_length(coset as int) > 32 {
        lemma2_to64();
        lemma_exp2_monotone(32, (bit_length(coset as int) - 1) as nat);
    }
}

/// A forward transform of a power of two of elements succeeds if and only if all points of the
/// coset lie in the domain. Otherwise it leaves the data as it is, and names the least domain that
/// would do. The number of elements stays the same.
pub proof fn law_forward_success<F: BinaryField, E: ExtensionField<F>>(
    log_domain_size: nat,
    coset: u32,
    data: Seq<E>,
    values: Seq<E>,
    result: Result<(), Error>,
)
    requires
        exists|k: nat| data.len() == #[trigger] pow2(k),
        data.len() <= usize::MAX,
        forward_outcome::<F, E>(log_domain_size, coset, data, values, result),
    ensures
        values.len() == data.len(),
        result is Ok <==> (coset + 1) * data.len() <= pow2(log_domain_size),
        match result {
            Ok(_) => true,
            Err(Error::DomainTooSmall { log_required_domain_size }) => {
                &&& values == data
                &&& log_required_domain_size > log_domain_size
                &&& (coset + 1) * data.len() <= pow2(log_required_domain_size as nat)
                &&& (coset + 1) * data.len() > pow2((log_required_domain_size - 1) as nat)
            },
            _ => false,
        },
{
    let k = choose|k: nat| data.len() == #[trigger] pow2(k);
    lemma_required_bits(k, coset, log_domain_size);
}

/// An inverse transform of a power of two of elements succeeds if and only if all points of the
/// coset lie in the domain. Otherwise it leaves the data as it is, and names the least domain that
/// would do. The number of elements stays the same.
pub proof fn law_inverse_success<F: BinaryField, E: ExtensionField<F>>(
    log_domain_size: nat,
    coset: u32,
    data: Seq<E>,
    coefficients: Seq<E>,
    result: Result<(), Error>,
)
    requires
        exists|k: nat| data.len() == #[trigger] pow2(k),
        data.len() <= usize::MAX,
        inverse_outcome::<F, E>(log_domain_size, coset, data, coefficients, result),
    ensures
        coefficients.len() == data.len(),
        result is Ok <==> (coset + 1) * data.len() <= pow2(log_domain_size),
        match result {
            Ok(_) => true,
            Err(Error::DomainTooSmall { log_required_domain_size }) => {
                &&& coefficients == data
                &&& log_required_domain_size > log_domain_size
                &&& (coset + 1) * data.len() <= pow2(log_required_domain_size as nat)
                &&& (coset + 1) * data.len() > pow2((log_required_domain_size - 1) as nat)
            },
            _ => false,
        },
{
    let k = choose|k: nat| data.len() == #[trigger] pow2(k);
    lemma_required_bits(k, coset, log_domain_size);
}

/// A forward transform of packed elements looks at the degree of the extension, the number of
/// elements and their width, in this order, and fails if one of them is not a power of two. If all
/// three are, then it succeeds if and only if all points of the coset lie in the domain, and names
/// the least domain that would do otherwise. Whenever it fails, it leaves the data as it is.
pub proof fn law_packed_forward_success<PB: PackedField, PE: PackedExtensionField<PB>>(
    log_domain_size: nat,
    coset: u32,
    data: Seq<PE>,
    values: Seq<PE>,
    result: Result<(), Error>,
) where PB::Scalar: BinaryField, PE::Scalar: ExtensionField<PB::Scalar>
    requires
        data.len() * PE::width_spec() <= usize::MAX,
        packed_forward_outcome::<PB, PE>(log_domain_size, coset, data, values, result),
    ensures
        ({
            let degree = <PE::Scalar as ExtensionField<PB::Scalar>>::degree_spec();
            let n = data.len() * PE::width_spec();
            &&& values.len() == data.len()
            &&& result is Err ==> values == data
            &&& result == Err::<(), Error>(Error::PowerOfTwoExtensionDegreeRequired) <==> (
            forall|k: nat| degree != #[trigger] pow2(k))
            &&& result == Err::<(), Error>(Error::PowerOfTwoLengthRequired) <==> (exists|k: nat|
                degree == #[trigger] pow2(k)) && (forall|k: nat| data.len() != #[trigger] pow2(k))
            &&& result == Err::<(), Error>(Error::PackingWidthMustDivideDimension) <==> (exists|
                k: nat,
            |
                degree == #[trigger] pow2(k)) && (exists|k: nat| data.len() == #[trigger] pow2(k))
                && (forall|k: nat| PE::width_spec() != #[trigger] pow2(k))
            &&& result is Ok <==> (exists|k: nat| degree == #[trigger] pow2(k)) && (exists|k: nat|
                data.len() == #[trigger] pow2(k)) && (exists|k: nat|
                PE::width_spec() == #[trigger] pow2(k)) && (coset + 1) * n <= pow2(log_domain_size)
            &&& result matches Err(Error::DomainTooSmall { log_required_domain_size }) ==> {
                &&& log_required_domain_size > log_domain_size
                &&& (coset + 1) * n <= pow2(log_required_domain_size as nat)
                &&& (coset + 1) * n > pow2((log_required_domain_size - 1) as nat)
            }
        }),
{
    let degree = <PE::Scalar as ExtensionField<PB::Scalar>>::degree_spec();
    law_powers_of_two(degree as int);
    law_powers_of_two(data.len() as int);
    law_powers_of_two(PE::width_spec() as int);
    if power_of_two(data.len() as int) && power_of_two(PE::width_spec() as int) {
        lemma_log2_product(data.len() as int, PE::width_spec() as int);
        let n = data.len() * PE::width_spec();
        assert(n == pow2(log2(n)));
        lemma_required_bits(log2(n), coset, log_domain_size);
    }
}

/// An inverse transform of packed elements looks at the degree of the extension, the number of
/// elements and their width, in this order, and fails if one of them is not a power of two. If all
/// three are, then it succeeds if and only if all points of the coset lie in the domain, and names
/// the least domain that would do otherwise. Whenever it fails, it leaves the data as it is.
pub proof fn law_packed_inverse_success<PB: PackedField, PE: PackedExtensionField<PB>>(
    log_domain_size: nat,
    coset: u32,
    data: Seq<PE>,
    coefficients: Seq<PE>,
    result: Result<(), Error>,
) where PB::Scalar: BinaryField, PE::Scalar: ExtensionField<PB::Scalar>
    requires
        data.len() * PE::width_spec() <= usize::MAX,
        packed_inverse_outcome::<PB, PE>(log_domain_size, coset, data, coefficients, result),
    ensures
        ({
            let degree = <PE::Scalar as ExtensionField<PB::Scalar>>::degree_spec();
            let n = data.len() * PE::width_spec();
            &&& coefficients.len() == data.len()
            &&& result is Err ==> coefficients == data
            &&& result == Err::<(), Error>(Error::PowerOfTwoExtensionDegreeRequired) <==> (
            forall|k: nat| degree != #[trigger] pow2(k))
            &&& result == Err::<(), Error>(Error::PowerOfTwoLengthRequired) <==> (exists|k: nat|
                degree == #[trigger] pow2(k)) && (forall|k: nat| data.len() != #[trigger] pow2(k))
            &&& result == Err::<(), Error>(Error::PackingWidthMustDivideDimension) <==> (exists|
                k: nat,
            |
                degree == #[trigger] pow2(k)) && (exists|k: nat| data.len() == #[trigger] pow2(k))
                && (forall|k: nat| PE::width_spec() != #[trigger] pow2(k))
            &&& result is Ok <==> (exists|k: nat| degree == #[trigger] pow2(k)) && (exists|k: nat|
                data.len() == #[trigger] pow2(k)) && (exists|k: nat|
                PE::width_spec() == #[trigger] pow2(k)) && (coset + 1) * n <= pow2(log_domain_size)
            &&& result matches Err(Error::DomainTooSmall { log_required_domain_size }) ==> {
                &&& log_required_domain_size > log_domain_size
                &&& (coset + 1) * n <= pow2(log_required_domain_size as nat)
                &&& (coset + 1) * n > pow2((log_required_domain_size - 1) as nat)
            }
        }),
{
    let degree = <PE::Scalar as ExtensionField<PB::Scalar>>::degree_spec();
    law_powers_of_two(degree as int);
    law_powers_of_two(data.len() as int);
    law_powers_of_two(PE::width_spec() as int);
    if power_of_two(data.len() as int) && power_of_two(PE::width_spec() as int) {
        lemma_log2_product(data.len() as int, PE::width_spec() as int);
        let n = data.len() * PE::width_spec();
        assert(n == pow2(log2(n)));
        lemma_required_bits(log2(n), coset, log_domain_size);
    }
}

/// What is wrong with a shape is found in the order degree, length, width, and nothing is wrong if
/// all three are powers of two.
pub proof fn law_shape_errors(degree: int, len: int, width: int)
    ensures
        error_in_shape(degree, len, width) == Some(Error::PowerOfTwoExtensionDegreeRequired) <==> (
        forall|k: nat| degree != #[trigger] pow2(k)),
        error_in_shape(degree, len, width) == Some(Error::PowerOfTwoLengthRequired) <==> (exists|
            k: nat,
        |
            degree == #[trigger] pow2(k)) && (forall|k: nat| len != #[trigger] pow2(k)),
        error_in_shape(degree, len, width) == Some(Error::PackingWidthMustDivideDimension) <==> (
        exists|k: nat| degree == #[trigger] pow2(k)) && (exists|k: nat| len == #[trigger] pow2(k))
            && (forall|k: nat| width != #[trigger] pow2(k)),
        error_in_shape(degree, len, width) is None <==> (exists|k: nat|
            degree == #[trigger] pow2(k)) && (exists|k: nat| len == #[trigger] pow2(k)) && (exists|
            k: nat,
        |
            width == #[trigger] pow2(k)),
{
    law_powers_of_two(degree);
    law_powers_of_two(len);
    law_powers_of_two(width);
}

/// A packed transform handles all elements whose scalars can be counted, but for a single element
/// whose coordinates fill one packed element of the subfield.
pub proof fn law_supported_lengths<PB: PackedField, PE: PackedExtensionField<PB>>(
    log_domain_size: nat,
    len: nat,
    coset: u32,
) where PE::Scalar: ExtensionField<PB::Scalar>
    requires
        len * PE::width_spec() <= usize::MAX,
        len != 1 || PB::width_spec() != PE::width_spec()
            * <PE::Scalar as ExtensionField<PB::Scalar>>::degree_spec(),
    ensures
        packed_len_supported::<PB, PE>(log_domain_size, len, coset),
{
    PE::bases_cover();
    let k = PE::n_bases();
    if len * k == 1 {
        assert(len == 1 && k == 1) by (nonlinear_arith)
            requires
                len * k == 1,
        ;
    }
}

} // verus!
