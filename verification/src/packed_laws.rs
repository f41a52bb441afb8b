//! Laws that tie packed elements to their entries, and the transforms of packed elements to the
//! transforms of their entries.
use crate::binary_field::{BinaryField32b, BinaryField8b};
use crate::error::Error;
use crate::field::{lemma_self_extension, BinaryField, ExtensionField, Field};
use crate::index::law_powers_of_two;
use crate::laws::{law_packed_forward_matches, law_packed_inverse_matches};
use crate::packed::{base_coords, scalars, PackedExtensionField, PackedField};
use crate::packed_binary_field::{PackedArray, PackedBinaryField16x8b, PackedBinaryField4x32b};
use crate::packed_butterfly::{lemma_position, lemma_scalar};
use crate::packed_transform::{packed_forward_outcome, packed_inverse_outcome};
use crate::transform::{forward_outcome, inverse_outcome};
use vstd::arithmetic::div_mod::lemma_fundamental_div_mod_converse;
use vstd::arithmetic::power2::{lemma2_to64, pow2};
use vstd::prelude::*;

verus! {

/// Lane `l` of a packed array is its entry `l`.
pub proof fn law_lanes_are_entries<F: Field, const W: usize>(x: PackedArray<F, W>)
    ensures
        PackedArray::<F, W>::width_spec() == W,
        x.lanes().len() == W,
        forall|l: int| 0 <= l < W ==> #[trigger] x.lanes()[l] == x.0@[l],
{
}

/// A field element is the one lane of itself.
pub proof fn law_element_is_its_lane<F: Field>(x: F)
    ensures
        <F as PackedField>::width_spec() == 1,
        <F as PackedField>::lanes(x).len() == 1,
        <F as PackedField>::lanes(x)[0] == x,
{
}

/// The scalars of packed elements are the lanes of the first element, then those of the second, and
/// so on.
pub proof fn law_scalars_in_order<P: PackedField>(v: Seq<P>)
    ensures
        scalars(v).len() == v.len() * P::width_spec(),
        forall|q: int, l: int|
            0 <= q < v.len() && 0 <= l < P::width_spec() ==> scalars(v)[q * P::width_spec() + l]
                == #[trigger] v[q].lanes()[l],
{
    assert forall|q: int, l: int| 0 <= q < v.len() && 0 <= l < P::width_spec() implies scalars(
        v,
    )[q * P::width_spec() + l] == #[trigger] v[q].lanes()[l] by {
        lemma_scalar(v, q, l);
    }
}

/// The scalars of packed arrays are their entries in order.
pub proof fn law_scalars_are_entries<F: Field, const W: usize>(v: Seq<PackedArray<F, W>>)
    ensures
        scalars(v).len() == v.len() * W,
        forall|q: int, l: int|
            0 <= q < v.len() && 0 <= l < W ==> scalars(v)[q * W + l] == #[trigger] v[q].0@[l],
{
    assert forall|q: int, l: int| 0 <= q < v.len() && 0 <= l < W implies scalars(v)[q * W + l]
        == #[trigger] v[q].0@[l] by {
        lemma_scalar(v, q, l);
        law_lanes_are_entries(v[q]);
    }
}

/// The coordinates of a sequence of elements are those of the first element, then those of the
/// second, and so on.
pub proof fn law_coords_in_order<F: Field, E: ExtensionField<F>>(a: Seq<E>)
    ensures
        base_coords::<F, E>(a).len() == a.len() * E::degree_spec(),
        forall|q: int, c: int|
            0 <= q < a.len() && 0 <= c < E::degree_spec() ==> base_coords::<F, E>(a)[q
                * E::degree_spec() + c] == #[trigger] a[q].coords()[c],
{
    let d = E::degree_spec() as int;
    assert forall|q: int, c: int| 0 <= q < a.len() && 0 <= c < d implies base_coords::<F, E>(a)[q
        * d + c] == #[trigger] a[q].coords()[c] by {
        assert(0 <= q * d + c < a.len() * d) by (nonlinear_arith)
            requires
                0 <= q < a.len(),
                0 <= c < d,
        ;
        lemma_fundamental_div_mod_converse(q * d + c, d, q, c);
    }
}

/// A sequence that holds the lanes in order is the sequence of scalars.
proof fn lemma_flat<P: PackedField>(v: Seq<P>, flat: Seq<P::Scalar>)
    requires
        flat.len() == v.len() * P::width_spec(),
        forall|q: int, l: int|
            0 <= q < v.len() && 0 <= l < P::width_spec() ==> flat[q * P::width_spec() + l]
                == #[trigger] v[q].lanes()[l],
    ensures
        flat == scalars(v),
{
    assert forall|s: int| 0 <= s < flat.len() implies flat[s] == scalars(v)[s] by {
        lemma_position(v, s);
        let q = s / P::width_spec() as int;
        let l = s % P::width_spec() as int;
        assert(flat[q * P::width_spec() + l] == v[q].lanes()[l]);
    }
    assert(flat =~= scalars(v));
}

/// A forward transform of packed elements leaves in the lanes what the transform of a sequence with
/// the same scalars leaves in the same places, and succeeds or fails like it, if the degree, the
/// number of elements and the width are powers of two.
pub proof fn law_packed_forward_on_lanes<PB: PackedField, PE: PackedExtensionField<PB>>(
    log_domain_size: nat,
    coset: u32,
    data: Seq<PE>,
    packed_values: Seq<PE>,
    packed_result: Result<(), Error>,
    flat: Seq<PE::Scalar>,
    values: Seq<PE::Scalar>,
    result: Result<(), Error>,
) where PB::Scalar: BinaryField, PE::Scalar: ExtensionField<PB::Scalar>
    requires
        exists|k: nat|
            <PE::Scalar as ExtensionField<PB::Scalar>>::degree_spec() == #[trigger] pow2(k),
        exists|k: nat| data.len() == #[trigger] pow2(k),
        exists|k: nat| PE::width_spec() == #[trigger] pow2(k),
        flat.len() == data.len() * PE::width_spec(),
        forall|q: int, l: int|
            0 <= q < data.len() && 0 <= l < PE::width_spec() ==> flat[q * PE::width_spec() + l]
                == #[trigger] data[q].lanes()[l],
        packed_forward_outcome::<PB, PE>(
            log_domain_size,
            coset,
            data,
            packed_values,
            packed_result,
        ),
        forward_outcome::<PB::Scalar, PE::Scalar>(log_domain_size, coset, flat, values, result),
    ensures
        packed_result == result,
        packed_values.len() == data.len(),
        values.len() == flat.len(),
        forall|q: int, l: int|
            0 <= q < data.len() && 0 <= l < PE::width_spec() ==> values[q * PE::width_spec() + l]
                == #[trigger] packed_values[q].lanes()[l],
{
    law_powers_of_two(<PE::Scalar as ExtensionField<PB::Scalar>>::degree_spec() as int);
    law_powers_of_two(data.len() as int);
    law_powers_of_two(PE::width_spec() as int);
    lemma_flat(data, flat);
    law_packed_forward_matches::<PB, PE>(
        log_domain_size,
        coset,
        data,
        packed_values,
        packed_result,
        values,
        result,
    );
    law_scalars_in_order(packed_values);
}

/// A forward transform of packed arrays leaves in the entries what the transform of a sequence with
/// the same entries leaves in the same places, and succeeds or fails like it, if the number of
/// arrays and their width are powers of two.
pub proof fn law_packed_forward_on_entries<F: BinaryField, const W: usize>(
    log_domain_size: nat,
    coset: u32,
    data: Seq<PackedArray<F, W>>,
    packed_values: Seq<PackedArray<F, W>>,
    packed_result: Result<(), Error>,
    flat: Seq<F>,
    values: Seq<F>,
    result: Result<(), Error>,
)
    requires
        exists|k: nat| data.len() == #[trigger] pow2(k),
        exists|k: nat| W == #[trigger] pow2(k),
        flat.len() == data.len() * W,
        forall|q: int, l: int|
            0 <= q < data.len() && 0 <= l < W ==> flat[q * W + l] == #[trigger] data[q].0@[l],
        packed_forward_outcome::<PackedArray<F, W>, PackedArray<F, W>>(
            log_domain_size,
            coset,
            data,
            packed_values,
            packed_result,
        ),
        forward_outcome::<F, F>(log_domain_size, coset, flat, values, result),
    ensures
        packed_result == result,
        packed_values.len() == data.len(),
        forall|q: int, l: int|
            0 <= q < data.len() && 0 <= l < W ==> values[q * W + l]
                == #[trigger] packed_values[q].0@[l],
{
    lemma2_to64();
    lemma_self_extension::<F>();
    assert(<F as ExtensionField<F>>::degree_spec() == pow2(0));
    assert forall|q: int, l: int| 0 <= q < data.len() && 0 <= l < W implies flat[q * W + l]
        == #[trigger] data[q].lanes()[l] by {
        law_lanes_are_entries(data[q]);
        assert(flat[q * W + l] == data[q].0@[l]);
    }
    law_packed_forward_on_lanes::<PackedArray<F, W>, PackedArray<F, W>>(
        log_domain_size,
        coset,
        data,
        packed_values,
        packed_result,
        flat,
        values,
        result,
    );
    assert forall|q: int, l: int| 0 <= q < data.len() && 0 <= l < W implies values[q * W + l]
        == #[trigger] packed_values[q].0@[l] by {
        law_lanes_are_entries(packed_values[q]);
        assert(values[q * W + l] == packed_values[q].lanes()[l]);
    }
}

/// The same for packed arrays over the field with elements of 32 bits on a domain in the field with
/// elements of 8 bits.
pub proof fn law_packed_forward_on_entries_4x32b(
    log_domain_size: nat,
    coset: u32,
    data: Seq<PackedBinaryField4x32b>,
    packed_values: Seq<PackedBinaryField4x32b>,
    packed_result: Result<(), Error>,
    flat: Seq<BinaryField32b>,
    values: Seq<BinaryField32b>,
    result: Result<(), Error>,
)
    requires
        exists|k: nat| data.len() == #[trigger] pow2(k),
        flat.len() == data.len() * 4,
        forall|q: int, l: int|
            0 <= q < data.len() && 0 <= l < 4 ==> flat[q * 4 + l] == #[trigger] data[q].0@[l],
        packed_forward_outcome::<PackedBinaryField16x8b, PackedBinaryField4x32b>(
            log_domain_size,
            coset,
            data,
            packed_values,
            packed_result,
        ),
        forward_outcome::<BinaryField8b, BinaryField32b>(
            log_domain_size,
            coset,
            flat,
            values,
            result,
        ),
    ensures
        packed_result == result,
        packed_values.len() == data.len(),
        forall|q: int, l: int|
            0 <= q < data.len() && 0 <= l < 4 ==> values[q * 4 + l]
                == #[trigger] packed_values[q].0@[l],
{
    lemma2_to64();
    assert(<BinaryField32b as ExtensionField<BinaryField8b>>::degree_spec() == pow2(2));
    assert(PackedBinaryField4x32b::width_spec() == pow2(2));
    assert forall|q: int, l: int| 0 <= q < data.len() && 0 <= l < 4 implies flat[q * 4 + l]
        == #[trigger] data[q].lanes()[l] by {
        law_lanes_are_entries(data[q]);
        assert(flat[q * 4 + l] == data[q].0@[l]);
    }
    law_packed_forward_on_lanes::<PackedBinaryField16x8b, PackedBinaryField4x32b>(
        log_domain_size,
        coset,
        data,
        packed_values,
        packed_result,
        flat,
        values,
        result,
    );
    assert forall|q: int, l: int| 0 <= q < data.len() && 0 <= l < 4 implies values[q * 4 + l]
        == #[trigger] packed_values[q].0@[l] by {
        law_lanes_are_entries(packed_values[q]);
        assert(values[q * 4 + l] == packed_values[q].lanes()[l]);
    }
}

/// An inverse transform of packed elements leaves in the lanes what the transform of a sequence
/// with the same scalars leaves in the same places, and succeeds or fails like it, if the degree,
/// the number of elements and the width are powers of two.
pub proof fn law_packed_inverse_on_lanes<PB: PackedField, PE: PackedExtensionField<PB>>(
    log_domain_size: nat,
    coset: u32,
    data: Seq<PE>,
    packed_coefficients: Seq<PE>,
    packed_result: Result<(), Error>,
    flat: Seq<PE::Scalar>,
    coefficients: Seq<PE::Scalar>,
    result: Result<(), Error>,
) where PB::Scalar: BinaryField, PE::Scalar: ExtensionField<PB::Scalar>
    requires
        exists|k: nat|
            <PE::Scalar as ExtensionField<PB::Scalar>>::degree_spec() == #[trigger] pow2(k),
        exists|k: nat| data.len() == #[trigger] pow2(k),
        exists|k: nat| PE::width_spec() == #[trigger] pow2(k),
        flat.len() == data.len() * PE::width_spec(),
        forall|q: int, l: int|
            0 <= q < data.len() && 0 <= l < PE::width_spec() ==> flat[q * PE::width_spec() + l]
                == #[trigger] data[q].lanes()[l],
        packed_inverse_outcome::<PB, PE>(
            log_domain_size,
            coset,
            data,
            packed_coefficients,
            packed_result,
        ),
        inverse_outcome::<PB::Scalar, PE::Scalar>(
            log_domain_size,
            coset,
            flat,
            coefficients,
            result,
        ),
    ensures
        packed_result == result,
        packed_coefficients.len() == data.len(),
        coefficients.len() == flat.len(),
        forall|q: int, l: int|
            0 <= q < data.len() && 0 <= l < PE::width_spec() ==> coefficients[q * PE::width_spec()
                + l] == #[trigger] packed_coefficients[q].lanes()[l],
{
    law_powers_of_two(<PE::Scalar as ExtensionField<PB::Scalar>>::degree_spec() as int);
    law_powers_of_two(data.len() as int);
    law_powers_of_two(PE::width_spec() as int);
    lemma_flat(data, flat);
    law_packed_inverse_matches::<PB, PE>(
        log_domain_size,
        coset,
        data,
        packed_coefficients,
        packed_result,
        coefficients,
        result,
    );
    law_scalars_in_order(packed_coefficients);
}

/// An inverse transform of packed arrays leaves in the entries what the transform of a sequence
/// with the same entries leaves in the same places, and succeeds or fails like it, if the number of
/// arrays and their width are powers of two.
pub proof fn law_packed_inverse_on_entries<F: BinaryField, const W: usize>(
    log_domain_size: nat,
    coset: u32,
    data: Seq<PackedArray<F, W>>,
    packed_coefficients: Seq<PackedArray<F, W>>,
    packed_result: Result<(), Error>,
    flat: Seq<F>,
    coefficients: Seq<F>,
    result: Result<(), Error>,
)
    requires
        exists|k: nat| data.len() == #[trigger] pow2(k),
        exists|k: nat| W == #[trigger] pow2(k),
        flat.len() == data.len() * W,
        forall|q: int, l: int|
            0 <= q < data.len() && 0 <= l < W ==> flat[q * W + l] == #[trigger] data[q].0@[l],
        packed_inverse_outcome::<PackedArray<F, W>, PackedArray<F, W>>(
            log_domain_size,
            coset,
            data,
            packed_coefficients,
            packed_result,
        ),
        inverse_outcome::<F, F>(log_domain_size, coset, flat, coefficients, result),
    ensures
        packed_result == result,
        packed_coefficients.len() == data.len(),
        forall|q: int, l: int|
            0 <= q < data.len() && 0 <= l < W ==> coefficients[q * W + l]
                == #[trigger] packed_coefficients[q].0@[l],
{
    lemma2_to64();
    lemma_self_extension::<F>();
    assert(<F as ExtensionField<F>>::degree_spec() == pow2(0));
    assert forall|q: int, l: int| 0 <= q < data.len() && 0 <= l < W implies flat[q * W + l]
        == #[trigger] data[q].lanes()[l] by {
        law_lanes_are_entries(data[q]);
        assert(flat[q * W + l] == data[q].0@[l]);
    }
    law_packed_inverse_on_lanes::<PackedArray<F, W>, PackedArray<F, W>>(
        log_domain_size,
        coset,
        data,
        packed_coefficients,
        packed_result,
        flat,
        coefficients,
        result,
    );
    assert forall|q: int, l: int| 0 <= q < data.len() && 0 <= l < W implies coefficients[q * W + l]
        == #[trigger] packed_coefficients[q].0@[l] by {
        law_lanes_are_entries(packed_coefficients[q]);
        assert(coefficients[q * W + l] == packed_coefficients[q].lanes()[l]);
    }
}

/// The same for packed arrays over the field with elements of 32 bits on a domain in the field with
/// elements of 8 bits.
pub proof fn law_packed_inverse_on_entries_4x32b(
    log_domain_size: nat,
    coset: u32,
    data: Seq<PackedBinaryField4x32b>,
    packed_coefficients: Seq<PackedBinaryField4x32b>,
    packed_result: Result<(), Error>,
    flat: Seq<BinaryField32b>,
    coefficients: Seq<BinaryField32b>,
    result: Result<(), Error>,
)
    requires
        exists|k: nat| data.len() == #[trigger] pow2(k),
        flat.len() == data.len() * 4,
        forall|q: int, l: int|
            0 <= q < data.len() && 0 <= l < 4 ==> flat[q * 4 + l] == #[trigger] data[q].0@[l],
        packed_inverse_outcome::<PackedBinaryField16x8b, PackedBinaryField4x32b>(
            log_domain_size,
            coset,
            data,
            packed_coefficients,
            packed_result,
        ),
        inverse_outcome::<BinaryField8b, BinaryField32b>(
            log_domain_size,
            coset,
            flat,
            coefficients,
            result,
        ),
    ensures
        packed_result == result,
        packed_coefficients.len() == data.len(),
        forall|q: int, l: int|
            0 <= q < data.len() && 0 <= l < 4 ==> coefficients[q * 4 + l]
                == #[trigger] packed_coefficients[q].0@[l],
{
    lemma2_to64();
    assert(<BinaryField32b as ExtensionField<BinaryField8b>>::degree_spec() == pow2(2));
    assert(PackedBinaryField4x32b::width_spec() == pow2(2));
    assert forall|q: int, l: int| 0 <= q < data.len() && 0 <= l < 4 implies flat[q * 4 + l]
        == #[trigger] data[q].lanes()[l] by {
        law_lanes_are_entries(data[q]);
        assert(flat[q * 4 + l] == data[q].0@[l]);
    }
    law_packed_inverse_on_lanes::<PackedBinaryField16x8b, PackedBinaryField4x32b>(
        log_domain_size,
        coset,
        data,
        packed_coefficients,
        packed_result,
        flat,
        coefficients,
        result,
    );
    assert forall|q: int, l: int| 0 <= q < data.len() && 0 <= l < 4 implies coefficients[q * 4 + l]
        == #[trigger] packed_coefficients[q].0@[l] by {
        law_lanes_are_entries(packed_coefficients[q]);
        assert(coefficients[q * 4 + l] == packed_coefficients[q].lanes()[l]);
    }
}

} // verus!
