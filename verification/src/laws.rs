//! Laws that relate the transforms to each other.
use crate::error::Error;
use crate::field::{lemma_times_zero, BinaryField, ExtensionField, Field};
use crate::novel_basis::{
    combine, layer_factors, lemma_novel_sum_combine, novel_product, novel_sum,
};
use crate::packed::{scalars, PackedExtensionField, PackedField};
use crate::packed_butterfly::lemma_scalar;
use crate::packed_transform::{
    n_scalars, packed_error, packed_forward_outcome, packed_inverse_outcome, shape_error,
};
use crate::transform::{forward_outcome, forward_values, inverse_outcome, required_bits};
use vstd::prelude::*;

verus! {

/// The inverse transform undoes the forward transform on the same coset, and the two transforms
/// succeed or fail together.
pub proof fn law_inverse_undoes_forward<F: BinaryField, E: ExtensionField<F>>(
    log_domain_size: nat,
    coset: u32,
    data: Seq<E>,
    values: Seq<E>,
    forward_result: Result<(), Error>,
    restored: Seq<E>,
    inverse_result: Result<(), Error>,
)
    requires
        forward_outcome::<F, E>(log_domain_size, coset, data, values, forward_result),
        inverse_outcome::<F, E>(log_domain_size, coset, values, restored, inverse_result),
    ensures
        restored == data,
        inverse_result == forward_result,
{
    if required_bits(data.len(), coset) <= log_domain_size {
        assert(values.len() == data.len());
        assert(forward_values::<F, E>(data, coset as int) == values);
    }
}

/// The forward transform undoes the inverse transform on the same coset, and the two transforms
/// succeed or fail together.
pub proof fn law_forward_undoes_inverse<F: BinaryField, E: ExtensionField<F>>(
    log_domain_size: nat,
    coset: u32,
    data: Seq<E>,
    coefficients: Seq<E>,
    inverse_result: Result<(), Error>,
    restored: Seq<E>,
    forward_result: Result<(), Error>,
)
    requires
        inverse_outcome::<F, E>(log_domain_size, coset, data, coefficients, inverse_result),
        forward_outcome::<F, E>(log_domain_size, coset, coefficients, restored, forward_result),
    ensures
        restored == data,
        forward_result == inverse_result,
{
}

/// Two forward transforms of the same data on domains of the same size agree, whichever twiddle
/// factors they have precomputed.
pub proof fn law_forward_transforms_agree<F: BinaryField, E: ExtensionField<F>>(
    log_domain_size: nat,
    coset: u32,
    data: Seq<E>,
    values1: Seq<E>,
    result1: Result<(), Error>,
    values2: Seq<E>,
    result2: Result<(), Error>,
)
    requires
        forward_outcome::<F, E>(log_domain_size, coset, data, values1, result1),
        forward_outcome::<F, E>(log_domain_size, coset, data, values2, result2),
    ensures
        values1 == values2,
        result1 == result2,
{
}

/// Two inverse transforms of the same data on domains of the same size agree, whichever twiddle
/// factors they have precomputed.
pub proof fn law_inverse_transforms_agree<F: BinaryField, E: ExtensionField<F>>(
    log_domain_size: nat,
    coset: u32,
    data: Seq<E>,
    coefficients1: Seq<E>,
    result1: Result<(), Error>,
    coefficients2: Seq<E>,
    result2: Result<(), Error>,
)
    requires
        inverse_outcome::<F, E>(log_domain_size, coset, data, coefficients1, result1),
        inverse_outcome::<F, E>(log_domain_size, coset, data, coefficients2, result2),
    ensures
        coefficients1 == coefficients2,
        result1 == result2,
{
    if required_bits(data.len(), coset) <= log_domain_size {
        assert(forward_values::<F, E>(coefficients1, coset as int) == data);
    }
}

/// A forward transform that succeeds does the same on every larger domain.
pub proof fn law_forward_on_larger_domain<F: BinaryField, E: ExtensionField<F>>(
    log_domain_size: nat,
    larger: nat,
    coset: u32,
    data: Seq<E>,
    values: Seq<E>,
    larger_values: Seq<E>,
    result: Result<(), Error>,
)
    requires
        log_domain_size <= larger,
        forward_outcome::<F, E>(log_domain_size, coset, data, values, Ok(())),
        forward_outcome::<F, E>(larger, coset, data, larger_values, result),
    ensures
        larger_values == values,
        result == Ok::<(), Error>(()),
{
}

/// An inverse transform that succeeds does the same on every larger domain.
pub proof fn law_inverse_on_larger_domain<F: BinaryField, E: ExtensionField<F>>(
    log_domain_size: nat,
    larger: nat,
    coset: u32,
    data: Seq<E>,
    coefficients: Seq<E>,
    larger_coefficients: Seq<E>,
    result: Result<(), Error>,
)
    requires
        log_domain_size <= larger,
        inverse_outcome::<F, E>(log_domain_size, coset, data, coefficients, Ok(())),
        inverse_outcome::<F, E>(larger, coset, data, larger_coefficients, result),
    ensures
        larger_coefficients == coefficients,
        result == Ok::<(), Error>(()),
{
}

/// A forward transform of packed elements whose shape is right does to their scalars what the
/// forward transform of the scalars does.
pub proof fn law_packed_forward_matches<PB: PackedField, PE: PackedExtensionField<PB>>(
    log_domain_size: nat,
    coset: u32,
    data: Seq<PE>,
    packed_values: Seq<PE>,
    packed_result: Result<(), Error>,
    values: Seq<PE::Scalar>,
    result: Result<(), Error>,
) where PB::Scalar: BinaryField, PE::Scalar: ExtensionField<PB::Scalar>
    requires
        shape_error::<PB, PE>(data.len()) is None,
        packed_forward_outcome::<PB, PE>(
            log_domain_size,
            coset,
            data,
            packed_values,
            packed_result,
        ),
        forward_outcome::<PB::Scalar, PE::Scalar>(
            log_domain_size,
            coset,
            scalars(data),
            values,
            result,
        ),
    ensures
        scalars(packed_values) == values,
        packed_result == result,
{
    assert(scalars(data).len() == n_scalars::<PE>(data.len()));
}

/// An inverse transform of packed elements whose shape is right does to their scalars what the
/// inverse transform of the scalars does.
pub proof fn law_packed_inverse_matches<PB: PackedField, PE: PackedExtensionField<PB>>(
    log_domain_size: nat,
    coset: u32,
    data: Seq<PE>,
    packed_coefficients: Seq<PE>,
    packed_result: Result<(), Error>,
    coefficients: Seq<PE::Scalar>,
    result: Result<(), Error>,
) where PB::Scalar: BinaryField, PE::Scalar: ExtensionField<PB::Scalar>
    requires
        shape_error::<PB, PE>(data.len()) is None,
        packed_inverse_outcome::<PB, PE>(
            log_domain_size,
            coset,
            data,
            packed_coefficients,
            packed_result,
        ),
        inverse_outcome::<PB::Scalar, PE::Scalar>(
            log_domain_size,
            coset,
            scalars(data),
            coefficients,
            result,
        ),
    ensures
        scalars(packed_coefficients) == coefficients,
        packed_result == result,
{
    assert(scalars(data).len() == n_scalars::<PE>(data.len()));
    if packed_error::<PB, PE>(log_domain_size, data.len(), coset) is None {
        assert(forward_values::<PB::Scalar, PE::Scalar>(coefficients, coset as int) == scalars(
            data,
        ));
    }
}

/// Packed elements are determined by their scalars.
pub proof fn lemma_scalars_injective<P: PackedField>(x: Seq<P>, y: Seq<P>)
    requires
        x.len() == y.len(),
        scalars(x) == scalars(y),
    ensures
        x == y,
{
    assert forall|q: int| 0 <= q < x.len() implies x[q] == y[q] by {
        P::lanes_len(x[q]);
        P::lanes_len(y[q]);
        assert forall|l: int| 0 <= l < P::width_spec() implies x[q].lanes()[l]
            == y[q].lanes()[l] by {
            lemma_scalar(x, q, l);
            lemma_scalar(y, q, l);
        }
        assert(x[q].lanes() =~= y[q].lanes());
        P::lanes_injective(x[q], y[q]);
    }
    assert(x =~= y);
}

/// Two forward transforms of the same packed elements on domains of the same size agree, whichever
/// twiddle factors they have precomputed.
pub proof fn law_packed_forward_transforms_agree<PB: PackedField, PE: PackedExtensionField<PB>>(
    log_domain_size: nat,
    coset: u32,
    data: Seq<PE>,
    values1: Seq<PE>,
    result1: Result<(), Error>,
    values2: Seq<PE>,
    result2: Result<(), Error>,
) where PB::Scalar: BinaryField, PE::Scalar: ExtensionField<PB::Scalar>
    requires
        packed_forward_outcome::<PB, PE>(log_domain_size, coset, data, values1, result1),
        packed_forward_outcome::<PB, PE>(log_domain_size, coset, data, values2, result2),
    ensures
        values1 == values2,
        result1 == result2,
{
    if packed_error::<PB, PE>(log_domain_size, data.len(), coset) is None {
        lemma_scalars_injective(values1, values2);
    }
}

/// Two inverse transforms of the same packed elements on domains of the same size agree, whichever
/// twiddle factors they have precomputed.
pub proof fn law_packed_inverse_transforms_agree<PB: PackedField, PE: PackedExtensionField<PB>>(
    log_domain_size: nat,
    coset: u32,
    data: Seq<PE>,
    coefficients1: Seq<PE>,
    result1: Result<(), Error>,
    coefficients2: Seq<PE>,
    result2: Result<(), Error>,
) where PB::Scalar: BinaryField, PE::Scalar: ExtensionField<PB::Scalar>
    requires
        packed_inverse_outcome::<PB, PE>(log_domain_size, coset, data, coefficients1, result1),
        packed_inverse_outcome::<PB, PE>(log_domain_size, coset, data, coefficients2, result2),
    ensures
        coefficients1 == coefficients2,
        result1 == result2,
{
    if packed_error::<PB, PE>(log_domain_size, data.len(), coset) is None {
        assert(scalars(data).len() == scalars(coefficients1).len());
        assert(forward_values::<PB::Scalar, PE::Scalar>(scalars(coefficients1), coset as int)
            == scalars(data));
        lemma_scalars_injective(coefficients1, coefficients2);
    }
}

/// The inverse transform of packed elements undoes the forward transform on the same coset.
pub proof fn law_packed_inverse_undoes_forward<PB: PackedField, PE: PackedExtensionField<PB>>(
    log_domain_size: nat,
    coset: u32,
    data: Seq<PE>,
    values: Seq<PE>,
    forward_result: Result<(), Error>,
    restored: Seq<PE>,
    inverse_result: Result<(), Error>,
) where PB::Scalar: BinaryField, PE::Scalar: ExtensionField<PB::Scalar>
    requires
        packed_forward_outcome::<PB, PE>(log_domain_size, coset, data, values, forward_result),
        packed_inverse_outcome::<PB, PE>(
            log_domain_size,
            coset,
            values,
            restored,
            inverse_result,
        ),
    ensures
        restored == data,
        inverse_result == forward_result,
{
    if packed_error::<PB, PE>(log_domain_size, data.len(), coset) is None {
        assert(scalars(data).len() == scalars(values).len());
        assert(forward_values::<PB::Scalar, PE::Scalar>(scalars(data), coset as int) == scalars(
            values,
        ));
        lemma_scalars_injective(restored, data);
    }
}

/// The forward transform of packed elements undoes the inverse transform on the same coset.
pub proof fn law_packed_forward_undoes_inverse<PB: PackedField, PE: PackedExtensionField<PB>>(
    log_domain_size: nat,
    coset: u32,
    data: Seq<PE>,
    coefficients: Seq<PE>,
    inverse_result: Result<(), Error>,
    restored: Seq<PE>,
    forward_result: Result<(), Error>,
) where PB::Scalar: BinaryField, PE::Scalar: ExtensionField<PB::Scalar>
    requires
        packed_inverse_outcome::<PB, PE>(
            log_domain_size,
            coset,
            data,
            coefficients,
            inverse_result,
        ),
        packed_forward_outcome::<PB, PE>(
            log_domain_size,
            coset,
            coefficients,
            restored,
            forward_result,
        ),
    ensures
        restored == data,
        forward_result == inverse_result,
{
    if packed_error::<PB, PE>(log_domain_size, data.len(), coset) is None {
        lemma_scalars_injective(restored, data);
    }
}

/// The forward transform is linear: the values of `x + y * c` are the values of `x` plus `c` times
/// the values of `y`.
pub proof fn law_forward_is_linear<F: BinaryField, E: ExtensionField<F>>(
    x: Seq<E>,
    y: Seq<E>,
    c: E,
    coset: int,
)
    requires
        x.len() == y.len(),
    ensures
        forward_values::<F, E>(combine(x, y, c), coset) == combine(
            forward_values::<F, E>(x, coset),
            forward_values::<F, E>(y, coset),
            c,
        ),
{
    let a = forward_values::<F, E>(combine(x, y, c), coset);
    let b = combine(forward_values::<F, E>(x, coset), forward_values::<F, E>(y, coset), c);
    assert forall|p: int| 0 <= p < x.len() implies a[p] == b[p] by {
        lemma_novel_sum_combine::<F, E>(x, y, c, layer_factors(coset * x.len() + p));
    }
    assert(a =~= b);
}

/// The inverse transform is linear.
pub proof fn law_inverse_is_linear<F: BinaryField, E: ExtensionField<F>>(
    log_domain_size: nat,
    coset: u32,
    x: Seq<E>,
    x_coefficients: Seq<E>,
    y: Seq<E>,
    y_coefficients: Seq<E>,
    c: E,
    coefficients: Seq<E>,
)
    requires
        x.len() == y.len(),
        inverse_outcome::<F, E>(log_domain_size, coset, x, x_coefficients, Ok(())),
        inverse_outcome::<F, E>(log_domain_size, coset, y, y_coefficients, Ok(())),
        inverse_outcome::<F, E>(log_domain_size, coset, combine(x, y, c), coefficients, Ok(())),
    ensures
        coefficients == combine(x_coefficients, y_coefficients, c),
{
    law_forward_is_linear::<F, E>(x_coefficients, y_coefficients, c, coset as int);
}

/// The sequence `d`, continued with zeros up to the length `len`.
pub open spec fn zero_padded<E: Field>(d: Seq<E>, len: nat) -> Seq<E> {
    Seq::new(
        len,
        |k: int|
            if k < d.len() {
                d[k]
            } else {
                E::zero_spec()
            },
    )
}

/// Zero coefficients do not change the value of a polynomial.
proof fn lemma_novel_sum_padded<F: Field, E: ExtensionField<F>>(
    d: Seq<E>,
    len: nat,
    factors: spec_fn(nat) -> F,
)
    requires
        d.len() <= len,
    ensures
        novel_sum::<F, E>(zero_padded(d, len), factors) == novel_sum::<F, E>(d, factors),
    decreases len,
{
    let z = zero_padded(d, len);
    if len == d.len() {
        assert(z =~= d);
    } else {
        let l = (len - 1) as nat;
        lemma_novel_sum_padded::<F, E>(d, l, factors);
        assert(z.drop_last() =~= zero_padded(d, l));
        lemma_times_zero(E::embed(novel_product(factors, 0, l as int)));
        E::plus_zero(novel_sum::<F, E>(d, factors));
    }
}

/// The transforms on all cosets are parts of one transform on a larger domain: the values of `d`,
/// continued with zeros to `n` times its length, consist of the values of `d` on `n` cosets.
pub proof fn law_cosets_make_up_domain<F: BinaryField, E: ExtensionField<F>>(
    d: Seq<E>,
    n: nat,
    coset: int,
    i: int,
)
    requires
        0 <= i < n,
    ensures
        forward_values::<F, E>(zero_padded(d, n * d.len()), coset).subrange(
            i * d.len(),
            (i + 1) * d.len(),
        ) == forward_values::<F, E>(d, coset * n + i),
{
    let len = d.len() as int;
    let total = n * d.len();
    assert(0 <= i * len && (i + 1) * len == i * len + len && (i + 1) * len <= n * len && len <= n
        * len) by (nonlinear_arith)
        requires
            0 <= i < n,
            0 <= len,
    ;
    let wide = forward_values::<F, E>(zero_padded(d, total), coset);
    let a = wide.subrange(i * len, (i + 1) * len);
    let b = forward_values::<F, E>(d, coset * n + i);
    assert forall|p: int| 0 <= p < len implies a[p] == b[p] by {
        assert(coset * (n * len) + (i * len + p) == (coset * n + i) * len + p) by (nonlinear_arith);
        lemma_novel_sum_padded::<F, E>(d, total, layer_factors((coset * n + i) * len + p));
    }
    assert(a =~= b);
}

} // verus!
