//! What the transforms compute.
use crate::error::Error;
use crate::field::{BinaryField, ExtensionField};
use crate::index::{bit_length, exp2, log2};
use crate::layers::{
    forward_layers, inverse_layers, lemma_forward_layers_value, lemma_layers_len,
    lemma_layers_round_trip,
};
use crate::novel_basis::{layer_factors, novel_sum};
use vstd::prelude::*;

verus! {

/// What the forward transform makes of the novel basis coefficients `d`: at each place, the sum of
/// the coefficients times products of layer factors.
///
/// The coset with number `coset` consists of the evaluation points with the indices
/// `coset * d.len()`, `coset * d.len() + 1`, ... If the basis of the field is a Cantor basis, then
/// the layer factors are the values of the subspace polynomials, and the results are the values of
/// the polynomial with the novel basis coefficients `d` at these points.
pub open spec fn forward_values<F: BinaryField, E: ExtensionField<F>>(
    d: Seq<E>,
    coset: int,
) -> Seq<E> {
    Seq::new(d.len(), |p: int| novel_sum::<F, E>(d, layer_factors(coset * d.len() + p)))
}

/// The number of index bits that `len` elements on a coset need.
pub open spec fn required_bits(len: nat, coset: u32) -> nat {
    log2(len as int) + bit_length(coset as int)
}

/// The forward transform of `before` on a domain of `exp2(log_domain_size)` points: it fails and
/// changes nothing if the domain is too small, and puts the [`forward_values`] in the place of the
/// coefficients otherwise.
pub open spec fn forward_outcome<F: BinaryField, E: ExtensionField<F>>(
    log_domain_size: nat,
    coset: u32,
    before: Seq<E>,
    after: Seq<E>,
    result: Result<(), Error>,
) -> bool {
    let required = required_bits(before.len(), coset);
    if required > log_domain_size {
        &&& result == Err::<(), Error>(
            Error::DomainTooSmall { log_required_domain_size: required as usize },
        )
        &&& after == before
    } else {
        &&& result == Ok::<(), Error>(())
        &&& after == forward_values::<F, E>(before, coset as int)
    }
}

/// The inverse transform of `before` on a domain of `exp2(log_domain_size)` points: it fails and
/// changes nothing if the domain is too small, and puts the one sequence of coefficients in the
/// place of `before` that has it as its [`forward_values`] otherwise.
pub open spec fn inverse_outcome<F: BinaryField, E: ExtensionField<F>>(
    log_domain_size: nat,
    coset: u32,
    before: Seq<E>,
    after: Seq<E>,
    result: Result<(), Error>,
) -> bool {
    let required = required_bits(before.len(), coset);
    if required > log_domain_size {
        &&& result == Err::<(), Error>(
            Error::DomainTooSmall { log_required_domain_size: required as usize },
        )
        &&& after == before
    } else {
        &&& result == Ok::<(), Error>(())
        &&& after.len() == before.len()
        &&& forward_values::<F, E>(after, coset as int) == before
        &&& forall|d: Seq<E>|
            d.len() == before.len() && #[trigger] forward_values::<F, E>(d, coset as int) == before
                ==> d == after
    }
}

/// All layers together compute the [`forward_values`].
pub proof fn lemma_forward_layers<F: BinaryField, E: ExtensionField<F>>(
    r: nat,
    coset: int,
    a: Seq<E>,
)
    requires
        a.len() == exp2(r),
        0 <= coset,
    ensures
        forward_layers::<F, E>(r, 0, coset, a, r) == forward_values::<F, E>(a, coset),
{
    let f = forward_layers::<F, E>(r, 0, coset, a, r);
    lemma_layers_len::<F, E>(r, 0, coset, a, r);
    assert forall|p: int| 0 <= p < a.len() implies f[p] == forward_values::<F, E>(a, coset)[p] by {
        lemma_forward_layers_value::<F, E>(r, coset, a, r, p);
        assert(p / exp2(r) == 0) by (nonlinear_arith)
            requires
                0 <= p < exp2(r),
        ;
        assert(a.subrange((p / exp2(r)) * exp2(r), (p / exp2(r) + 1) * exp2(r)) =~= a);
    }
    assert(f =~= forward_values::<F, E>(a, coset));
}

/// All inverse layers together compute the one sequence of coefficients that has the
/// [`forward_values`] `a`.
pub proof fn lemma_inverse_layers<F: BinaryField, E: ExtensionField<F>>(
    r: nat,
    coset: int,
    a: Seq<E>,
)
    requires
        a.len() == exp2(r),
        0 <= coset,
    ensures
        inverse_layers::<F, E>(r, 0, coset, a, r).len() == a.len(),
        forward_values::<F, E>(inverse_layers::<F, E>(r, 0, coset, a, r), coset) == a,
        forall|d: Seq<E>|
            d.len() == a.len() && #[trigger] forward_values::<F, E>(d, coset) == a ==> d
                == inverse_layers::<F, E>(r, 0, coset, a, r),
{
    let g = inverse_layers::<F, E>(r, 0, coset, a, r);
    lemma_layers_len::<F, E>(r, 0, coset, a, r);
    lemma_forward_layers::<F, E>(r, coset, g);
    lemma_layers_round_trip::<F, E>(r, 0, coset, a, r);
    assert forall|d: Seq<E>|
        d.len() == a.len() && #[trigger] forward_values::<F, E>(d, coset) == a implies d == g by {
        lemma_forward_layers::<F, E>(r, coset, d);
        lemma_layers_round_trip::<F, E>(r, 0, coset, d, r);
    }
}

} // verus!
