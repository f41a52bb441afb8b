//! What the transforms compute on packed elements.
use crate::error::Error;
use crate::field::{BinaryField, ExtensionField};
use crate::index::{
    bit_length, exact_log2, exp2, is_power_of_two, law_powers_of_two, lemma_exp2, lemma_exp2_adds,
    lemma_exp2_monotone, lemma_log2, log2, power_of_two, significant_bits,
};
use crate::layers::{forward_layers, inverse_layers, lemma_layers_len};
use crate::packed::{base_coords, scalars, PackedExtensionField, PackedField};
use crate::packed_layers::{
    lemma_base_coords_injective, lemma_forward_layers_coords, lemma_inverse_layers_coords,
};
use crate::transform::{forward_values, required_bits};
use vstd::arithmetic::power2::pow2;
use vstd::prelude::*;

verus! {

/// The number of scalars in `len` packed elements.
pub open spec fn n_scalars<P: PackedField>(len: nat) -> nat {
    len * P::width_spec() as nat
}

/// What is wrong with the shape of `len` packed elements of the given width over an extension of
/// the given degree, if anything is.
pub open spec fn error_in_shape(degree: int, len: int, width: int) -> Option<Error> {
    if !power_of_two(degree) {
        Some(Error::PowerOfTwoExtensionDegreeRequired)
    } else if !power_of_two(len) {
        Some(Error::PowerOfTwoLengthRequired)
    } else if !power_of_two(width) {
        Some(Error::PackingWidthMustDivideDimension)
    } else {
        None
    }
}

/// What is wrong with the shape of `len` packed elements, if anything is.
pub open spec fn shape_error<PB: PackedField, PE: PackedExtensionField<PB>>(len: nat) -> Option<
    Error,
> where PE::Scalar: ExtensionField<PB::Scalar> {
    error_in_shape(
        <PE::Scalar as ExtensionField<PB::Scalar>>::degree_spec() as int,
        len as int,
        PE::width_spec() as int,
    )
}

/// The error of a transform of `len` packed elements, if there is one.
pub open spec fn packed_error<PB: PackedField, PE: PackedExtensionField<PB>>(
    log_domain_size: nat,
    len: nat,
    coset: u32,
) -> Option<Error> where PE::Scalar: ExtensionField<PB::Scalar> {
    if shape_error::<PB, PE>(len) is Some {
        shape_error::<PB, PE>(len)
    } else {
        let required = required_bits(n_scalars::<PE>(len), coset);
        if required > log_domain_size {
            Some(Error::DomainTooSmall { log_required_domain_size: required as usize })
        } else {
            None
        }
    }
}

/// Whether a packed transform handles `len` packed elements: their scalars can be counted, and
/// they do not all lie in one packed element of the subfield.
pub open spec fn packed_len_supported<PB: PackedField, PE: PackedExtensionField<PB>>(
    log_domain_size: nat,
    len: nat,
    coset: u32,
) -> bool where PE::Scalar: ExtensionField<PB::Scalar> {
    &&& shape_error::<PB, PE>(len) is None ==> n_scalars::<PE>(len) <= usize::MAX
    &&& packed_error::<PB, PE>(log_domain_size, len, coset) is None ==> len * PE::n_bases() != 1
}

/// The forward transform of packed elements: it fails and changes nothing if there is an error, and
/// transforms the scalars otherwise.
pub open spec fn packed_forward_outcome<PB: PackedField, PE: PackedExtensionField<PB>>(
    log_domain_size: nat,
    coset: u32,
    before: Seq<PE>,
    after: Seq<PE>,
    result: Result<(), Error>,
) -> bool where PB::Scalar: BinaryField, PE::Scalar: ExtensionField<PB::Scalar> {
    match packed_error::<PB, PE>(log_domain_size, before.len(), coset) {
        Some(e) => result == Err::<(), Error>(e) && after == before,
        None => {
            &&& result == Ok::<(), Error>(())
            &&& after.len() == before.len()
            &&& scalars(after) == forward_values::<PB::Scalar, PE::Scalar>(
                scalars(before),
                coset as int,
            )
        },
    }
}

/// The inverse transform of packed elements: it fails and changes nothing if there is an error, and
/// puts the one sequence of coefficients in the place of the scalars that has them as its
/// [`forward_values`] otherwise.
pub open spec fn packed_inverse_outcome<PB: PackedField, PE: PackedExtensionField<PB>>(
    log_domain_size: nat,
    coset: u32,
    before: Seq<PE>,
    after: Seq<PE>,
    result: Result<(), Error>,
) -> bool where PB::Scalar: BinaryField, PE::Scalar: ExtensionField<PB::Scalar> {
    match packed_error::<PB, PE>(log_domain_size, before.len(), coset) {
        Some(e) => result == Err::<(), Error>(e) && after == before,
        None => {
            &&& result == Ok::<(), Error>(())
            &&& after.len() == before.len()
            &&& forward_values::<PB::Scalar, PE::Scalar>(scalars(after), coset as int) == scalars(
                before,
            )
            &&& forall|d: Seq<PE::Scalar>|
                d.len() == scalars(before).len() && #[trigger] forward_values::<
                    PB::Scalar,
                    PE::Scalar,
                >(d, coset as int) == scalars(before) ==> d == scalars(after)
        },
    }
}

/// The logarithms of the sizes that a packed transform works with.
pub struct PackedNTTParams {
    /// Of the number of scalars.
    pub log_n: usize,
    /// Of the width of the packed elements of the subfield.
    pub log_w: usize,
    /// Of the degree of the extension.
    pub log_d: usize,
    /// The number of binary digits of the coset.
    pub coset_bits: usize,
}

/// A divisor of a power of two is a power of two.
proof fn lemma_divisor_of_power_of_two(x: int, y: int, n: nat)
    requires
        0 <= x,
        0 <= y,
        x * y == exp2(n),
    ensures
        power_of_two(x),
        power_of_two(y),
    decreases n,
{
    lemma_exp2(n);
    lemma_exp2(0);
    assert(0 < x && 0 < y) by (nonlinear_arith)
        requires
            x * y > 0,
            0 <= x,
            0 <= y,
    ;
    if n == 0 {
        assert(x == 1 && y == 1) by (nonlinear_arith)
            requires
                x * y == 1,
                0 < x,
                0 < y,
        ;
    } else {
        let m = (n - 1) as nat;
        lemma_exp2(m);
        if x % 2 == 0 {
            let h = x / 2;
            assert(h * y == exp2(m)) by (nonlinear_arith)
                requires
                    x * y == 2 * exp2(m),
                    x == 2 * h,
            ;
            lemma_divisor_of_power_of_two(h, y, m);
            lemma_exp2(log2(h));
            assert(x == exp2(log2(h) + 1));
        } else {
            assert(y % 2 == 0) by {
                let a = x / 2;
                let b = y / 2;
                if y % 2 == 1 {
                    assert(x * y == 2 * (2 * a * b + a + b) + 1) by (nonlinear_arith)
                        requires
                            x == 2 * a + 1,
                            y == 2 * b + 1,
                    ;
                }
            }
            let h = y / 2;
            assert(x * h == exp2(m)) by (nonlinear_arith)
                requires
                    x * y == 2 * exp2(m),
                    y == 2 * h,
            ;
            lemma_divisor_of_power_of_two(x, h, m);
            lemma_exp2(log2(h));
            assert(y == exp2(log2(h) + 1));
        }
    }
}

/// The product of two powers of two.
pub proof fn lemma_log2_product(x: int, y: int)
    requires
        power_of_two(x),
        power_of_two(y),
    ensures
        x > 0,
        y > 0,
        power_of_two(x * y),
        log2(x * y) == log2(x) + log2(y),
{
    lemma_exp2_adds(log2(x), log2(y));
    lemma_log2(log2(x) + log2(y));
    lemma_exp2(log2(x));
    lemma_exp2(log2(y));
}

/// The width of the packed elements of the subfield is a power of two, because they hold the
/// coordinates of packed elements whose width and degree are.
pub proof fn lemma_base_width<PB: PackedField, PE: PackedExtensionField<PB>>() where
    PE::Scalar: ExtensionField<PB::Scalar>,

    requires
        power_of_two(<PE::Scalar as ExtensionField<PB::Scalar>>::degree_spec() as int),
        power_of_two(PE::width_spec() as int),
    ensures
        power_of_two(PB::width_spec() as int),
{
    let d = <PE::Scalar as ExtensionField<PB::Scalar>>::degree_spec() as int;
    PE::bases_cover();
    lemma_log2_product(PE::width_spec() as int, d);
    lemma_divisor_of_power_of_two(
        PE::n_bases() as int,
        PB::width_spec() as int,
        log2(PE::width_spec() as int * d),
    );
}

/// Checks the shape of `len` packed elements of the given width over an extension of the given
/// degree.
pub fn check_shape(degree: usize, len: usize, width: usize) -> (result: Result<(), Error>)
    ensures
        match error_in_shape(degree as int, len as int, width as int) {
            Some(e) => result == Err::<(), Error>(e),
            None => result == Ok::<(), Error>(()),
        },
        result is Ok <==> (exists|k: nat| degree == #[trigger] pow2(k)) && (exists|k: nat|
            len == #[trigger] pow2(k)) && (exists|k: nat| width == #[trigger] pow2(k)),
{
    proof {
        law_powers_of_two(degree as int);
        law_powers_of_two(len as int);
        law_powers_of_two(width as int);
    }
    if !is_power_of_two(degree) {
        return Err(Error::PowerOfTwoExtensionDegreeRequired);
    }
    if !is_power_of_two(len) {
        return Err(Error::PowerOfTwoLengthRequired);
    }
    if !is_power_of_two(width) {
        return Err(Error::PackingWidthMustDivideDimension);
    }
    Ok(())
}

/// Checks the input of a packed transform, and computes the logarithms of its sizes.
pub fn check_packed_transform_inputs<PB, PE>(
    log_domain_size: usize,
    data: &[PE],
    coset: u32,
) -> (result: Result<PackedNTTParams, Error>) where
    PB: PackedField,
    PE: PackedExtensionField<PB>,
    PE::Scalar: ExtensionField<PB::Scalar>,

    requires
        shape_error::<PB, PE>(data@.len()) is None ==> n_scalars::<PE>(data@.len()) <= usize::MAX,
    ensures
        match (result, packed_error::<PB, PE>(log_domain_size as nat, data@.len(), coset)) {
            (Ok(params), None) => {
                &&& params.log_n == log2(n_scalars::<PE>(data@.len()) as int)
                &&& params.log_w == log2(PB::width_spec() as int)
                &&& params.log_d == log2(
                    <PE::Scalar as ExtensionField<PB::Scalar>>::degree_spec() as int,
                )
                &&& params.coset_bits == bit_length(coset as int)
                &&& params.log_n < usize::BITS
                &&& params.log_w < usize::BITS
                &&& params.log_d < usize::BITS
                &&& coset < exp2(params.coset_bits as nat)
                &&& params.coset_bits <= 32
                &&& pow2(params.log_n as nat) == data@.len() * PE::width_spec()
                &&& pow2(params.log_w as nat) == PB::width_spec()
                &&& pow2(params.log_d as nat) == <PE::Scalar as ExtensionField<
                    PB::Scalar,
                >>::degree_spec()
                &&& coset < pow2(params.coset_bits as nat)
                &&& params.coset_bits > 0 ==> pow2((params.coset_bits - 1) as nat) <= coset
            },
            (Err(e), Some(f)) => e == f,
            _ => false,
        },
{
    let degree = <PE::Scalar as ExtensionField<PB::Scalar>>::degree();
    match check_shape(degree, data.len(), PE::width()) {
        Err(e) => {
            return Err(e);
        },
        Ok(_) => {},
    }
    proof {
        lemma_base_width::<PB, PE>();
        lemma_log2_product(data@.len() as int, PE::width_spec() as int);
    }
    let n = data.len() * PE::width();
    let log_n = exact_log2(n);
    let log_w = exact_log2(PB::width());
    let log_d = exact_log2(degree);
    let coset_bits = significant_bits(coset);
    if log_n + coset_bits > log_domain_size {
        return Err(Error::DomainTooSmall { log_required_domain_size: log_n + coset_bits });
    }
    Ok(PackedNTTParams { log_n, log_w, log_d, coset_bits })
}

/// The sizes of a packed transform: `exp2(r)` scalars with `exp2(s)` coordinates each fill more
/// than one packed element of `exp2(w)` lanes.
pub proof fn lemma_packed_sizes(r: nat, s: nat, w: nat, len: int)
    requires
        len * exp2(w) == exp2(r + s),
        len >= 2,
    ensures
        w < r + s,
        len == exp2((r + s - w) as nat),
{
    lemma_exp2(w);
    lemma_exp2(r + s);
    if w >= r + s {
        lemma_exp2_monotone(r + s, w);
        assert(len * exp2(w) >= 2 * exp2(w)) by (nonlinear_arith)
            requires
                len >= 2,
                exp2(w) > 0,
        ;
    }
    lemma_exp2_adds((r + s - w) as nat, w);
    let x = exp2((r + s - w) as nat);
    assert(len == x) by (nonlinear_arith)
        requires
            len * exp2(w) == x * exp2(w),
            exp2(w) > 0,
    ;
}

/// The scalars and the coordinates of packed elements, counted in powers of two.
pub proof fn lemma_packed_counts<PB: PackedField, PE: PackedExtensionField<PB>>(len: nat) where
    PE::Scalar: ExtensionField<PB::Scalar>,

    requires
        shape_error::<PB, PE>(len) is None,
        len * PE::n_bases() != 1,
    ensures
        ({
            let r = log2(n_scalars::<PE>(len) as int);
            let s = log2(<PE::Scalar as ExtensionField<PB::Scalar>>::degree_spec() as int);
            let w = log2(PB::width_spec() as int);
            &&& n_scalars::<PE>(len) == exp2(r)
            &&& <PE::Scalar as ExtensionField<PB::Scalar>>::degree_spec() == exp2(s)
            &&& PB::width_spec() == exp2(w)
            &&& power_of_two(PB::width_spec() as int)
            &&& w < r + s
            &&& len * PE::n_bases() == exp2((r + s - w) as nat)
            &&& exp2(r + s) == exp2((r + s - w) as nat) * exp2(w)
            &&& exp2(r + s) == exp2(r) * exp2(s)
        }),
{
    let d = <PE::Scalar as ExtensionField<PB::Scalar>>::degree_spec() as int;
    let k = PE::n_bases() as int;
    let r = log2(n_scalars::<PE>(len) as int);
    let s = log2(d);
    let w = log2(PB::width_spec() as int);
    PE::bases_cover();
    lemma_base_width::<PB, PE>();
    lemma_log2_product(len as int, PE::width_spec() as int);
    lemma_exp2_adds(r, s);
    lemma_exp2(r + s);
    assert((len * k) * exp2(w) == exp2(r + s)) by (nonlinear_arith)
        requires
            exp2(r + s) == exp2(r) * exp2(s),
            exp2(r) == len * PE::width_spec(),
            exp2(s) == d,
            exp2(w) == PB::width_spec(),
            k * PB::width_spec() == PE::width_spec() * d,
    ;
    assert(len * k > 0) by (nonlinear_arith)
        requires
            (len * k) * exp2(w) > 0,
            len * k >= 0,
    ;
    lemma_packed_sizes(r, s, w, len * k);
}

/// If the coordinates have gone through all layers of the forward transform, then the scalars have.
pub proof fn lemma_packed_forward<F: BinaryField, E: ExtensionField<F>>(
    r: nat,
    s: nat,
    coset: int,
    before: Seq<E>,
    after: Seq<E>,
)
    requires
        0 <= coset,
        before.len() == exp2(r),
        after.len() == exp2(r),
        E::degree_spec() == exp2(s),
        base_coords::<F, E>(after) == forward_layers::<F, F>(
            r,
            s,
            coset,
            base_coords::<F, E>(before),
            r,
        ),
    ensures
        after == forward_layers::<F, E>(r, 0, coset, before, r),
{
    lemma_forward_layers_coords::<F, E>(r, s, coset, before, r);
    lemma_layers_len::<F, E>(r, 0, coset, before, r);
    lemma_base_coords_injective::<F, E>(after, forward_layers::<F, E>(r, 0, coset, before, r));
}

/// If the coordinates have gone through all layers of the inverse transform, then the scalars have.
pub proof fn lemma_packed_inverse<F: BinaryField, E: ExtensionField<F>>(
    r: nat,
    s: nat,
    coset: int,
    before: Seq<E>,
    after: Seq<E>,
)
    requires
        0 <= coset,
        before.len() == exp2(r),
        after.len() == exp2(r),
        E::degree_spec() == exp2(s),
        base_coords::<F, E>(after) == inverse_layers::<F, F>(
            r,
            s,
            coset,
            base_coords::<F, E>(before),
            r,
        ),
    ensures
        after == inverse_layers::<F, E>(r, 0, coset, before, r),
{
    lemma_inverse_layers_coords::<F, E>(r, s, coset, before, r);
    lemma_layers_len::<F, E>(r, 0, coset, before, r);
    lemma_base_coords_injective::<F, E>(after, inverse_layers::<F, E>(r, 0, coset, before, r));
}

} // verus!
