//! The transforms, for any source of twiddle factors.
use crate::butterfly::{
    forward_block, inverse_block, lemma_forward_block_step, lemma_inverse_block_step,
    lemma_partial_layer_end, lemma_partial_layer_start, partial_layer,
};
use crate::error::Error;
use crate::field::{lemma_self_extension, BinaryField, ExtensionField};
use crate::index::{
    exact_log2, exp2, lemma_exp2, lemma_exp2_adds, lemma_shl_one, log2, power_of_two,
    significant_bits,
};
use crate::layers::{
    block_twiddle, forward_layer, forward_layers, inverse_layer, inverse_layers, lemma_whole_blocks,
};
use crate::packed::{cast_from_bases, cast_to_bases, scalars, PackedExtensionField, PackedField};
use crate::packed_butterfly::{
    forward_block_packed, forward_pair_packed, inverse_block_packed, inverse_pair_packed,
};
use crate::packed_layers::{is_pair_twiddle, lemma_forward_pair_step, lemma_inverse_pair_step};
use crate::packed_transform::{
    check_packed_transform_inputs, lemma_packed_counts, lemma_packed_forward, lemma_packed_inverse,
    packed_forward_outcome, packed_inverse_outcome, packed_len_supported, PackedNTTParams,
};
use crate::transform::{
    forward_outcome, inverse_outcome, lemma_forward_layers, lemma_inverse_layers,
};
use vstd::prelude::*;

verus! {

/// A source of twiddle factors for the transforms on a domain.
pub trait TwiddleSource<F: BinaryField> {
    /// What a coset contributes to the twiddle factors of a layer, in the form that the source
    /// needs it in.
    type CosetPart: Copy;

    /// The logarithm of the number of points in the domain.
    spec fn domain_bits(&self) -> nat;

    /// Whether `part` is what the coset contributes to the twiddle factors of layer `i` in a
    /// transform of `exp2(log_n)` elements.
    spec fn is_coset_part(&self, log_n: nat, i: nat, coset: int, part: Self::CosetPart) -> bool;

    /// The logarithm of the number of points in the domain.
    fn log_size(&self) -> (r: usize)
        ensures
            r == self.domain_bits(),
    ;

    /// What the coset contributes to the twiddle factors of layer `i`.
    fn coset_part(&self, log_n: usize, i: usize, coset_bits: usize, coset: u32) -> (part:
        Self::CosetPart)
        requires
            i < log_n < usize::BITS,
            coset_bits <= 32,
            log_n + coset_bits <= self.domain_bits(),
            coset < exp2(coset_bits as nat),
        ensures
            self.is_coset_part(log_n as nat, i as nat, coset as int, part),
    ;

    /// The twiddle factor of block `j` in layer `i`.
    fn twiddle(
        &self,
        log_n: usize,
        i: usize,
        coset: Ghost<int>,
        part: Self::CosetPart,
        j: usize,
    ) -> (r: F)
        requires
            i < log_n < usize::BITS,
            log_n <= self.domain_bits(),
            0 <= coset@,
            self.is_coset_part(log_n as nat, i as nat, coset@, part),
            j < exp2((log_n - 1 - i) as nat),
        ensures
            r == block_twiddle::<F>(log_n as nat, coset@, i as nat, j as int),
    ;

    /// The twiddle factors for pair `j` of packed elements in layer `i`.
    fn pair_twiddle<PB: PackedField<Scalar = F>>(
        &self,
        log_n: usize,
        log_d: usize,
        cutoff: usize,
        i: usize,
        coset: Ghost<int>,
        part: Self::CosetPart,
        j: usize,
    ) -> (twiddle: PB)
        requires
            i < cutoff < log_n < usize::BITS,
            log_n <= self.domain_bits(),
            0 <= coset@,
            self.is_coset_part(log_n as nat, i as nat, coset@, part),
            power_of_two(PB::width_spec() as int),
            log2(PB::width_spec() as int) == cutoff + log_d,
            cutoff + log_d < usize::BITS,
            j < exp2((log_n - 1 - cutoff) as nat),
        ensures
            is_pair_twiddle(
                log_n as nat,
                log_d as nat,
                coset@,
                i as nat,
                (cutoff + log_d) as nat,
                j as int,
                twiddle.lanes(),
            ),
    ;
}

/// The forward transform.
pub fn forward<F: BinaryField, T: TwiddleSource<F>, E: ExtensionField<F>>(
    source: &T,
    data: &mut [E],
    coset: u32,
) -> (result: Result<(), Error>)
    requires
        power_of_two(old(data)@.len() as int),
    ensures
        forward_outcome::<F, E>(
            source.domain_bits(),
            coset,
            old(data)@,
            final(data)@,
            result,
        ),
{
    let n = data.len();
    let log_n = exact_log2(n);
    let coset_bits = significant_bits(coset);
    if log_n + coset_bits > source.log_size() {
        return Err(
            Error::DomainTooSmall { log_required_domain_size: log_n + coset_bits },
        );
    }
    let ghost before = data@;
    let ghost r = log_n as nat;
    let mut i: usize = log_n;
    while i > 0
        invariant
            i <= log_n < usize::BITS,
            r == log_n,
            coset_bits <= 32,
            coset < exp2(coset_bits as nat),
            log_n + coset_bits <= source.domain_bits(),
            before.len() == exp2(r),
            data@.len() == exp2(r),
            forward_layers::<F, E>(r, 0, coset as int, data@, i as nat) == forward_layers::<
                F,
                E,
            >(r, 0, coset as int, before, r),
        decreases i,
    {
        i -= 1;
        let ghost a = data@;
        let ghost layer = forward_layer::<F, E>(r, 0, coset as int, a, i as nat);
        let part = source.coset_part(log_n, i, coset_bits, coset);
        let blocks: usize = 1 << (log_n - 1 - i);
        proof {
            lemma_shl_one((log_n - 1 - i) as usize);
            lemma_whole_blocks(r, 0, i as nat);
            lemma_partial_layer_start(a, layer, (i + 1) as nat);
        }
        let mut j: usize = 0;
        while j < blocks
            invariant
                i < log_n < usize::BITS,
                r == log_n,
                j <= blocks,
                blocks == exp2((r - 1 - i) as nat),
                exp2(r) == exp2((r - 1 - i) as nat) * exp2((i + 1) as nat),
                a.len() == exp2(r),
                log_n <= source.domain_bits(),
                source.is_coset_part(log_n as nat, i as nat, coset as int, part),
                layer == forward_layer::<F, E>(r, 0, coset as int, a, i as nat),
                partial_layer(a, layer, (i + 1) as nat, j as int, data@),
            decreases blocks - j,
        {
            let twiddle = source.twiddle(log_n, i, Ghost(coset as int), part, j);
            proof {
                lemma_exp2((i + 1) as nat);
                assert((j + 1) * exp2((i + 1) as nat) <= a.len()) by (nonlinear_arith)
                    requires
                        j + 1 <= blocks,
                        a.len() == blocks * exp2((i + 1) as nat),
                        exp2((i + 1) as nat) > 0,
                ;
                lemma_forward_block_step::<F, E>(
                    r,
                    0,
                    coset as int,
                    a,
                    i as nat,
                    j as int,
                    data@,
                );
            }
            forward_block(data, i, j, twiddle);
            j += 1;
        }
        proof {
            lemma_partial_layer_end(a, layer, (i + 1) as nat, j as int, data@);
        }
    }
    proof {
        lemma_forward_layers::<F, E>(r, coset as int, before);
    }
    Ok(())
}

/// The inverse transform.
pub fn inverse<F: BinaryField, T: TwiddleSource<F>, E: ExtensionField<F>>(
    source: &T,
    data: &mut [E],
    coset: u32,
) -> (result: Result<(), Error>)
    requires
        power_of_two(old(data)@.len() as int),
    ensures
        inverse_outcome::<F, E>(
            source.domain_bits(),
            coset,
            old(data)@,
            final(data)@,
            result,
        ),
{
    let n = data.len();
    let log_n = exact_log2(n);
    let coset_bits = significant_bits(coset);
    if log_n + coset_bits > source.log_size() {
        return Err(
            Error::DomainTooSmall { log_required_domain_size: log_n + coset_bits },
        );
    }
    let ghost before = data@;
    let ghost r = log_n as nat;
    let mut i: usize = 0;
    while i < log_n
        invariant
            i <= log_n < usize::BITS,
            r == log_n,
            coset_bits <= 32,
            coset < exp2(coset_bits as nat),
            log_n + coset_bits <= source.domain_bits(),
            before.len() == exp2(r),
            data@.len() == exp2(r),
            data@ == inverse_layers::<F, E>(r, 0, coset as int, before, i as nat),
        decreases log_n - i,
    {
        let ghost a = data@;
        let ghost layer = inverse_layer::<F, E>(r, 0, coset as int, a, i as nat);
        let part = source.coset_part(log_n, i, coset_bits, coset);
        let blocks: usize = 1 << (log_n - 1 - i);
        proof {
            lemma_shl_one((log_n - 1 - i) as usize);
            lemma_whole_blocks(r, 0, i as nat);
            lemma_partial_layer_start(a, layer, (i + 1) as nat);
        }
        let mut j: usize = 0;
        while j < blocks
            invariant
                i < log_n < usize::BITS,
                r == log_n,
                j <= blocks,
                blocks == exp2((r - 1 - i) as nat),
                exp2(r) == exp2((r - 1 - i) as nat) * exp2((i + 1) as nat),
                a.len() == exp2(r),
                log_n <= source.domain_bits(),
                source.is_coset_part(log_n as nat, i as nat, coset as int, part),
                layer == inverse_layer::<F, E>(r, 0, coset as int, a, i as nat),
                partial_layer(a, layer, (i + 1) as nat, j as int, data@),
            decreases blocks - j,
        {
            let twiddle = source.twiddle(log_n, i, Ghost(coset as int), part, j);
            proof {
                lemma_exp2((i + 1) as nat);
                assert((j + 1) * exp2((i + 1) as nat) <= a.len()) by (nonlinear_arith)
                    requires
                        j + 1 <= blocks,
                        a.len() == blocks * exp2((i + 1) as nat),
                        exp2((i + 1) as nat) > 0,
                ;
                lemma_inverse_block_step::<F, E>(
                    r,
                    0,
                    coset as int,
                    a,
                    i as nat,
                    j as int,
                    data@,
                );
            }
            inverse_block(data, i, j, twiddle);
            j += 1;
        }
        proof {
            lemma_partial_layer_end(a, layer, (i + 1) as nat, j as int, data@);
        }
        i += 1;
    }
    proof {
        lemma_inverse_layers::<F, E>(r, coset as int, before);
    }
    Ok(())
}

/// The forward transform of the scalars of packed elements.
pub fn forward_packed<F, T, PB, PE>(source: &T, data: &mut [PE], coset: u32) -> (result: Result<
    (),
    Error,
>) where
    F: BinaryField,
    T: TwiddleSource<F>,
    PB: PackedField<Scalar = F>,
    PE: PackedExtensionField<PB>,
    PE::Scalar: ExtensionField<F>,

    requires
        packed_len_supported::<PB, PE>(source.domain_bits(), old(data)@.len(), coset),
    ensures
        packed_forward_outcome::<PB, PE>(
            source.domain_bits(),
            coset,
            old(data)@,
            final(data)@,
            result,
        ),
{
    let params = match check_packed_transform_inputs::<PB, PE>(
        source.log_size(),
        data,
        coset,
    ) {
        Ok(params) => params,
        Err(e) => {
            return Err(e);
        },
    };
    let PackedNTTParams { log_n, log_w, log_d, coset_bits } = params;
    // Below the cutoff, the two elements of a butterfly lie in one packed base field element.
    let cutoff = log_w.saturating_sub(log_d);
    let ghost before = data@;
    let mut bases: Vec<PB> = cast_to_bases::<PB, PE>(data);
    let ghost flat = scalars(bases@);
    let ghost r = log_n as nat;
    let ghost s = log_d as nat;
    let ghost w = log_w as nat;
    proof {
        lemma_packed_counts::<PB, PE>(data@.len());
        assert(flat.len() == exp2(r + s));
    }
    let mut i: usize = log_n;
    while i > cutoff
        invariant
            cutoff <= i <= log_n,
            r == log_n,
            s == log_d,
            w == log_w,
            log_n < usize::BITS,
            log_w < usize::BITS,
            log_d < usize::BITS,
            cutoff == if w > s { w - s } else { 0 },
            w < r + s,
            coset_bits <= 32,
            coset < exp2(coset_bits as nat),
            log_n + coset_bits <= source.domain_bits(),
            PB::width_spec() == exp2(w),
            power_of_two(PB::width_spec() as int),
            log2(PB::width_spec() as int) == w,
            bases@.len() == exp2((r + s - w) as nat),
            exp2(r + s) == exp2((r + s - w) as nat) * exp2(w),
            flat.len() == exp2(r + s),
            forward_layers::<F, F>(r, s, coset as int, scalars(bases@), i as nat)
                == forward_layers::<F, F>(r, s, coset as int, flat, r),
        decreases i,
    {
        i -= 1;
        let ghost a = scalars(bases@);
        let ghost layer = forward_layer::<F, F>(r, s, coset as int, a, i as nat);
        let part = source.coset_part(log_n, i, coset_bits, coset);
        let e: usize = i + log_d - log_w;
        let blocks: usize = 1 << (log_n - 1 - i);
        proof {
            lemma_shl_one((log_n - 1 - i) as usize);
            lemma_whole_blocks(r, s, i as nat);
            lemma_partial_layer_start(a, layer, i as nat + s + 1);
            assert(exp2((r + s - w) as nat) == exp2((r - 1 - i) as nat) * exp2(
                (e + 1) as nat,
            )) by {
                lemma_exp2_adds((r - 1 - i) as nat, (e + 1) as nat);
                assert((r - 1 - i) as nat + (e + 1) as nat == (r + s - w) as nat);
            }
            lemma_exp2((e + 1) as nat);
        }
        let mut j: usize = 0;
        while j < blocks
            invariant
                i < log_n < usize::BITS,
                r == log_n,
                s == log_d,
                w == log_w,
                e == i + s - w,
                j <= blocks,
                blocks == exp2((r - 1 - i) as nat),
                bases@.len() == blocks * exp2((e + 1) as nat),
                exp2((e + 1) as nat) > 0,
                a.len() == exp2(r + s),
                power_of_two(PB::width_spec() as int),
                log2(PB::width_spec() as int) == w,
                log_n <= source.domain_bits(),
                source.is_coset_part(log_n as nat, i as nat, coset as int, part),
                layer == forward_layer::<F, F>(r, s, coset as int, a, i as nat),
                partial_layer(a, layer, i as nat + s + 1, j as int, scalars(bases@)),
            decreases blocks - j,
        {
            let twiddle = source.twiddle(log_n, i, Ghost(coset as int), part, j);
            proof {
                assert((j + 1) * exp2((e + 1) as nat) <= bases@.len()) by (nonlinear_arith)
                    requires
                        j + 1 <= blocks,
                        bases@.len() == blocks * exp2((e + 1) as nat),
                        exp2((e + 1) as nat) > 0,
                ;
                lemma_self_extension::<F>();
                lemma_forward_block_step::<F, F>(
                    r,
                    s,
                    coset as int,
                    a,
                    i as nat,
                    j as int,
                    scalars(bases@),
                );
            }
            forward_block_packed(&mut bases, e, j, twiddle);
            j += 1;
        }
        proof {
            lemma_partial_layer_end(a, layer, i as nat + s + 1, j as int, scalars(bases@));
        }
    }
    while i > 0
        invariant
            i <= cutoff,
            cutoff > 0 ==> cutoff < log_n,
            r == log_n,
            s == log_d,
            w == log_w,
            log_n < usize::BITS,
            log_w < usize::BITS,
            log_d < usize::BITS,
            cutoff == if w > s { w - s } else { 0 },
            w < r + s,
            coset_bits <= 32,
            coset < exp2(coset_bits as nat),
            log_n + coset_bits <= source.domain_bits(),
            PB::width_spec() == exp2(w),
            power_of_two(PB::width_spec() as int),
            log2(PB::width_spec() as int) == w,
            bases@.len() == exp2((r + s - w) as nat),
            exp2(r + s) == exp2((r + s - w) as nat) * exp2(w),
            flat.len() == exp2(r + s),
            forward_layers::<F, F>(r, s, coset as int, scalars(bases@), i as nat)
                == forward_layers::<F, F>(r, s, coset as int, flat, r),
        decreases i,
    {
        i -= 1;
        let ghost a = scalars(bases@);
        let ghost layer = forward_layer::<F, F>(r, s, coset as int, a, i as nat);
        let part = source.coset_part(log_n, i, coset_bits, coset);
        let pairs: usize = 1 << (log_n - 1 - cutoff);
        proof {
            lemma_shl_one((log_n - 1 - cutoff) as usize);
            lemma_exp2((log_n - 1 - cutoff) as nat);
            lemma_exp2(w);
            assert((r + s - w) as nat == (log_n - 1 - cutoff) as nat + 1);
            lemma_partial_layer_start(a, layer, w + 1);
        }
        let mut j: usize = 0;
        while j < pairs
            invariant
                i < cutoff < log_n < usize::BITS,
                log_w < usize::BITS,
                r == log_n,
                s == log_d,
                w == log_w,
                cutoff == w - s,
                w < r + s,
                j <= pairs,
                pairs == exp2((log_n - 1 - cutoff) as nat),
                bases@.len() == 2 * pairs,
                a.len() == exp2(r + s),
                PB::width_spec() == exp2(w),
                power_of_two(PB::width_spec() as int),
                log2(PB::width_spec() as int) == w,
                log_n <= source.domain_bits(),
                source.is_coset_part(log_n as nat, i as nat, coset as int, part),
                layer == forward_layer::<F, F>(r, s, coset as int, a, i as nat),
                partial_layer(a, layer, w + 1, j as int, scalars(bases@)),
            decreases pairs - j,
        {
            let twiddle = source.pair_twiddle::<PB>(
                log_n,
                log_d,
                cutoff,
                i,
                Ghost(coset as int),
                part,
                j,
            );
            proof {
                lemma_forward_pair_step::<F>(
                    r,
                    s,
                    coset as int,
                    a,
                    i as nat,
                    w,
                    j as int,
                    scalars(bases@),
                    twiddle.lanes(),
                );
            }
            forward_pair_packed(&mut bases, i + log_d, j, twiddle);
            j += 1;
        }
        proof {
            assert(exp2(r + s) == pairs * exp2(w + 1)) by (nonlinear_arith)
                requires
                    exp2(r + s) == (2 * pairs) * exp2(w),
                    exp2(w + 1) == 2 * exp2(w),
            ;
            lemma_partial_layer_end(a, layer, w + 1, j as int, scalars(bases@));
        }
    }
    cast_from_bases::<PB, PE>(bases.as_slice(), data);
    proof {
        lemma_packed_forward::<F, PE::Scalar>(
            r,
            s,
            coset as int,
            scalars(before),
            scalars(data@),
        );
        lemma_forward_layers::<F, PE::Scalar>(r, coset as int, scalars(before));
    }
    Ok(())
}

/// The inverse transform of the scalars of packed elements.
pub fn inverse_packed<F, T, PB, PE>(source: &T, data: &mut [PE], coset: u32) -> (result: Result<
    (),
    Error,
>) where
    F: BinaryField,
    T: TwiddleSource<F>,
    PB: PackedField<Scalar = F>,
    PE: PackedExtensionField<PB>,
    PE::Scalar: ExtensionField<F>,

    requires
        packed_len_supported::<PB, PE>(source.domain_bits(), old(data)@.len(), coset),
    ensures
        packed_inverse_outcome::<PB, PE>(
            source.domain_bits(),
            coset,
            old(data)@,
            final(data)@,
            result,
        ),
{
    let params = match check_packed_transform_inputs::<PB, PE>(
        source.log_size(),
        data,
        coset,
    ) {
        Ok(params) => params,
        Err(e) => {
            return Err(e);
        },
    };
    let PackedNTTParams { log_n, log_w, log_d, coset_bits } = params;
    // Below the cutoff, the two elements of a butterfly lie in one packed base field element.
    let cutoff = log_w.saturating_sub(log_d);
    let ghost before = data@;
    let mut bases: Vec<PB> = cast_to_bases::<PB, PE>(data);
    let ghost flat = scalars(bases@);
    let ghost r = log_n as nat;
    let ghost s = log_d as nat;
    let ghost w = log_w as nat;
    proof {
        lemma_packed_counts::<PB, PE>(data@.len());
        assert(flat.len() == exp2(r + s));
    }
    let mut i: usize = 0;
    while i < cutoff
        invariant
            i <= cutoff,
            cutoff > 0 ==> cutoff < log_n,
            r == log_n,
            s == log_d,
            w == log_w,
            log_n < usize::BITS,
            log_w < usize::BITS,
            log_d < usize::BITS,
            cutoff == if w > s { w - s } else { 0 },
            w < r + s,
            coset_bits <= 32,
            coset < exp2(coset_bits as nat),
            log_n + coset_bits <= source.domain_bits(),
            PB::width_spec() == exp2(w),
            power_of_two(PB::width_spec() as int),
            log2(PB::width_spec() as int) == w,
            bases@.len() == exp2((r + s - w) as nat),
            exp2(r + s) == exp2((r + s - w) as nat) * exp2(w),
            flat.len() == exp2(r + s),
            scalars(bases@) == inverse_layers::<F, F>(r, s, coset as int, flat, i as nat),
        decreases cutoff - i,
    {
        let ghost a = scalars(bases@);
        let ghost layer = inverse_layer::<F, F>(r, s, coset as int, a, i as nat);
        let part = source.coset_part(log_n, i, coset_bits, coset);
        let pairs: usize = 1 << (log_n - 1 - cutoff);
        proof {
            lemma_shl_one((log_n - 1 - cutoff) as usize);
            lemma_exp2((log_n - 1 - cutoff) as nat);
            lemma_exp2(w);
            assert((r + s - w) as nat == (log_n - 1 - cutoff) as nat + 1);
            lemma_partial_layer_start(a, layer, w + 1);
        }
        let mut j: usize = 0;
        while j < pairs
            invariant
                i < cutoff < log_n < usize::BITS,
                log_w < usize::BITS,
                r == log_n,
                s == log_d,
                w == log_w,
                cutoff == w - s,
                w < r + s,
                j <= pairs,
                pairs == exp2((log_n - 1 - cutoff) as nat),
                bases@.len() == 2 * pairs,
                a.len() == exp2(r + s),
                PB::width_spec() == exp2(w),
                power_of_two(PB::width_spec() as int),
                log2(PB::width_spec() as int) == w,
                log_n <= source.domain_bits(),
                source.is_coset_part(log_n as nat, i as nat, coset as int, part),
                layer == inverse_layer::<F, F>(r, s, coset as int, a, i as nat),
                partial_layer(a, layer, w + 1, j as int, scalars(bases@)),
            decreases pairs - j,
        {
            let twiddle = source.pair_twiddle::<PB>(
                log_n,
                log_d,
                cutoff,
                i,
                Ghost(coset as int),
                part,
                j,
            );
            proof {
                lemma_inverse_pair_step::<F>(
                    r,
                    s,
                    coset as int,
                    a,
                    i as nat,
                    w,
                    j as int,
                    scalars(bases@),
                    twiddle.lanes(),
                );
            }
            inverse_pair_packed(&mut bases, i + log_d, j, twiddle);
            j += 1;
        }
        proof {
            assert(exp2(r + s) == pairs * exp2(w + 1)) by (nonlinear_arith)
                requires
                    exp2(r + s) == (2 * pairs) * exp2(w),
                    exp2(w + 1) == 2 * exp2(w),
            ;
            lemma_partial_layer_end(a, layer, w + 1, j as int, scalars(bases@));
        }
        i += 1;
    }
    while i < log_n
        invariant
            cutoff <= i <= log_n,
            r == log_n,
            s == log_d,
            w == log_w,
            log_n < usize::BITS,
            log_w < usize::BITS,
            log_d < usize::BITS,
            cutoff == if w > s { w - s } else { 0 },
            w < r + s,
            coset_bits <= 32,
            coset < exp2(coset_bits as nat),
            log_n + coset_bits <= source.domain_bits(),
            PB::width_spec() == exp2(w),
            power_of_two(PB::width_spec() as int),
            log2(PB::width_spec() as int) == w,
            bases@.len() == exp2((r + s - w) as nat),
            exp2(r + s) == exp2((r + s - w) as nat) * exp2(w),
            flat.len() == exp2(r + s),
            scalars(bases@) == inverse_layers::<F, F>(r, s, coset as int, flat, i as nat),
        decreases log_n - i,
    {
        let ghost a = scalars(bases@);
        let ghost layer = inverse_layer::<F, F>(r, s, coset as int, a, i as nat);
        let part = source.coset_part(log_n, i, coset_bits, coset);
        let e: usize = i + log_d - log_w;
        let blocks: usize = 1 << (log_n - 1 - i);
        proof {
            lemma_shl_one((log_n - 1 - i) as usize);
            lemma_whole_blocks(r, s, i as nat);
            lemma_partial_layer_start(a, layer, i as nat + s + 1);
            assert(exp2((r + s - w) as nat) == exp2((r - 1 - i) as nat) * exp2(
                (e + 1) as nat,
            )) by {
                lemma_exp2_adds((r - 1 - i) as nat, (e + 1) as nat);
                assert((r - 1 - i) as nat + (e + 1) as nat == (r + s - w) as nat);
            }
            lemma_exp2((e + 1) as nat);
        }
        let mut j: usize = 0;
        while j < blocks
            invariant
                i < log_n < usize::BITS,
                r == log_n,
                s == log_d,
                w == log_w,
                e == i + s - w,
                j <= blocks,
                blocks == exp2((r - 1 - i) as nat),
                bases@.len() == blocks * exp2((e + 1) as nat),
                exp2((e + 1) as nat) > 0,
                a.len() == exp2(r + s),
                power_of_two(PB::width_spec() as int),
                log2(PB::width_spec() as int) == w,
                log_n <= source.domain_bits(),
                source.is_coset_part(log_n as nat, i as nat, coset as int, part),
                layer == inverse_layer::<F, F>(r, s, coset as int, a, i as nat),
                partial_layer(a, layer, i as nat + s + 1, j as int, scalars(bases@)),
            decreases blocks - j,
        {
            let twiddle = source.twiddle(log_n, i, Ghost(coset as int), part, j);
            proof {
                assert((j + 1) * exp2((e + 1) as nat) <= bases@.len()) by (nonlinear_arith)
                    requires
                        j + 1 <= blocks,
                        bases@.len() == blocks * exp2((e + 1) as nat),
                        exp2((e + 1) as nat) > 0,
                ;
                lemma_self_extension::<F>();
                lemma_inverse_block_step::<F, F>(
                    r,
                    s,
                    coset as int,
                    a,
                    i as nat,
                    j as int,
                    scalars(bases@),
                );
            }
            inverse_block_packed(&mut bases, e, j, twiddle);
            j += 1;
        }
        proof {
            lemma_partial_layer_end(a, layer, i as nat + s + 1, j as int, scalars(bases@));
        }
        i += 1;
    }
    cast_from_bases::<PB, PE>(bases.as_slice(), data);
    proof {
        lemma_packed_inverse::<F, PE::Scalar>(
            r,
            s,
            coset as int,
            scalars(before),
            scalars(data@),
        );
        lemma_inverse_layers::<F, PE::Scalar>(r, coset as int, scalars(before));
    }
    Ok(())
}

} // verus!
