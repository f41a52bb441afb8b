//! The additive NTT with a larger table of constants.
use crate::butterfly::lemma_block_positions;
use crate::domain_laws::{law_forward_success, law_inverse_success};
use crate::error::Error;
use crate::field::{BinaryField, ExtensionField};
use crate::generic_transform::{forward, forward_packed, inverse, inverse_packed, TwiddleSource};
use crate::index::{
    exp2, law_powers_of_two, lemma_decompose, lemma_exp2, lemma_exp2_adds, lemma_exp2_monotone,
    lemma_lower_bits, lemma_shl_one, lemma_shl_or, log2, power_of_two,
};
use crate::layers::block_twiddle;
use crate::packed::{PackedExtensionField, PackedField};
use crate::packed_layers::{fill_block, pair_block};
use crate::packed_transform::{packed_forward_outcome, packed_inverse_outcome, packed_len_supported};
use crate::transform::{forward_outcome, inverse_outcome};
use crate::twiddles::{expand_table, is_expanded_row, is_expanded_table, subspace_table};
use vstd::arithmetic::div_mod::lemma_fundamental_div_mod_converse;
use vstd::arithmetic::power2::pow2;
use vstd::prelude::*;

verus! {

/// The additive NTT with a larger table of precomputed constants.
///
/// This implementation precomputes all twiddle factors: `exp2(k) - 1` field elements for a domain
/// of `exp2(k)` points with `k` above zero.
#[derive(Debug)]
pub struct AdditiveNTTWithPrecompute<F: BinaryField> {
    log_domain_size: usize,
    s_evals_expanded: Vec<Vec<F>>,
}

impl<F: BinaryField> AdditiveNTTWithPrecompute<F> {
    /// The logarithm of the number of points in the domain.
    pub closed spec fn log_domain_size(&self) -> nat {
        self.log_domain_size as nat
    }

    /// The precomputed constants.
    pub closed spec fn constants(&self) -> Seq<Vec<F>> {
        self.s_evals_expanded@
    }

    #[verifier::type_invariant]
    spec fn well_formed(&self) -> bool {
        &&& self.log_domain_size <= F::n_bits_spec()
        &&& is_expanded_table(self.log_domain_size as nat, self.s_evals_expanded@)
    }

    /// Sets up the transforms on a domain of `exp2(log_domain_size)` points. The first row of the
    /// table, which has half as many entries, must fit in memory.
    pub fn new(log_domain_size: usize) -> (result: Result<Self, Error>)
        requires
            log_domain_size <= F::n_bits_spec() ==> log_domain_size <= usize::BITS,
        ensures
            F::n_bits_spec() < log_domain_size ==> result == Err::<Self, Error>(
                Error::FieldTooSmall { log_domain_size },
            ),
            F::n_bits_spec() >= log_domain_size ==> (result matches Ok(ntt)
                && ntt.log_domain_size() == log_domain_size
                && is_expanded_table(log_domain_size as nat, ntt.constants())),
    {
        if F::n_bits() < log_domain_size {
            return Err(Error::FieldTooSmall { log_domain_size });
        }
        let s_evals = subspace_table(log_domain_size);
        let s_evals_expanded = expand_table(log_domain_size, &s_evals);
        Ok(AdditiveNTTWithPrecompute { log_domain_size, s_evals_expanded })
    }

    /// Turns novel basis coefficients into what [`forward_outcome`] says: values on a coset of the
    /// domain, if the basis of the field is a Cantor basis.
    pub fn forward_transform<E: ExtensionField<F>>(&self, data: &mut [E], coset: u32) -> (result:
        Result<(), Error>)
        requires
            power_of_two(old(data)@.len() as int),
        ensures
            self.log_domain_size() <= F::n_bits_spec(),
            forward_outcome::<F, E>(
                self.log_domain_size(),
                coset,
                old(data)@,
                final(data)@,
                result,
            ),
            result is Ok <==> (coset + 1) * old(data)@.len() <= pow2(self.log_domain_size()),
            final(data)@.len() == old(data)@.len(),
            result is Err ==> final(data)@ == old(data)@,
    {
        proof {
            use_type_invariant(self);
        }
        let ghost before = data@;
        let result = forward::<F, Self, E>(self, data, coset);
        proof {
            assert(before.len() == data.len());
            law_powers_of_two(before.len() as int);
            assert(before.len() == pow2(log2(before.len() as int)));
            law_forward_success::<F, E>(self.log_domain_size(), coset, before, data@, result);
        }
        result
    }

    /// Undoes the forward transform on the same coset: turns values on a coset of the domain into
    /// novel basis coefficients, if the basis of the field is a Cantor basis.
    pub fn inverse_transform<E: ExtensionField<F>>(&self, data: &mut [E], coset: u32) -> (result:
        Result<(), Error>)
        requires
            power_of_two(old(data)@.len() as int),
        ensures
            self.log_domain_size() <= F::n_bits_spec(),
            inverse_outcome::<F, E>(
                self.log_domain_size(),
                coset,
                old(data)@,
                final(data)@,
                result,
            ),
            result is Ok <==> (coset + 1) * old(data)@.len() <= pow2(self.log_domain_size()),
            final(data)@.len() == old(data)@.len(),
            result is Err ==> final(data)@ == old(data)@,
    {
        proof {
            use_type_invariant(self);
        }
        let ghost before = data@;
        let result = inverse::<F, Self, E>(self, data, coset);
        proof {
            assert(before.len() == data.len());
            law_powers_of_two(before.len() as int);
            assert(before.len() == pow2(log2(before.len() as int)));
            law_inverse_success::<F, E>(self.log_domain_size(), coset, before, data@, result);
        }
        result
    }

    /// Does to the scalars of packed elements what the forward transform does to field elements.
    /// If there are no elements, nothing happens.
    pub fn forward_transform_packed<PB, PE>(&self, data: &mut [PE], coset: u32) -> (result: Result<
        (),
        Error,
    >) where
        PB: PackedField<Scalar = F>,
        PE: PackedExtensionField<PB>,
        PE::Scalar: ExtensionField<F>,

        requires
            old(data)@.len() > 0 ==> packed_len_supported::<PB, PE>(
                self.log_domain_size(),
                old(data)@.len(),
                coset,
            ),
        ensures
            self.log_domain_size() <= F::n_bits_spec(),
            old(data)@.len() == 0 ==> result == Ok::<(), Error>(()) && final(data)@ == old(data)@,
            old(data)@.len() > 0 ==> packed_forward_outcome::<PB, PE>(
                self.log_domain_size(),
                coset,
                old(data)@,
                final(data)@,
                result,
            ),
    {
        proof {
            use_type_invariant(self);
        }
        if data.is_empty() {
            return Ok(());
        }
        forward_packed::<F, Self, PB, PE>(self, data, coset)
    }

    /// Does to the scalars of packed elements what the inverse transform does to field elements.
    /// If there are no elements, nothing happens.
    pub fn inverse_transform_packed<PB, PE>(&self, data: &mut [PE], coset: u32) -> (result: Result<
        (),
        Error,
    >) where
        PB: PackedField<Scalar = F>,
        PE: PackedExtensionField<PB>,
        PE::Scalar: ExtensionField<F>,

        requires
            old(data)@.len() > 0 ==> packed_len_supported::<PB, PE>(
                self.log_domain_size(),
                old(data)@.len(),
                coset,
            ),
        ensures
            self.log_domain_size() <= F::n_bits_spec(),
            old(data)@.len() == 0 ==> result == Ok::<(), Error>(()) && final(data)@ == old(data)@,
            old(data)@.len() > 0 ==> packed_inverse_outcome::<PB, PE>(
                self.log_domain_size(),
                coset,
                old(data)@,
                final(data)@,
                result,
            ),
    {
        proof {
            use_type_invariant(self);
        }
        if data.is_empty() {
            return Ok(());
        }
        inverse_packed::<F, Self, PB, PE>(self, data, coset)
    }
}

impl<F: BinaryField> TwiddleSource<F> for AdditiveNTTWithPrecompute<F> {
    /// The index of the first twiddle factor of the coset.
    type CosetPart = usize;

    open spec fn domain_bits(&self) -> nat {
        self.log_domain_size()
    }

    closed spec fn is_coset_part(&self, log_n: nat, i: nat, coset: int, part: usize) -> bool {
        &&& part == coset * exp2((log_n - 1 - i) as nat)
        &&& part + exp2((log_n - 1 - i) as nat) <= self.s_evals_expanded@[i as int]@.len()
    }

    fn log_size(&self) -> (r: usize) {
        self.log_domain_size
    }

    fn coset_part(&self, log_n: usize, i: usize, coset_bits: usize, coset: u32) -> (part: usize) {
        proof {
            use_type_invariant(self);
            let row = self.s_evals_expanded[i as int];
            assert(is_expanded_row(self.log_domain_size as nat, i as nat, row@));
            assert(row@.len() == row.len());
            let a = (log_n - 1 - i) as nat;
            let d = (self.log_domain_size - 1 - i) as nat;
            lemma_exp2(a);
            lemma_exp2_adds(coset_bits as nat, a);
            lemma_exp2_monotone(coset_bits as nat + a, d);
            assert(0 <= coset * exp2(a) && coset * exp2(a) + exp2(a) <= exp2(d))
                by (nonlinear_arith)
                requires
                    coset + 1 <= exp2(coset_bits as nat),
                    exp2(coset_bits as nat) * exp2(a) <= exp2(d),
                    exp2(a) > 0,
            ;
            lemma_shl_or(coset as usize, (log_n - 1 - i) as usize, 0);
        }
        (coset as usize) << (log_n - 1 - i)
    }

    fn twiddle(&self, log_n: usize, i: usize, coset: Ghost<int>, part: usize, j: usize) -> (r: F) {
        proof {
            use_type_invariant(self);
            let row = self.s_evals_expanded[i as int];
            assert(is_expanded_row(self.log_domain_size as nat, i as nat, row@));
            assert(row@.len() == row.len());
            let a = (log_n - 1 - i) as nat;
            lemma_exp2(a);
            assert(coset@ <= coset@ * exp2(a)) by (nonlinear_arith)
                requires
                    0 <= coset@,
                    exp2(a) >= 1,
            ;
            lemma_shl_or(coset@ as usize, (log_n - 1 - i) as usize, j);
        }
        self.s_evals_expanded[i][part | j]
    }

    fn pair_twiddle<PB: PackedField<Scalar = F>>(
        &self,
        log_n: usize,
        log_d: usize,
        cutoff: usize,
        i: usize,
        coset: Ghost<int>,
        part: usize,
        j: usize,
    ) -> (twiddle: PB) {
        let ghost e = (i + log_d) as nat;
        let ghost w = (cutoff + log_d) as nat;
        let ghost half = exp2((w - e - 1) as nat);
        let mut twiddle = PB::zeros();
        let subblocks: usize = 1 << (cutoff - i - 1);
        let blocks: usize = 1 << (log_n - 1 - i);
        proof {
            assert(cutoff - i - 1 == w - e - 1);
            lemma_shl_one((cutoff - i - 1) as usize);
            lemma_shl_one((log_n - 1 - i) as usize);
            assert(PB::width_spec() == half * exp2(e + 1)) by {
                lemma_exp2_adds((w - e - 1) as nat, e + 1);
                assert((w - e - 1) as nat + (e + 1) == w);
            }
            lemma_exp2(e);
            lemma_exp2((w - e - 1) as nat);
            PB::lanes_len(twiddle);
            assert((j + 1) * exp2((cutoff - i) as nat) <= blocks) by {
                lemma_exp2_adds((log_n - 1 - cutoff) as nat, (cutoff - i) as nat);
                lemma_exp2((cutoff - i) as nat);
                assert((log_n - 1 - cutoff) as nat + (cutoff - i) as nat == (log_n - 1 - i) as nat);
                assert((j + 1) * exp2((cutoff - i) as nat) <= exp2((log_n - 1 - cutoff) as nat)
                    * exp2((cutoff - i) as nat)) by (nonlinear_arith)
                    requires
                        j + 1 <= exp2((log_n - 1 - cutoff) as nat),
                        exp2((cutoff - i) as nat) > 0,
                ;
            }
            assert forall|c: int| #![trigger twiddle.lanes()[c]]
                0 <= c < PB::width_spec() implies 0 <= c / exp2(e + 1) by {
                lemma_decompose(e, c);
            }
        }
        let mut k: usize = 0;
        while k < subblocks
            invariant
                i < cutoff < log_n,
                log_n < usize::BITS,
                log_n <= self.log_domain_size(),
                0 <= coset@,
                self.is_coset_part(log_n as nat, i as nat, coset@, part),
                cutoff + log_d < usize::BITS,
                e == i + log_d,
                w == cutoff + log_d,
                half == exp2((w - e - 1) as nat),
                subblocks == half,
                blocks == exp2((log_n - 1 - i) as nat),
                exp2((cutoff - i) as nat) == 2 * half,
                (j + 1) * exp2((cutoff - i) as nat) <= blocks,
                PB::width_spec() == half * exp2(e + 1),
                exp2(e + 1) > 0,
                k <= subblocks,
                twiddle.lanes().len() == PB::width_spec(),
                forall|c: int|
                    0 <= c < PB::width_spec() && c / exp2(e + 1) < k
                        ==> #[trigger] twiddle.lanes()[c] == block_twiddle::<F>(
                        log_n as nat,
                        coset@,
                        i as nat,
                        pair_block(w, e, j as int, c),
                    ),
            decreases subblocks - k,
        {
            let ghost prev = twiddle.lanes();
            proof {
                lemma_block_positions(blocks, (cutoff - i - 1) as usize, j, k);
                assert((k + 1) * exp2(e + 1) <= half * exp2(e + 1)) by (nonlinear_arith)
                    requires
                        k + 1 <= half,
                        exp2(e + 1) > 0,
                ;
                assert(j * (2 * half) + k == (2 * j + 0) * half + k) by (nonlinear_arith);
                assert(j * (2 * half) + half + k == (2 * j + 1) * half + k) by (nonlinear_arith);
            }
            let index0: usize = j << (cutoff - i) | k;
            let index1: usize = index0 | 1 << (cutoff - i - 1);
            let subblock_twiddle_0 = self.twiddle(log_n, i, coset, part, index0);
            let subblock_twiddle_1 = self.twiddle(log_n, i, coset, part, index1);
            fill_block(&mut twiddle, i + log_d, k, subblock_twiddle_0, subblock_twiddle_1);
            proof {
                assert forall|c: int| 0 <= c < PB::width_spec() && c / exp2(e + 1) < k + 1 implies
                    #[trigger] twiddle.lanes()[c] == block_twiddle::<F>(
                    log_n as nat,
                    coset@,
                    i as nat,
                    pair_block(w, e, j as int, c),
                ) by {
                    if c / exp2(e + 1) < k {
                        assert(twiddle.lanes()[c] == prev[c]);
                    }
                }
            }
            k += 1;
        }
        proof {
            assert forall|c: int| 0 <= c < PB::width_spec() implies #[trigger] twiddle.lanes()[c]
                == block_twiddle::<F>(
                log_n as nat,
                coset@,
                i as nat,
                pair_block(w, e, j as int, c),
            ) by {
                lemma_lower_bits(c, w, e);
                lemma_fundamental_div_mod_converse(c, exp2(w), 0, c);
            }
        }
        twiddle
    }
}

} // verus!
