//! The additive NTT.
use crate::domain_laws::{law_forward_success, law_inverse_success};
use crate::error::Error;
use crate::field::{lemma_zero_plus, BinaryField, ExtensionField};
use crate::generic_transform::{forward, forward_packed, inverse, inverse_packed, TwiddleSource};
use crate::index::{
    bit, exp2, law_powers_of_two, lemma_decompose, lemma_exp2, lemma_exp2_adds, lemma_lower_bits,
    lemma_shl_one, log2, power_of_two,
};
use crate::layers::block_twiddle;
use crate::novel_basis::{basis_sum, lemma_basis_sum_concat, subspace_poly};
use crate::packed::{PackedExtensionField, PackedField};
use crate::packed_layers::{fill_block, is_pair_twiddle, pair_block};
use crate::packed_transform::{packed_forward_outcome, packed_inverse_outcome, packed_len_supported};
use crate::transform::{forward_outcome, inverse_outcome};
use crate::twiddles::{
    is_subspace_row, is_subspace_table, lemma_subset_sum_is_basis_sum, subset_sum, subspace_table,
};
use vstd::arithmetic::div_mod::lemma_fundamental_div_mod_converse;
use vstd::arithmetic::power2::pow2;
use vstd::prelude::*;

verus! {

/// The additive NTT.
///
/// This implementation keeps a small amount of precomputed constants from which the twiddle
/// factors are derived on the fly: `k * (k - 1) / 2` field elements for a domain of `exp2(k)`
/// points.
#[derive(Debug)]
pub struct AdditiveNTT<F: BinaryField> {
    log_domain_size: usize,
    s_evals: Vec<Vec<F>>,
}

/// How the twiddle factors of pair `j` are put together from the parts that the bits of its number,
/// the bit that tells its two elements apart and the bits of the subblock contribute.
proof fn lemma_pair_twiddle_sum<F: BinaryField>(i: nat, cutoff: nat, j: int, k: int, c: F)
    requires
        i < cutoff,
        0 <= j,
        0 <= k < exp2((cutoff - i - 1) as nat),
    ensures
        ({
            let half = exp2((cutoff - i - 1) as nat);
            let block = basis_sum::<F>(i, cutoff + 1, j);
            let subblock = basis_sum::<F>(i, i + 1, k);
            let eval = subspace_poly(i, F::basis_vector(cutoff));
            &&& block.plus(c).plus(subblock) == basis_sum::<F>(
                i,
                i + 1,
                (2 * j + 0) * half + k,
            ).plus(c)
            &&& block.plus(c).plus(subblock.plus(eval)) == basis_sum::<F>(
                i,
                i + 1,
                (2 * j + 1) * half + k,
            ).plus(c)
        }),
{
    let a = (cutoff - i - 1) as nat;
    let block = basis_sum::<F>(i, cutoff + 1, j);
    let subblock = basis_sum::<F>(i, i + 1, k);
    let eval = subspace_poly(i, F::basis_vector(cutoff));
    assert(i + 1 + a == cutoff);
    lemma_basis_sum_concat::<F>(i, i + 1, a, 2 * j, k);
    lemma_basis_sum_concat::<F>(i, i + 1, a, 2 * j + 1, k);
    lemma_exp2(0);
    assert(exp2(1) == 2) by {
        assert(exp2(0 + 1) == 2 * exp2(0));
    }
    lemma_basis_sum_concat::<F>(i, cutoff, 1, j, 0);
    lemma_basis_sum_concat::<F>(i, cutoff, 1, j, 1);
    assert(basis_sum::<F>(i, cutoff, 0) == F::zero_spec());
    assert(basis_sum::<F>(i, cutoff, 1) == eval) by {
        assert(basis_sum::<F>(i, cutoff + 1, 0) == F::zero_spec());
        F::plus_zero(eval);
    }
    lemma_zero_plus(block);
    // (block + c) + subblock == (subblock + block) + c
    F::plus_commutes(block.plus(c), subblock);
    F::plus_associates(subblock, block, c);
    // (block + c) + (subblock + eval) == (subblock + (eval + block)) + c
    let x = subblock.plus(eval);
    F::plus_commutes(block.plus(c), x);
    F::plus_associates(x, block, c);
    F::plus_associates(subblock, eval, block);
}

/// The coset adds its part to all twiddle factors of pair `j`.
proof fn lemma_pair_twiddle_coset<F: BinaryField>(
    r: nat,
    s: nat,
    coset: int,
    i: nat,
    w: nat,
    j: int,
    twiddle: Seq<F>,
)
    requires
        0 <= coset,
        i < r,
        i + s < w < r + s,
        0 <= j < exp2((r + s - w - 1) as nat),
        twiddle.len() == exp2(w),
        forall|c: int|
            0 <= c < exp2(w) ==> #[trigger] twiddle[c] == basis_sum::<F>(
                i,
                i + 1,
                pair_block(w, i + s, j, c),
            ).plus(basis_sum::<F>(i, r, coset)),
    ensures
        is_pair_twiddle(r, s, coset, i, w, j, twiddle),
{
    let e = i + s;
    let half = exp2((w - e - 1) as nat);
    let pairs = exp2((r + s - w - 1) as nat);
    let a = (r - 1 - i) as nat;
    lemma_exp2((w - e - 1) as nat);
    assert(exp2(a) == (2 * pairs) * half) by {
        lemma_exp2((r + s - w - 1) as nat);
        lemma_exp2_adds((r + s - w) as nat, (w - e - 1) as nat);
        assert((r + s - w) as nat + (w - e - 1) as nat == a);
        assert((r + s - w) as nat == (r + s - w - 1) as nat + 1);
    }
    assert forall|c: int| 0 <= c < exp2(w) implies #[trigger] twiddle[c] == block_twiddle::<F>(
        r,
        coset,
        i,
        pair_block(w, e, j, c),
    ) by {
        lemma_lower_bits(c, w, e);
        lemma_exp2(w);
        assert(c / exp2(w) == 0) by {
            lemma_fundamental_div_mod_converse(c, exp2(w), 0, c);
        }
        let b = if bit(c, e) { 1int } else { 0int };
        let k = c / exp2(e + 1);
        let x = (2 * j + b) * half + k;
        assert(0 <= x < (2 * pairs) * half) by (nonlinear_arith)
            requires
                x == (2 * j + b) * half + k,
                0 <= k < half,
                0 <= j < pairs,
                0 <= b <= 1,
        ;
        lemma_basis_sum_concat::<F>(i, i + 1, a, coset, x);
        assert(i + 1 + a == r);
    }
}

impl<F: BinaryField> AdditiveNTT<F> {
    /// The logarithm of the number of points in the domain.
    pub closed spec fn log_domain_size(&self) -> nat {
        self.log_domain_size as nat
    }

    /// The precomputed constants.
    pub closed spec fn constants(&self) -> Seq<Vec<F>> {
        self.s_evals@
    }

    #[verifier::type_invariant]
    spec fn well_formed(&self) -> bool {
        &&& self.log_domain_size <= F::n_bits_spec()
        &&& is_subspace_table(self.log_domain_size as nat, self.s_evals@)
    }

    /// Sets up the transforms on a domain of `exp2(log_domain_size)` points.
    pub fn new(log_domain_size: usize) -> (result: Result<Self, Error>)
        ensures
            F::n_bits_spec() < log_domain_size ==> result == Err::<Self, Error>(
                Error::FieldTooSmall { log_domain_size },
            ),
            F::n_bits_spec() >= log_domain_size ==> (result matches Ok(ntt)
                && ntt.log_domain_size() == log_domain_size
                && is_subspace_table(log_domain_size as nat, ntt.constants())),
    {
        if F::n_bits() < log_domain_size {
            return Err(Error::FieldTooSmall { log_domain_size });
        }
        let s_evals = subspace_table(log_domain_size);
        Ok(AdditiveNTT { log_domain_size, s_evals })
    }

    /// The part of the twiddle factors of layer `i` that the index bits from
    /// `i + 1 + offset` on contribute.
    fn partial_twiddle(&self, i: usize, offset: usize, n_bits: usize, index: usize) -> (r: F)
        requires
            i + 1 + offset + n_bits <= self.log_domain_size(),
            index < exp2(n_bits as nat),
            n_bits <= usize::BITS,
        ensures
            r == basis_sum::<F>(i as nat, (i + 1 + offset) as nat, index as int),
    {
        proof {
            use_type_invariant(self);
        }
        let s_evals_i = &self.s_evals[i];
        proof {
            assert(is_subspace_row(self.log_domain_size as nat, i as nat, s_evals_i@));
        }
        let row = s_evals_i.as_slice();
        let values = &row[offset..row.len()];
        proof {
            assert forall|k: int| 0 <= k < n_bits implies #[trigger] values@[k]
                == subspace_poly(
                i as nat,
                F::basis_vector(((i + 1 + offset) as nat + k) as nat),
            ) by {
                assert(values@[k] == row@[offset + k]);
            }
            lemma_subset_sum_is_basis_sum(
                values@,
                i as nat,
                (i + 1 + offset) as nat,
                0,
                n_bits as nat,
                index as int,
            );
        }
        subset_sum(values, n_bits, index)
    }

    /// Turns novel basis coefficients into what [`forward_outcome`] says: values on a coset of the
    /// domain, if the basis of the field is a Cantor basis.
    pub fn forward_transform<E: ExtensionField<F>>(&self, data: &mut [E], coset: u32) -> (result:
        Result<(), Error>)
        requires
            power_of_two(old(data)@.len() as int),
        ensures
            self.log_domain_size() <= F::n_bits_spec(),
            forward_outcome::<F, E>(
                self.log_domain_size(),
                coset,
                old(data)@,
                final(data)@,
                result,
            ),
            result is Ok <==> (coset + 1) * old(data)@.len() <= pow2(self.log_domain_size()),
            final(data)@.len() == old(data)@.len(),
            result is Err ==> final(data)@ == old(data)@,
    {
        proof {
            use_type_invariant(self);
        }
        let ghost before = data@;
        let result = forward::<F, Self, E>(self, data, coset);
        proof {
            assert(before.len() == data.len());
            law_powers_of_two(before.len() as int);
            assert(before.len() == pow2(log2(before.len() as int)));
            law_forward_success::<F, E>(self.log_domain_size(), coset, before, data@, result);
        }
        result
    }

    /// Undoes the forward transform on the same coset: turns values on a coset of the domain into
    /// novel basis coefficients, if the basis of the field is a Cantor basis.
    pub fn inverse_transform<E: ExtensionField<F>>(&self, data: &mut [E], coset: u32) -> (result:
        Result<(), Error>)
        requires
            power_of_two(old(data)@.len() as int),
        ensures
            self.log_domain_size() <= F::n_bits_spec(),
            inverse_outcome::<F, E>(
                self.log_domain_size(),
                coset,
                old(data)@,
                final(data)@,
                result,
            ),
            result is Ok <==> (coset + 1) * old(data)@.len() <= pow2(self.log_domain_size()),
            final(data)@.len() == old(data)@.len(),
            result is Err ==> final(data)@ == old(data)@,
    {
        proof {
            use_type_invariant(self);
        }
        let ghost before = data@;
        let result = inverse::<F, Self, E>(self, data, coset);
        proof {
            assert(before.len() == data.len());
            law_powers_of_two(before.len() as int);
            assert(before.len() == pow2(log2(before.len() as int)));
            law_inverse_success::<F, E>(self.log_domain_size(), coset, before, data@, result);
        }
        result
    }

    /// Does to the scalars of packed elements what the forward transform does to field elements.
    pub fn forward_transform_packed<PB, PE>(&self, data: &mut [PE], coset: u32) -> (result: Result<
        (),
        Error,
    >) where
        PB: PackedField<Scalar = F>,
        PE: PackedExtensionField<PB>,
        PE::Scalar: ExtensionField<F>,

        requires
            packed_len_supported::<PB, PE>(self.log_domain_size(), old(data)@.len(), coset),
        ensures
            self.log_domain_size() <= F::n_bits_spec(),
            packed_forward_outcome::<PB, PE>(
                self.log_domain_size(),
                coset,
                old(data)@,
                final(data)@,
                result,
            ),
    {
        proof {
            use_type_invariant(self);
        }
        forward_packed::<F, Self, PB, PE>(self, data, coset)
    }

    /// Does to the scalars of packed elements what the inverse transform does to field elements.
    pub fn inverse_transform_packed<PB, PE>(&self, data: &mut [PE], coset: u32) -> (result: Result<
        (),
        Error,
    >) where
        PB: PackedField<Scalar = F>,
        PE: PackedExtensionField<PB>,
        PE::Scalar: ExtensionField<F>,

        requires
            packed_len_supported::<PB, PE>(self.log_domain_size(), old(data)@.len(), coset),
        ensures
            self.log_domain_size() <= F::n_bits_spec(),
            packed_inverse_outcome::<PB, PE>(
                self.log_domain_size(),
                coset,
                old(data)@,
                final(data)@,
                result,
            ),
    {
        proof {
            use_type_invariant(self);
        }
        inverse_packed::<F, Self, PB, PE>(self, data, coset)
    }
}

impl<F: BinaryField> TwiddleSource<F> for AdditiveNTT<F> {
    /// The sum over the bits of the coset.
    type CosetPart = F;

    open spec fn domain_bits(&self) -> nat {
        self.log_domain_size()
    }

    open spec fn is_coset_part(&self, log_n: nat, i: nat, coset: int, part: F) -> bool {
        part == basis_sum::<F>(i, log_n, coset)
    }

    fn log_size(&self) -> (r: usize) {
        self.log_domain_size
    }

    fn coset_part(&self, log_n: usize, i: usize, coset_bits: usize, coset: u32) -> (part: F) {
        self.partial_twiddle(i, log_n - 1 - i, coset_bits, coset as usize)
    }

    fn twiddle(&self, log_n: usize, i: usize, coset: Ghost<int>, part: F, j: usize) -> (r: F) {
        let block_twiddle = self.partial_twiddle(i, 0, log_n - 1 - i, j);
        proof {
            lemma_basis_sum_concat::<F>(
                i as nat,
                (i + 1) as nat,
                (log_n - 1 - i) as nat,
                coset@,
                j as int,
            );
        }
        block_twiddle.add(part)
    }

    fn pair_twiddle<PB: PackedField<Scalar = F>>(
        &self,
        log_n: usize,
        log_d: usize,
        cutoff: usize,
        i: usize,
        coset: Ghost<int>,
        part: F,
        j: usize,
    ) -> (twiddle: PB) {
        let ghost e = (i + log_d) as nat;
        let ghost w = (cutoff + log_d) as nat;
        let ghost half = exp2((w - e - 1) as nat);
        let block_twiddle = self.partial_twiddle(i, cutoff - i, log_n - 1 - cutoff, j);
        let twiddle_base = block_twiddle.add(part);
        let mut twiddle = PB::zeros();
        let subblocks: usize = 1 << (cutoff - i - 1);
        proof {
            use_type_invariant(self);
            assert(is_subspace_row(
                self.log_domain_size as nat,
                i as nat,
                self.s_evals@[i as int]@,
            ));
            assert(cutoff - i - 1 == w - e - 1);
            lemma_shl_one((cutoff - i - 1) as usize);
            assert(PB::width_spec() == half * exp2(e + 1)) by {
                lemma_exp2_adds((w - e - 1) as nat, e + 1);
                assert((w - e - 1) as nat + (e + 1) == w);
            }
            lemma_exp2(e);
            PB::lanes_len(twiddle);
            assert forall|c: int| #![trigger twiddle.lanes()[c]]
                0 <= c < PB::width_spec() implies 0 <= c / exp2(e + 1) by {
                lemma_decompose(e, c);
            }
        }
        let eval = self.s_evals[i][cutoff - i - 1];
        let mut k: usize = 0;
        while k < subblocks
            invariant
                i < cutoff < log_n <= self.log_domain_size(),
                log_n < usize::BITS,
                cutoff + log_d < usize::BITS,
                e == i + log_d,
                w == cutoff + log_d,
                half == exp2((w - e - 1) as nat),
                subblocks == half,
                PB::width_spec() == half * exp2(e + 1),
                exp2(e + 1) > 0,
                k <= subblocks,
                twiddle.lanes().len() == PB::width_spec(),
                eval == subspace_poly(i as nat, F::basis_vector(cutoff as nat)),
                block_twiddle == basis_sum::<F>(i as nat, (cutoff + 1) as nat, j as int),
                twiddle_base == block_twiddle.plus(part),
                forall|c: int|
                    0 <= c < PB::width_spec() && c / exp2(e + 1) < k
                        ==> #[trigger] twiddle.lanes()[c] == basis_sum::<F>(
                        i as nat,
                        (i + 1) as nat,
                        pair_block(w, e, j as int, c),
                    ).plus(part),
            decreases subblocks - k,
        {
            let subblock_twiddle_0 = self.partial_twiddle(i, 0, cutoff - i - 1, k);
            let subblock_twiddle_1 = subblock_twiddle_0.add(eval);
            let ghost prev = twiddle.lanes();
            proof {
                assert((k + 1) * exp2(e + 1) <= half * exp2(e + 1)) by (nonlinear_arith)
                    requires
                        k + 1 <= half,
                        exp2(e + 1) > 0,
                ;
                lemma_pair_twiddle_sum::<F>(
                    i as nat,
                    cutoff as nat,
                    j as int,
                    k as int,
                    part,
                );
            }
            fill_block(
                &mut twiddle,
                i + log_d,
                k,
                twiddle_base.add(subblock_twiddle_0),
                twiddle_base.add(subblock_twiddle_1),
            );
            proof {
                assert forall|c: int| 0 <= c < PB::width_spec() && c / exp2(e + 1) < k + 1 implies
                    #[trigger] twiddle.lanes()[c] == basis_sum::<F>(
                    i as nat,
                    (i + 1) as nat,
                    pair_block(w, e, j as int, c),
                ).plus(part) by {
                    if c / exp2(e + 1) < k {
                        assert(twiddle.lanes()[c] == prev[c]);
                    }
                }
            }
            k += 1;
        }
        proof {
            assert forall|c: int| 0 <= c < PB::width_spec() implies #[trigger] twiddle.lanes()[c]
                == basis_sum::<F>(
                i as nat,
                (i + 1) as nat,
                pair_block(w, e, j as int, c),
            ).plus(part) by {
                lemma_lower_bits(c, w, e);
                lemma_fundamental_div_mod_converse(c, exp2(w), 0, c);
            }
        }
        proof {
            lemma_pair_twiddle_coset::<F>(
                log_n as nat,
                log_d as nat,
                coset@,
                i as nat,
                w,
                j as int,
                twiddle.lanes(),
            );
        }
        twiddle
    }
}

} // verus!
