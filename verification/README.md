# additive_ntt

The additive number-theoretic transform over binary fields, written and proved in Verus.

The forward transform takes the coefficients of a polynomial in the novel basis, which is made of
products of subspace polynomials, to its values on a coset of an additive subgroup. The inverse
transform takes the values back to the coefficients. This holds for fields with a Cantor basis, as
the fields here have; on any basis the two transforms undo each other. Both work in place, on field elements and on
packed field elements, over the field of the domain or over an extension of it.

- `additive_ntt`, `additive_ntt_with_precompute`: the transforms, with twiddle factors derived on
  the fly or looked up.
- `generic_transform`: the loops that both kinds share, over a source of twiddle factors.
- `transform`, `packed_transform`: what the transforms compute, and when they fail.
- `laws`, `cantor`: how the transforms relate to each other, and to the evaluation of polynomials.
- `novel_basis`, `twiddles`, `layers`, `butterfly`: subspace polynomials, tables of their values,
  and the layers of butterflies that make up a transform.
- `packed`, `packed_butterfly`, `packed_layers`: the same on packed elements.
- `field`, `tower`, `binary_field`, `packed_binary_field`: the field traits, and the fields with
  elements of 8 and 32 bits.
- `index`: powers of two and the bits of positions.
- `error`: the errors.
