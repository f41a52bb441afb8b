//! The additive NTT over binary fields.
//!
//! If the basis of the field is a Cantor basis, the forward transform turns the coefficients of a
//! polynomial in the novel basis into its values on a coset of an additive subgroup of a binary
//! field, and the inverse transform turns the values into the coefficients.
//! [`additive_ntt::AdditiveNTT`] derives its twiddle factors on the fly, and
//! [`additive_ntt_with_precompute::AdditiveNTTWithPrecompute`] looks them up in a table. What the
//! transforms compute is stated in [`transform`] and [`packed_transform`], and how they relate to
//! each other and to polynomial evaluation is stated in [`laws`] and [`cantor`]. When they succeed
//! is stated in [`domain_laws`], which relations fix their values in [`value_laws`], and what they
//! do to the entries of packed elements in [`packed_laws`].
pub mod additive_ntt;
pub mod additive_ntt_with_precompute;
pub mod binary_field;
pub mod butterfly;
pub mod cantor;
pub mod domain_laws;
pub mod error;
pub mod field;
mod generic_transform;
pub mod index;
pub mod laws;
pub mod layers;
pub mod novel_basis;
pub mod packed;
pub mod packed_binary_field;
pub mod packed_butterfly;
pub mod packed_laws;
pub mod packed_layers;
pub mod packed_transform;
pub mod tower;
pub mod transform;
pub mod twiddles;
pub mod value_laws;
