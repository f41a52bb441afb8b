//! The errors of the transforms.
use vstd::prelude::*;

verus! {

/// Why a transform cannot be set up or applied.
#[derive(Clone, Copy, Debug, PartialEq, Eq, Structural)]
pub enum Error {
    /// The field has fewer than `exp2(log_domain_size)` elements.
    FieldTooSmall { log_domain_size: usize },
    /// The data and the coset together need a domain of `exp2(log_required_domain_size)` points.
    DomainTooSmall { log_required_domain_size: usize },
    /// The degree of the extension field is not a power of two.
    PowerOfTwoExtensionDegreeRequired,
    /// The number of packed elements is not a power of two.
    PowerOfTwoLengthRequired,
    /// The number of scalars in a packed element is not a power of two.
    PackingWidthMustDivideDimension,
}

} // verus!
