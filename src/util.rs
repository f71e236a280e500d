use vstd::prelude::*;

pub mod galois_field_2m;

verus! {

/// Arithmetic capabilities shared by every finite field the codec can run over.
pub trait GaloisField: Sized + Copy + core::ops::Add<Output = Self> + core::ops::Mul<Output = Self> + core::ops::Div<Output = Self> {
    /// The field is well defined: its reduction polynomial is nonzero.
    spec fn field_defined() -> bool;

    /// Number of elements of the field, as a mathematical value.
    spec fn spec_size() -> nat;

    /// Number of elements of the field.
    fn size() -> (r: u16)
        requires
            Self::field_defined(),
        ensures
            r as nat == Self::spec_size(),
    ;

    /// The additive identity.
    fn zero() -> Self;

    /// The multiplicative identity.
    fn one() -> Self;

    /// The element that generates the multiplicative group.
    fn primitive_element() -> Self;
}

} // verus!
