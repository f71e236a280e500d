pub use crate::util::galois_field_2m::GaloisField2m;
