pub mod code;
pub mod galois_field_2m;
pub mod util;
