pub mod arith;
pub mod convert;
pub mod errors;
pub mod format;
pub mod laws;
pub mod number;
pub mod operation_laws;
pub mod round;
