//! Arithmetic in the degree-four extension of the Mersenne-31 prime field,
//! built as a tower of two binomial extensions: the "complex" layer
//! `F_p[i]/(i^2 + 1)` and above it `CM31[u]/(u^2 - (2 + i))`.

pub mod error;
pub mod m31;
pub mod cm31;
pub mod qm31;
pub mod laws;
