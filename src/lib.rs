//! Shortest linear feedback shift register synthesis over GF(2)
//! (the Berlekamp–Massey algorithm), with the polynomial arithmetic it needs.

pub mod sum;
pub mod poly;
pub mod recurrence;
pub mod engine;
pub mod text;
pub mod cache;
pub mod lfsr;

pub use cache::Cacher;
pub use engine::{synthesize, BerlekampMassey, BmError};
pub use lfsr::LFSR16;
pub use poly::Polynomial;
