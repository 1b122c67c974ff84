//! Field arithmetic: the algebraic model, the Goldilocks field and its extension.

pub mod arch;
pub mod batch_util;
pub mod coset;
pub mod dft;
pub mod extension;
pub mod fermat;
pub mod fft;
pub mod goldilocks_field;
pub mod inverse;
pub mod inversion;
pub mod model;
pub mod packable;
pub mod packed;
pub mod packed_laws;
pub mod poly_laws;
pub mod polynomial;
pub mod prime;
pub mod roots;
pub mod types;
