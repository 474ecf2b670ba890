//! A radix-2 Cooley-Tukey fast Fourier transform over fixed-point complex
//! numbers, with a memoized table of roots of unity ("twiddle factors").
//!
//! Real samples and spectrum components are held as `i128` mantissas scaled
//! by `2^prec`, where `prec` is the caller-chosen number of fractional bits.

pub mod complex;
pub mod engine;
pub mod laws;
pub mod roots;

pub use complex::{CVal, Cplx};
pub use engine::{decimate, fft, FftError};
pub use roots::TwiddleCache;
