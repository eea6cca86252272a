//! Arithmetic in the Goldilocks prime field, on single elements and on
//! batches of sixteen lanes, with every operation proved against its
//! mathematical meaning.

pub mod reduce;
pub mod generator;
pub mod field;
pub mod mixedgl;
pub mod traits;
pub mod poseidon2;
pub mod fft;
pub mod evaluation;
