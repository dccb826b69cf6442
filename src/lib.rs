//! UTF-8 validation over fixed-width registers.
//!
//! `classify` judges each byte lane from the lane and the three bytes before
//! it, with nibble-indexed lookup tables; `engine` walks a buffer in 64-byte
//! chunks, carries the boundary context from register to register, pads the
//! last partial chunk and folds everything into one verdict; `equivalence`
//! proves that verdict equal to byte-by-byte UTF-8 decoding.
pub mod classify;
pub mod engine;
pub mod equivalence;
