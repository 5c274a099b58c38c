//! Verified building blocks of a lifted STARK prover over the Goldilocks field.

pub mod barycentric;
pub mod coset;
pub mod felt;
pub mod folder;
pub mod frontier;
pub mod horner;
pub mod interpolate;
pub mod matrix;
pub mod merkle;
pub mod mmr;
pub mod packed_base;
pub mod packed_felt;
pub mod packed_quad;
pub mod poseidon2;
pub mod quad;
pub mod serialization;
pub mod simd;
pub mod text;
pub mod word;
