//! Structural core of a small image-classification toolkit: matrices, datasets,
//! label bookkeeping, seeded Fisher-Yates shuffling and the binary model file
//! formats.
//! The numeric element type is a parameter everywhere; the library itself never
//! computes on it, it only moves, indexes and encodes it.

pub mod codec;
pub mod tensor;
pub mod data;
pub mod features;
pub mod training;
pub mod models;
pub mod tabular;

