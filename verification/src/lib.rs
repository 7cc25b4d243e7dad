//! Trace generation, interaction buses and constraint checks of a STARK
//! machine that proves Keccak sponge hashing, Merkle path verification,
//! byte-wise memory reads and xor, all over the BabyBear prime field.
//!
//! Field elements are held by their canonical representative (a `u32` below
//! [`field::P`]); traces are rows of such values. The random challenges of
//! the permutation argument, its traces and cumulative sums, and the values
//! opened at out-of-domain points lie in the quartic extension of the field
//! ([`ext`]), each element held by its four coefficients.

pub mod field;
pub mod ext;
pub mod util;
pub mod interaction;
pub mod permutation_air;
pub mod permutation;
pub mod bus_balance;
pub mod chip;
pub mod check_constraints;
pub mod memory;
pub mod xor;
pub mod range_checker;
pub mod keccak_permute;
pub mod merkle_tree;
pub mod keccak_sponge;
pub mod machine;
pub mod trace;
pub mod rounds;
pub mod schema;
