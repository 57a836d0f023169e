//! Verified building blocks of a hash-relation prover over the binary field
//! with 2^128 elements.
pub mod blake3;
pub mod bytes;
pub mod carry_gate;
pub mod claim_closure;
pub mod face_closure;
pub mod family_h;
pub mod field;
pub mod frobenius;
pub mod fs_chain;
pub mod hash_to_point_hybrid;
pub mod hash_to_point_link;
pub mod hash_to_point_record;
pub mod hash_to_point_scatter;
pub mod hash_to_point_slots;
pub mod hash_to_point_sponge;
pub mod keccak;
pub mod keccak_gkr;
pub mod lookup;
pub mod merkle_octopus;
pub mod merkle_r1cs;
pub mod mle;
pub mod packed_bits;
pub mod packed_mle;
pub mod polynomial;
pub mod prover;
pub mod r1cs;
pub mod sumcheck;
pub mod sums;
pub mod transcript;
pub mod vectors;
