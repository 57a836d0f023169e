//! Candidate-slot constraint system of the hash-to-point relation.
//!
//! One block proves one record's worth of rejection-sampling candidates: 612
//! sixteen-bit words `x`. Per word the rows prove the accept comparison
//! `x < 61,445`, the decomposition `x = 12,289 q + a` with `a < 12,289` and
//! `q <= 5`, the centering flag `a > 6,144`, and the running acceptance
//! counter, which chains across all slots of the block.
//!
//! Rows have the form `(A z) & (B z) = z`. Only products and free inputs are
//! wires; linear structure is carried into the row taps. A value that has to
//! vanish is forced by a self-referential row `(expr ^ w)(1) = w`, which holds
//! exactly when `expr = 0`.
//!
//! Each wire class occupies its own aligned plane of 1,024 slots, so
//! `wire = plane * 1,024 + slot`:
//!
//! ```text
//! plane 0         constant-one wire at slot 0
//! planes 1..17    x bits (free inputs)
//! planes 17..20   q bits (free inputs)
//! planes 20..36   accept-chain products;   36 accept flag
//! planes 37..40   3q-adder products;       40..56 borrow products
//! planes 56..70   centering products;      70 centering flag
//! planes 71..85   range products;          85..90 forced-zero rows
//! planes 90..100  counter products;        100 write gate
//! planes 101..111 counter-after bits
//! planes 112..120 the dense output region (free inputs)
//! ```
use vstd::prelude::*;

pub mod executor;
pub mod matrices;
pub mod packed;
pub mod relation;
pub mod setup;
pub mod witness;

verus! {

pub const K_LOG: usize = 17;

pub const K: usize = 131_072;

pub const K_SKIP: usize = 6;

/// Squeeze blocks of a record.
pub const SQUEEZE_BLOCKS: usize = 9;

/// Candidates per record block.
pub const SLOTS: usize = SQUEEZE_BLOCKS * 68;

/// log2 of the plane size.
pub const SLOT_VARS: usize = 10;

/// The padded slot domain.
pub const PLANE: usize = 1_024;

pub const COUNTER_BITS: usize = 10;

pub const Z_CONST_POS: usize = 0;

pub const X: usize = 1;

pub const Q: usize = 17;

pub const D: usize = 20;

pub const ACC: usize = 36;

pub const E: usize = 37;

pub const G: usize = 40;

pub const U_CHAIN: usize = 56;

pub const U: usize = 70;

pub const R_CHAIN: usize = 71;

pub const PIN_RANGE: usize = 85;

pub const PIN_A14: usize = 86;

pub const PIN_A15: usize = 87;

pub const PIN_B16: usize = 88;

pub const PIN_T4: usize = 89;

pub const H: usize = 90;

pub const GATE: usize = 100;

pub const CNT: usize = 101;

/// First plane of the dense output region.
pub const Z_BASE: usize = 112;

pub const Z_PLANES: usize = 8;

pub const PLANES: usize = Z_BASE + Z_PLANES;

pub const USEFUL_BITS: usize = PLANES * PLANE;

/// A word is accepted exactly when it is below `5 * 12,289`.
pub const ACCEPT_BOUND: u32 = 61_445;

/// `2^16 - 61,445`: the carry out of `x + 4,091` is the reject flag.
pub const ACCEPT_K: u32 = 4_091;

/// `2^14 - 12,289`: the carry out of `a + 4,095` violates `a < 12,289`.
pub const RANGE_K: u32 = 4_095;

/// `2^14 - 6,145`: the carry out of `a + 10,239` is the centering flag.
pub const CENTER_K: u32 = 10_239;

pub const FALCON_Q: u32 = 12_289;

} // verus!
