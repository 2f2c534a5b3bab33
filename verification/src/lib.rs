//! Simulation core of a tile-based multiplayer world server.
//!
//! The library owns the in-memory world graph (clients, terrain chunks,
//! entities, structures, inventories) together with the mutation operations
//! that preserve its structural invariants, the wake-queue scheduler that
//! drives tick progression, and the deterministic chunked terrain generator.
//! Wire framing, persistence I/O and the credential database live outside the
//! library and talk to it through plain values.

use vstd::prelude::*;

pub mod types;
pub mod geom;
pub mod stable_id_map;
pub mod vec_map;
pub mod idset;
pub mod hooks;
pub mod timer;
pub mod msg;
pub mod rle16;
pub mod world;
pub mod engine;
pub mod terrain_gen;
pub mod auth;

verus! {

pub const CHUNK_BITS: u32 = 4;

pub const CHUNK_SIZE: i32 = 16;

pub const CHUNK_TOTAL: usize = 4096;

/// Wrapping 64-bit product, as a spec-level shorthand.
pub open spec fn wrapping_mul_u64(a: u64, b: u64) -> u64 {
    vstd::wrapping::u64_specs::wrapping_mul(a, b)
}

} // verus!
