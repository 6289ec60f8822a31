//! Precomputation of perfect-hash ("magic") lookup tables for sliding
//! pieces on an 8x8 board.
//!
//! The crate computes, per board cell and piece family, the relevant
//! occupancy mask and attack sets, searches for a collision-free
//! multiplicative hash over all blocker configurations, and consolidates
//! the per-cell hash ranges into compact shared backing arrays.

pub mod bits;
pub mod geometry;
pub mod occupancy;
pub mod search;
pub mod consolidate;
pub mod record;
pub mod names;
pub mod holes;
