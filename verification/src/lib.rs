//! Scene-data layer for a small real-time 3D engine.
//!
//! The heart of the crate is the entity/component store in [`ecs`]: a
//! column-oriented table that attaches typed components to opaque entity
//! handles, with swap-compacted removal and cross-referenced index
//! bookkeeping between entities and their components. Every operation on
//! the store is verified to preserve the store's structural invariants.
//!
//! The surrounding engine pieces that the store serves (window shell,
//! materials, render modes, device-queue bookkeeping) appear here only at
//! their interface boundary: plain data types with no graphics-API state.

pub mod application;
pub mod ecs;
pub mod material;
pub mod renderer;
pub mod vulkan;
