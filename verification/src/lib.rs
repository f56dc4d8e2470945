//! Volumetric world core for a voxel renderer: a fixed 256x256x256 grid of
//! block identifiers, a packed four-channel light map per 16x16x16 storage
//! unit, an incremental flood-fill light solver with add/remove semantics,
//! and an exact grid ray walk for block picking.

pub mod catalog;
pub mod chunk;
pub mod light_map;
pub mod light_solver;
pub mod ray;
pub mod sun;
pub mod world;
