//! Topology and bookkeeping core of a particle-based soft-body simulator.
//!
//! Point masses ("nodes") are linked by breakable elastic bonds and grouped
//! into objects. This crate owns everything about a scene that is discrete:
//! the bond map, the per-node adjacency and collision-candidate lists derived
//! from it, the bucket grid that bounds the collision search, the flattening
//! of those lists for device upload, and the manager that keeps the derived
//! structures in step with the scene and restores a snapshot after a
//! numerical blow-up.
//!
//! The numeric state of a node (`S`) and the parameters of a potential (`P`)
//! are carried through untouched; the code that integrates them lives with
//! the caller.

pub mod adjacency;
pub mod bond_break;
pub mod build_scene;
pub mod collisions;
pub mod gpu;
pub mod grid;
pub mod manager;
pub mod node;
pub mod parallel;
pub mod scene;
pub mod temperature;
