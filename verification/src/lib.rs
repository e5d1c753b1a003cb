//! Verified core of the TSO engine: episodic sequence memory, the conflict
//! graph's discrete bookkeeping, and the grid environments' rules.
pub mod episodic;
pub mod tso_core;
mod chance;
pub mod environment;
pub mod grid_world;
pub mod grid_cells;
pub mod fpi;
pub mod topology;
