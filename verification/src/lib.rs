//! Wiring and execution ordering for a block-diagram simulator.
pub mod pool;
