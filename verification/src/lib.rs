//! Simulation kernel for a toroidal two-state cellular automaton following
//! the classic birth/survival rules: a cell survives with exactly two or
//! three live neighbors, and a dead cell is born with exactly three.
//!
//! The kernel offers two engines over the same contract: a sparse engine
//! ([`world::DullWorld`]) that tracks only live cells and the dead cells
//! adjacent to them, and a dense engine ([`dense::DenseWorld`]) that rescans
//! the full grid each generation and serves as a correctness oracle. Both
//! engines advance a generation to exactly the live set described by
//! [`rules::step_set`], so their results always agree.

pub mod dense;
pub mod grid;
pub mod index;
pub mod laws;
pub mod rules;
pub mod world;
