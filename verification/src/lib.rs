//! State-space engine for a chip-splashing game on small undirected graphs.
//!
//! A configuration assigns each vertex a digit in `[0, base)`; all digits are
//! packed into one 128-bit word.  A "splash" move perturbs a vertex's closed
//! neighborhood by +1 or -1, either clamped to the digit range or rejected
//! outright when a digit cannot move.  The engine computes, exhaustively, the
//! set of configurations reachable from the all-zero configuration under
//! clamping splashes (the valid set), labels the complement with a local
//! heuristic, and partitions the whole space into components of mutually
//! reachable configurations under strictly reversible splashes (bubbles).

pub mod analysis;
pub mod codec;
pub mod extmap;
pub mod graph6;
pub mod mode;
pub mod search;
pub mod state;
pub mod splash;
pub mod table;
