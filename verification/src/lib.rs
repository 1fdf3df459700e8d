//! Quadtree-based simulation of two-state cellular automata.
//!
//! The core is a Hashlife engine (`hashlife`): an arbitrarily large,
//! sparse universe held as a quadtree whose nodes live in a canonical,
//! structurally shared table, with a memoized evolution step that
//! advances a region by a quarter of its side length per call.  Beside
//! it stand a dense bounded grid running the same rule (`grid`), the
//! rule evaluator both engines share (`rule`), and a small
//! least-recently-used cache (`lru`).

pub mod grid;
pub mod hashlife;
pub mod lru;
pub mod rule;
