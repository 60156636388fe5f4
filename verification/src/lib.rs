//! A verified crossword-layout generator.
//!
//! From a list of words and a settings snapshot, a generation episode
//! enumerates valid crossword arrangements by best-first search and emits
//! them lazily, in non-decreasing score order, under an admission-control
//! protocol (`All` / `Count(n)` / `Cancel`).
//!
//! The quality key that orders emission is the library's own fixed
//! ordinal — the number of distinct covered cells (`grid::score_of`) —
//! rather than a caller-supplied function: the best-first bound rests on
//! a proved admissibility property of the key that an arbitrary caller
//! closure could not be held to.
//!
//! - [`word`] holds the word model and the error taxonomy.
//! - [`grid`] holds placements, the derived grid, its invariants, and the
//!   dense renderings.
//! - [`engine`] holds the placement search, the streaming controller and
//!   the generation request protocol.
//! - [`codec`] holds the portable placement records and the verified
//!   serialization round trip.

pub mod codec;
pub mod engine;
pub mod grid;
pub mod word;
