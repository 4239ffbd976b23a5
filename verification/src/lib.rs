//! Streaming Unicode canonical recomposition with alignment tracking.
//!
//! The engine consumes an already-decomposed, canonically-ordered stream of
//! `(char, isize)` pairs — each character carrying the cumulative positional
//! offset ("alignment delta") it has relative to the original text — and
//! merges combining-mark sequences back into precomposed characters, per the
//! canonical composition relation supplied by an [`Oracle`].  Every element
//! the engine emits carries the delta a caller needs to map positions in the
//! normalized output back to positions in the original input.

mod buffer;
pub mod engine;
pub mod laws;
pub mod model;
pub mod oracle;

pub use engine::new_canonical;
pub use engine::new_compatible;
pub use engine::RecompositionsAlignment;
pub use oracle::Oracle;
