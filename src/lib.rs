//! Simulation and scoring of error rounds on a square error-correcting lattice.
//!
//! Errors are generated from a seed, accumulated into two parity grids, and
//! compared with a decoder's corrections: the score rewards a clean final
//! syndrome and, beyond it, residual errors that the sweep shows trivial.
pub mod lattice;
pub mod grid;
pub mod syndrome;
pub mod sweep;
pub mod model;
pub mod validate;
pub mod score;
pub mod generate;
pub mod snapshot;
pub mod text;

pub use generate::gen;
pub use model::{Input, Instance, Output};
pub use score::{calculate_score, judge};
pub use text::{parse_input, parse_output, MalformedInput};
pub use validate::{validate, ErrorKind, Channel, CorrectionError};
pub mod render;
