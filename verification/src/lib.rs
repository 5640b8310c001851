//! Mandala generation: the numeric and textual core of the generator.

mod bindings;
mod seqs;
pub mod ops;
mod options;
pub mod text;
pub mod util;

pub use options::Options;
