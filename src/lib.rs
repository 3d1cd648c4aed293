//! Path completion: a query such as `../src/ma` is split into the parent
//! steps it asks for and a fuzzy pattern; the candidates that a directory
//! walk finds are ranked against the pattern and given back with the
//! matching `../` prefix.

pub mod matcher;
pub mod pipeline;
pub mod query;
pub mod text;
pub mod walker;
