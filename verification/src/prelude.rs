//! What most users of the library need.

pub use crate::rules::FlattenOps;
pub use crate::transformer::TransformerBuilder;
