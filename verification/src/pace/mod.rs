pub mod parameters;
pub mod reader;
pub mod simplified;

pub use parameters::tree_decomposition::TreeDecomposition;
