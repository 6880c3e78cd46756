pub mod tree_decomposition;

pub use tree_decomposition::TreeDecomposition;
