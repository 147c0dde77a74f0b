//! Online log-template mining with a fixed-depth token prefix tree.
//!
//! Lines are split into tokens, routed through a per-length prefix tree and
//! absorbed by the most similar template at the leaf they reach, or recorded
//! as a new template when none is similar enough.

pub mod cluster;
pub mod laws;
pub mod leaf;
pub mod node;
pub mod options;
pub mod preprocess;
pub mod render;
pub mod similarity;
pub mod token;
pub mod tree;

pub use cluster::{ClusterV, LogCluster};
pub use leaf::{GroupAndSimilarity, Leaf};
pub use node::{Child, Inner, Limits, Node, NodeV};
pub use similarity::{GroupSimilarity, Ratio};
pub use token::{Token, TokenV};
pub use tree::{ConfigError, DrainTree, TreeV};
