pub mod key;
pub mod hash_list;
pub mod hash_tree;
pub mod hash_graph;

pub use crate::collections::key::HashKey;
pub use crate::collections::hash_list::HashList;
pub use crate::collections::hash_tree::HashTree;
pub use crate::collections::hash_graph::HashGraph;
