//! The sea-of-nodes graph that method bodies are turned into: nodes
//! float freely and are pinned by the block they belong to and by the
//! values they depend on.
pub mod graph;
pub mod nodes;
pub mod walk;
pub mod value_nodes;
pub mod program_generator;
pub mod options;
