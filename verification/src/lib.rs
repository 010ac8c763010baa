//! A branching content-versioning engine for hierarchical narrative material.
//!
//! Content lives in folders, cards, blocks and lines. Every structural edit is
//! recorded as a change at one branch point of a tree of nodes, and the content
//! of a node is reconstructed on demand by replaying the changes along the path
//! from the root to that node.

pub mod chain;
pub mod changes;
pub mod content;
pub mod diff;
pub mod digest;
pub mod forest;
pub mod frame;
pub mod json;
pub mod laws;
pub mod lines;
pub mod logger;
pub mod node;
pub mod order;
pub mod project;
pub mod replay;
pub mod resave;
pub mod roundtrip;
pub mod save;
pub mod serial;
pub mod store;
pub mod text;
pub mod types;
