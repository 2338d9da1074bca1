//! The AVL ordered set and its nodes.

pub mod node;
pub mod set;
