//! Directional focus traversal over a tree of focusable elements: one
//! "move focus" request, forwards or backwards, is routed to the one leaf
//! that should take the focus next.
use vstd::prelude::*;

pub mod laws;
pub mod model;
pub mod node;

pub use model::{Direction, Enabled, State, Tree};
pub use node::{Focus, Group, Leaf, Node};

verus! {
} // verus!
