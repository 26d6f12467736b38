//! Strongly connected components of directed graphs.
//!
//! A graph is anything that implements [`Scc`]. [`scc`] finds its strongly
//! connected components with Tarjan's algorithm and returns them as
//! [`Components`], which answers questions about the components and the edges
//! between them.

pub mod adjacency;
pub mod components;
pub mod condensation;
pub mod dag;
pub mod depth;
pub mod graph;
pub mod order;
pub mod tarjan;

pub use crate::components::Components;
pub use crate::condensation::Condensation;
pub use crate::depth::depths;
pub use crate::graph::{Digraph, Scc};
pub use crate::tarjan::{scc, StronglyConnected};
