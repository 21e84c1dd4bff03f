//! A node graph of signed-distance-field operators and the generator that
//! turns it into a ray-marching fragment shader.
//!
//! The graph keeps, for every node, the ordered lists of the nodes that feed
//! it and of the nodes it feeds. Every operation on it is verified against a
//! contract over those lists.

pub mod color;
pub mod dependency;
pub mod graph;
pub mod interaction;
pub mod network;
pub mod operator;
pub mod shader_builder;
pub mod shader_string;
pub mod text;
pub mod traversal;
