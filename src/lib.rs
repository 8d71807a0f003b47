//! A small feedforward neural network whose weights evolve by breeding and
//! mutation. The network is generic over its weight type: the numeric work of
//! a node and the drawing of fresh weights are handed in by the caller, while
//! the layout of the network, its construction, the layer-by-layer evaluation
//! and the genetic operators are verified here.

pub mod chance;
pub mod laws;
pub mod network;

pub use chance::{Chance, ChanceError};
pub use network::{CreationError, Layer, Network, Node, RunError};
