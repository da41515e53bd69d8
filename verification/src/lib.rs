//! Node-graph engine: graph storage, deferred effects, tree layout,
//! wire geometry and interaction state.
//!
//! All coordinates are whole layout units.

pub mod color;
pub mod effect;
pub mod geometry;
pub mod graph;
pub mod interaction;
pub mod layout;
pub mod seq_facts;
pub mod state;
pub mod store;
pub mod style;
pub mod ui;
pub mod wire;

pub use crate::graph::wire_pins;
pub use crate::graph::InPin;
pub use crate::graph::InPinId;
pub use crate::graph::Node;
pub use crate::graph::NodeId;
pub use crate::graph::OutPin;
pub use crate::graph::OutPinId;
pub use crate::graph::Wire;
pub use crate::store::Treeize;
