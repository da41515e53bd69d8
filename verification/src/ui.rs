//! The parts of the engine that a user interface is built from, under one
//! roof.

pub use crate::effect::Effect;
pub use crate::effect::Effects;
pub use crate::interaction::Event;
pub use crate::interaction::Modifiers;
pub use crate::state::AnyPin;
pub use crate::state::NewWires;
pub use crate::state::TreeizeState;
pub use crate::style::NodeLayout;
pub use crate::style::NodeLayoutKind;
pub use crate::wire::hit_wire;
