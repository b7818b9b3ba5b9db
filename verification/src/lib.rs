//! Verified core of a logic-circuit editor: three-valued logic levels,
//! component kinds, wires on an integer grid, the node network with its
//! propagation of logic levels, and the undo/redo history.

pub mod logic;
pub mod geometry;
pub mod arena;
pub mod nodes;
pub mod wires;
pub mod component;
pub mod history;
pub mod canvas;
