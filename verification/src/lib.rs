//! A doubly linked sequence with a movable edit cursor and two draining marks.
//!
//! Nodes live in an arena and are addressed by stable identifiers, so a link is
//! a plain index. The chain is bounded by two permanent guard nodes that never
//! carry a payload.

pub mod model;
pub mod node;
pub mod linked_list;
pub mod laws;
pub mod render;
