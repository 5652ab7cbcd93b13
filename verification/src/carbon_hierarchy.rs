//! Parent and child relations between entities, and the operations that keep
//! the two in step.

pub mod child_builder;
pub mod child_builder_commands;
pub mod child_builder_utilities;
pub mod children;
pub mod error;
pub mod hierarchy;
pub mod hierarchy_event;
pub mod laws;
pub mod model;
pub mod parent;
pub mod reachability;
pub mod world;
