//! Entity hierarchy and kinematic pose bookkeeping for robots modelled as
//! trees of links, frames and joints.

pub mod carbon_components;
pub mod carbon_hierarchy;
pub mod component;
pub mod entity;
pub mod joints;
pub mod links;
pub mod sequences;
pub mod small_vec;
