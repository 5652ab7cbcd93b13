//! What describes a robot in space: poses, and the index that resolves them.

pub mod description;
pub mod pose_tree;
