//! Node shapes that show how the tree engine is used.

pub mod filetree;
pub mod linked_list;
