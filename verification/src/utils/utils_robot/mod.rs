pub mod assembly;
pub mod description;
pub mod joint;
pub mod link;
pub mod link_tree;
pub mod traversal;
