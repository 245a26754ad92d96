pub mod blob;
pub mod node;
pub mod tree;
