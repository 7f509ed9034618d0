pub mod kdtree;
pub mod point;
