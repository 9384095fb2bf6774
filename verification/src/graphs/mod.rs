pub mod search;
pub mod structs;
pub mod traits;
pub mod grid;
pub mod trees;
