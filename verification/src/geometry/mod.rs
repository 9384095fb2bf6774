pub mod obstacles;
pub mod polygon_map_generator;
pub mod traits;
pub mod vecs;
pub mod workspace;
