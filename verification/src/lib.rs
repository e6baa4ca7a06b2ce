pub mod blocks;
pub mod text;
pub mod geometry;
pub mod line;
pub mod world;
pub mod plan;
pub mod osm;
pub mod way;
pub mod bridges;
pub mod structures;
pub mod laws;
pub mod shape_laws;
