pub mod grid;
pub mod laws;
pub mod solver;
pub mod spiral;
pub mod spiral_props;
pub mod tiles;
