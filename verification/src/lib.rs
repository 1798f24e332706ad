//! A small software rasteriser: integer screen positions, Bresenham lines
//! and triangle outlines on a pixel buffer, and a Wavefront OBJ mesh reader.
pub mod batteries;
pub mod grid_position;
pub mod image;
pub mod line;
pub mod line_laws;
pub mod numbers;
pub mod obj;
pub mod obj_laws;
pub mod text;
pub mod tga;
