//! A quadtree over axis-aligned rectangles on the integer grid: values are
//! kept with the rectangle they occupy, and found again by the rectangles
//! that contain or meet them.

pub mod node;
pub mod rect;
pub mod tree;
