//! Exact computational geometry on polygons with integer coordinates:
//! orientation predicates, segment intersection, polygon construction and
//! validation, ear-clipping triangulation and convex hull algorithms.

pub mod bounding_box;
pub mod vertex;
pub mod line_segment;
pub mod triangle;
pub mod area;
pub mod geometry;
pub mod polygon;
pub mod sorting;
pub mod triangulation;
pub mod angle;
pub mod convex_hull;
pub mod angular_hull;
pub mod extreme_points;
pub mod simplicity;
pub mod dc_split;
pub mod data_structure;
pub mod alg_step;
