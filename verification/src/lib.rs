//! Erosion thickness on a medial skeleton.
//!
//! A skeleton is a 2-complex of vertices, edges and triangles, each vertex
//! carrying a radius. The library refines the complex into a burn graph,
//! splits the surroundings of every node into sectors, and lets a fire that
//! starts on the boundary burn inward. All lengths, radii and times are exact
//! integers counted in one fixed unit that the caller chooses.

pub mod error;
pub mod geometry;
pub mod sequences;
pub mod et_algorithm;
pub mod skeleton;
