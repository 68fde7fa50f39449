//! A small hierarchical scene-graph engine core, verified with Verus.
//!
//! The library models 3D transforms with fixed-point arithmetic (Q47.16 in an
//! `i64`): matrix construction and composition, a perspective camera with a
//! depth-only visibility test, and a scene tree with cached local/world
//! matrices and dirty-flag propagation. Window handling and GPU submission are
//! deliberately outside the library; the draw traversal produces a list of
//! draw steps that a renderer executes.

pub mod camera;
pub mod fixed;
pub mod matrix;
pub mod scene;
pub mod shader;
