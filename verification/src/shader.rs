//! Shader program handles.
//!
//! The library never talks to the GPU itself: a `GLShaderProgram` is an
//! opaque handle that the renderer created, carried on scene nodes and
//! echoed back in draw steps so the renderer knows which program to bind
//! and where to upload the `u_model` / `u_proj_view` uniform matrices.

use vstd::prelude::*;

verus! {

/// A handle to a compiled and linked GPU shader program.
#[derive(Clone, Copy, Debug, PartialEq, Eq, Structural)]
pub struct GLShaderProgram {
    /// The renderer's program object name.
    pub id: u32,
}

} // verus!
