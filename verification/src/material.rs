//! Material interface boundary.
//!
//! The store itself never inspects materials; the material subsystem
//! attaches its own component types through the same store API as every
//! other collaborator. Only the capability interface lives here.

use vstd::prelude::*;

verus! {

/// The shading models a material can select.
#[derive(Debug, Clone, Copy, PartialEq, Eq, Structural)]
pub enum MaterialType {
    Simple,
    BlinnPhong,
    GLTF2,
}

/// Capability interface that concrete materials implement for the engine:
/// a shading-model tag and the raw bytes handed to the shader.
pub trait Material {
    fn material_type(&self) -> MaterialType;

    fn shader_data(&self) -> Vec<u8>;
}

} // verus!
