//! Renderer interface boundary.
//!
//! The renderer consumes the store's typed columns read-only, once per
//! frame; it never mutates the store. Only the mode selector it is
//! configured with lives here.

use vstd::prelude::*;

verus! {

/// Which view of the scene the renderer draws.
#[derive(Debug, Clone, Copy, PartialEq, Eq, Structural)]
pub enum RenderMode {
    Default,
    NormalView,
    DepthView,
}

} // verus!
