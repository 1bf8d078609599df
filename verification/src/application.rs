//! Window-shell configuration at the application boundary.
//!
//! The event loop, window and input plumbing are external collaborators;
//! only the plain settings record they are started from lives here.

use vstd::prelude::*;

verus! {

/// Settings the application shell is started with.
pub struct ApplicationInfo {
    pub window_title: String,
    pub window_size: [u32; 2],
    pub resizeable: bool,
    pub exit_on_escape: bool,
}

impl Default for ApplicationInfo {
    /// A fixed-size, non-resizable window with the stock title.
    fn default() -> (r: Self)
        ensures
            r.window_title@ == "Vulkan application"@,
            r.window_size@ == seq![800u32, 600u32],
            !r.resizeable,
            !r.exit_on_escape,
    {
        Self {
            window_title: String::from_str("Vulkan application"),
            window_size: [800, 600],
            resizeable: false,
            exit_on_escape: false,
        }
    }
}

} // verus!
