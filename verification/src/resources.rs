//! The one record the two per-frame components share.

use vstd::prelude::*;
use crate::components::WindowHandle;

verus! {

/// The window currently being moved by the pointer, or none.
///
/// A single instance lives for the whole process.  It starts out as none,
/// is mutated only by the focus tracker, and is read by the drag
/// translator; at most one window is dragged at any time.
#[derive(Clone, Copy, Debug)]
pub struct DraggedWindow {
    pub window: Option<WindowHandle>,
}

} // verus!
