//! A verified core for a small floating-window manager.
//!
//! The library keeps a set of on-screen panels in a strict front-to-back
//! stacking order and lets the user drag a panel by its header.  Two
//! components run once per input frame, in this order:
//!
//! 1. the focus tracker ([`start_drag_window`]) decides which window, if
//!    any, is being dragged, and on a drag start renumbers every window's
//!    stacking rank so that the focused window comes frontmost while all
//!    other windows keep their relative order;
//! 2. the drag translator ([`drag_window`]) applies the pointer's
//!    frame-to-frame displacement to the dragged window's position.
//!
//! The host UI layer owns window creation, layout and rendering; it hands
//! the core plain values (window records, header interactions, pointer
//! positions) and writes the updated ranks and positions back to the scene.
//!
//! [`start_drag_window`]: start_drag_window::start_drag_window
//! [`drag_window`]: drag_window::drag_window

pub mod components;
pub mod drag_window;
pub mod resources;
pub mod start_drag_window;
