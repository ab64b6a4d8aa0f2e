//! The state of the user interface: one window that a menu entry opens and
//! closes, on a surface that follows the size of the screen.

use vstd::prelude::*;

verus! {

/// The state of the user interface.
pub struct Ui {
    /// Whether the window is shown.
    pub window_open: bool,
}

/// Whether a surface of `width` by `height` pixels has any pixel: a window
/// that is resized to nothing keeps the size it had.
pub open spec fn nonempty(width: u32, height: u32) -> bool {
    width > 0 && height > 0
}

/// Tells whether a surface of `width` by `height` pixels has any pixel.
pub fn has_area(width: u32, height: u32) -> (b: bool)
    ensures
        b == nonempty(width, height),
{
    width > 0 && height > 0
}

impl Ui {
    /// The user interface at the start: the window is shown.
    pub fn new() -> (ui: Ui)
        ensures
            ui.window_open,
    {
        Ui { window_open: true }
    }

    /// Shows the window if it is hidden, and hides it if it is shown: what
    /// a click on the menu entry does.
    pub fn toggle_window(&mut self)
        ensures
            final(self).window_open == !old(self).window_open,
    {
        self.window_open = !self.window_open;
    }
}

} // verus!
